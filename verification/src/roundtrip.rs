//! Why a delta that the encoder writes gives the target back: what each
//! instruction adds to the sections is what the interpreter reads from them,
//! what a window's bytes are is what the parser finds in them, and so
//! through all windows of a delta.

use vstd::prelude::*;
use crate::cache::{lemma_written_resolves, CacheState, MODE_SAME};
use crate::checksum::{adler32, be32, lemma_be32_round_trip};
use crate::codetable::{
    implied_size,
    lemma_entry_of_opcode,
    mode_fits,
    table_entry,
    InstructionKind,
    TableEntry,
};
use crate::encoding::{
    address_bytes,
    agrees,
    binary_delta,
    choice_at,
    emit_add,
    emit_copy,
    emit_next,
    emit_rest,
    emit_run,
    is_match,
    job_at,
    lemma_choice_props,
    lemma_emit_next_moves,
    lemma_literal_end_bound,
    literal_end,
    opcode_bytes,
    put_addr,
    put_data,
    put_inst,
    repeats,
    section_bytes,
    window_bytes,
    window_header_bytes,
    windows_from,
    Choice,
    Emitter,
    WindowJob,
};
use crate::error::{Error, ErrorKind};
use crate::format::{
    extends,
    header_bytes,
    lemma_extends_index,
    parse_checksum,
    parse_section,
    parse_sections,
    parse_source,
    parse_target_len,
    parse_window,
    Frame,
    HeaderFlags,
    SourceSegment,
    Span,
    WindowContext,
    SOURCE_DICTIONARY,
};
use crate::interpreter::{
    apply_add,
    apply_copy,
    apply_run,
    byte_at,
    copied,
    execute,
    lemma_run_stable,
    read_address,
    read_size,
    run,
    sections_extend,
    step,
    Machine,
    Sections,
};
use crate::session::{
    advance,
    decode_all,
    lemma_advance_split,
    progress,
    sections_of,
    source_of,
    window_output,
    Phase,
    Progress,
    Session,
};
use crate::varint::{lemma_parse_varint_bytes, lemma_varint_len, varint_bytes, MAX_VARINT};

verus! {

/// Whether a length fits both the machine and the format's integers.
pub open spec fn fits(n: int) -> bool {
    0 <= n <= usize::MAX && n <= MAX_VARINT
}

/// Whether all three sections have lengths that fit.
pub open spec fn sections_fit(sec: Sections) -> bool {
    &&& sec.wf()
    &&& fits(sec.inst.len() as int)
    &&& fits(sec.addr.len() as int)
    &&& fits(sec.data.len() as int)
}

/// The interpreter's state once it has read all of `sec`.
pub open spec fn at_end(sec: Sections, out: Seq<u8>, cache: CacheState) -> Machine {
    Machine {
        ip: sec.inst.len() as int,
        ap: sec.addr.len() as int,
        dp: sec.data.len() as int,
        out,
        cache,
    }
}

/// Whether the sections written so far, carried out from the start of the
/// window with the cache as it was then, give the window's first `e.t`
/// bytes and the encoder's cache.
pub open spec fn decodes(job: WindowJob, cache0: CacheState, e: Emitter) -> bool {
    &&& cache0.wf()
    &&& sections_fit(e.sec)
    &&& e.sec.interleaved == job.interleaved
    &&& e.cache.wf()
    &&& 0 <= e.t <= job.win.len()
    &&& run(job.dict, job.win.len() as int, e.sec, Machine::start(cache0)) == Some(
        at_end(e.sec, job.win.take(e.t), e.cache),
    )
}

proof fn lemma_extends_self_plus(a: Seq<u8>, b: Seq<u8>)
    ensures
        extends(a + b, a),
{
    assert((a + b).subrange(0, a.len() as int) =~= a);
}

proof fn lemma_extends_trans(a: Seq<u8>, b: Seq<u8>, c: Seq<u8>)
    requires
        extends(a, b),
        extends(b, c),
    ensures
        extends(a, c),
{
    assert forall|i: int| 0 <= i < c.len() implies a.subrange(0, c.len() as int)[i] == c[i] by {
        lemma_extends_index(a, b, i);
        lemma_extends_index(b, c, i);
    }
    assert(a.subrange(0, c.len() as int) =~= c);
}

proof fn lemma_put_extends(sec: Sections, bytes: Seq<u8>)
    requires
        sec.interleaved ==> sec.addr == sec.inst && sec.data == sec.inst,
    ensures
        sections_extend(put_inst(sec, bytes), sec),
        sections_extend(put_addr(sec, bytes), sec),
        sections_extend(put_data(sec, bytes), sec),
        put_inst(sec, bytes).interleaved ==> put_inst(sec, bytes).addr == put_inst(sec, bytes).inst
            && put_inst(sec, bytes).data == put_inst(sec, bytes).inst,
        put_addr(sec, bytes).interleaved ==> put_addr(sec, bytes).addr == put_addr(sec, bytes).inst
            && put_addr(sec, bytes).data == put_addr(sec, bytes).inst,
        put_data(sec, bytes).interleaved ==> put_data(sec, bytes).addr == put_data(sec, bytes).inst
            && put_data(sec, bytes).data == put_data(sec, bytes).inst,
{
    lemma_extends_self_plus(sec.inst, bytes);
    lemma_extends_self_plus(sec.addr, bytes);
    lemma_extends_self_plus(sec.data, bytes);
    lemma_extends_self_plus(sec.inst, Seq::<u8>::empty());
    lemma_extends_self_plus(sec.addr, Seq::<u8>::empty());
    lemma_extends_self_plus(sec.data, Seq::<u8>::empty());
    assert(sec.inst + Seq::<u8>::empty() =~= sec.inst);
    assert(sec.addr + Seq::<u8>::empty() =~= sec.addr);
    assert(sec.data + Seq::<u8>::empty() =~= sec.data);
}

pub proof fn lemma_sections_extend_trans(a: Sections, b: Sections, c: Sections)
    requires
        sections_extend(a, b),
        sections_extend(b, c),
    ensures
        sections_extend(a, c),
{
    lemma_extends_trans(a.inst, b.inst, c.inst);
    lemma_extends_trans(a.addr, b.addr, c.addr);
    lemma_extends_trans(a.data, b.data, c.data);
}

/// The interpreter reads an opcode and its size as they were written.
proof fn lemma_opcode_read(
    old_sec: Sections,
    sec: Sections,
    kind: InstructionKind,
    size: nat,
    mode: u8,
    out: Seq<u8>,
    cache: CacheState,
)
    requires
        old_sec.interleaved ==> old_sec.addr == old_sec.inst && old_sec.data == old_sec.inst,
        sections_extend(sec, put_inst(old_sec, opcode_bytes(kind, size, mode))),
        sec.wf(),
        mode_fits(kind, mode),
        size <= MAX_VARINT,
    ensures
        old_sec.inst.len() < sec.inst.len(),
        table_entry(sec.inst[old_sec.inst.len() as int]) == Some(
            TableEntry { kind, size: implied_size(kind, size as int), mode },
        ),
        read_size(
            sec,
            at_end(old_sec, out, cache),
            TableEntry { kind, size: implied_size(kind, size as int), mode },
        ) == Some(
            (
                size as u64,
                at_end(old_sec, out, cache).past_inst(
                    sec,
                    (old_sec.inst.len() + opcode_bytes(kind, size, mode).len()) as int,
                ),
            ),
        ),
{
    let ob = opcode_bytes(kind, size, mode);
    let mid = put_inst(old_sec, ob);
    let ip = old_sec.inst.len() as int;
    assert(mid.inst == old_sec.inst + ob);
    lemma_entry_of_opcode(kind, size as int, mode);
    lemma_extends_index(sec.inst, mid.inst, ip);
    assert(mid.inst[ip] == ob[0]);
    if implied_size(kind, size as int) == 0 {
        let vb = varint_bytes(size);
        lemma_varint_len(size);
        assert(ob.len() == 1 + vb.len());
        assert(sec.inst.subrange(ip + 1, ip + 1 + vb.len()) =~= vb) by {
            assert forall|i: int| 0 <= i < vb.len() implies sec.inst.subrange(
                ip + 1,
                ip + 1 + vb.len(),
            )[i] == vb[i] by {
                lemma_extends_index(sec.inst, mid.inst, ip + 1 + i);
                assert(mid.inst[ip + 1 + i] == ob[1 + i]);
            }
        }
        lemma_parse_varint_bytes(sec.inst, ip + 1, size);
    }
}

/// What an ADD wrote, the interpreter carries out as that ADD.
proof fn lemma_add_step(job: WindowJob, e: Emitter, n: nat)
    requires
        job.wf(),
        e.sec.interleaved ==> e.sec.addr == e.sec.inst && e.sec.data == e.sec.inst,
        0 <= e.t,
        1 <= n,
        e.t + n <= job.win.len(),
        emit_add(e.sec, job.win, e.t, n).wf(),
    ensures
        step(
            job.dict,
            job.win.len() as int,
            emit_add(e.sec, job.win, e.t, n),
            at_end(e.sec, job.win.take(e.t), e.cache),
        ) == Some(at_end(emit_add(e.sec, job.win, e.t, n), job.win.take(e.t + n), e.cache)),
        sections_extend(emit_add(e.sec, job.win, e.t, n), e.sec),
{
    let kind = InstructionKind::Add;
    let ob = opcode_bytes(kind, n, 0);
    let bytes = job.win.subrange(e.t, e.t + n);
    let mid = put_inst(e.sec, ob);
    let sec = emit_add(e.sec, job.win, e.t, n);
    let out = job.win.take(e.t);
    let m = at_end(e.sec, out, e.cache);
    lemma_put_extends(e.sec, ob);
    lemma_put_extends(mid, bytes);
    lemma_sections_extend_trans(sec, mid, e.sec);
    lemma_opcode_read(e.sec, sec, kind, n, 0, out, e.cache);
    let entry = TableEntry { kind, size: implied_size(kind, n as int), mode: 0 };
    let m1 = m.past_inst(sec, (e.sec.inst.len() + ob.len()) as int);
    assert(read_size(sec, m, entry) == Some((n as u64, m1)));
    assert(sec.data.subrange(m1.dp, m1.dp + n) =~= bytes);
    assert(out + bytes =~= job.win.take(e.t + n));
    assert(apply_add(sec, m1, n as u64) == Some(at_end(sec, job.win.take(e.t + n), e.cache)));
}

/// What a RUN wrote, the interpreter carries out as that RUN.
proof fn lemma_run_step(job: WindowJob, e: Emitter, n: nat)
    requires
        job.wf(),
        e.sec.interleaved ==> e.sec.addr == e.sec.inst && e.sec.data == e.sec.inst,
        0 <= e.t,
        1 <= n,
        e.t + n <= job.win.len(),
        forall|i: int| 0 <= i < n ==> repeats(job.win, e.t, e.t, i),
        emit_run(e.sec, job.win, e.t, n).wf(),
    ensures
        step(
            job.dict,
            job.win.len() as int,
            emit_run(e.sec, job.win, e.t, n),
            at_end(e.sec, job.win.take(e.t), e.cache),
        ) == Some(at_end(emit_run(e.sec, job.win, e.t, n), job.win.take(e.t + n), e.cache)),
        sections_extend(emit_run(e.sec, job.win, e.t, n), e.sec),
{
    let kind = InstructionKind::Run;
    let ob = opcode_bytes(kind, n, 0);
    let bytes = seq![job.win[e.t]];
    let mid = put_inst(e.sec, ob);
    let sec = emit_run(e.sec, job.win, e.t, n);
    let out = job.win.take(e.t);
    let m = at_end(e.sec, out, e.cache);
    lemma_put_extends(e.sec, ob);
    lemma_put_extends(mid, bytes);
    lemma_sections_extend_trans(sec, mid, e.sec);
    lemma_opcode_read(e.sec, sec, kind, n, 0, out, e.cache);
    let entry = TableEntry { kind, size: 0, mode: 0 };
    let m1 = m.past_inst(sec, (e.sec.inst.len() + ob.len()) as int);
    assert(read_size(sec, m, entry) == Some((n as u64, m1)));
    assert(sec.data[m1.dp] == job.win[e.t]);
    let run_bytes = Seq::new(n, |i: int| sec.data[m1.dp]);
    assert(out + run_bytes =~= job.win.take(e.t + n)) by {
        assert forall|i: int| 0 <= i < e.t + n implies (out + run_bytes)[i] == job.win.take(e.t + n)[i] by {
            if i >= e.t {
                assert(repeats(job.win, e.t, e.t, i - e.t));
            }
        }
    }
    assert(apply_run(sec, m1, n as u64) == Some(at_end(sec, job.win.take(e.t + n), e.cache)));
}

/// Copying a match byte by byte gives the bytes that it matches.
proof fn lemma_copied_match(job: WindowJob, t: int, a: int, here: int, n: nat)
    requires
        0 <= t,
        here == job.dict.len() + t,
        0 <= a < here,
        t + n <= job.win.len(),
        forall|i: int| 0 <= i < n ==> agrees(job.space(), a, here, i),
    ensures
        copied(job.dict, job.win.take(t), a, n) == job.win.take(t + n),
    decreases n,
{
    if n == 0 {
        assert(job.win.take(t) =~= job.win.take(t + 0));
    } else {
        let out = job.win.take(t);
        let u = job.space();
        assert(agrees(u, a, here, 0));
        assert(byte_at(job.dict, out, a) == u[a]);
        assert(u[here] == job.win[t]);
        assert(out.push(byte_at(job.dict, out, a)) =~= job.win.take(t + 1));
        assert forall|i: int| 0 <= i < n - 1 implies #[trigger] agrees(u, a + 1, here + 1, i) by {
            assert(agrees(u, a, here, i + 1));
        }
        lemma_copied_match(job, t + 1, a + 1, here + 1, (n - 1) as nat);
    }
}

/// What a COPY wrote, the interpreter carries out as that COPY.
proof fn lemma_copy_step(job: WindowJob, e: Emitter, a: int, n: nat, here: int)
    requires
        job.wf(),
        here == job.dict.len() + e.t,
        e.sec.interleaved ==> e.sec.addr == e.sec.inst && e.sec.data == e.sec.inst,
        e.cache.wf(),
        0 <= e.t,
        1 <= n,
        e.t + n <= job.win.len(),
        0 <= a < here,
        forall|i: int| 0 <= i < n ==> agrees(job.space(), a, here, i),
        emit_copy(e.sec, e.cache, a as u64, n, here).wf(),
    ensures
        step(
            job.dict,
            job.win.len() as int,
            emit_copy(e.sec, e.cache, a as u64, n, here),
            at_end(e.sec, job.win.take(e.t), e.cache),
        ) == Some(
            at_end(
                emit_copy(e.sec, e.cache, a as u64, n, here),
                job.win.take(e.t + n),
                e.cache.update(a as u64),
            ),
        ),
        sections_extend(emit_copy(e.sec, e.cache, a as u64, n, here), e.sec),
{
    let kind = InstructionKind::Copy;
    let w = e.cache.written(a as u64, here);
    lemma_written_resolves(e.cache, a as u64, here);
    let ob = opcode_bytes(kind, n, w.0);
    let bytes = address_bytes(w.0, w.1);
    let mid = put_inst(e.sec, ob);
    let sec = emit_copy(e.sec, e.cache, a as u64, n, here);
    let out = job.win.take(e.t);
    let m = at_end(e.sec, out, e.cache);
    lemma_put_extends(e.sec, ob);
    lemma_put_extends(mid, bytes);
    lemma_sections_extend_trans(sec, mid, e.sec);
    lemma_opcode_read(e.sec, sec, kind, n, w.0, out, e.cache);
    let entry = TableEntry { kind, size: implied_size(kind, n as int), mode: w.0 };
    let m1 = m.past_inst(sec, (e.sec.inst.len() + ob.len()) as int);
    assert(read_size(sec, m, entry) == Some((n as u64, m1)));
    assert(sec.addr.subrange(m1.ap, m1.ap + bytes.len()) =~= bytes);
    if w.0 >= MODE_SAME {
        assert(sec.addr[m1.ap] == bytes[0]);
    } else {
        assert(w.1 <= MAX_VARINT);
        lemma_varint_len(w.1 as nat);
        lemma_parse_varint_bytes(sec.addr, m1.ap, w.1 as nat);
    }
    assert(read_address(sec, m1, w.0) == Some((w.1, m1.ap + bytes.len())));
    lemma_copied_match(job, e.t, a, here, n);
    assert(apply_copy(job.dict, sec, m1, w.0, n as u64) == Some(
        at_end(sec, job.win.take(e.t + n), e.cache.update(a as u64)),
    ));
}

/// Whether the three sections are one where the layout is interleaved.
pub open spec fn consistent(sec: Sections) -> bool {
    sec.interleaved ==> sec.addr == sec.inst && sec.data == sec.inst
}

/// An instruction only adds to the sections.
pub proof fn lemma_emit_next_extends(job: WindowJob, e: Emitter)
    requires
        consistent(e.sec),
    ensures
        consistent(emit_next(job, e).sec),
        sections_extend(emit_next(job, e).sec, e.sec),
        emit_next(job, e).sec.interleaved == e.sec.interleaved,
{
    reveal(emit_next);
    match choice_at(job, e.cache, e.t) {
        Choice::Copy(addr, n) => {
            let w = e.cache.written(addr as u64, job.dict.len() + e.t);
            let ob = opcode_bytes(InstructionKind::Copy, n, w.0);
            let mid = put_inst(e.sec, ob);
            lemma_put_extends(e.sec, ob);
            lemma_put_extends(mid, address_bytes(w.0, w.1));
            lemma_sections_extend_trans(emit_next(job, e).sec, mid, e.sec);
        },
        Choice::Run(n) => {
            let ob = opcode_bytes(InstructionKind::Run, n, 0);
            let mid = put_inst(e.sec, ob);
            lemma_put_extends(e.sec, ob);
            lemma_put_extends(mid, seq![job.win[e.t]]);
            lemma_sections_extend_trans(emit_next(job, e).sec, mid, e.sec);
        },
        Choice::Literal => {
            let end = literal_end(job, e.cache, e.t + 1);
            let n = (end - e.t) as nat;
            let ob = opcode_bytes(InstructionKind::Add, n, 0);
            let mid = put_inst(e.sec, ob);
            lemma_put_extends(e.sec, ob);
            lemma_put_extends(mid, job.win.subrange(e.t, e.t + n));
            lemma_sections_extend_trans(emit_next(job, e).sec, mid, e.sec);
        },
    }
}

/// The sections at the end of a window begin with the sections at any
/// point before.
pub proof fn lemma_emit_rest_extends(job: WindowJob, e: Emitter)
    requires
        consistent(e.sec),
    ensures
        consistent(emit_rest(job, e).sec),
        sections_extend(emit_rest(job, e).sec, e.sec),
        emit_rest(job, e).sec.interleaved == e.sec.interleaved,
    decreases job.win.len() - e.t,
{
    if 0 <= e.t < job.win.len() {
        lemma_emit_next_moves(job, e);
        lemma_emit_next_extends(job, e);
        lemma_emit_rest_extends(job, emit_next(job, e));
        lemma_sections_extend_trans(emit_rest(job, e).sec, emit_next(job, e).sec, e.sec);
    } else {
        lemma_put_extends(e.sec, Seq::<u8>::empty());
        assert(e.sec.inst + Seq::<u8>::empty() =~= e.sec.inst);
        assert(e.sec.addr + Seq::<u8>::empty() =~= e.sec.addr);
        assert(e.sec.data + Seq::<u8>::empty() =~= e.sec.data);
        lemma_extends_self_plus(e.sec.inst, Seq::<u8>::empty());
        lemma_extends_self_plus(e.sec.addr, Seq::<u8>::empty());
        lemma_extends_self_plus(e.sec.data, Seq::<u8>::empty());
    }
}

/// Sections that begin sections that fit, fit.
proof fn lemma_fit_within(big: Sections, small: Sections)
    requires
        sections_fit(big),
        sections_extend(big, small),
        consistent(small),
    ensures
        sections_fit(small),
{
}

/// What the encoder writes for its next instruction, the interpreter
/// carries out as that instruction.
proof fn lemma_emit_next_step(job: WindowJob, e: Emitter)
    requires
        job.wf(),
        consistent(e.sec),
        e.cache.wf(),
        0 <= e.t < job.win.len(),
        emit_next(job, e).sec.wf(),
    ensures
        step(
            job.dict,
            job.win.len() as int,
            emit_next(job, e).sec,
            at_end(e.sec, job.win.take(e.t), e.cache),
        ) == Some(
            at_end(
                emit_next(job, e).sec,
                job.win.take(emit_next(job, e).t),
                emit_next(job, e).cache,
            ),
        ),
        emit_next(job, e).cache.wf(),
{
    let here = job.dict.len() + e.t;
    reveal(emit_next);
    lemma_choice_props(job, e.cache, e.t);
    match choice_at(job, e.cache, e.t) {
        Choice::Copy(addr, n) => {
            assert(is_match(job.space(), here, (addr, n)));
            lemma_copy_step(job, e, addr, n, here);
            crate::cache::lemma_update_wf(e.cache, addr as u64);
        },
        Choice::Run(n) => {
            lemma_run_step(job, e, n);
        },
        Choice::Literal => {
            let end = literal_end(job, e.cache, e.t + 1);
            lemma_literal_end_bound(job, e.cache, e.t + 1);
            lemma_add_step(job, e, (end - e.t) as nat);
        },
    }
}

/// Where the interpreter carries out what was added to the sections as one
/// instruction, the sections go on decoding to the window so far.
proof fn lemma_one_more(job: WindowJob, cache0: CacheState, e: Emitter, next: Emitter)
    requires
        decodes(job, cache0, e),
        sections_fit(next.sec),
        sections_extend(next.sec, e.sec),
        next.cache.wf(),
        e.t < next.t <= job.win.len(),
        e.sec.inst.len() < next.sec.inst.len(),
        step(
            job.dict,
            job.win.len() as int,
            next.sec,
            at_end(e.sec, job.win.take(e.t), e.cache),
        ) == Some(at_end(next.sec, job.win.take(next.t), next.cache)),
    ensures
        decodes(job, cache0, next),
{
    let tl = job.win.len() as int;
    let m = at_end(e.sec, job.win.take(e.t), e.cache);
    let m2 = at_end(next.sec, job.win.take(next.t), next.cache);
    lemma_run_stable(job.dict, tl, e.sec, next.sec, Machine::start(cache0));
    assert(run(job.dict, tl, next.sec, Machine::start(cache0)) == run(job.dict, tl, next.sec, m));
    assert(run(job.dict, tl, next.sec, m2) == Some(m2));
    assert(run(job.dict, tl, next.sec, m) == Some(m2));
}

/// One more instruction keeps the sections decoding to the window so far.
proof fn lemma_emit_next_decodes(job: WindowJob, cache0: CacheState, e: Emitter)
    requires
        job.wf(),
        decodes(job, cache0, e),
        e.t < job.win.len(),
        sections_fit(emit_next(job, e).sec),
    ensures
        decodes(job, cache0, emit_next(job, e)),
{
    lemma_emit_next_moves(job, e);
    lemma_emit_next_extends(job, e);
    lemma_emit_next_step(job, e);
    let next = emit_next(job, e);
    let m = at_end(e.sec, job.win.take(e.t), e.cache);
    assert(e.sec.inst.len() < next.sec.inst.len()) by {
        let st = step(job.dict, job.win.len() as int, next.sec, m);
        assert(st is Some);
    }
    lemma_one_more(job, cache0, e, next);
}

/// The sections of a whole window decode to the window.
pub proof fn lemma_emit_rest_decodes(job: WindowJob, cache0: CacheState, e: Emitter)
    requires
        job.wf(),
        decodes(job, cache0, e),
        sections_fit(emit_rest(job, e).sec),
    ensures
        decodes(job, cache0, emit_rest(job, e)),
        emit_rest(job, e).t == job.win.len(),
    decreases job.win.len() - e.t,
{
    if e.t < job.win.len() {
        let next = emit_next(job, e);
        lemma_emit_next_moves(job, e);
        lemma_emit_next_extends(job, e);
        lemma_emit_rest_extends(job, next);
        lemma_fit_within(emit_rest(job, e).sec, next.sec);
        lemma_emit_next_decodes(job, cache0, e);
        lemma_emit_rest_decodes(job, cache0, next);
    }
}

/// At the start of a window nothing is written and nothing decoded.
pub proof fn lemma_start_decodes(job: WindowJob, cache: CacheState)
    requires
        cache.wf(),
    ensures
        decodes(job, cache, Emitter::start(job.interleaved, cache)),
        consistent(Emitter::start(job.interleaved, cache).sec),
{
    let e = Emitter::start(job.interleaved, cache);
    assert(job.win.take(0) =~= Seq::<u8>::empty());
    assert(Machine::start(cache) == at_end(e.sec, job.win.take(0), cache));
}

/// The parser finds a section where its length and its bytes stand.
proof fn lemma_section_at(w: Seq<u8>, pos: usize, body: Seq<u8>)
    requires
        fits(w.len() as int),
        pos + varint_bytes(body.len()).len() + body.len() <= w.len(),
        w.subrange(pos as int, pos + varint_bytes(body.len()).len() + body.len()) == varint_bytes(
            body.len(),
        ) + body,
    ensures
        parse_section(w, pos) == (Frame::Done {
            item: Span {
                start: (pos + varint_bytes(body.len()).len()) as usize,
                end: (pos + varint_bytes(body.len()).len() + body.len()) as usize,
            },
            used: (pos + varint_bytes(body.len()).len() + body.len()) as usize,
        }),
        w.subrange(
            pos + varint_bytes(body.len()).len(),
            pos + varint_bytes(body.len()).len() + body.len(),
        ) == body,
{
    let vb = varint_bytes(body.len());
    let whole = w.subrange(pos as int, pos + vb.len() + body.len());
    lemma_varint_len(body.len());
    assert(w.subrange(pos as int, pos + vb.len()) =~= vb) by {
        assert forall|i: int| 0 <= i < vb.len() implies w.subrange(pos as int, pos + vb.len())[i]
            == vb[i] by {
            assert(whole[i] == (vb + body)[i]);
        }
    }
    lemma_parse_varint_bytes(w, pos as int, body.len());
    assert(w.subrange(pos + vb.len(), pos + vb.len() + body.len()) =~= body) by {
        assert forall|i: int| 0 <= i < body.len() implies w.subrange(
            pos + vb.len(),
            pos + vb.len() + body.len(),
        )[i] == body[i] by {
            assert(whole[vb.len() + i] == (vb + body)[vb.len() + i]);
        }
    }
}

/// The parser finds the sections where `section_bytes` put them.
proof fn lemma_sections_at(w: Seq<u8>, pos: usize, sec: Sections)
    requires
        fits(w.len() as int),
        consistent(sec),
        pos + section_bytes(sec).len() == w.len(),
        w.subrange(pos as int, w.len() as int) == section_bytes(sec),
    ensures
        parse_sections(sec.interleaved, w, pos) is Done,
        parse_sections(sec.interleaved, w, pos)->used == w.len(),
        sec.inst == w.subrange(
            parse_sections(sec.interleaved, w, pos)->item.0.start as int,
            parse_sections(sec.interleaved, w, pos)->item.0.end as int,
        ),
        sec.addr == w.subrange(
            parse_sections(sec.interleaved, w, pos)->item.1.start as int,
            parse_sections(sec.interleaved, w, pos)->item.1.end as int,
        ),
        sec.data == w.subrange(
            parse_sections(sec.interleaved, w, pos)->item.2.start as int,
            parse_sections(sec.interleaved, w, pos)->item.2.end as int,
        ),
{
    let sb = section_bytes(sec);
    let tail = w.subrange(pos as int, w.len() as int);
    let v1 = varint_bytes(sec.inst.len());
    let n1 = v1.len() + sec.inst.len();
    assert(w.subrange(pos as int, pos + n1) =~= v1 + sec.inst) by {
        assert forall|i: int| 0 <= i < n1 implies w.subrange(pos as int, pos + n1)[i] == (v1
            + sec.inst)[i] by {
            assert(tail[i] == sb[i]);
        }
    }
    lemma_section_at(w, pos, sec.inst);
    if !sec.interleaved {
        let at1 = (pos + n1) as usize;
        let v2 = varint_bytes(sec.addr.len());
        let n2 = v2.len() + sec.addr.len();
        assert(w.subrange(at1 as int, at1 + n2) =~= v2 + sec.addr) by {
            assert forall|i: int| 0 <= i < n2 implies w.subrange(at1 as int, at1 + n2)[i] == (v2
                + sec.addr)[i] by {
                assert(tail[n1 + i] == sb[n1 + i]);
            }
        }
        lemma_section_at(w, at1, sec.addr);
        let at2 = (at1 + n2) as usize;
        let v3 = varint_bytes(sec.data.len());
        let n3 = v3.len() + sec.data.len();
        assert(w.subrange(at2 as int, at2 + n3) =~= v3 + sec.data) by {
            assert forall|i: int| 0 <= i < n3 implies w.subrange(at2 as int, at2 + n3)[i] == (v3
                + sec.data)[i] by {
                assert(tail[n1 + n2 + i] == sb[n1 + n2 + i]);
            }
        }
        lemma_section_at(w, at2, sec.data);
    }
}

/// The parser finds in a window's header what the encoder put there.
proof fn lemma_header_at(ctx: WindowContext, w: Seq<u8>, win: Seq<u8>)
    requires
        fits(w.len() as int),
        ctx.dictionary_len + win.len() <= usize::MAX,
        ctx.dictionary_len + win.len() <= MAX_VARINT,
        win.len() <= ctx.max_window,
        win.len() <= ctx.remaining,
        extends(w, window_header_bytes(ctx.dictionary_len as nat, win, ctx.checksum)),
    ensures
        parse_source(ctx, w) is Done,
        parse_source(ctx, w)->item == (SourceSegment {
            from_target: false,
            start: 0,
            len: ctx.dictionary_len,
        }),
        parse_target_len(ctx, w, parse_source(ctx, w)->used, ctx.dictionary_len) is Done,
        parse_target_len(ctx, w, parse_source(ctx, w)->used, ctx.dictionary_len)->item == win.len(),
        parse_checksum(
            ctx,
            w,
            parse_target_len(ctx, w, parse_source(ctx, w)->used, ctx.dictionary_len)->used,
        ) == (Frame::Done {
            item: if ctx.checksum {
                Some(adler32(win))
            } else {
                None
            },
            used: window_header_bytes(ctx.dictionary_len as nat, win, ctx.checksum).len() as usize,
        }),
{
    let d = ctx.dictionary_len as nat;
    let hb = window_header_bytes(d, win, ctx.checksum);
    let v0 = varint_bytes(0);
    let v1 = varint_bytes(d);
    let v2 = varint_bytes(win.len());
    let cs = if ctx.checksum {
        be32(adler32(win))
    } else {
        Seq::<u8>::empty()
    };
    lemma_varint_len(0);
    lemma_varint_len(d);
    lemma_varint_len(win.len());
    assert(hb == seq![1u8] + v0 + v1 + v2 + cs);
    let a1 = 1 + v0.len();
    let a2 = a1 + v1.len();
    let a3 = a2 + v2.len();
    let a4 = a3 + cs.len();
    assert(hb.len() == a4);
    lemma_extends_index(w, hb, 0);
    assert(hb[0] == SOURCE_DICTIONARY);
    assert(w.subrange(1, a1 as int) =~= v0) by {
        assert forall|i: int| 0 <= i < v0.len() implies w.subrange(1, a1 as int)[i] == v0[i] by {
            lemma_extends_index(w, hb, 1 + i);
            assert(hb[1 + i] == v0[i]);
        }
    }
    lemma_parse_varint_bytes(w, 1, 0);
    assert(w.subrange(a1 as int, a2 as int) =~= v1) by {
        assert forall|i: int| 0 <= i < v1.len() implies w.subrange(a1 as int, a2 as int)[i]
            == v1[i] by {
            lemma_extends_index(w, hb, a1 + i);
            assert(hb[a1 + i] == v1[i]);
        }
    }
    lemma_parse_varint_bytes(w, a1 as int, d);
    assert(parse_source(ctx, w) == (Frame::Done {
        item: SourceSegment { from_target: false, start: 0, len: ctx.dictionary_len },
        used: a2 as usize,
    }));
    assert(w.subrange(a2 as int, a3 as int) =~= v2) by {
        assert forall|i: int| 0 <= i < v2.len() implies w.subrange(a2 as int, a3 as int)[i]
            == v2[i] by {
            lemma_extends_index(w, hb, a2 + i);
            assert(hb[a2 + i] == v2[i]);
        }
    }
    lemma_parse_varint_bytes(w, a2 as int, win.len());
    assert(parse_target_len(ctx, w, a2 as usize, ctx.dictionary_len) == (Frame::Done {
        item: win.len() as usize,
        used: a3 as usize,
    }));
    if ctx.checksum {
        assert(w.subrange(a3 as int, (a3 + 4) as int) =~= cs) by {
            assert forall|i: int| 0 <= i < 4 implies w.subrange(a3 as int, (a3 + 4) as int)[i] == cs[i] by {
                lemma_extends_index(w, hb, a3 + i);
                assert(hb[a3 + i] == cs[i]);
            }
        }
        lemma_be32_round_trip(w, a3 as int, adler32(win));
    }
}

/// What the file header of a session announced.
pub open spec fn flags_of(s: Session) -> HeaderFlags {
    HeaderFlags { interleaved: s.interleaved, checksum: s.checksum }
}

/// The encoder at the end of a window that it began with the cache `cache`.
pub open spec fn finished(job: WindowJob, cache: CacheState) -> Emitter {
    emit_rest(job, Emitter::start(job.interleaved, cache))
}

/// The session after a window that the encoder wrote.
pub open spec fn after_window(s: Session, job: WindowJob) -> Session {
    Session {
        pending: Seq::<u8>::empty(),
        cache: finished(job, s.cache).cache,
        total: (s.total + job.win.len()) as usize,
        retained: if s.allow_target {
            s.retained + job.win
        } else {
            s.retained
        },
        ..s
    }
}

/// The sections of a whole window decode to the window, given only that the
/// window's bytes fit.
proof fn lemma_finished_decodes(job: WindowJob, checksum: bool, cache: CacheState)
    requires
        job.wf(),
        cache.wf(),
        fits(window_bytes(job, checksum, cache).len() as int),
    ensures
        decodes(job, cache, finished(job, cache)),
        finished(job, cache).t == job.win.len(),
        consistent(finished(job, cache).sec),
        finished(job, cache).sec.interleaved == job.interleaved,
{
    reveal(window_bytes);
    let start = Emitter::start(job.interleaved, cache);
    lemma_start_decodes(job, cache);
    lemma_emit_rest_extends(job, start);
    lemma_emit_rest_decodes(job, cache, start);
}

/// The parser finds in the bytes of a window what the encoder put there.
proof fn lemma_parse_encoded_window(ctx: WindowContext, job: WindowJob, cache: CacheState)
    requires
        job.wf(),
        ctx.dictionary_len == job.dict.len(),
        ctx.interleaved == job.interleaved,
        job.win.len() <= ctx.max_window,
        job.win.len() <= ctx.remaining,
        consistent(finished(job, cache).sec),
        finished(job, cache).sec.interleaved == job.interleaved,
        fits(window_bytes(job, ctx.checksum, cache).len() as int),
    ensures
        parse_window(ctx, window_bytes(job, ctx.checksum, cache)) is Done,
        parse_window(ctx, window_bytes(job, ctx.checksum, cache))->used == window_bytes(
            job,
            ctx.checksum,
            cache,
        ).len(),
        parse_window(ctx, window_bytes(job, ctx.checksum, cache))->item.source == (SourceSegment {
            from_target: false,
            start: 0,
            len: ctx.dictionary_len,
        }),
        parse_window(ctx, window_bytes(job, ctx.checksum, cache))->item.target_len
            == job.win.len(),
        parse_window(ctx, window_bytes(job, ctx.checksum, cache))->item.checksum == (if ctx.checksum {
            Some(adler32(job.win))
        } else {
            None
        }),
        sections_of(
            window_bytes(job, ctx.checksum, cache),
            parse_window(ctx, window_bytes(job, ctx.checksum, cache))->item,
            job.interleaved,
        ) == finished(job, cache).sec,
{
    reveal(parse_window);
    reveal(window_bytes);
    let w = window_bytes(job, ctx.checksum, cache);
    let hb = window_header_bytes(job.dict.len(), job.win, ctx.checksum);
    let sec = finished(job, cache).sec;
    lemma_extends_self_plus(hb, section_bytes(sec));
    lemma_header_at(ctx, w, job.win);
    assert(w.subrange(hb.len() as int, w.len() as int) =~= section_bytes(sec));
    lemma_sections_at(w, hb.len() as usize, sec);
}

/// A session at a window boundary that is fed a window of the encoder reads
/// it and gives the window's target bytes.
proof fn lemma_window_progress(s: Session, job: WindowJob)
    requires
        s.valid(),
        s.phase is AwaitingWindow,
        s.pending.len() == 0,
        job.wf(),
        job.dict == s.dictionary,
        job.interleaved == s.interleaved,
        job.win.len() <= s.max_window,
        s.total + job.win.len() <= s.max_file,
        fits(window_bytes(job, s.checksum, s.cache).len() as int),
    ensures
        progress(s.with_more(window_bytes(job, s.checksum, s.cache))) == (Progress::Moved {
            next: after_window(s, job),
            out: job.win,
        }),
        after_window(s, job).valid(),
{
    let w = window_bytes(job, s.checksum, s.cache);
    let t = s.with_more(w);
    assert(t.pending =~= w);
    let ctx = t.context();
    lemma_finished_decodes(job, s.checksum, s.cache);
    lemma_parse_encoded_window(ctx, job, s.cache);
    let done = finished(job, s.cache);
    let item = parse_window(ctx, w)->item;
    assert(source_of(t, item) =~= job.dict);
    assert(job.win.take(job.win.len() as int) =~= job.win);
    assert(execute(job.dict, job.win.len() as int, done.sec, s.cache) == Some((job.win, done.cache)));
    assert(window_output(t, item) == Ok::<(Seq<u8>, CacheState), ErrorKind>((job.win, done.cache)));
    assert(w.skip(w.len() as int) =~= Seq::<u8>::empty());
    reveal(progress);
}

/// A session at a window boundary with nothing pending is at rest.
proof fn lemma_boundary_at_rest(s: Session)
    requires
        s.phase is AwaitingWindow,
        s.pending.len() == 0,
    ensures
        advance(s) == (s, Seq::<u8>::empty()),
{
    reveal(progress);
    reveal(parse_window);
}

/// Reading a window of the encoder and what follows it is giving the
/// window's target and then reading what follows.
proof fn lemma_window_then(s: Session, job: WindowJob, tail: Seq<u8>)
    requires
        s.valid(),
        s.phase is AwaitingWindow,
        s.pending.len() == 0,
        job.wf(),
        job.dict == s.dictionary,
        job.interleaved == s.interleaved,
        job.win.len() <= s.max_window,
        s.total + job.win.len() <= s.max_file,
        fits((window_bytes(job, s.checksum, s.cache).len() + tail.len()) as int),
    ensures
        after_window(s, job).valid(),
        advance(s.with_more(window_bytes(job, s.checksum, s.cache) + tail)).0 == advance(
            after_window(s, job).with_more(tail),
        ).0,
        !(advance(after_window(s, job).with_more(tail)).0.phase is Failed) ==> advance(
            s.with_more(window_bytes(job, s.checksum, s.cache) + tail),
        ).1 == job.win + advance(after_window(s, job).with_more(tail)).1,
{
    let w = window_bytes(job, s.checksum, s.cache);
    let s1 = after_window(s, job);
    lemma_window_progress(s, job);
    let sw = s.with_more(w);
    assert(sw.with_more(tail) == s.with_more(w + tail)) by {
        assert((s.pending + w) + tail =~= s.pending + (w + tail));
    }
    lemma_boundary_at_rest(s1);
    assert(advance(sw) == (s1, job.win)) by {
        assert(job.win + Seq::<u8>::empty() =~= job.win);
    }
    lemma_advance_split(sw, tail);
}

/// A session at a window boundary that is fed the encoder's windows for the
/// target from `pos` on gives that part of the target, and ends at a window
/// boundary with nothing pending.
pub proof fn lemma_windows_decode(s: Session, target: Seq<u8>, pos: int, window_size: int, look: bool)
    requires
        s.valid(),
        s.phase is AwaitingWindow,
        s.pending.len() == 0,
        0 <= pos <= target.len(),
        0 < window_size <= s.max_window,
        s.total + (target.len() - pos) <= s.max_file,
        fits((s.dictionary.len() + target.len()) as int),
        fits(
            windows_from(s.dictionary, target, pos, window_size, look, flags_of(s), s.cache).len() as int,
        ),
    ensures
        advance(
            s.with_more(
                windows_from(s.dictionary, target, pos, window_size, look, flags_of(s), s.cache),
            ),
        ).0.phase is AwaitingWindow,
        advance(
            s.with_more(
                windows_from(s.dictionary, target, pos, window_size, look, flags_of(s), s.cache),
            ),
        ).0.pending.len() == 0,
        advance(
            s.with_more(
                windows_from(s.dictionary, target, pos, window_size, look, flags_of(s), s.cache),
            ),
        ).1 == target.skip(pos),
    decreases target.len() - pos,
{
    let all = windows_from(s.dictionary, target, pos, window_size, look, flags_of(s), s.cache);
    if pos >= target.len() {
        assert(s.with_more(all) == s) by {
            assert(s.pending + all =~= s.pending);
        }
        lemma_boundary_at_rest(s);
        assert(target.skip(pos) =~= Seq::<u8>::empty());
    } else {
        let job = job_at(s.dictionary, target, pos, window_size, look, s.interleaved);
        let w = window_bytes(job, s.checksum, s.cache);
        let s1 = after_window(s, job);
        let next = pos + job.win.len();
        let tail = windows_from(s.dictionary, target, next, window_size, look, flags_of(s), s1.cache);
        assert(all == w + tail);
        assert(job.win.len() <= window_size && job.win.len() <= target.len() - pos);
        assert(job.wf());
        lemma_window_then(s, job, tail);
        assert(flags_of(s1) == flags_of(s));
        lemma_windows_decode(s1, target, next, window_size, look);
        assert(job.win + target.skip(next) =~= target.skip(pos));
    }
}

/// Round trip: a delta of the encoder, fed whole to a new session whose
/// limits admit the target, gives the target back, and the session may be
/// finished. This holds for every dictionary and target, with or without
/// the interleaved layout and the checksum, whether or not COPYs may take
/// from the target, and whether or not the session allows windows to take
/// their source from the target.
pub proof fn lemma_round_trip(
    dict: Seq<u8>,
    target: Seq<u8>,
    window_size: int,
    look: bool,
    flags: HeaderFlags,
    max_file: usize,
    max_window: usize,
    allow_target: bool,
)
    requires
        0 < window_size <= max_window,
        target.len() <= max_file,
        fits((dict.len() + target.len()) as int),
        fits(binary_delta(dict, target, window_size, look, flags).len() as int),
    ensures
        decode_all(
            Session::initial(dict, max_file, max_window, allow_target),
            binary_delta(dict, target, window_size, look, flags),
        ) == Ok::<Seq<u8>, Error>(target),
{
    let s0 = Session::initial(dict, max_file, max_window, allow_target);
    let hb = header_bytes(flags);
    let ws = windows_from(dict, target, 0, window_size, look, flags, CacheState::initial());
    let delta = binary_delta(dict, target, window_size, look, flags);
    let s1 = Session {
        phase: Phase::AwaitingWindow,
        interleaved: flags.interleaved,
        checksum: flags.checksum,
        ..s0
    };
    let sh = s0.with_more(hb);
    assert(sh.pending =~= hb);
    assert(progress(sh) == (Progress::Moved { next: s1, out: Seq::<u8>::empty() })) by {
        reveal(progress);
        assert(hb.skip(5) =~= Seq::<u8>::empty());
        assert(hb[4] < 4);
    }
    lemma_boundary_at_rest(s1);
    assert(advance(sh) == (s1, Seq::<u8>::empty())) by {
        assert(Seq::<u8>::empty() + Seq::<u8>::empty() =~= Seq::<u8>::empty());
    }
    assert(sh.with_more(ws) == s0.with_more(delta)) by {
        assert((s0.pending + hb) + ws =~= s0.pending + (hb + ws));
    }
    lemma_advance_split(sh, ws);
    assert(flags_of(s1) == flags);
    lemma_windows_decode(s1, target, 0, window_size, look);
    assert(target.skip(0) =~= target);
    assert(Seq::<u8>::empty() + target =~= target);
}

} // verus!
