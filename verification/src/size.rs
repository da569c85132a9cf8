//! How large a delta can get: no instruction takes more than five bytes for
//! each target byte that it accounts for, so a delta is never more than a
//! small multiple of its target, whatever the dictionary.

use vstd::prelude::*;
use crate::cache::{lemma_update_wf, lemma_written_resolves, CacheState};
use crate::codetable::{implied_size, InstructionKind};
use crate::encoding::{
    address_bytes,
    binary_delta,
    choice_at,
    emit_next,
    emit_rest,
    is_match,
    job_at,
    lemma_choice_props,
    lemma_emit_next_moves,
    lemma_literal_end_bound,
    literal_end,
    opcode_bytes,
    section_bytes,
    window_bytes,
    window_header_bytes,
    windows_from,
    Choice,
    Emitter,
    WindowJob,
};
use crate::format::{header_bytes, HeaderFlags};
use crate::interpreter::Sections;
use crate::roundtrip::{consistent, lemma_emit_next_extends};
use crate::varint::{lemma_varint_len, MAX_VARINT};

verus! {

/// The number of bytes written to the sections.
pub open spec fn written_len(sec: Sections) -> nat {
    if sec.interleaved {
        sec.inst.len()
    } else {
        sec.inst.len() + sec.addr.len() + sec.data.len()
    }
}

proof fn lemma_opcode_bytes_len(kind: InstructionKind, size: nat, mode: u8)
    requires
        size <= MAX_VARINT,
    ensures
        implied_size(kind, size as int) != 0 ==> opcode_bytes(kind, size, mode).len() == 1,
        opcode_bytes(kind, size, mode).len() <= 10,
{
    lemma_varint_len(size);
}

/// An instruction adds at most five bytes to the sections for each target
/// byte that it accounts for.
proof fn lemma_emit_next_grows(job: WindowJob, e: Emitter)
    requires
        job.wf(),
        consistent(e.sec),
        e.cache.wf(),
        0 <= e.t < job.win.len(),
    ensures
        written_len(emit_next(job, e).sec) <= written_len(e.sec) + 5 * (emit_next(job, e).t - e.t),
        emit_next(job, e).cache.wf(),
{
    reveal(emit_next);
    lemma_emit_next_moves(job, e);
    lemma_choice_props(job, e.cache, e.t);
    let here = job.dict.len() + e.t;
    match choice_at(job, e.cache, e.t) {
        Choice::Copy(addr, n) => {
            assert(is_match(job.space(), here, (addr, n)));
            let w = e.cache.written(addr as u64, here);
            lemma_written_resolves(e.cache, addr as u64, here);
            lemma_update_wf(e.cache, addr as u64);
            lemma_opcode_bytes_len(InstructionKind::Copy, n, w.0);
            lemma_varint_len(w.1 as nat);
            assert(address_bytes(w.0, w.1).len() <= 9);
        },
        Choice::Run(n) => {
            lemma_opcode_bytes_len(InstructionKind::Run, n, 0);
        },
        Choice::Literal => {
            let end = literal_end(job, e.cache, e.t + 1);
            lemma_literal_end_bound(job, e.cache, e.t + 1);
            lemma_opcode_bytes_len(InstructionKind::Add, (end - e.t) as nat, 0);
        },
    }
}

/// The sections of a window hold at most five bytes for each byte of the
/// window.
pub proof fn lemma_sections_size(job: WindowJob, e: Emitter)
    requires
        job.wf(),
        consistent(e.sec),
        e.cache.wf(),
        0 <= e.t <= job.win.len(),
    ensures
        written_len(emit_rest(job, e).sec) <= written_len(e.sec) + 5 * (job.win.len() - e.t),
        emit_rest(job, e).cache.wf(),
        consistent(emit_rest(job, e).sec),
        emit_rest(job, e).sec.interleaved == e.sec.interleaved,
    decreases job.win.len() - e.t,
{
    if e.t < job.win.len() {
        lemma_emit_next_moves(job, e);
        lemma_emit_next_grows(job, e);
        lemma_emit_next_extends(job, e);
        lemma_sections_size(job, emit_next(job, e));
    }
}

/// A window takes at most 51 bytes and five more for each byte of its
/// target, and leaves the cache in working order.
pub proof fn lemma_window_size(job: WindowJob, checksum: bool, cache: CacheState)
    requires
        job.wf(),
        cache.wf(),
        5 * job.win.len() <= MAX_VARINT,
    ensures
        window_bytes(job, checksum, cache).len() <= 51 + 5 * job.win.len(),
        emit_rest(job, Emitter::start(job.interleaved, cache)).cache.wf(),
{
    reveal(window_bytes);
    let start = Emitter::start(job.interleaved, cache);
    lemma_sections_size(job, start);
    let sec = emit_rest(job, start).sec;
    lemma_varint_len(0);
    lemma_varint_len(job.dict.len());
    lemma_varint_len(job.win.len());
    lemma_varint_len(sec.inst.len());
    if !sec.interleaved {
        lemma_varint_len(sec.addr.len());
        lemma_varint_len(sec.data.len());
    }
    assert(window_header_bytes(job.dict.len(), job.win, checksum).len() <= 24);
    assert(section_bytes(sec).len() <= 27 + written_len(sec));
}

/// The windows for the target from `pos` on take at most 56 bytes for each
/// byte of that part of the target.
pub proof fn lemma_windows_size(
    dict: Seq<u8>,
    target: Seq<u8>,
    pos: int,
    window_size: int,
    look: bool,
    flags: HeaderFlags,
    cache: CacheState,
)
    requires
        0 <= pos <= target.len(),
        cache.wf(),
        dict.len() + target.len() <= usize::MAX,
        dict.len() + target.len() <= MAX_VARINT,
        5 * target.len() <= MAX_VARINT,
    ensures
        windows_from(dict, target, pos, window_size, look, flags, cache).len() <= 56 * (target.len()
            - pos),
    decreases target.len() - pos,
{
    if pos < target.len() && window_size > 0 {
        let job = job_at(dict, target, pos, window_size, look, flags.interleaved);
        lemma_window_size(job, flags.checksum, cache);
        lemma_windows_size(
            dict,
            target,
            pos + job.win.len(),
            window_size,
            look,
            flags,
            emit_rest(job, Emitter::start(flags.interleaved, cache)).cache,
        );
    }
}

/// A delta in binary form takes at most five bytes for its header and 56 for
/// each byte of the target, however long the dictionary is and whatever the
/// window size.
pub proof fn lemma_delta_size(
    dict: Seq<u8>,
    target: Seq<u8>,
    window_size: int,
    look: bool,
    flags: HeaderFlags,
)
    requires
        dict.len() + target.len() <= usize::MAX,
        dict.len() + target.len() <= MAX_VARINT,
        5 * target.len() <= MAX_VARINT,
    ensures
        binary_delta(dict, target, window_size, look, flags).len() <= 5 + 56 * target.len(),
{
    lemma_windows_size(dict, target, 0, window_size, look, flags, CacheState::initial());
    assert(header_bytes(flags).len() == 5);
}

} // verus!
