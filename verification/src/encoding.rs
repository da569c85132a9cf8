//! What the encoder writes, as functions of the dictionary and the target:
//! which instruction it picks at each position of a window, the bytes that
//! each instruction adds to the sections, and the bytes of a window and of
//! a whole delta.

use vstd::prelude::*;
use crate::cache::{CacheState, MODE_SAME};
use crate::checksum::{adler32, be32};
use crate::codetable::{implied_size, opcode_of, InstructionKind};
use crate::format::{header_bytes, HeaderFlags, SOURCE_DICTIONARY};
use crate::interpreter::Sections;
use crate::varint::varint_bytes;

verus! {

/// The length of the blocks that the matcher hashes and looks up.
pub const BLOCK_SIZE: usize = 4;

/// The shortest match that becomes a COPY.
pub const MIN_COPY: usize = 4;

/// The shortest run of one byte that becomes a RUN.
pub const MIN_RUN: usize = 4;

/// The number of buckets of the block index.
pub const BUCKETS: usize = 65521;

/// How many earlier blocks of a bucket the matcher tries at one position.
pub const MAX_TRIES: usize = 16;

/// The largest target that the encoder puts in one window by default.
pub const DEFAULT_WINDOW_SIZE: usize = 16777216;

/// What the encoder works on for one window.
pub struct WindowJob {
    /// The source segment: the whole dictionary.
    pub dict: Seq<u8>,
    /// The target bytes of the window.
    pub win: Seq<u8>,
    /// Whether a COPY may take from the window's own earlier bytes.
    pub look: bool,
    pub interleaved: bool,
}

impl WindowJob {
    /// The address space of the window: the dictionary, then the window.
    pub open spec fn space(self) -> Seq<u8> {
        self.dict + self.win
    }

    /// Where matches must end: with the dictionary, unless the window's own
    /// bytes may be copied too.
    pub open spec fn limit(self) -> int {
        if self.look {
            (self.dict.len() + self.win.len()) as int
        } else {
            self.dict.len() as int
        }
    }

    /// The address space fits the machine and the format's integers.
    pub open spec fn wf(self) -> bool {
        &&& self.dict.len() + self.win.len() <= usize::MAX
        &&& self.dict.len() + self.win.len() <= 0x7fff_ffff_ffff_ffff
    }
}

/// The bucket of the block of four bytes at `q`.
pub open spec fn bucket_at(u: Seq<u8>, q: int) -> int {
    (u[q] as int * 0x100_0000 + u[q + 1] as int * 0x1_0000 + u[q + 2] as int * 0x100 + u[q + 3] as int)
        % BUCKETS as int
}

/// Whether the block at `q` is in the index: it must end at or before
/// `limit`.
pub open spec fn indexable(limit: int, q: int) -> bool {
    0 <= q && q + BLOCK_SIZE <= limit
}

/// The last indexed block before `upto` in bucket `b`, or -1.
pub open spec fn latest(u: Seq<u8>, limit: int, b: int, upto: int) -> int
    decreases upto,
{
    if upto <= 0 {
        -1
    } else if indexable(limit, upto - 1) && bucket_at(u, upto - 1) == b {
        upto - 1
    } else {
        latest(u, limit, b, upto - 1)
    }
}

/// How many bytes from `c` on equal those from `h` on, where the former
/// stay below `limit`.
pub open spec fn match_len(u: Seq<u8>, c: int, h: int, limit: int) -> nat
    decreases u.len() - h,
{
    if 0 <= c < limit && 0 <= h < u.len() && c < u.len() && u[c] == u[h] {
        1 + match_len(u, c + 1, h + 1, limit)
    } else {
        0
    }
}

/// The better of `best` and the candidates from `cand` back through its
/// bucket, `fuel` of them at most. A longer match is better; of two equally
/// long ones, one whose address the cache remembers beats one that it does
/// not; else the one found first, the later in the address space, stays.
pub open spec fn walk(
    u: Seq<u8>,
    limit: int,
    cache: CacheState,
    here: int,
    cand: int,
    fuel: nat,
    best: (int, nat),
) -> (int, nat)
    decreases fuel,
{
    if cand < 0 || fuel == 0 {
        best
    } else {
        let len = match_len(u, cand, here, limit);
        let better = len > best.1 || (len == best.1 && cache.remembers(cand as u64)
            && !cache.remembers(best.0 as u64));
        walk(
            u,
            limit,
            cache,
            here,
            latest(u, limit, bucket_at(u, cand), cand),
            (fuel - 1) as nat,
            if better {
                (cand, len)
            } else {
                best
            },
        )
    }
}

/// The address and length of the best match for the window's bytes from
/// `t` on; length 0 where there is none.
pub open spec fn best_match(job: WindowJob, cache: CacheState, t: int) -> (int, nat) {
    let u = job.space();
    let here = job.dict.len() + t;
    if here + BLOCK_SIZE > u.len() {
        (0, 0)
    } else {
        walk(u, job.limit(), cache, here, latest(u, job.limit(), bucket_at(u, here), here), MAX_TRIES as nat, (0, 0))
    }
}

/// How many bytes from `k` on equal the byte at `t`.
pub open spec fn same_run(win: Seq<u8>, t: int, k: int) -> nat
    decreases win.len() - k,
{
    if 0 <= t < win.len() && 0 <= k < win.len() && win[k] == win[t] {
        1 + same_run(win, t, k + 1)
    } else {
        0
    }
}

/// The instruction that the encoder picks at a position.
pub enum Choice {
    /// The byte becomes part of an ADD.
    Literal,
    /// A RUN of this length.
    Run(nat),
    /// A COPY from this address, of this length.
    Copy(int, nat),
}

/// The encoder's choice at position `t` of the window: a COPY where the best
/// match has four bytes or more and is no shorter than the run of the byte
/// at `t`; else a RUN where that run has four bytes or more; else a literal.
pub open spec fn choice_at(job: WindowJob, cache: CacheState, t: int) -> Choice {
    let m = best_match(job, cache, t);
    let r = same_run(job.win, t, t);
    if m.1 >= MIN_COPY && m.1 >= r {
        Choice::Copy(m.0, m.1)
    } else if r >= MIN_RUN {
        Choice::Run(r)
    } else {
        Choice::Literal
    }
}

/// The first position from `k` on that is not a literal, or the window's end.
pub open spec fn literal_end(job: WindowJob, cache: CacheState, k: int) -> int
    decreases job.win.len() - k,
{
    if k < 0 || k >= job.win.len() {
        job.win.len() as int
    } else if choice_at(job, cache, k) is Literal {
        literal_end(job, cache, k + 1)
    } else {
        k
    }
}

/// The sections with `bytes` added to the instructions.
pub open spec fn put_inst(sec: Sections, bytes: Seq<u8>) -> Sections {
    if sec.interleaved {
        Sections { inst: sec.inst + bytes, addr: sec.inst + bytes, data: sec.inst + bytes, ..sec }
    } else {
        Sections { inst: sec.inst + bytes, ..sec }
    }
}

/// The sections with `bytes` added to the addresses.
pub open spec fn put_addr(sec: Sections, bytes: Seq<u8>) -> Sections {
    if sec.interleaved {
        Sections { inst: sec.inst + bytes, addr: sec.inst + bytes, data: sec.inst + bytes, ..sec }
    } else {
        Sections { addr: sec.addr + bytes, ..sec }
    }
}

/// The sections with `bytes` added to the data.
pub open spec fn put_data(sec: Sections, bytes: Seq<u8>) -> Sections {
    if sec.interleaved {
        Sections { inst: sec.inst + bytes, addr: sec.inst + bytes, data: sec.inst + bytes, ..sec }
    } else {
        Sections { data: sec.data + bytes, ..sec }
    }
}

/// The opcode of an instruction, followed by its size where the opcode does
/// not imply it.
pub open spec fn opcode_bytes(kind: InstructionKind, size: nat, mode: u8) -> Seq<u8> {
    if implied_size(kind, size as int) == 0 {
        seq![opcode_of(kind, size as int, mode)] + varint_bytes(size)
    } else {
        seq![opcode_of(kind, size as int, mode)]
    }
}

/// The sections after an ADD of the window's bytes from `t` to `t + n`.
pub open spec fn emit_add(sec: Sections, win: Seq<u8>, t: int, n: nat) -> Sections {
    put_data(put_inst(sec, opcode_bytes(InstructionKind::Add, n, 0)), win.subrange(t, t + n))
}

/// The sections after a RUN of `n` times the window's byte at `t`.
pub open spec fn emit_run(sec: Sections, win: Seq<u8>, t: int, n: nat) -> Sections {
    put_data(put_inst(sec, opcode_bytes(InstructionKind::Run, n, 0)), seq![win[t]])
}

/// The bytes of an address in the address section: one byte in the same
/// modes, an integer in the others.
pub open spec fn address_bytes(mode: u8, value: u64) -> Seq<u8> {
    if mode >= MODE_SAME {
        seq![value as u8]
    } else {
        varint_bytes(value as nat)
    }
}

/// The sections after a COPY of `n` bytes from `addr`, written at position
/// `here` of the address space with the cache in state `cache`.
pub open spec fn emit_copy(sec: Sections, cache: CacheState, addr: u64, n: nat, here: int) -> Sections {
    let w = cache.written(addr, here);
    put_addr(put_inst(sec, opcode_bytes(InstructionKind::Copy, n, w.0)), address_bytes(w.0, w.1))
}

/// The encoder between two instructions: the sections written so far, the
/// cache, and the position in the window up to which they account for it.
pub struct Emitter {
    pub sec: Sections,
    pub cache: CacheState,
    pub t: int,
}

impl Emitter {
    /// The encoder at the start of a window.
    pub open spec fn start(interleaved: bool, cache: CacheState) -> Emitter {
        Emitter {
            sec: Sections {
                inst: Seq::<u8>::empty(),
                addr: Seq::<u8>::empty(),
                data: Seq::<u8>::empty(),
                interleaved,
            },
            cache,
            t: 0,
        }
    }
}

/// The encoder after the instruction that it picks at `e.t`: a COPY or a
/// RUN as chosen there, or an ADD of all literals up to the next position
/// that is none.
#[verifier::opaque]
pub open spec fn emit_next(job: WindowJob, e: Emitter) -> Emitter {
    match choice_at(job, e.cache, e.t) {
        Choice::Copy(addr, n) => Emitter {
            sec: emit_copy(e.sec, e.cache, addr as u64, n, job.dict.len() + e.t),
            cache: e.cache.update(addr as u64),
            t: e.t + n,
        },
        Choice::Run(n) => Emitter { sec: emit_run(e.sec, job.win, e.t, n), t: e.t + n, ..e },
        Choice::Literal => {
            let end = literal_end(job, e.cache, e.t + 1);
            Emitter { sec: emit_add(e.sec, job.win, e.t, (end - e.t) as nat), t: end, ..e }
        },
    }
}

/// The encoder at the end of the window, from `e` on.
pub open spec fn emit_rest(job: WindowJob, e: Emitter) -> Emitter
    decreases job.win.len() - e.t,
    via emit_rest_decreases
{
    if e.t < 0 || e.t >= job.win.len() {
        e
    } else {
        emit_rest(job, emit_next(job, e))
    }
}

#[via_fn]
proof fn emit_rest_decreases(job: WindowJob, e: Emitter) {
    if 0 <= e.t < job.win.len() {
        lemma_emit_next_moves(job, e);
    }
}

/// Whether the bytes `i` places after `c` and after `h` are the same.
pub open spec fn agrees(u: Seq<u8>, c: int, h: int, i: int) -> bool {
    0 <= c + i < u.len() && 0 <= h + i < u.len() && u[c + i] == u[h + i]
}

pub proof fn lemma_match_len_bound(u: Seq<u8>, c: int, h: int, limit: int)
    ensures
        h >= 0 ==> h + match_len(u, c, h, limit) <= u.len() || match_len(u, c, h, limit) == 0,
        c >= 0 ==> c + match_len(u, c, h, limit) <= limit || match_len(u, c, h, limit) == 0,
        forall|i: int| 0 <= i < match_len(u, c, h, limit) ==> agrees(u, c, h, i),
    decreases u.len() - h,
{
    if 0 <= c < limit && 0 <= h < u.len() && c < u.len() && u[c] == u[h] {
        lemma_match_len_bound(u, c + 1, h + 1, limit);
        let n = match_len(u, c, h, limit);
        assert forall|i: int| 0 <= i < n implies agrees(u, c, h, i) by {
            if i > 0 {
                assert(agrees(u, c + 1, h + 1, i - 1));
            }
        }
    }
}

/// Whether the byte `i` places after `k` is the byte at `t`.
pub open spec fn repeats(win: Seq<u8>, t: int, k: int, i: int) -> bool {
    0 <= k + i < win.len() && win[k + i] == win[t]
}

pub proof fn lemma_same_run_bound(win: Seq<u8>, t: int, k: int)
    requires
        0 <= t <= k,
    ensures
        k + same_run(win, t, k) <= win.len() || same_run(win, t, k) == 0,
        forall|i: int| 0 <= i < same_run(win, t, k) ==> repeats(win, t, k, i),
    decreases win.len() - k,
{
    if 0 <= t < win.len() && 0 <= k < win.len() && win[k] == win[t] {
        lemma_same_run_bound(win, t, k + 1);
        let n = same_run(win, t, k);
        assert forall|i: int| 0 <= i < n implies repeats(win, t, k, i) by {
            if i > 0 {
                assert(repeats(win, t, k + 1, i - 1));
            }
        }
    }
}

/// The last block of a bucket lies before `upto`, is indexed, and belongs to
/// the bucket.
pub proof fn lemma_latest_props(u: Seq<u8>, limit: int, b: int, upto: int)
    ensures
        latest(u, limit, b, upto) == -1 || (0 <= latest(u, limit, b, upto) < upto && indexable(
            limit,
            latest(u, limit, b, upto),
        ) && bucket_at(u, latest(u, limit, b, upto)) == b),
    decreases upto,
{
    if upto > 0 && !(indexable(limit, upto - 1) && bucket_at(u, upto - 1) == b) {
        lemma_latest_props(u, limit, b, upto - 1);
    }
}

/// Whether `(addr, len)` is a match for the bytes at `here`: the bytes from
/// `addr` on are those from `here` on, and `addr` lies before `here`.
pub open spec fn is_match(u: Seq<u8>, here: int, m: (int, nat)) -> bool {
    m.1 == 0 || {
        &&& 0 <= m.0 < here
        &&& here + m.1 <= u.len()
        &&& forall|i: int| 0 <= i < m.1 ==> agrees(u, m.0, here, i)
    }
}

pub proof fn lemma_walk_is_match(
    u: Seq<u8>,
    limit: int,
    cache: CacheState,
    here: int,
    cand: int,
    fuel: nat,
    best: (int, nat),
)
    requires
        0 <= here,
        cand < here,
        is_match(u, here, best),
    ensures
        is_match(u, here, walk(u, limit, cache, here, cand, fuel, best)),
    decreases fuel,
{
    if !(cand < 0 || fuel == 0) {
        let len = match_len(u, cand, here, limit);
        lemma_match_len_bound(u, cand, here, limit);
        lemma_latest_props(u, limit, bucket_at(u, cand), cand);
        let better = len > best.1 || (len == best.1 && cache.remembers(cand as u64)
            && !cache.remembers(best.0 as u64));
        let next = if better {
            (cand, len)
        } else {
            best
        };
        assert(is_match(u, here, next));
        lemma_walk_is_match(
            u,
            limit,
            cache,
            here,
            latest(u, limit, bucket_at(u, cand), cand),
            (fuel - 1) as nat,
            next,
        );
    }
}

/// The best match is a match.
pub proof fn lemma_best_match_is_match(job: WindowJob, cache: CacheState, t: int)
    requires
        0 <= t,
    ensures
        is_match(job.space(), job.dict.len() + t, best_match(job, cache, t)),
{
    let u = job.space();
    let here = job.dict.len() + t;
    if here + BLOCK_SIZE <= u.len() {
        lemma_latest_props(u, job.limit(), bucket_at(u, here), here);
        lemma_walk_is_match(
            u,
            job.limit(),
            cache,
            here,
            latest(u, job.limit(), bucket_at(u, here), here),
            MAX_TRIES as nat,
            (0, 0),
        );
    }
}

/// What is picked is sound: a COPY names a match of four bytes or more, a
/// RUN covers four or more bytes that equal the first.
pub proof fn lemma_choice_props(job: WindowJob, cache: CacheState, t: int)
    requires
        0 <= t < job.win.len(),
    ensures
        match choice_at(job, cache, t) {
            Choice::Copy(a, n) => n >= MIN_COPY && is_match(job.space(), job.dict.len() + t, (a, n)),
            Choice::Run(n) => n >= MIN_RUN && t + n <= job.win.len() && forall|i: int|
                0 <= i < n ==> repeats(job.win, t, t, i),
            Choice::Literal => true,
        },
{
    reveal(choice_at);
    lemma_best_match_is_match(job, cache, t);
    lemma_same_run_bound(job.win, t, t);
}

pub proof fn lemma_literal_end_bound(job: WindowJob, cache: CacheState, k: int)
    requires
        0 <= k <= job.win.len(),
    ensures
        k <= literal_end(job, cache, k) <= job.win.len(),
    decreases job.win.len() - k,
{
    if k < job.win.len() && choice_at(job, cache, k) is Literal {
        lemma_literal_end_bound(job, cache, k + 1);
    }
}

/// Every instruction accounts for at least one more byte of the window, and
/// for none beyond its end.
pub proof fn lemma_emit_next_moves(job: WindowJob, e: Emitter)
    requires
        0 <= e.t < job.win.len(),
    ensures
        e.t < emit_next(job, e).t <= job.win.len(),
{
    reveal(emit_next);
    reveal(choice_at);
    lemma_best_match_is_match(job, e.cache, e.t);
    lemma_same_run_bound(job.win, e.t, e.t);
    lemma_literal_end_bound(job, e.cache, e.t + 1);
}

/// The bytes of the sections as they stand in a window: each with its
/// length before it; in the interleaved layout the one section only.
pub open spec fn section_bytes(sec: Sections) -> Seq<u8> {
    if sec.interleaved {
        varint_bytes(sec.inst.len()) + sec.inst
    } else {
        varint_bytes(sec.inst.len()) + sec.inst + varint_bytes(sec.addr.len()) + sec.addr
            + varint_bytes(sec.data.len()) + sec.data
    }
}

/// The bytes of a window header: the source is the whole dictionary.
pub open spec fn window_header_bytes(dict_len: nat, win: Seq<u8>, checksum: bool) -> Seq<u8> {
    seq![SOURCE_DICTIONARY] + varint_bytes(0) + varint_bytes(dict_len) + varint_bytes(win.len()) + (if checksum {
        be32(adler32(win))
    } else {
        Seq::<u8>::empty()
    })
}

/// The bytes of a window.
#[verifier::opaque]
pub open spec fn window_bytes(job: WindowJob, checksum: bool, cache: CacheState) -> Seq<u8> {
    window_header_bytes(job.dict.len(), job.win, checksum) + section_bytes(
        emit_rest(job, Emitter::start(job.interleaved, cache)).sec,
    )
}

/// The job for the window that starts at `pos` of the target.
pub open spec fn job_at(
    dict: Seq<u8>,
    target: Seq<u8>,
    pos: int,
    window_size: int,
    look: bool,
    interleaved: bool,
) -> WindowJob {
    let n = if target.len() - pos < window_size {
        target.len() - pos
    } else {
        window_size
    };
    WindowJob { dict, win: target.subrange(pos, pos + n), look, interleaved }
}

/// The bytes of all windows from position `pos` of the target on. The cache
/// goes on from window to window.
pub open spec fn windows_from(
    dict: Seq<u8>,
    target: Seq<u8>,
    pos: int,
    window_size: int,
    look: bool,
    flags: HeaderFlags,
    cache: CacheState,
) -> Seq<u8>
    decreases target.len() - pos,
{
    if pos < 0 || pos >= target.len() || window_size <= 0 {
        Seq::<u8>::empty()
    } else {
        let job = job_at(dict, target, pos, window_size, look, flags.interleaved);
        window_bytes(job, flags.checksum, cache) + windows_from(
            dict,
            target,
            pos + job.win.len(),
            window_size,
            look,
            flags,
            emit_rest(job, Emitter::start(flags.interleaved, cache)).cache,
        )
    }
}

/// The delta in binary form: the file header, then the windows.
pub open spec fn binary_delta(
    dict: Seq<u8>,
    target: Seq<u8>,
    window_size: int,
    look: bool,
    flags: HeaderFlags,
) -> Seq<u8> {
    header_bytes(flags) + windows_from(dict, target, 0, window_size, look, flags, CacheState::initial())
}

} // verus!
