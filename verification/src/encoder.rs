//! The encoder: for each window of the target it walks the window, picks an
//! instruction at each position with the block index, and writes opcodes,
//! addresses and literal data into the window's sections.

use vstd::prelude::*;
use crate::cache::{AddressCache, CacheState, MODE_SAME};
use crate::checksum::{checksum, write_be32};
use crate::codetable::{instruction_for, opcode_for, InstructionKind};
use crate::encoding::{
    address_bytes,
    binary_delta,
    choice_at,
    emit_add,
    emit_copy,
    emit_next,
    emit_rest,
    emit_run,
    job_at,
    lemma_choice_props,
    lemma_emit_next_moves,
    literal_end,
    opcode_bytes,
    put_addr,
    put_data,
    put_inst,
    section_bytes,
    window_bytes,
    window_header_bytes,
    windows_from,
    Emitter,
    WindowJob,
};
use crate::format::{header_bytes, write_header, HeaderFlags, SOURCE_DICTIONARY};
use crate::interpreter::Sections;
use crate::matcher::{pick, BlockIndex, Pick};
use crate::varint::write_varint;

verus! {

/// The sections of a window while they are written. In the interleaved
/// layout everything goes into the instruction section, and the other two
/// stay empty.
pub struct SectionWriter {
    inst: Vec<u8>,
    addr: Vec<u8>,
    data: Vec<u8>,
    interleaved: bool,
}

impl View for SectionWriter {
    type V = Sections;

    closed spec fn view(&self) -> Sections {
        if self.interleaved {
            Sections { inst: self.inst@, addr: self.inst@, data: self.inst@, interleaved: true }
        } else {
            Sections { inst: self.inst@, addr: self.addr@, data: self.data@, interleaved: false }
        }
    }
}

impl SectionWriter {
    /// Empty sections.
    pub fn new(interleaved: bool) -> (w: SectionWriter)
        ensures
            w@ == Emitter::start(interleaved, CacheState::initial()).sec,
    {
        SectionWriter { inst: Vec::new(), addr: Vec::new(), data: Vec::new(), interleaved }
    }

    /// Writes the opcode of an instruction, and its size where the opcode
    /// does not imply it.
    fn write_opcode(&mut self, kind: InstructionKind, size: usize, mode: u8)
        requires
            crate::codetable::mode_fits(kind, mode),
        ensures
            final(self)@ == put_inst(old(self)@, opcode_bytes(kind, size as nat, mode)),
    {
        let opcode = opcode_for(kind, size as u64, mode);
        self.inst.push(opcode);
        match instruction_for(opcode) {
            Some(entry) => {
                if entry.size == 0 {
                    write_varint(size as u64, &mut self.inst);
                }
            },
            None => {},
        }
        proof {
            let ob = opcode_bytes(kind, size as nat, mode);
            assert(self.inst@ =~= old(self).inst@ + ob);
        }
    }

    /// Writes an ADD of the window's bytes from `t` to `t + n`.
    pub fn write_add(&mut self, win: &[u8], t: usize, n: usize)
        requires
            t + n <= win.len(),
        ensures
            final(self)@ == emit_add(old(self)@, win@, t as int, n as nat),
    {
        self.write_opcode(InstructionKind::Add, n, 0);
        let ghost mid = self@;
        let bytes = &win[t..t + n];
        if self.interleaved {
            self.inst.extend_from_slice(bytes);
        } else {
            self.data.extend_from_slice(bytes);
        }
        proof {
            assert(self@.inst =~= put_data(mid, bytes@).inst);
            assert(self@.data =~= put_data(mid, bytes@).data);
            assert(self@.addr =~= put_data(mid, bytes@).addr);
        }
    }

    /// Writes a RUN of `n` times the window's byte at `t`.
    pub fn write_run(&mut self, win: &[u8], t: usize, n: usize)
        requires
            t < win.len(),
        ensures
            final(self)@ == emit_run(old(self)@, win@, t as int, n as nat),
    {
        self.write_opcode(InstructionKind::Run, n, 0);
        let ghost mid = self@;
        if self.interleaved {
            self.inst.push(win[t]);
        } else {
            self.data.push(win[t]);
        }
        proof {
            assert(self@.inst =~= put_data(mid, seq![win@[t as int]]).inst);
            assert(self@.data =~= put_data(mid, seq![win@[t as int]]).data);
            assert(self@.addr =~= put_data(mid, seq![win@[t as int]]).addr);
        }
    }

    /// Writes a COPY of `n` bytes from `addr`, at position `here` of the
    /// address space. The cache is not updated here.
    pub fn write_copy(&mut self, cache: &AddressCache, addr: usize, n: usize, here: usize)
        requires
            cache@.wf(),
            addr < here,
        ensures
            final(self)@ == emit_copy(old(self)@, cache@, addr as u64, n as nat, here as int),
    {
        let (mode, value) = cache.encode_address(addr as u64, here as u64);
        proof {
            crate::cache::lemma_written_resolves(cache@, addr as u64, here as int);
        }
        self.write_opcode(InstructionKind::Copy, n, mode);
        let ghost mid = self@;
        let ghost bytes = address_bytes(mode, value);
        if self.interleaved {
            if mode >= MODE_SAME {
                self.inst.push(value as u8);
            } else {
                write_varint(value, &mut self.inst);
            }
        } else {
            if mode >= MODE_SAME {
                self.addr.push(value as u8);
            } else {
                write_varint(value, &mut self.addr);
            }
        }
        proof {
            assert(self@.inst =~= put_addr(mid, bytes).inst);
            assert(self@.data =~= put_addr(mid, bytes).data);
            assert(self@.addr =~= put_addr(mid, bytes).addr);
        }
    }

    /// Appends the sections to `out` as they stand in a window.
    pub fn write_sections(&self, out: &mut Vec<u8>)
        ensures
            final(out)@ == old(out)@ + section_bytes(self@),
    {
        write_varint(self.inst.len() as u64, out);
        out.extend_from_slice(self.inst.as_slice());
        if !self.interleaved {
            write_varint(self.addr.len() as u64, out);
            out.extend_from_slice(self.addr.as_slice());
            write_varint(self.data.len() as u64, out);
            out.extend_from_slice(self.data.as_slice());
        }
        proof {
            assert(out@ =~= old(out)@ + section_bytes(self@));
        }
    }
}

/// After an instruction the rest of the window is written as it would be
/// from the instruction's end.
proof fn lemma_emit_rest_unfold(job: WindowJob, e: Emitter)
    requires
        0 <= e.t < job.win.len(),
    ensures
        emit_rest(job, e) == emit_rest(job, emit_next(job, e)),
{
}

/// At the window's end nothing more is written.
proof fn lemma_emit_rest_done(job: WindowJob, e: Emitter)
    requires
        e.t >= job.win.len(),
    ensures
        emit_rest(job, e) == e,
{
}

/// The literals end where a position is no literal, or the window ends.
proof fn lemma_literal_end_here(job: WindowJob, cache: CacheState, t: int)
    requires
        0 <= t <= job.win.len(),
        t < job.win.len() ==> !(choice_at(job, cache, t) is Literal),
    ensures
        literal_end(job, cache, t) == t,
{
}

/// One more literal moves the end of the literals no further.
proof fn lemma_literal_end_next(job: WindowJob, cache: CacheState, t: int)
    requires
        0 <= t < job.win.len(),
        choice_at(job, cache, t) is Literal,
    ensures
        literal_end(job, cache, t) == literal_end(job, cache, t + 1),
{
}

/// Writes the ADD for the literals from `start` up to `t`.
fn write_literals(
    writer: &mut SectionWriter,
    dict: &[u8],
    win: &[u8],
    look: bool,
    interleaved: bool,
    cache: &AddressCache,
    start: usize,
    t: usize,
)
    requires
        start < t <= win.len(),
        choice_at(WindowJob { dict: dict@, win: win@, look, interleaved }, cache@, start as int)
            is Literal,
        literal_end(WindowJob { dict: dict@, win: win@, look, interleaved }, cache@, start + 1) == t,
    ensures
        (Emitter { sec: final(writer)@, cache: cache@, t: t as int }) == emit_next(
            WindowJob { dict: dict@, win: win@, look, interleaved },
            Emitter { sec: old(writer)@, cache: cache@, t: start as int },
        ),
{
    proof {
        reveal(emit_next);
    }
    writer.write_add(win, start, t - start);
}

/// Writes the RUN or COPY picked at position `t`, and returns its length.
fn write_pick(
    writer: &mut SectionWriter,
    cache: &mut AddressCache,
    dict: &[u8],
    win: &[u8],
    look: bool,
    interleaved: bool,
    t: usize,
    p: Pick,
) -> (n: usize)
    requires
        dict.len() + win.len() <= usize::MAX,
        t < win.len(),
        old(cache)@.wf(),
        !(p is Literal),
        p@ == choice_at(WindowJob { dict: dict@, win: win@, look, interleaved }, old(cache)@, t as int),
    ensures
        1 <= n,
        t + n <= win.len(),
        final(cache)@.wf(),
        (Emitter { sec: final(writer)@, cache: final(cache)@, t: t + n }) == emit_next(
            WindowJob { dict: dict@, win: win@, look, interleaved },
            Emitter { sec: old(writer)@, cache: old(cache)@, t: t as int },
        ),
{
    let ghost job = WindowJob { dict: dict@, win: win@, look, interleaved };
    proof {
        reveal(emit_next);
        lemma_emit_next_moves(job, Emitter { sec: writer@, cache: cache@, t: t as int });
        lemma_choice_props(job, cache@, t as int);
    }
    match p {
        Pick::Literal => 1,
        Pick::Run(n) => {
            writer.write_run(win, t, n);
            n
        },
        Pick::Copy(addr, n) => {
            writer.write_copy(cache, addr, n, dict.len() + t);
            cache.update(addr as u64);
            n
        },
    }
}

/// Writes the sections for one window: the instructions that rebuild `win`
/// from `dict` and, where `look` is set, from the window's own earlier bytes.
pub fn encode_window(
    dict: &[u8],
    win: &[u8],
    look: bool,
    interleaved: bool,
    cache: &mut AddressCache,
) -> (writer: SectionWriter)
    requires
        dict.len() + win.len() <= usize::MAX,
        old(cache)@.wf(),
    ensures
        writer@ == emit_rest(
            WindowJob { dict: dict@, win: win@, look, interleaved },
            Emitter::start(interleaved, old(cache)@),
        ).sec,
        final(cache)@ == emit_rest(
            WindowJob { dict: dict@, win: win@, look, interleaved },
            Emitter::start(interleaved, old(cache)@),
        ).cache,
        final(cache)@.wf(),
{
    let ghost job = WindowJob { dict: dict@, win: win@, look, interleaved };
    let ghost first = Emitter::start(interleaved, cache@);
    let total = dict.len() + win.len();
    let limit = if look {
        total
    } else {
        dict.len()
    };
    let mut index = BlockIndex::new(dict, win, limit);
    index.extend(dict, win, limit, 0, dict.len());
    let mut writer = SectionWriter::new(interleaved);
    let mut t: usize = 0;
    let mut start: usize = 0;
    while t < win.len()
        invariant
            job == (WindowJob { dict: dict@, win: win@, look, interleaved }),
            total == dict.len() + win.len(),
            total <= usize::MAX,
            limit == job.limit(),
            start <= t <= win.len(),
            cache@.wf(),
            index.covers(dict@ + win@, limit as int, dict.len() + t),
            emit_rest(job, first) == emit_rest(job, Emitter { sec: writer@, cache: cache@, t: start as int }),
            start < t ==> choice_at(job, cache@, start as int) is Literal && literal_end(
                job,
                cache@,
                start + 1,
            ) == literal_end(job, cache@, t as int),
        decreases win.len() - t,
    {
        let here = dict.len() + t;
        let p = pick(&index, dict, win, look, interleaved, cache, t);
        match p {
            Pick::Literal => {
                proof {
                    lemma_literal_end_next(job, cache@, t as int);
                }
                index.extend(dict, win, limit, here, here + 1);
                t = t + 1;
            },
            _ => {
                if start < t {
                    proof {
                        lemma_literal_end_here(job, cache@, t as int);
                        lemma_emit_rest_unfold(job, Emitter { sec: writer@, cache: cache@, t: start as int });
                    }
                    write_literals(&mut writer, dict, win, look, interleaved, cache, start, t);
                }
                proof {
                    lemma_emit_rest_unfold(job, Emitter { sec: writer@, cache: cache@, t: t as int });
                }
                let n = write_pick(&mut writer, cache, dict, win, look, interleaved, t, p);
                index.extend(dict, win, limit, here, here + n);
                t = t + n;
                start = t;
            },
        }
    }
    if start < t {
        proof {
            lemma_literal_end_here(job, cache@, t as int);
            lemma_emit_rest_unfold(job, Emitter { sec: writer@, cache: cache@, t: start as int });
        }
        write_literals(&mut writer, dict, win, look, interleaved, cache, start, t);
    }
    proof {
        lemma_emit_rest_done(job, Emitter { sec: writer@, cache: cache@, t: t as int });
    }
    writer
}

/// Writes the header of a window whose source is the whole dictionary.
fn write_window_header(dict_len: usize, win: &[u8], with_checksum: bool, out: &mut Vec<u8>)
    ensures
        final(out)@ == old(out)@ + window_header_bytes(dict_len as nat, win@, with_checksum),
{
    out.push(SOURCE_DICTIONARY);
    write_varint(0, out);
    write_varint(dict_len as u64, out);
    write_varint(win.len() as u64, out);
    if with_checksum {
        write_be32(checksum(win), out);
    }
    proof {
        assert(out@ =~= old(out)@ + window_header_bytes(dict_len as nat, win@, with_checksum));
    }
}

/// Appends one window to `out`: its header, then the sections that
/// `encode_window` writes for it.
fn write_window(
    dict: &[u8],
    win: &[u8],
    look: bool,
    flags: &HeaderFlags,
    cache: &mut AddressCache,
    out: &mut Vec<u8>,
)
    requires
        dict.len() + win.len() <= usize::MAX,
        old(cache)@.wf(),
    ensures
        final(out)@ == old(out)@ + window_bytes(
            WindowJob { dict: dict@, win: win@, look, interleaved: flags.interleaved },
            flags.checksum,
            old(cache)@,
        ),
        final(cache)@ == emit_rest(
            WindowJob { dict: dict@, win: win@, look, interleaved: flags.interleaved },
            Emitter::start(flags.interleaved, old(cache)@),
        ).cache,
        final(cache)@.wf(),
{
    let ghost job = WindowJob { dict: dict@, win: win@, look, interleaved: flags.interleaved };
    let ghost before = cache@;
    proof {
        reveal(window_bytes);
    }
    write_window_header(dict.len(), win, flags.checksum, out);
    let writer = encode_window(dict, win, look, flags.interleaved, cache);
    writer.write_sections(out);
    proof {
        assert(out@ =~= old(out)@ + window_bytes(job, flags.checksum, before));
    }
}

/// The windows from `pos` on are the window at `pos` and then the windows
/// from its end on.
proof fn lemma_windows_from_unfold(
    dict: Seq<u8>,
    target: Seq<u8>,
    pos: int,
    window_size: int,
    look: bool,
    flags: HeaderFlags,
    cache: CacheState,
)
    requires
        0 <= pos < target.len(),
        window_size > 0,
    ensures
        ({
            let job = job_at(dict, target, pos, window_size, look, flags.interleaved);
            windows_from(dict, target, pos, window_size, look, flags, cache) == window_bytes(
                job,
                flags.checksum,
                cache,
            ) + windows_from(
                dict,
                target,
                pos + job.win.len(),
                window_size,
                look,
                flags,
                emit_rest(job, Emitter::start(flags.interleaved, cache)).cache,
            )
        }),
{
}

/// Encodes `target` against `dictionary` as a delta in binary form, with at
/// most `window_size` target bytes in each window.
pub fn encode_binary(
    dictionary: &[u8],
    target: &[u8],
    window_size: usize,
    look: bool,
    flags: HeaderFlags,
) -> (delta: Vec<u8>)
    requires
        dictionary.len() + target.len() <= usize::MAX,
        window_size > 0,
    ensures
        delta@ == binary_delta(dictionary@, target@, window_size as int, look, flags),
{
    let mut out: Vec<u8> = Vec::new();
    write_header(&flags, &mut out);
    let mut cache = AddressCache::new();
    let mut pos: usize = 0;
    proof {
        assert(out@ =~= header_bytes(flags));
    }
    while pos < target.len()
        invariant
            pos <= target.len(),
            dictionary.len() + target.len() <= usize::MAX,
            window_size > 0,
            cache@.wf(),
            out@ + windows_from(
                dictionary@,
                target@,
                pos as int,
                window_size as int,
                look,
                flags,
                cache@,
            ) == binary_delta(dictionary@, target@, window_size as int, look, flags),
        decreases target.len() - pos,
    {
        let n = if target.len() - pos < window_size {
            target.len() - pos
        } else {
            window_size
        };
        let win = &target[pos..pos + n];
        let ghost job = job_at(dictionary@, target@, pos as int, window_size as int, look, flags.interleaved);
        let ghost before = cache@;
        let ghost had = out@;
        proof {
            lemma_windows_from_unfold(
                dictionary@,
                target@,
                pos as int,
                window_size as int,
                look,
                flags,
                before,
            );
        }
        write_window(dictionary, win, look, &flags, &mut cache, &mut out);
        proof {
            let w = window_bytes(job, flags.checksum, before);
            let rest = windows_from(
                dictionary@,
                target@,
                pos + n,
                window_size as int,
                look,
                flags,
                cache@,
            );
            assert((had + w) + rest =~= had + (w + rest));
        }
        pos = pos + n;
    }
    proof {
        assert(windows_from(
            dictionary@,
            target@,
            pos as int,
            window_size as int,
            look,
            flags,
            cache@,
        ) =~= Seq::<u8>::empty());
        assert(out@ + Seq::<u8>::empty() =~= out@);
    }
    out
}

} // verus!
