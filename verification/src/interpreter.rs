//! Carrying out the instructions of one window: reading opcodes, sizes,
//! addresses and literal data from the three sections, and building the
//! window's target bytes from them.

use vstd::prelude::*;
use crate::cache::{AddressCache, CacheState, MODE_SAME};
use crate::codetable::{instruction_for, table_entry, InstructionKind, TableEntry};
use crate::format::{extends, lemma_extends_index, lemma_extends_subrange};
use crate::varint::{
    lemma_pow128_values,
    lemma_scan_bounds,
    lemma_scan_stable,
    parse_varint,
    read_varint,
    Varint,
};

verus! {

/// The three sections of a window. In the interleaved layout all three are
/// the same bytes, read through one position.
pub struct Sections {
    pub inst: Seq<u8>,
    pub addr: Seq<u8>,
    pub data: Seq<u8>,
    pub interleaved: bool,
}

impl Sections {
    pub open spec fn wf(self) -> bool {
        &&& self.interleaved ==> self.addr == self.inst && self.data == self.inst
        &&& self.inst.len() <= usize::MAX
        &&& self.addr.len() <= usize::MAX
        &&& self.data.len() <= usize::MAX
    }
}

/// The state between two instructions: how far each section has been read,
/// the target bytes built so far, and the address cache.
pub struct Machine {
    pub ip: int,
    pub ap: int,
    pub dp: int,
    pub out: Seq<u8>,
    pub cache: CacheState,
}

impl Machine {
    /// The state before the first instruction of a window.
    pub open spec fn start(cache: CacheState) -> Machine {
        Machine { ip: 0, ap: 0, dp: 0, out: Seq::<u8>::empty(), cache }
    }

    pub open spec fn wf(self, sec: Sections) -> bool {
        &&& 0 <= self.ip <= sec.inst.len()
        &&& 0 <= self.ap <= sec.addr.len()
        &&& 0 <= self.dp <= sec.data.len()
        &&& sec.interleaved ==> self.ap == self.ip && self.dp == self.ip
        &&& self.cache.wf()
    }

    /// The state after the instruction section was read up to `p`.
    pub open spec fn past_inst(self, sec: Sections, p: int) -> Machine {
        if sec.interleaved {
            Machine { ip: p, ap: p, dp: p, ..self }
        } else {
            Machine { ip: p, ..self }
        }
    }

    /// The state after the address section was read up to `p`.
    pub open spec fn past_addr(self, sec: Sections, p: int) -> Machine {
        if sec.interleaved {
            Machine { ip: p, ap: p, dp: p, ..self }
        } else {
            Machine { ap: p, ..self }
        }
    }

    /// The state after the data section was read up to `p`.
    pub open spec fn past_data(self, sec: Sections, p: int) -> Machine {
        if sec.interleaved {
            Machine { ip: p, ap: p, dp: p, ..self }
        } else {
            Machine { dp: p, ..self }
        }
    }
}

/// The byte at `a` of the address space: the source, then the target so far.
pub open spec fn byte_at(source: Seq<u8>, out: Seq<u8>, a: int) -> u8 {
    if a < source.len() {
        source[a]
    } else {
        out[a - source.len()]
    }
}

/// The target after `n` bytes were copied from address `a` on, one byte at a
/// time, so that a copy may read what it has just written.
pub open spec fn copied(source: Seq<u8>, out: Seq<u8>, a: int, n: nat) -> Seq<u8>
    decreases n,
{
    if n == 0 {
        out
    } else {
        copied(source, out.push(byte_at(source, out, a)), a + 1, (n - 1) as nat)
    }
}

pub proof fn lemma_copied_len(source: Seq<u8>, out: Seq<u8>, a: int, n: nat)
    ensures
        copied(source, out, a, n).len() == out.len() + n,
    decreases n,
{
    if n != 0 {
        lemma_copied_len(source, out.push(byte_at(source, out, a)), a + 1, (n - 1) as nat);
    }
}

/// The size of the instruction at `m.ip` and the state after opcode and size
/// were read, or `None` where an explicit size is cut off or overlong.
pub open spec fn read_size(sec: Sections, m: Machine, e: TableEntry) -> Option<(u64, Machine)> {
    if e.size != 0 {
        Some((e.size as u64, m.past_inst(sec, m.ip + 1)))
    } else {
        match parse_varint(sec.inst, m.ip + 1) {
            Varint::Value { value, next } => Some((value, m.past_inst(sec, next as int))),
            _ => None,
        }
    }
}

/// ADD: the next `size` bytes of the data section go to the target.
pub open spec fn apply_add(sec: Sections, m: Machine, size: u64) -> Option<Machine> {
    if m.dp + size > sec.data.len() {
        None
    } else {
        Some(
            Machine { out: m.out + sec.data.subrange(m.dp, m.dp + size), ..m }.past_data(
                sec,
                m.dp + size,
            ),
        )
    }
}

/// RUN: the next byte of the data section goes to the target `size` times.
pub open spec fn apply_run(sec: Sections, m: Machine, size: u64) -> Option<Machine> {
    if m.dp >= sec.data.len() {
        None
    } else {
        Some(
            Machine { out: m.out + Seq::new(size as nat, |i: int| sec.data[m.dp]), ..m }.past_data(
                sec,
                m.dp + 1,
            ),
        )
    }
}

/// The value that stands for a COPY address at `m.ap`, and the position after
/// it: one byte in the same modes, an integer in the others.
pub open spec fn read_address(sec: Sections, m: Machine, mode: u8) -> Option<(u64, int)> {
    if mode >= MODE_SAME {
        if m.ap >= sec.addr.len() {
            None
        } else {
            Some((sec.addr[m.ap] as u64, m.ap + 1))
        }
    } else {
        match parse_varint(sec.addr, m.ap) {
            Varint::Value { value, next } => Some((value, next as int)),
            _ => None,
        }
    }
}

/// COPY: `size` bytes from the address that the address section names go to
/// the target, and the address goes into the cache.
pub open spec fn apply_copy(source: Seq<u8>, sec: Sections, m: Machine, mode: u8, size: u64) -> Option<
    Machine,
> {
    match read_address(sec, m, mode) {
        None => None,
        Some((value, next)) => match m.cache.resolve(mode, value, (source.len() + m.out.len()) as int) {
            None => None,
            Some(a) => Some(
                Machine {
                    out: copied(source, m.out, a as int, size as nat),
                    cache: m.cache.update(a),
                    ..m
                }.past_addr(sec, next),
            ),
        },
    }
}

/// The state after the instruction at `m.ip`, or `None` where the
/// instruction is malformed: an unassigned opcode, a size or address that is
/// cut off or overlong, more bytes than the window announced, data that the
/// data section does not hold, or an address that is not below the current
/// position.
pub open spec fn step(source: Seq<u8>, target_len: int, sec: Sections, m: Machine) -> Option<Machine> {
    if !(0 <= m.ip < sec.inst.len()) {
        None
    } else {
        match table_entry(sec.inst[m.ip]) {
            None => None,
            Some(e) => match read_size(sec, m, e) {
                None => None,
                Some((size, m1)) => if m.out.len() + size > target_len {
                    None
                } else {
                    match e.kind {
                        InstructionKind::Add => apply_add(sec, m1, size),
                        InstructionKind::Run => apply_run(sec, m1, size),
                        InstructionKind::Copy => apply_copy(source, sec, m1, e.mode, size),
                    }
                },
            },
        }
    }
}

/// The state after all instructions from `m.ip` to the end of the
/// instruction section, or `None` where one of them is malformed.
pub open spec fn run(source: Seq<u8>, target_len: int, sec: Sections, m: Machine) -> Option<Machine>
    decreases sec.inst.len() - m.ip,
{
    if m.ip >= sec.inst.len() {
        Some(m)
    } else {
        match step(source, target_len, sec, m) {
            None => None,
            Some(m2) => if m2.ip <= m.ip || m2.ip > sec.inst.len() {
                None
            } else {
                run(source, target_len, sec, m2)
            },
        }
    }
}

/// Whether `m` is the state of a window carried out in full: all three
/// sections read to their ends, and the target as long as announced.
pub open spec fn complete(target_len: int, sec: Sections, m: Machine) -> bool {
    &&& m.out.len() == target_len
    &&& m.ip == sec.inst.len()
    &&& m.ap == sec.addr.len()
    &&& m.dp == sec.data.len()
}

/// The target bytes of a window and the cache after it, or `None` where an
/// instruction is malformed, a section is not used up, or the target does
/// not have the announced length.
pub open spec fn execute(source: Seq<u8>, target_len: int, sec: Sections, cache: CacheState) -> Option<
    (Seq<u8>, CacheState),
> {
    match run(source, target_len, sec, Machine::start(cache)) {
        Some(m) => if complete(target_len, sec, m) {
            Some((m.out, m.cache))
        } else {
            None
        },
        None => None,
    }
}

/// An instruction moves the instruction position on, keeps every position
/// within its section, and adds to the target without changing what is there.
pub proof fn lemma_step_advances(source: Seq<u8>, target_len: int, sec: Sections, m: Machine)
    requires
        sec.wf(),
        m.wf(sec),
        step(source, target_len, sec, m) is Some,
    ensures
        step(source, target_len, sec, m)->0.wf(sec),
        step(source, target_len, sec, m)->0.ip > m.ip,
        step(source, target_len, sec, m)->0.out.len() <= target_len,
        step(source, target_len, sec, m)->0.out.len() >= m.out.len(),
{
    lemma_pow128_values();
    let e = table_entry(sec.inst[m.ip])->0;
    let (size, m1) = read_size(sec, m, e)->0;
    if e.size == 0 {
        lemma_scan_bounds(sec.inst, m.ip + 1, 0, 0);
    }
    assert(m1.wf(sec));
    assert(m1.ip > m.ip);
    match e.kind {
        InstructionKind::Add => {},
        InstructionKind::Run => {},
        InstructionKind::Copy => {
            let (value, next) = read_address(sec, m1, e.mode)->0;
            if e.mode < MODE_SAME {
                lemma_scan_bounds(sec.addr, m1.ap, 0, 0);
            }
            let a = m1.cache.resolve(e.mode, value, (source.len() + m1.out.len()) as int)->0;
            lemma_copied_len(source, m1.out, a as int, size as nat);
        },
    }
}

/// The positions of an interpreter within the three sections.
pub struct Positions {
    pub ip: usize,
    pub ap: usize,
    pub dp: usize,
}

impl Positions {
    pub open spec fn machine(self, out: Seq<u8>, cache: CacheState) -> Machine {
        Machine { ip: self.ip as int, ap: self.ap as int, dp: self.dp as int, out, cache }
    }
}

/// Appends to `out` the `n` bytes found from address `a` on in the address
/// space made of `source` and `out` itself.
pub fn copy_bytes(source: &[u8], out: &mut Vec<u8>, a: usize, n: usize)
    requires
        a < source.len() + old(out).len(),
    ensures
        final(out)@ == copied(source@, old(out)@, a as int, n as nat),
{
    let mut i: usize = 0;
    while i < n
        invariant
            i <= n,
            out.len() == old(out).len() + i,
            a < source.len() + old(out).len(),
            copied(source@, old(out)@, a as int, n as nat) == copied(
                source@,
                out@,
                a + i,
                (n - i) as nat,
            ),
        decreases n - i,
    {
        let b = if a < source.len() {
            if i < source.len() - a {
                source[a + i]
            } else {
                out[i - (source.len() - a)]
            }
        } else {
            out[(a - source.len()) + i]
        };
        assert(b == byte_at(source@, out@, a + i));
        out.push(b);
        i = i + 1;
    }
}

/// Appends `n` copies of `b` to `out`.
pub fn repeat_byte(b: u8, n: usize, out: &mut Vec<u8>)
    ensures
        final(out)@ == old(out)@ + Seq::new(n as nat, |i: int| b),
{
    let mut i: usize = 0;
    while i < n
        invariant
            i <= n,
            out@ =~= old(out)@ + Seq::new(i as nat, |k: int| b),
        decreases n - i,
    {
        out.push(b);
        i = i + 1;
    }
}

/// Carries out the instruction at `pos.ip`. Returns whether it was well
/// formed; if not, the window is to be given up.
pub fn step_window(
    source: &[u8],
    target_len: usize,
    inst: &[u8],
    addr: &[u8],
    data: &[u8],
    interleaved: bool,
    pos: &mut Positions,
    cache: &mut AddressCache,
    out: &mut Vec<u8>,
) -> (ok: bool)
    requires
        source.len() + target_len <= usize::MAX,
        interleaved ==> addr@ == inst@ && data@ == inst@,
        old(pos).machine(old(out)@, old(cache)@).wf(
            Sections { inst: inst@, addr: addr@, data: data@, interleaved },
        ),
        old(pos).ip < inst.len(),
        old(out).len() <= target_len,
    ensures
        ok == step(
            source@,
            target_len as int,
            Sections { inst: inst@, addr: addr@, data: data@, interleaved },
            old(pos).machine(old(out)@, old(cache)@),
        ) is Some,
        ok ==> final(pos).machine(final(out)@, final(cache)@) == step(
            source@,
            target_len as int,
            Sections { inst: inst@, addr: addr@, data: data@, interleaved },
            old(pos).machine(old(out)@, old(cache)@),
        )->0,
        ok ==> final(pos).machine(final(out)@, final(cache)@).wf(
            Sections { inst: inst@, addr: addr@, data: data@, interleaved },
        ),
        ok ==> final(pos).ip > old(pos).ip && final(out).len() <= target_len,
        final(cache)@.wf(),
{
    let ghost sec = Sections { inst: inst@, addr: addr@, data: data@, interleaved };
    let ghost m = pos.machine(out@, cache@);
    proof {
        lemma_pow128_values();
        assert(inst@.len() == inst.len() && addr@.len() == addr.len() && data@.len() == data.len());
        if step(source@, target_len as int, sec, m) is Some {
            lemma_step_advances(source@, target_len as int, sec, m);
        }
    }
    let entry = match instruction_for(inst[pos.ip]) {
        None => {
            return false;
        },
        Some(e) => e,
    };
    let size: u64;
    let after: usize;
    if entry.size != 0 {
        size = entry.size as u64;
        after = pos.ip + 1;
    } else {
        match read_varint(inst, pos.ip + 1) {
            Varint::Value { value, next } => {
                size = value;
                after = next;
                proof {
                    lemma_scan_bounds(inst@, pos.ip + 1, 0, 0);
                }
            },
            _ => {
                return false;
            },
        }
    }
    pos.ip = after;
    if interleaved {
        pos.ap = after;
        pos.dp = after;
    }
    let ghost m1 = pos.machine(out@, cache@);
    assert(read_size(sec, m, entry) == Some((size, m1)));
    if size > (target_len - out.len()) as u64 {
        return false;
    }
    let n = size as usize;
    match entry.kind {
        InstructionKind::Add => {
            if n > data.len() - pos.dp {
                return false;
            }
            let piece = &data[pos.dp..pos.dp + n];
            assert(piece@ == data@.subrange(pos.dp as int, pos.dp + n));
            out.extend_from_slice(piece);
            assert(out@ == m1.out + sec.data.subrange(m1.dp, m1.dp + size));
            pos.dp = pos.dp + n;
            if interleaved {
                pos.ip = pos.dp;
                pos.ap = pos.dp;
            }
            assert(pos.machine(out@, cache@) == apply_add(sec, m1, size)->0);
            true
        },
        InstructionKind::Run => {
            if pos.dp >= data.len() {
                return false;
            }
            repeat_byte(data[pos.dp], n, out);
            assert(out@ =~= m1.out + Seq::new(size as nat, |i: int| sec.data[m1.dp]));
            pos.dp = pos.dp + 1;
            if interleaved {
                pos.ip = pos.dp;
                pos.ap = pos.dp;
            }
            assert(pos.machine(out@, cache@) == apply_run(sec, m1, size)->0);
            true
        },
        InstructionKind::Copy => {
            let value: u64;
            let next: usize;
            if entry.mode >= MODE_SAME {
                if pos.ap >= addr.len() {
                    return false;
                }
                value = addr[pos.ap] as u64;
                next = pos.ap + 1;
            } else {
                match read_varint(addr, pos.ap) {
                    Varint::Value { value: v, next: p } => {
                        value = v;
                        next = p;
                        proof {
                            lemma_scan_bounds(addr@, pos.ap as int, 0, 0);
                        }
                    },
                    _ => {
                        return false;
                    },
                }
            }
            assert(read_address(sec, m1, entry.mode) == Some((value, next as int)));
            let here = (source.len() + out.len()) as u64;
            match cache.decode_address(entry.mode, value, here) {
                None => {
                    return false;
                },
                Some(a) => {
                    copy_bytes(source, out, a as usize, n);
                    cache.update(a);
                    pos.ap = next;
                    if interleaved {
                        pos.ip = next;
                        pos.dp = next;
                    }
                    assert(pos.machine(out@, cache@) == apply_copy(
                        source@,
                        sec,
                        m1,
                        entry.mode,
                        size,
                    )->0);
                    true
                },
            }
        },
    }
}

/// Carries out all instructions of a window, appending its target bytes to
/// `out`. Returns whether the window was well formed and complete; if not,
/// `out` and `cache` hold nothing of use.
pub fn execute_window(
    source: &[u8],
    target_len: usize,
    inst: &[u8],
    addr: &[u8],
    data: &[u8],
    interleaved: bool,
    cache: &mut AddressCache,
    out: &mut Vec<u8>,
) -> (ok: bool)
    requires
        source.len() + target_len <= usize::MAX,
        interleaved ==> addr@ == inst@ && data@ == inst@,
        old(cache)@.wf(),
        old(out)@.len() == 0,
    ensures
        ok == execute(
            source@,
            target_len as int,
            Sections { inst: inst@, addr: addr@, data: data@, interleaved },
            old(cache)@,
        ) is Some,
        ok ==> (final(out)@, final(cache)@) == execute(
            source@,
            target_len as int,
            Sections { inst: inst@, addr: addr@, data: data@, interleaved },
            old(cache)@,
        )->0,
        final(cache)@.wf(),
{
    let ghost sec = Sections { inst: inst@, addr: addr@, data: data@, interleaved };
    let ghost start = Machine::start(cache@);
    let mut pos = Positions { ip: 0, ap: 0, dp: 0 };
    assert(out@ =~= Seq::<u8>::empty());
    assert(inst@.len() == inst.len() && addr@.len() == addr.len() && data@.len() == data.len());
    while pos.ip < inst.len()
        invariant
            sec.wf(),
            start == Machine::start(old(cache)@),
            source.len() + target_len <= usize::MAX,
            interleaved ==> addr@ == inst@ && data@ == inst@,
            sec == (Sections { inst: inst@, addr: addr@, data: data@, interleaved }),
            pos.machine(out@, cache@).wf(sec),
            out.len() <= target_len,
            run(source@, target_len as int, sec, start) == run(
                source@,
                target_len as int,
                sec,
                pos.machine(out@, cache@),
            ),
        decreases inst.len() - pos.ip,
    {
        let ghost before = pos.machine(out@, cache@);
        let ok = step_window(source, target_len, inst, addr, data, interleaved, &mut pos, cache, out);
        if !ok {
            assert(run(source@, target_len as int, sec, before) is None);
            return false;
        }
        assert(run(source@, target_len as int, sec, before) == run(
            source@,
            target_len as int,
            sec,
            pos.machine(out@, cache@),
        ));
    }
    out.len() == target_len && pos.ap == addr.len() && pos.dp == data.len()
}

/// Carrying out instructions keeps the state well formed and the target
/// within the announced length.
pub proof fn lemma_run_wf(source: Seq<u8>, target_len: int, sec: Sections, m: Machine)
    requires
        sec.wf(),
        m.wf(sec),
        m.out.len() <= target_len,
        run(source, target_len, sec, m) is Some,
    ensures
        run(source, target_len, sec, m)->0.wf(sec),
        run(source, target_len, sec, m)->0.out.len() <= target_len,
        run(source, target_len, sec, m)->0.ip == sec.inst.len(),
    decreases sec.inst.len() - m.ip,
{
    if m.ip < sec.inst.len() {
        lemma_step_advances(source, target_len, sec, m);
        lemma_run_wf(source, target_len, sec, step(source, target_len, sec, m)->0);
    }
}

/// Whether each section of `big` begins with the section of `small`.
pub open spec fn sections_extend(big: Sections, small: Sections) -> bool {
    &&& big.interleaved == small.interleaved
    &&& extends(big.inst, small.inst)
    &&& extends(big.addr, small.addr)
    &&& extends(big.data, small.data)
}

/// An instruction that was well formed is carried out alike when bytes
/// follow its sections.
pub proof fn lemma_step_stable(
    source: Seq<u8>,
    target_len: int,
    small: Sections,
    big: Sections,
    m: Machine,
)
    requires
        small.wf(),
        sections_extend(big, small),
        m.wf(small),
        step(source, target_len, small, m) is Some,
    ensures
        step(source, target_len, big, m) == step(source, target_len, small, m),
{
    lemma_pow128_values();
    lemma_extends_index(big.inst, small.inst, m.ip);
    let e = table_entry(small.inst[m.ip])->0;
    if e.size == 0 {
        lemma_scan_stable(small.inst, big.inst, m.ip + 1, 0, 0);
        lemma_scan_bounds(small.inst, m.ip + 1, 0, 0);
    }
    let (size, m1) = read_size(small, m, e)->0;
    assert(read_size(big, m, e) == Some((size, m1)));
    match e.kind {
        InstructionKind::Add => {
            lemma_extends_subrange(big.data, small.data, m1.dp, m1.dp + size);
        },
        InstructionKind::Run => {
            lemma_extends_index(big.data, small.data, m1.dp);
            assert(Seq::new(size as nat, |i: int| big.data[m1.dp]) =~= Seq::new(
                size as nat,
                |i: int| small.data[m1.dp],
            ));
        },
        InstructionKind::Copy => {
            if e.mode >= MODE_SAME {
                lemma_extends_index(big.addr, small.addr, m1.ap);
            } else {
                lemma_scan_stable(small.addr, big.addr, m1.ap, 0, 0);
            }
            assert(read_address(big, m1, e.mode) == read_address(small, m1, e.mode));
        },
    }
}

/// Instructions that were well formed up to the end of their section are
/// carried out alike when bytes follow the sections; the rest goes on from
/// where they ended.
pub proof fn lemma_run_stable(
    source: Seq<u8>,
    target_len: int,
    small: Sections,
    big: Sections,
    m: Machine,
)
    requires
        small.wf(),
        sections_extend(big, small),
        m.wf(small),
        m.out.len() <= target_len,
        run(source, target_len, small, m) is Some,
    ensures
        run(source, target_len, big, m) == run(
            source,
            target_len,
            big,
            run(source, target_len, small, m)->0,
        ),
    decreases small.inst.len() - m.ip,
{
    if m.ip < small.inst.len() {
        lemma_step_advances(source, target_len, small, m);
        lemma_step_stable(source, target_len, small, big, m);
        let m2 = step(source, target_len, small, m)->0;
        lemma_run_stable(source, target_len, small, big, m2);
    } else {
        assert(run(source, target_len, small, m) == Some(m));
    }
}

} // verus!
