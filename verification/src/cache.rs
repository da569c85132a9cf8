//! The address cache: the "near" ring of recent addresses and the "same"
//! table indexed by address, with which COPY addresses are written in fewer
//! bytes. Encoder and decoder update it alike, so both always hold the same.

use vstd::prelude::*;

verus! {

/// The number of slots in the near ring.
pub const NEAR_SIZE: usize = 4;

/// The number of slots in the same table: three groups of 256.
pub const SAME_SIZE: usize = 768;

/// The address is written as it is.
pub const MODE_SELF: u8 = 0;

/// The address is written as its distance back from the current position.
pub const MODE_HERE: u8 = 1;

/// The first of the four near modes: the distance on from a near slot.
pub const MODE_NEAR: u8 = 2;

/// The first of the three same modes: one byte that picks a slot of a group.
pub const MODE_SAME: u8 = 6;

/// The last mode.
pub const MODE_LAST: u8 = 8;

/// What a cache holds.
pub struct CacheState {
    pub near: Seq<u64>,
    pub slot: int,
    pub same: Seq<u64>,
}

impl CacheState {
    pub open spec fn wf(self) -> bool {
        &&& self.near.len() == NEAR_SIZE
        &&& self.same.len() == SAME_SIZE
        &&& 0 <= self.slot < NEAR_SIZE
    }

    /// The cache of a new session: every slot holds address 0.
    pub open spec fn initial() -> CacheState {
        CacheState {
            near: Seq::new(NEAR_SIZE as nat, |i: int| 0u64),
            slot: 0,
            same: Seq::new(SAME_SIZE as nat, |i: int| 0u64),
        }
    }

    /// The cache after a COPY from `addr`, whatever mode wrote the address.
    pub open spec fn update(self, addr: u64) -> CacheState {
        CacheState {
            near: self.near.update(self.slot, addr),
            slot: (self.slot + 1) % NEAR_SIZE as int,
            same: self.same.update(addr as int % SAME_SIZE as int, addr),
        }
    }

    /// Whether the same table holds `addr` in the slot that belongs to it.
    pub open spec fn remembers(self, addr: u64) -> bool {
        self.same[addr as int % SAME_SIZE as int] == addr
    }

    /// The address that `value` stands for in `mode` at position `here`, if
    /// the mode exists and the address lies below `here`.
    pub open spec fn resolve(self, mode: u8, value: u64, here: int) -> Option<u64> {
        let a: int = if mode == MODE_SELF {
            value as int
        } else if mode == MODE_HERE {
            here - value
        } else if mode < MODE_SAME {
            self.near[mode - MODE_NEAR] + value
        } else if mode <= MODE_LAST && value < 256 {
            self.same[(mode - MODE_SAME) * 256 + value] as int
        } else {
            -1
        };
        if 0 <= a < here && a <= u64::MAX {
            Some(a as u64)
        } else {
            None
        }
    }

    /// Among the first `n` near slots that do not lie above `addr`, the one
    /// closest to it, the lowest slot where two are as close; -1 if none.
    pub open spec fn nearest(self, addr: u64, n: int) -> int
        decreases n,
    {
        if n <= 0 {
            -1
        } else {
            let prev = self.nearest(addr, n - 1);
            let i = n - 1;
            if self.near[i] <= addr && (prev < 0 || addr - self.near[i] < addr - self.near[prev]) {
                i
            } else {
                prev
            }
        }
    }

    /// Of the distance back from `here` and the address itself, the smaller,
    /// with its mode.
    pub open spec fn plain(addr: u64, here: int) -> (u8, u64) {
        if here - addr < addr {
            (MODE_HERE, (here - addr) as u64)
        } else {
            (MODE_SELF, addr)
        }
    }

    /// The mode and value written for `addr` at position `here`: a same-table
    /// hit first; else the nearest near slot, where that is no longer than
    /// the plain forms; else the shorter plain form.
    pub open spec fn written(self, addr: u64, here: int) -> (u8, u64) {
        if self.remembers(addr) {
            ((MODE_SAME + (addr as int % SAME_SIZE as int) / 256) as u8, (addr as int % 256) as u64)
        } else {
            let i = self.nearest(addr, NEAR_SIZE as int);
            let p = Self::plain(addr, here);
            if i >= 0 && addr - self.near[i] <= p.1 {
                ((MODE_NEAR + i) as u8, (addr - self.near[i]) as u64)
            } else {
                p
            }
        }
    }
}

pub proof fn lemma_nearest_range(c: CacheState, addr: u64, n: int)
    requires
        c.wf(),
        0 <= n <= NEAR_SIZE,
    ensures
        -1 <= c.nearest(addr, n) < n,
        c.nearest(addr, n) >= 0 ==> c.near[c.nearest(addr, n)] <= addr,
    decreases n,
{
    if n > 0 {
        lemma_nearest_range(c, addr, n - 1);
    }
}

/// What is written for an address resolves to that address, on a cache in the
/// same state.
pub proof fn lemma_written_resolves(c: CacheState, addr: u64, here: int)
    requires
        c.wf(),
        addr < here <= u64::MAX,
    ensures
        c.written(addr, here).0 <= MODE_LAST,
        c.resolve(c.written(addr, here).0, c.written(addr, here).1, here) == Some(addr),
        c.written(addr, here).0 >= MODE_SAME ==> c.written(addr, here).1 < 256,
        c.written(addr, here).1 <= here,
{
    lemma_nearest_range(c, addr, 4);
    if c.remembers(addr) {
        let r = addr as int % 768;
        assert((r / 256) * 256 + r % 256 == r);
        assert(r % 256 == addr as int % 256) by {
            assert(addr as int == 768 * (addr as int / 768) + r);
            assert(addr as int % 256 == (256 * (3 * (addr as int / 768)) + r) % 256);
            vstd::arithmetic::div_mod::lemma_mod_multiples_vanish(3 * (addr as int / 768), r, 256);
        }
    }
}

pub proof fn lemma_update_wf(c: CacheState, addr: u64)
    requires
        c.wf(),
    ensures
        c.update(addr).wf(),
{
}

/// The address cache of one session.
pub struct AddressCache {
    near: Vec<u64>,
    slot: usize,
    same: Vec<u64>,
}

impl View for AddressCache {
    type V = CacheState;

    closed spec fn view(&self) -> CacheState {
        CacheState { near: self.near@, slot: self.slot as int, same: self.same@ }
    }
}

impl AddressCache {
    /// The cache of a new session.
    pub fn new() -> (cache: AddressCache)
        ensures
            cache@ == CacheState::initial(),
            cache@.wf(),
    {
        let mut near: Vec<u64> = Vec::new();
        let mut same: Vec<u64> = Vec::new();
        let mut i: usize = 0;
        while i < NEAR_SIZE
            invariant
                i <= NEAR_SIZE,
                near@.len() == i,
                forall|k: int| 0 <= k < i ==> near@[k] == 0,
            decreases NEAR_SIZE - i,
        {
            near.push(0);
            i = i + 1;
        }
        let mut j: usize = 0;
        while j < SAME_SIZE
            invariant
                j <= SAME_SIZE,
                same@.len() == j,
                forall|k: int| 0 <= k < j ==> same@[k] == 0,
            decreases SAME_SIZE - j,
        {
            same.push(0);
            j = j + 1;
        }
        let cache = AddressCache { near, slot: 0, same };
        assert(cache@.near =~= CacheState::initial().near);
        assert(cache@.same =~= CacheState::initial().same);
        cache
    }

    /// Records `addr`, the address of a COPY just written or carried out, in
    /// both the near ring and the same table.
    pub fn update(&mut self, addr: u64)
        requires
            old(self)@.wf(),
        ensures
            final(self)@ == old(self)@.update(addr),
            final(self)@.wf(),
    {
        let slot = self.slot;
        self.near[slot] = addr;
        self.slot = (slot + 1) % NEAR_SIZE;
        self.same[(addr % SAME_SIZE as u64) as usize] = addr;
    }

    /// Whether the same table holds `addr` in the slot that belongs to it.
    pub fn remembers(&self, addr: u64) -> (r: bool)
        requires
            self@.wf(),
        ensures
            r == self@.remembers(addr),
    {
        self.same[(addr % SAME_SIZE as u64) as usize] == addr
    }

    /// The mode and value to write for a COPY from `addr` at position `here`.
    pub fn encode_address(&self, addr: u64, here: u64) -> (r: (u8, u64))
        requires
            self@.wf(),
            addr < here,
        ensures
            r == self@.written(addr, here as int),
            self@.resolve(r.0, r.1, here as int) == Some(addr),
    {
        proof {
            lemma_written_resolves(self@, addr, here as int);
        }
        let index = (addr % SAME_SIZE as u64) as usize;
        if self.same[index] == addr {
            return (MODE_SAME + (index / 256) as u8, addr % 256);
        }
        let mut best: usize = NEAR_SIZE;
        let mut i: usize = 0;
        while i < NEAR_SIZE
            invariant
                i <= NEAR_SIZE,
                self@.wf(),
                best <= NEAR_SIZE,
                best < NEAR_SIZE ==> best < i && self@.near[best as int] <= addr,
                self@.nearest(addr, i as int) == (if best == NEAR_SIZE { -1 } else { best as int }),
            decreases NEAR_SIZE - i,
        {
            let n = self.near[i];
            if n <= addr && (best == NEAR_SIZE || addr - n < addr - self.near[best]) {
                best = i;
            }
            i = i + 1;
        }
        let back = here - addr;
        let plain: (u8, u64) = if back < addr { (MODE_HERE, back) } else { (MODE_SELF, addr) };
        if best < NEAR_SIZE && addr - self.near[best] <= plain.1 {
            (MODE_NEAR + best as u8, addr - self.near[best])
        } else {
            plain
        }
    }

    /// The address that `value` stands for in `mode` at position `here`, or
    /// `None` where the mode does not exist or the address is not below
    /// `here`.
    pub fn decode_address(&self, mode: u8, value: u64, here: u64) -> (r: Option<u64>)
        requires
            self@.wf(),
        ensures
            r == self@.resolve(mode, value, here as int),
    {
        if mode == MODE_SELF {
            if value < here {
                Some(value)
            } else {
                None
            }
        } else if mode == MODE_HERE {
            if 0 < value && value <= here {
                Some(here - value)
            } else {
                None
            }
        } else if mode < MODE_SAME {
            let base = self.near[(mode - MODE_NEAR) as usize];
            if base < here && value < here - base {
                Some(base + value)
            } else {
                None
            }
        } else if mode <= MODE_LAST && value < 256 {
            let a = self.same[(mode - MODE_SAME) as usize * 256 + value as usize];
            if a < here {
                Some(a)
            } else {
                None
            }
        } else {
            None
        }
    }
}

} // verus!
