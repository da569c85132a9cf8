//! The block index with which the encoder finds earlier occurrences of the
//! bytes that it is about to write: every indexed position is chained to the
//! position before it whose block of four bytes falls in the same bucket.

use vstd::prelude::*;
use crate::cache::AddressCache;
use crate::encoding::{
    best_match,
    bucket_at,
    choice_at,
    indexable,
    latest,
    lemma_latest_props,
    match_len,
    same_run,
    walk,
    Choice,
    WindowJob,
    BLOCK_SIZE,
    BUCKETS,
    MAX_TRIES,
    MIN_COPY,
    MIN_RUN,
};

verus! {

/// The byte at `q` of the address space made of `dict` and then `win`.
pub fn space_byte(dict: &[u8], win: &[u8], q: usize) -> (b: u8)
    requires
        q < dict.len() + win.len(),
    ensures
        b == (dict@ + win@)[q as int],
{
    if q < dict.len() {
        dict[q]
    } else {
        win[q - dict.len()]
    }
}

/// The bucket of the block of four bytes at `q` of the address space.
pub fn bucket(dict: &[u8], win: &[u8], q: usize) -> (b: usize)
    requires
        dict.len() + win.len() <= usize::MAX,
        q + BLOCK_SIZE <= dict.len() + win.len(),
    ensures
        b == bucket_at(dict@ + win@, q as int),
        b < BUCKETS,
{
    let b0 = space_byte(dict, win, q) as u32;
    let b1 = space_byte(dict, win, q + 1) as u32;
    let b2 = space_byte(dict, win, q + 2) as u32;
    let b3 = space_byte(dict, win, q + 3) as u32;
    let h: u32 = b0 * 0x100_0000 + b1 * 0x1_0000 + b2 * 0x100 + b3;
    (h % BUCKETS as u32) as usize
}

/// How many bytes from `c` on equal those from `h` on, where the former stay
/// below `limit`.
pub fn match_length(dict: &[u8], win: &[u8], c: usize, h: usize, limit: usize) -> (n: usize)
    requires
        dict.len() + win.len() <= usize::MAX,
        limit <= dict.len() + win.len(),
        c < h,
    ensures
        n == match_len(dict@ + win@, c as int, h as int, limit as int),
{
    let total = dict.len() + win.len();
    if h >= total || c >= limit {
        return 0;
    }
    let room = if total - h < limit - c {
        total - h
    } else {
        limit - c
    };
    let mut n: usize = 0;
    while n < room && space_byte(dict, win, c + n) == space_byte(dict, win, h + n)
        invariant
            total == dict.len() + win.len(),
            limit <= total,
            c < h < total,
            c < limit,
            room <= total - h,
            room <= limit - c,
            room == total - h || room == limit - c,
            n <= room,
            match_len(dict@ + win@, c as int, h as int, limit as int) == n + match_len(
                dict@ + win@,
                c + n,
                h + n,
                limit as int,
            ),
        decreases room - n,
    {
        n = n + 1;
    }
    n
}

/// How many bytes of `win` from `t` on equal the byte at `t`.
pub fn run_length(win: &[u8], t: usize) -> (n: usize)
    requires
        t < win.len(),
    ensures
        n == same_run(win@, t as int, t as int),
{
    let mut n: usize = 0;
    while n < win.len() - t && win[t + n] == win[t]
        invariant
            t < win.len(),
            n <= win.len() - t,
            same_run(win@, t as int, t as int) == n + same_run(win@, t as int, t + n),
        decreases win.len() - n,
    {
        n = n + 1;
    }
    n
}

/// The index of the blocks of an address space. `heads` holds for each
/// bucket the last indexed position, `links` for each indexed position the
/// one before it in its bucket, both plus one, with 0 for none.
pub struct BlockIndex {
    heads: Vec<usize>,
    links: Vec<usize>,
}

impl BlockIndex {
    /// Whether the index holds exactly the indexable positions below `n` of
    /// the address space `u`.
    pub closed spec fn covers(&self, u: Seq<u8>, limit: int, n: int) -> bool {
        &&& self.heads@.len() == BUCKETS
        &&& self.links@.len() == u.len()
        &&& limit <= u.len()
        &&& 0 <= n <= u.len()
        &&& forall|b: int|
            0 <= b < BUCKETS ==> #[trigger] self.heads@[b] == latest(u, limit, b, n) + 1
        &&& forall|q: int|
            0 <= q < n && indexable(limit, q) ==> #[trigger] self.links@[q] == latest(
                u,
                limit,
                bucket_at(u, q),
                q,
            ) + 1
    }

    /// An index that holds no position yet.
    pub fn new(dict: &[u8], win: &[u8], limit: usize) -> (index: BlockIndex)
        requires
            dict.len() + win.len() <= usize::MAX,
            limit <= dict.len() + win.len(),
        ensures
            index.covers(dict@ + win@, limit as int, 0),
    {
        let total = dict.len() + win.len();
        let mut heads: Vec<usize> = Vec::new();
        let mut i: usize = 0;
        while i < BUCKETS
            invariant
                i <= BUCKETS,
                heads@.len() == i,
                forall|k: int| 0 <= k < i ==> heads@[k] == 0,
            decreases BUCKETS - i,
        {
            heads.push(0);
            i = i + 1;
        }
        let mut links: Vec<usize> = Vec::new();
        let mut j: usize = 0;
        while j < total
            invariant
                j <= total,
                links@.len() == j,
            decreases total - j,
        {
            links.push(0);
            j = j + 1;
        }
        BlockIndex { heads, links }
    }

    /// Takes the positions from `from` up to `to` into the index, as far as
    /// they are indexable.
    pub fn extend(&mut self, dict: &[u8], win: &[u8], limit: usize, from: usize, to: usize)
        requires
            dict.len() + win.len() <= usize::MAX,
            old(self).covers(dict@ + win@, limit as int, from as int),
            from <= to <= dict.len() + win.len(),
        ensures
            final(self).covers(dict@ + win@, limit as int, to as int),
    {
        let ghost u = dict@ + win@;
        let mut q = from;
        while q < to
            invariant
                from <= q <= to,
                dict.len() + win.len() <= usize::MAX,
                to <= dict.len() + win.len(),
                u == dict@ + win@,
                self.covers(u, limit as int, q as int),
            decreases to - q,
        {
            if limit >= BLOCK_SIZE && q <= limit - BLOCK_SIZE {
                let b = bucket(dict, win, q);
                let ghost before = *self;
                let head = self.heads[b];
                self.links[q] = head;
                self.heads[b] = q + 1;
                proof {
                    assert forall|k: int| 0 <= k < BUCKETS implies #[trigger] self.heads@[k] == latest(
                        u,
                        limit as int,
                        k,
                        q + 1,
                    ) + 1 by {
                        assert(before.heads@[k] == latest(u, limit as int, k, q as int) + 1);
                    }
                    assert forall|p: int| 0 <= p < q + 1 && indexable(limit as int, p) implies #[trigger] self.links@[p]
                        == latest(u, limit as int, bucket_at(u, p), p) + 1 by {
                        if p < q {
                            assert(before.links@[p] == latest(u, limit as int, bucket_at(u, p), p) + 1);
                        } else {
                            assert(before.heads@[b as int] == latest(u, limit as int, b as int, q as int) + 1);
                        }
                    }
                }
            } else {
                proof {
                    assert(!indexable(limit as int, q as int));
                    assert forall|k: int| 0 <= k < BUCKETS implies #[trigger] self.heads@[k] == latest(
                        u,
                        limit as int,
                        k,
                        q + 1,
                    ) + 1 by {}
                }
            }
            q = q + 1;
        }
    }

    /// The best match for the window's bytes from `t` on among the indexed
    /// positions of their bucket.
    pub fn find_match(
        &self,
        dict: &[u8],
        win: &[u8],
        look: bool,
        interleaved: bool,
        cache: &AddressCache,
        t: usize,
    ) -> (m: (usize, usize))
        requires
            dict.len() + win.len() <= usize::MAX,
            t < win.len(),
            cache@.wf(),
            self.covers(
                dict@ + win@,
                (WindowJob { dict: dict@, win: win@, look, interleaved }).limit(),
                dict.len() + t,
            ),
        ensures
            (m.0 as int, m.1 as nat) == best_match(
                WindowJob { dict: dict@, win: win@, look, interleaved },
                cache@,
                t as int,
            ),
    {
        let ghost job = WindowJob { dict: dict@, win: win@, look, interleaved };
        let ghost u = dict@ + win@;
        let total = dict.len() + win.len();
        let limit = if look {
            total
        } else {
            dict.len()
        };
        let here = dict.len() + t;
        if total - here < BLOCK_SIZE {
            return (0, 0);
        }
        let b = bucket(dict, win, here);
        let mut cand = self.heads[b];
        let mut fuel: usize = MAX_TRIES;
        let mut best: (usize, usize) = (0, 0);
        proof {
            lemma_latest_props(u, limit as int, b as int, here as int);
        }
        while cand != 0 && fuel > 0
            invariant
                u == dict@ + win@,
                total == dict.len() + win.len(),
                total <= usize::MAX,
                limit <= total,
                here < total,
                cache@.wf(),
                self.covers(u, limit as int, here as int),
                cand == 0 || (cand - 1 < here && indexable(limit as int, cand - 1)),
                walk(
                    u,
                    limit as int,
                    cache@,
                    here as int,
                    latest(u, limit as int, b as int, here as int),
                    MAX_TRIES as nat,
                    (0, 0),
                ) == walk(
                    u,
                    limit as int,
                    cache@,
                    here as int,
                    cand - 1,
                    fuel as nat,
                    (best.0 as int, best.1 as nat),
                ),
            decreases fuel,
        {
            let q = cand - 1;
            let len = match_length(dict, win, q, here, limit);
            let better = len > best.1 || (len == best.1 && cache.remembers(q as u64)
                && !cache.remembers(best.0 as u64));
            if better {
                best = (q, len);
            }
            proof {
                lemma_latest_props(u, limit as int, bucket_at(u, q as int), q as int);
                assert(self.links@[q as int] == latest(u, limit as int, bucket_at(u, q as int), q as int)
                    + 1);
            }
            cand = self.links[q];
            fuel = fuel - 1;
        }
        best
    }
}

/// The instruction that the encoder picks at a position.
pub enum Pick {
    Literal,
    Run(usize),
    Copy(usize, usize),
}

impl View for Pick {
    type V = Choice;

    open spec fn view(&self) -> Choice {
        match *self {
            Pick::Literal => Choice::Literal,
            Pick::Run(n) => Choice::Run(n as nat),
            Pick::Copy(a, n) => Choice::Copy(a as int, n as nat),
        }
    }
}

/// Picks the instruction for position `t` of the window.
pub fn pick(
    index: &BlockIndex,
    dict: &[u8],
    win: &[u8],
    look: bool,
    interleaved: bool,
    cache: &AddressCache,
    t: usize,
) -> (p: Pick)
    requires
        dict.len() + win.len() <= usize::MAX,
        t < win.len(),
        cache@.wf(),
        index.covers(
            dict@ + win@,
            (WindowJob { dict: dict@, win: win@, look, interleaved }).limit(),
            dict.len() + t,
        ),
    ensures
        p@ == choice_at(WindowJob { dict: dict@, win: win@, look, interleaved }, cache@, t as int),
{
    proof {
        reveal(choice_at);
    }
    let m = index.find_match(dict, win, look, interleaved, cache, t);
    let r = run_length(win, t);
    if m.1 >= MIN_COPY && m.1 >= r {
        Pick::Copy(m.0, m.1)
    } else if r >= MIN_RUN {
        Pick::Run(r)
    } else {
        Pick::Literal
    }
}

} // verus!
