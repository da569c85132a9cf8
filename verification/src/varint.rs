//! Variable-length integers: big-endian groups of seven bits, every byte but
//! the last with its high bit set. At most nine bytes, so at most 63 bits.

use vstd::prelude::*;

verus! {

/// The largest number of bytes that an encoded integer may take.
pub const MAX_VARINT_BYTES: usize = 9;

/// The largest integer that fits in nine bytes.
pub const MAX_VARINT: u64 = 0x7fff_ffff_ffff_ffff;

/// What reading an integer at some position of a byte sequence gives.
#[derive(Clone, Copy, Debug, PartialEq, Eq, Structural)]
pub enum Varint {
    /// The integer, and the position just after its last byte.
    Value { value: u64, next: usize },
    /// The bytes end before the integer does.
    Incomplete,
    /// Nine bytes were read and the integer still goes on.
    Overlong,
}

/// The bytes of `v` that come before its last byte, most significant first,
/// each with its high bit set; `v` here is the integer without its lowest
/// seven bits.
pub open spec fn varint_prefix(v: nat) -> Seq<u8>
    decreases v,
{
    if v == 0 {
        Seq::<u8>::empty()
    } else {
        varint_prefix(v / 128).push((128 + v % 128) as u8)
    }
}

/// The encoding of `v`.
pub open spec fn varint_bytes(v: nat) -> Seq<u8> {
    varint_prefix(v / 128).push((v % 128) as u8)
}

/// Reads on from `pos + count`, with `count` bytes already read and `acc` the
/// integer that they hold.
pub open spec fn scan_varint(s: Seq<u8>, pos: int, acc: nat, count: nat) -> Varint
    decreases MAX_VARINT_BYTES - count,
{
    if count >= MAX_VARINT_BYTES {
        Varint::Overlong
    } else if pos + count >= s.len() {
        Varint::Incomplete
    } else {
        let b = s[pos + count];
        let acc2 = acc * 128 + (b % 128) as nat;
        if b < 128 {
            Varint::Value { value: acc2 as u64, next: (pos + count + 1) as usize }
        } else {
            scan_varint(s, pos, acc2, count + 1)
        }
    }
}

/// The integer encoded in `s` at `pos`.
pub open spec fn parse_varint(s: Seq<u8>, pos: int) -> Varint {
    scan_varint(s, pos, 0, 0)
}

/// 128 to the power `n`.
pub open spec fn pow128(n: nat) -> nat
    decreases n,
{
    if n == 0 {
        1
    } else {
        128 * pow128((n - 1) as nat)
    }
}

pub proof fn lemma_pow128_values()
    ensures
        pow128(0) == 1,
        pow128(8) == 0x100_0000_0000_0000,
        pow128(9) == 0x8000_0000_0000_0000,
{
    reveal_with_fuel(pow128, 10);
}

/// An integer below `128^n` has a prefix of at most `n` bytes.
pub proof fn lemma_prefix_len(v: nat, n: nat)
    requires
        v < pow128(n),
    ensures
        varint_prefix(v).len() <= n,
    decreases v,
{
    if v != 0 {
        assert(n > 0);
        assert(pow128(n) == 128 * pow128((n - 1) as nat));
        assert(v / 128 < pow128((n - 1) as nat));
        lemma_prefix_len(v / 128, (n - 1) as nat);
    }
}

/// The encoding of an integer that fits takes between one and nine bytes.
pub proof fn lemma_varint_len(v: nat)
    requires
        v <= MAX_VARINT,
    ensures
        1 <= varint_bytes(v).len() <= 9,
{
    lemma_pow128_values();
    lemma_prefix_len(v / 128, 8);
}

/// Reading across a prefix: where `s` holds the prefix of `w` at `pos`, the
/// scan reaches the byte after it with `w` accumulated.
proof fn lemma_scan_prefix(s: Seq<u8>, pos: int, w: nat)
    requires
        0 <= pos,
        varint_prefix(w).len() < 9,
        pos + varint_prefix(w).len() <= s.len(),
        s.subrange(pos, pos + varint_prefix(w).len()) == varint_prefix(w),
    ensures
        parse_varint(s, pos) == scan_varint(s, pos, w, varint_prefix(w).len()),
    decreases w,
{
    if w != 0 {
        let k = varint_prefix(w).len();
        let inner = varint_prefix(w / 128);
        assert(k == inner.len() + 1);
        assert(s.subrange(pos, pos + inner.len()) =~= inner) by {
            assert forall|i: int| 0 <= i < inner.len() implies s.subrange(pos, pos + inner.len())[i]
                == inner[i] by {
                assert(s.subrange(pos, pos + k)[i] == varint_prefix(w)[i]);
            }
        }
        lemma_scan_prefix(s, pos, w / 128);
        let b = s[pos + inner.len()];
        assert(b == s.subrange(pos, pos + k)[inner.len() as int]);
        assert(b == (128 + w % 128) as u8);
        assert(b >= 128);
        assert((w / 128) * 128 + (b % 128) as nat == w);
    }
}

/// Reading what was written gives the integer back, whatever follows it.
pub proof fn lemma_parse_varint_bytes(s: Seq<u8>, pos: int, v: nat)
    requires
        0 <= pos,
        v <= MAX_VARINT,
        pos + varint_bytes(v).len() <= s.len() <= usize::MAX,
        s.subrange(pos, pos + varint_bytes(v).len()) == varint_bytes(v),
    ensures
        parse_varint(s, pos) == (Varint::Value {
            value: v as u64,
            next: (pos + varint_bytes(v).len()) as usize,
        }),
{
    let w = v / 128;
    let pre = varint_prefix(w);
    let k = pre.len();
    let n = varint_bytes(v).len();
    lemma_varint_len(v);
    assert(n == k + 1);
    assert(s.subrange(pos, pos + k) =~= pre) by {
        assert forall|i: int| 0 <= i < k implies s.subrange(pos, pos + k)[i] == pre[i] by {
            assert(s.subrange(pos, pos + n)[i] == varint_bytes(v)[i]);
        }
    }
    lemma_scan_prefix(s, pos, w);
    let b = s[pos + k];
    assert(b == s.subrange(pos, pos + n)[k as int]);
    assert(b == (v % 128) as u8);
    assert(w * 128 + (b % 128) as nat == v);
}

/// A scan that ended, with a value or as overlong, ends the same way when
/// bytes are added behind.
pub proof fn lemma_scan_stable(s: Seq<u8>, t: Seq<u8>, pos: int, acc: nat, count: nat)
    requires
        0 <= pos,
        s.len() <= t.len(),
        t.subrange(0, s.len() as int) == s,
        scan_varint(s, pos, acc, count) != Varint::Incomplete,
    ensures
        scan_varint(t, pos, acc, count) == scan_varint(s, pos, acc, count),
    decreases 9 - count,
{
    if count < 9 {
        assert(pos + count < s.len());
        assert(t[pos + count] == t.subrange(0, s.len() as int)[pos + count]);
        let b = s[pos + count];
        if b >= 128 {
            lemma_scan_stable(s, t, pos, acc * 128 + (b % 128) as nat, count + 1);
        }
    }
}

/// A scan that gave a value read only below `next`, and `next` lies within
/// the bytes.
pub proof fn lemma_scan_bounds(s: Seq<u8>, pos: int, acc: nat, count: nat)
    requires
        0 <= pos,
        s.len() <= usize::MAX,
        acc < pow128(count),
        scan_varint(s, pos, acc, count) is Value,
    ensures
        pos + count < scan_varint(s, pos, acc, count)->next <= s.len(),
        scan_varint(s, pos, acc, count)->next <= pos + 9,
        scan_varint(s, pos, acc, count)->value <= MAX_VARINT,
    decreases 9 - count,
{
    lemma_pow128_values();
    if count < 9 {
        let b = s[pos + count];
        let acc2 = acc * 128 + (b % 128) as nat;
        assert(pow128(count + 1) == 128 * pow128(count));
        assert(acc2 < pow128(count + 1)) by (nonlinear_arith)
            requires
                acc < pow128(count),
                acc2 == acc * 128 + (b % 128) as nat,
                pow128(count + 1) == 128 * pow128(count),
                (b % 128) < 128,
        ;
        lemma_pow128_monotonic(count + 1, 9);
        if b >= 128 {
            lemma_scan_bounds(s, pos, acc2, count + 1);
        }
    }
}

pub proof fn lemma_pow128_monotonic(a: nat, b: nat)
    requires
        a <= b,
    ensures
        pow128(a) <= pow128(b),
    decreases b,
{
    if a < b {
        lemma_pow128_monotonic(a, (b - 1) as nat);
    }
}

/// Appends the prefix of `w` to `out`.
fn write_prefix(w: u64, out: &mut Vec<u8>)
    ensures
        final(out)@ == old(out)@ + varint_prefix(w as nat),
    decreases w,
{
    if w != 0 {
        write_prefix(w / 128, out);
        out.push((128 + w % 128) as u8);
        assert(final(out)@ =~= old(out)@ + varint_prefix(w as nat)) by {
            assert(out@ =~= old(out)@ + varint_prefix(w as nat));
        }
    } else {
        assert(out@ =~= old(out)@ + varint_prefix(0));
    }
}

/// Appends the encoding of `v` to `out`.
pub fn write_varint(v: u64, out: &mut Vec<u8>)
    ensures
        final(out)@ == old(out)@ + varint_bytes(v as nat),
{
    write_prefix(v / 128, out);
    out.push((v % 128) as u8);
    assert(out@ =~= old(out)@ + varint_bytes(v as nat));
}

/// Reads the integer encoded in `input` at `pos`.
pub fn read_varint(input: &[u8], pos: usize) -> (r: Varint)
    ensures
        r == parse_varint(input@, pos as int),
{
    let mut acc: u64 = 0;
    let mut count: usize = 0;
    proof {
        lemma_pow128_values();
    }
    while count < MAX_VARINT_BYTES
        invariant
            count <= MAX_VARINT_BYTES,
            acc < pow128(count as nat),
            pow128(count as nat) <= pow128(9),
            parse_varint(input@, pos as int) == scan_varint(input@, pos as int, acc as nat, count as nat),
        decreases MAX_VARINT_BYTES - count,
    {
        if count >= input.len() || pos >= input.len() - count {
            return Varint::Incomplete;
        }
        let b = input[pos + count];
        proof {
            lemma_pow128_values();
            assert(pow128((count + 1) as nat) == 128 * pow128(count as nat));
            lemma_pow128_monotonic((count + 1) as nat, 9);
        }
        let acc2 = acc * 128 + (b % 128) as u64;
        if b < 128 {
            return Varint::Value { value: acc2, next: pos + count + 1 };
        }
        acc = acc2;
        count = count + 1;
    }
    Varint::Overlong
}

} // verus!
