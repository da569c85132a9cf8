//! The Adler-32 checksum that guards a window's target bytes, and its
//! four-byte big-endian form in a window header.

use vstd::prelude::*;

verus! {

/// The modulus of both running sums.
pub const ADLER_MODULUS: u32 = 65521;

/// The two running sums over `s`: one plus the sum of the bytes, and the sum
/// of the first sum's successive values, both modulo 65521.
pub open spec fn adler_sums(s: Seq<u8>) -> (nat, nat)
    decreases s.len(),
{
    if s.len() == 0 {
        (1, 0)
    } else {
        let (a, b) = adler_sums(s.drop_last());
        let a2 = (a + s.last() as nat) % (ADLER_MODULUS as nat);
        (a2, (b + a2) % (ADLER_MODULUS as nat))
    }
}

/// The Adler-32 checksum of `s`.
pub open spec fn adler32(s: Seq<u8>) -> u32 {
    (adler_sums(s).1 * 65536 + adler_sums(s).0) as u32
}

/// Computes the Adler-32 checksum of `data`.
pub fn checksum(data: &[u8]) -> (sum: u32)
    ensures
        sum == adler32(data@),
{
    let mut a: u32 = 1;
    let mut b: u32 = 0;
    let mut i: usize = 0;
    while i < data.len()
        invariant
            i <= data.len(),
            a < ADLER_MODULUS,
            b < ADLER_MODULUS,
            (a as nat, b as nat) == adler_sums(data@.take(i as int)),
        decreases data.len() - i,
    {
        proof {
            assert(data@.take(i + 1).drop_last() =~= data@.take(i as int));
            assert(data@.take(i + 1).last() == data@[i as int]);
        }
        a = (a + data[i] as u32) % ADLER_MODULUS;
        b = (b + a) % ADLER_MODULUS;
        i = i + 1;
    }
    proof {
        assert(data@.take(i as int) =~= data@);
    }
    b * 65536 + a
}

/// The four bytes of `x`, most significant first.
pub open spec fn be32(x: u32) -> Seq<u8> {
    seq![
        (x / 0x100_0000) as u8,
        ((x / 0x1_0000) % 256) as u8,
        ((x / 0x100) % 256) as u8,
        (x % 256) as u8,
    ]
}

/// The integer whose four bytes, most significant first, stand in `s` at `pos`.
pub open spec fn from_be32(s: Seq<u8>, pos: int) -> u32 {
    (s[pos] as int * 0x100_0000 + s[pos + 1] as int * 0x1_0000 + s[pos + 2] as int * 0x100 + s[pos
        + 3] as int) as u32
}

/// Reading the four bytes of `x` gives `x` back.
pub proof fn lemma_be32_round_trip(s: Seq<u8>, pos: int, x: u32)
    requires
        0 <= pos,
        pos + 4 <= s.len(),
        s.subrange(pos, pos + 4) == be32(x),
    ensures
        from_be32(s, pos) == x,
{
    let f = s.subrange(pos, pos + 4);
    assert(s[pos] == f[0]);
    assert(s[pos + 1] == f[1]);
    assert(s[pos + 2] == f[2]);
    assert(s[pos + 3] == f[3]);
}

/// Appends the four bytes of `x` to `out`.
pub fn write_be32(x: u32, out: &mut Vec<u8>)
    ensures
        final(out)@ == old(out)@ + be32(x),
{
    out.push((x / 0x100_0000) as u8);
    out.push(((x / 0x1_0000) % 256) as u8);
    out.push(((x / 0x100) % 256) as u8);
    out.push((x % 256) as u8);
    assert(out@ =~= old(out)@ + be32(x));
}

/// Reads four bytes of `input` at `pos` as one integer.
pub fn read_be32(input: &[u8], pos: usize) -> (x: u32)
    requires
        pos + 4 <= input.len(),
    ensures
        x == from_be32(input@, pos as int),
{
    let b0 = input[pos] as u32;
    let b1 = input[pos + 1] as u32;
    let b2 = input[pos + 2] as u32;
    let b3 = input[pos + 3] as u32;
    b0 * 0x100_0000 + b1 * 0x1_0000 + b2 * 0x100 + b3
}

} // verus!
