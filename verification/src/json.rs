//! The JSON form of a delta: one object with one field, whose string holds
//! the delta's bytes, each printable ASCII byte as itself and every other
//! byte as a `\u00XX` escape.

use vstd::prelude::*;

verus! {

/// The lower-case hexadecimal digit of `n`, as an ASCII byte.
pub open spec fn hex_digit(n: int) -> u8 {
    if n < 10 {
        (48 + n) as u8
    } else {
        (87 + n) as u8
    }
}

/// Whether a byte stands for itself in a JSON string: printable ASCII other
/// than the quote and the backslash.
pub open spec fn is_plain(b: u8) -> bool {
    0x20 <= b <= 0x7e && b != 0x22 && b != 0x5c
}

/// The bytes that stand for `b` in a JSON string.
pub open spec fn escape_byte(b: u8) -> Seq<u8> {
    if is_plain(b) {
        seq![b]
    } else {
        seq![0x5cu8, 0x75u8, 0x30u8, 0x30u8, hex_digit(b as int / 16), hex_digit(b as int % 16)]
    }
}

/// The bytes that stand for `s` in a JSON string.
pub open spec fn escaped(s: Seq<u8>) -> Seq<u8>
    decreases s.len(),
{
    if s.len() == 0 {
        Seq::<u8>::empty()
    } else {
        escaped(s.drop_last()) + escape_byte(s.last())
    }
}

/// The bytes `{"vcdiff":"`.
pub open spec fn json_prefix() -> Seq<u8> {
    seq![
        0x7bu8,
        0x22u8,
        0x76u8,
        0x63u8,
        0x64u8,
        0x69u8,
        0x66u8,
        0x66u8,
        0x22u8,
        0x3au8,
        0x22u8,
    ]
}

/// The bytes `"}`.
pub open spec fn json_suffix() -> Seq<u8> {
    seq![0x22u8, 0x7du8]
}

/// The JSON form of the delta `s`.
pub open spec fn json_wrap(s: Seq<u8>) -> Seq<u8> {
    json_prefix() + escaped(s) + json_suffix()
}

fn hex(n: u8) -> (d: u8)
    requires
        n < 16,
    ensures
        d == hex_digit(n as int),
{
    if n < 10 {
        48 + n
    } else {
        87 + n
    }
}

/// Wraps a delta as a string in a JSON object.
pub fn wrap_json(bytes: &[u8]) -> (text: Vec<u8>)
    ensures
        text@ == json_wrap(bytes@),
{
    let mut text: Vec<u8> = Vec::new();
    text.push(0x7b);
    text.push(0x22);
    text.push(0x76);
    text.push(0x63);
    text.push(0x64);
    text.push(0x69);
    text.push(0x66);
    text.push(0x66);
    text.push(0x22);
    text.push(0x3a);
    text.push(0x22);
    assert(text@ =~= json_prefix() + escaped(bytes@.take(0)));
    let mut i: usize = 0;
    while i < bytes.len()
        invariant
            i <= bytes.len(),
            text@ == json_prefix() + escaped(bytes@.take(i as int)),
        decreases bytes.len() - i,
    {
        let b = bytes[i];
        let ghost before = text@;
        proof {
            assert(bytes@.take(i + 1).drop_last() =~= bytes@.take(i as int));
            assert(bytes@.take(i + 1).last() == b);
        }
        if 0x20 <= b && b <= 0x7e && b != 0x22 && b != 0x5c {
            text.push(b);
        } else {
            text.push(0x5c);
            text.push(0x75);
            text.push(0x30);
            text.push(0x30);
            text.push(hex(b / 16));
            text.push(hex(b % 16));
        }
        proof {
            assert(text@ =~= before + escape_byte(b));
            assert(before + escape_byte(b) =~= json_prefix() + (escaped(bytes@.take(i as int))
                + escape_byte(b)));
        }
        i = i + 1;
    }
    proof {
        assert(bytes@.take(i as int) =~= bytes@);
    }
    text.push(0x22);
    text.push(0x7d);
    assert(text@ =~= json_wrap(bytes@));
    text
}

} // verus!
