use vcdiff::streaming::ErrorKind;
use vcdiff::{decode, encode, encode_with_window_size, try_decode, FormatExtension};

#[test]
fn roundtrip_standard() {
    let dict: &[u8] = &[1, 2, 3];
    let target: &[u8] = &[4, 5, 6, 1, 2, 3, 4, 5, 6, 1, 2, 4];
    let encoded = encode(dict, target, FormatExtension::standard(), false);
    let decoded = decode(dict, &encoded);

    assert_eq!(target, decoded.as_slice());
}

#[test]
fn roundtrip_standard_target_matches() {
    let dict: &[u8] = &[1, 2, 3];
    let target: &[u8] = &[4, 5, 6, 1, 2, 3, 4, 5, 6, 1, 2, 4];
    let encoded = encode(dict, target, FormatExtension::standard(), true);
    let decoded = decode(dict, &encoded);

    assert_eq!(target, decoded.as_slice());
}

#[test]
fn roundtrip_interleaved() {
    let dict: &[u8] = &[1, 2, 3];
    let target: &[u8] = &[4, 5, 6, 1, 2, 3, 4, 5, 6, 1, 2, 4];
    let encoded = encode(dict, target, FormatExtension::interleaved(), false);
    let decoded = decode(dict, &encoded);

    assert_eq!(target, decoded.as_slice());
}

#[test]
fn roundtrip_interleaved_target_matches() {
    let dict: &[u8] = &[1, 2, 3];
    let target: &[u8] = &[4, 5, 6, 1, 2, 3, 4, 5, 6, 1, 2, 4];
    let encoded = encode(dict, target, FormatExtension::interleaved(), true);
    let decoded = decode(dict, &encoded);

    assert_eq!(target, decoded.as_slice());
}

#[test]
fn roundtrip_checksum() {
    let dict: &[u8] = &[1, 2, 3];
    let target: &[u8] = &[4, 5, 6, 1, 2, 3, 4, 5, 6, 1, 2, 4];
    let encoded = encode(dict, target, FormatExtension::checksum(), false);
    let decoded = decode(dict, &encoded);

    assert_eq!(target, decoded.as_slice());
}

#[test]
fn roundtrip_checksum_target_matches() {
    let dict: &[u8] = &[1, 2, 3];
    let target: &[u8] = &[4, 5, 6, 1, 2, 3, 4, 5, 6, 1, 2, 4];
    let encoded = encode(dict, target, FormatExtension::checksum(), true);
    let decoded = decode(dict, &encoded);

    assert_eq!(target, decoded.as_slice());
}

#[test]
fn roundtrip_interleaved_checksum() {
    let dict: &[u8] = &[1, 2, 3];
    let target: &[u8] = &[4, 5, 6, 1, 2, 3, 4, 5, 6, 1, 2, 4];
    let encoded = encode(dict, target, FormatExtension::interleaved() | FormatExtension::checksum(), false);
    let decoded = decode(dict, &encoded);

    assert_eq!(target, decoded.as_slice());
}

#[test]
fn roundtrip_interleaved_checksum_target_matches() {
    let dict: &[u8] = &[1, 2, 3];
    let target: &[u8] = &[4, 5, 6, 1, 2, 3, 4, 5, 6, 1, 2, 4];
    let encoded = encode(dict, target, FormatExtension::interleaved() | FormatExtension::checksum(), true);
    let decoded = decode(dict, &encoded);

    assert_eq!(target, decoded.as_slice());
}

fn sample(len: usize, seed: u32) -> Vec<u8> {
    // a repetitive byte stream with some noise, so that COPY, ADD and RUN all occur
    let mut state = seed;
    let mut out = Vec::with_capacity(len);
    while out.len() < len {
        state = state.wrapping_mul(1664525).wrapping_add(1013904223);
        match (state >> 24) % 4 {
            0 => {
                for _ in 0..((state >> 8) % 9) {
                    out.push((state >> 16) as u8);
                }
            }
            1 => out.extend_from_slice(b"the quick brown fox "),
            2 => out.extend_from_slice(b"jumps over the lazy dog "),
            _ => out.push((state >> 12) as u8),
        }
    }
    out.truncate(len);
    out
}

fn all_extensions() -> Vec<FormatExtension> {
    vec![
        FormatExtension::standard(),
        FormatExtension::interleaved(),
        FormatExtension::checksum(),
        FormatExtension::interleaved() | FormatExtension::checksum(),
    ]
}

#[test]
fn roundtrip_of_larger_inputs_in_every_format() {
    let dict = sample(3000, 7);
    let target = sample(5000, 11);
    for ext in all_extensions() {
        for look in [false, true] {
            let encoded = encode(&dict, &target, ext, look);
            assert!(encoded.len() < target.len(), "the delta should be smaller than the target");
            assert_eq!(decode(&dict, &encoded), target);
        }
    }
}

#[test]
fn roundtrip_with_many_small_windows() {
    let dict = sample(500, 3);
    let target = sample(2000, 5);
    for ext in all_extensions() {
        for look in [false, true] {
            for window in [1usize, 7, 64, 1999, 2000, 5000] {
                let encoded = encode_with_window_size(&dict, &target, ext, look, window);
                assert_eq!(decode(&dict, &encoded), target);
            }
        }
    }
}

#[test]
fn roundtrip_of_empty_inputs() {
    for ext in all_extensions() {
        let encoded = encode(b"", b"", ext, true);
        assert_eq!(encoded.len(), 5);
        assert_eq!(decode(b"", &encoded), Vec::<u8>::new());
        let encoded = encode(b"abc", b"", ext, false);
        assert_eq!(decode(b"abc", &encoded), Vec::<u8>::new());
        let encoded = encode(b"", b"abc", ext, false);
        assert_eq!(decode(b"", &encoded), b"abc".to_vec());
    }
}

#[test]
fn encoding_is_deterministic() {
    let dict = sample(1000, 1);
    let target = sample(1500, 2);
    for ext in all_extensions() {
        for look in [false, true] {
            assert_eq!(encode(&dict, &target, ext, look), encode(&dict, &target, ext, look));
        }
    }
}

#[test]
fn exact_bytes_without_target_matches() {
    let dict: &[u8] = &[1, 2, 3];
    let target: &[u8] = &[4, 5, 6, 1, 2, 3, 4, 5, 6, 1, 2, 4];
    let encoded = encode(dict, target, FormatExtension::standard(), false);
    let expected: Vec<u8> = vec![
        0xD6, 0xC3, 0xC4, 0x00, 0x00, // file header
        0x01, 0x00, 0x03, 0x0C, // source: dictionary, offset 0, length 3; target length 12
        0x01, 0x0D, // instructions: ADD of 12 bytes
        0x00, // no addresses
        0x0C, 4, 5, 6, 1, 2, 3, 4, 5, 6, 1, 2, 4, // data
    ];
    assert_eq!(encoded, expected);
}

#[test]
fn exact_bytes_with_target_matches() {
    let dict: &[u8] = &[1, 2, 3];
    let target: &[u8] = &[4, 5, 6, 1, 2, 3, 4, 5, 6, 1, 2, 4];
    let encoded = encode(dict, target, FormatExtension::standard(), true);
    let expected: Vec<u8> = vec![
        0xD6, 0xC3, 0xC4, 0x00, 0x00, // file header
        0x01, 0x00, 0x03, 0x0C, // window header
        0x03, 0x04, 0x78, 0x02, // ADD 3, COPY 8 in the first same mode, ADD 1
        0x01, 0x00, // the COPY's address: slot 0 of the same table
        0x04, 4, 5, 6, 4, // data
    ];
    assert_eq!(encoded, expected);
}

#[test]
fn exact_bytes_interleaved_with_checksum() {
    let encoded = encode(b"", b"aaaaaaaa", FormatExtension::interleaved() | FormatExtension::checksum(), false);
    let expected: Vec<u8> = vec![
        0xD6, 0xC3, 0xC4, 0x00, 0x03, // file header: interleaved, checksum
        0x01, 0x00, 0x00, 0x08, // window header
        0x0D, 0xAC, 0x03, 0x09, // Adler-32 of eight times 'a': sums 777 and 3500
        0x03, 0x00, 0x08, 0x61, // one section: RUN, size 8, the byte
    ];
    assert_eq!(encoded, expected);
    assert_eq!(decode(b"", &encoded), b"aaaaaaaa".to_vec());
}

#[test]
fn json_form_wraps_the_binary_delta() {
    let encoded = encode(b"", b"", FormatExtension::json(), false);
    assert_eq!(encoded, b"{\"vcdiff\":\"\\u00d6\\u00c3\\u00c4\\u0000\\u0000\"}".to_vec());
    let encoded = encode(b"", b"A\"\\", FormatExtension::json(), false);
    assert_eq!(
        encoded,
        b"{\"vcdiff\":\"\\u00d6\\u00c3\\u00c4\\u0000\\u0000\\u0001\\u0000\\u0000\\u0003\\u0001\\u0004\\u0000\\u0003A\\u0022\\u005c\"}".to_vec()
    );
}

#[test]
fn json_form_is_not_decoded() {
    let encoded = encode(b"abc", b"abcabcabc", FormatExtension::json(), true);
    assert_eq!(decode(b"abc", &encoded), Vec::<u8>::new());
}

#[test]
fn decode_of_a_broken_delta_is_empty() {
    let mut encoded = encode(b"", b"hello world", FormatExtension::standard(), false);
    encoded.pop();
    assert_eq!(decode(b"", &encoded), Vec::<u8>::new());
    assert_eq!(decode(b"", b"VCD"), Vec::<u8>::new());
}

#[test]
fn try_decode_tells_why() {
    let good = encode(b"abc", b"abcabcabcabc", FormatExtension::checksum(), true);
    assert_eq!(try_decode(b"abc", &good), Ok(b"abcabcabcabc".to_vec()));
    let mut cut = good.clone();
    cut.pop();
    assert_eq!(try_decode(b"abc", &cut).unwrap_err().kind(), ErrorKind::TruncatedDelta);
    assert_eq!(try_decode(b"abc", b"VCD").unwrap_err().kind(), ErrorKind::FormatError);
    let mut flipped = good.clone();
    flipped[9] ^= 0x10;
    assert_eq!(try_decode(b"abc", &flipped).unwrap_err().kind(), ErrorKind::ChecksumMismatch);
    let json = encode(b"abc", b"abcabcabcabc", FormatExtension::json(), true);
    assert_eq!(try_decode(b"abc", &json).unwrap_err().kind(), ErrorKind::FormatError);
}

#[test]
fn format_extension_is_a_set() {
    let both = FormatExtension::interleaved() | FormatExtension::checksum();
    assert_eq!(both.bits(), 3);
    assert!(both.contains(FormatExtension::interleaved()));
    assert!(both.contains(FormatExtension::checksum()));
    assert!(both.contains(FormatExtension::standard()));
    assert!(!both.contains(FormatExtension::json()));
    assert!(FormatExtension::standard().is_empty());
    assert_eq!(FormatExtension::json().bits(), 4);
    assert_eq!(FormatExtension::from_bits_truncate(13), FormatExtension::interleaved() | FormatExtension::json());
}

#[test]
fn delta_is_never_much_larger_than_the_target() {
    // bytes that do not repeat, in the smallest windows: the worst case
    let mut state = 99u32;
    let mut target = Vec::new();
    for _ in 0..3000 {
        state = state.wrapping_mul(1103515245).wrapping_add(12345);
        target.push((state >> 16) as u8);
    }
    for ext in all_extensions() {
        for window in [1usize, 2, 50, 3000] {
            let encoded = encode_with_window_size(b"some dictionary", &target, ext, true, window);
            assert!(encoded.len() <= 5 + 56 * target.len());
            assert_eq!(decode(b"some dictionary", &encoded), target);
        }
    }
    // one literal per window, with a checksum: thirteen bytes for each target byte
    let encoded = encode_with_window_size(b"", &target, FormatExtension::checksum(), false, 1);
    assert_eq!(encoded.len(), 5 + 13 * target.len());
}
