use vcdiff::streaming::{Decoder, ErrorKind, Output};
use vcdiff::{decode, encode, encode_with_window_size, FormatExtension};

/// A sink of its own, to show that the decoder writes through the trait.
struct Counting {
    bytes: Vec<u8>,
    appends: usize,
    reserved: usize,
}

impl Output for Counting {
    fn append(&mut self, buffer: &[u8]) {
        self.bytes.extend_from_slice(buffer);
        self.appends += 1;
    }

    fn clear(&mut self) {
        self.bytes.clear();
    }

    fn reserve(&mut self, bytes: usize) {
        self.reserved += bytes;
    }

    fn size(&self) -> usize {
        self.bytes.len()
    }
}

fn text(len: usize) -> Vec<u8> {
    let words: [&[u8]; 5] = [b"alpha ", b"beta ", b"gamma ", b"delta ", b"zzzzzzzzzz "];
    let mut out = Vec::new();
    let mut i = 0usize;
    while out.len() < len {
        out.extend_from_slice(words[(i * i + 3 * i) % 5]);
        i += 1;
    }
    out.truncate(len);
    out
}

fn decode_in_chunks(dict: &[u8], delta: &[u8], size: usize) -> Vec<u8> {
    let mut decoder = Decoder::new(dict);
    let mut out: Vec<u8> = Vec::new();
    for chunk in delta.chunks(size) {
        decoder.decode(chunk, &mut out).expect("decode");
    }
    decoder.finish().expect("finish");
    out
}

#[test]
fn chunking_does_not_change_the_output() {
    let dict = text(700);
    let target = text(1800);
    for ext in [
        FormatExtension::standard(),
        FormatExtension::interleaved(),
        FormatExtension::checksum(),
        FormatExtension::interleaved() | FormatExtension::checksum(),
    ] {
        let delta = encode_with_window_size(&dict, &target[100..], ext, true, 500);
        let whole = decode(&dict, &delta);
        assert_eq!(whole, target[100..].to_vec());
        for size in [1usize, 2, 3, 5, 17, 64, 1000] {
            assert_eq!(decode_in_chunks(&dict, &delta, size), whole);
        }
    }
}

#[test]
fn output_appears_window_by_window() {
    let target = text(300);
    let delta = encode_with_window_size(b"", &target, FormatExtension::standard(), true, 100);
    let mut decoder = Decoder::new(b"");
    let mut sink = Counting { bytes: Vec::new(), appends: 0, reserved: 0 };
    let mut seen = Vec::new();
    for byte in delta.iter() {
        decoder.decode(&[*byte], &mut sink).expect("decode");
        if seen.last() != Some(&sink.size()) {
            seen.push(sink.size());
        }
    }
    decoder.finish().expect("finish");
    assert_eq!(seen, vec![0, 100, 200, 300]);
    assert_eq!(sink.bytes, target);
    assert_eq!(sink.reserved, 300);
}

#[test]
fn vec_is_a_sink() {
    let mut v: Vec<u8> = Vec::new();
    Output::append(&mut v, b"abc");
    Output::reserve(&mut v, 10);
    Output::append(&mut v, b"de");
    assert_eq!(Output::size(&v), 5);
    assert_eq!(v, b"abcde".to_vec());
    Output::clear(&mut v);
    assert_eq!(Output::size(&v), 0);
}

#[test]
fn flipped_payload_bit_fails_the_checksum() {
    let target = b"some literal text that no dictionary holds".to_vec();
    let mut delta = encode(b"", &target, FormatExtension::checksum(), false);
    // the last byte of the delta is the last literal of the data section
    let last = delta.len() - 1;
    delta[last] ^= 0x01;
    let mut decoder = Decoder::new(b"");
    let mut out: Vec<u8> = Vec::new();
    let e = decoder.decode(&delta, &mut out).unwrap_err();
    assert_eq!(e.kind(), ErrorKind::ChecksumMismatch);
    assert_eq!(e.description(), "window checksum mismatch");
    assert_eq!(out.len(), 0);
    assert_eq!(decode(b"", &delta), Vec::<u8>::new());
}

#[test]
fn flipped_payload_bit_goes_unnoticed_without_a_checksum() {
    let target = b"some literal text that no dictionary holds".to_vec();
    let mut delta = encode(b"", &target, FormatExtension::standard(), false);
    let last = delta.len() - 1;
    delta[last] ^= 0x01;
    let out = decode(b"", &delta);
    assert_eq!(out.len(), target.len());
    assert_ne!(out, target);
}

#[test]
fn failure_in_a_later_chunk_keeps_what_earlier_calls_wrote() {
    let target = text(200);
    let mut delta = encode_with_window_size(b"", &target, FormatExtension::checksum(), false, 100);
    let last = delta.len() - 1;
    delta[last] ^= 0x80;
    let mut decoder = Decoder::new(b"");
    let mut out: Vec<u8> = Vec::new();
    let cut = delta.len() - 10;
    decoder.decode(&delta[..cut], &mut out).expect("first window");
    assert_eq!(out, target[..100].to_vec());
    let e = decoder.decode(&delta[cut..], &mut out).unwrap_err();
    assert_eq!(e.kind(), ErrorKind::ChecksumMismatch);
    assert_eq!(out, target[..100].to_vec());
}
