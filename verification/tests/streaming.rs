use vcdiff::streaming::{Decoder, DecoderState, ErrorKind};

#[test]
fn create_and_destroy() {
    // creating and destroying a Decoder with an empty dictionary should not panic
    Decoder::new(b"");
}

#[test]
fn create_and_destroy_with_options() {
    // setting some options shouldn't break
    Decoder::with_options(b"", 10 << 20, 10 << 20, false).expect("with_options()");
}

#[test]
fn test_finish_after_decoding_nothing() {
    // it's legal to finish decoding nothing
    let mut decoder = Decoder::new(b"");
    let mut out: Vec<u8> = Vec::new();
    decoder.decode(b"", &mut out).expect("decode");
    decoder.finish().expect("success");
}

#[test]
fn test_finish_without_decoding() {
    // finishing a session that was never fed is legal
    let decoder = Decoder::new(b"");
    decoder.finish().expect("success");
}

#[test]
fn test_decode_garbage() {
    let mut decoder = Decoder::new(b"");
    let mut output: Vec<u8> = Vec::new();

    // attempt to decode something that's not a VCD header
    // this should fail immediately
    match decoder.decode(b"VCD", &mut output) {
        Ok(()) => { panic!("expected decode to fail") }
        Err(_) => {}
    }

    // and the output should still be empty
    assert_eq!(output.len(), 0);
}

#[test]
fn test_finish_with_partial_buffer() {
    let mut decoder = Decoder::new(b"");
    let mut output: Vec<u8> = Vec::new();

    // decode just the start of a valid header
    // this should succeed...
    decoder.decode(b"\xD6\xC3", &mut output).expect("decode");

    // ...but not write anything to the output
    assert_eq!(output.len(), 0);

    // finishing should fail, since there's undecoded bits in the input buffer
    match decoder.finish() {
        Ok(()) => { panic!("expected finish to fail"); }
        Err(_) => {}
    }
}

#[test]
fn garbage_fails_with_a_format_error_and_stays_failed() {
    let mut decoder = Decoder::new(b"");
    let mut output: Vec<u8> = Vec::new();
    let first = decoder.decode(b"VCD", &mut output).unwrap_err();
    assert_eq!(first.kind(), ErrorKind::FormatError);
    assert_eq!(decoder.state(), DecoderState::Failed);
    let second = decoder.decode(b"\xD6\xC3\xC4\x00\x00", &mut output).unwrap_err();
    assert_eq!(second, first);
    assert_eq!(decoder.finish().unwrap_err(), first);
    assert_eq!(output.len(), 0);
}

#[test]
fn truncated_header_is_reported_as_truncation() {
    let mut decoder = Decoder::new(b"");
    let mut output: Vec<u8> = Vec::new();
    decoder.decode(b"\xD6\xC3", &mut output).expect("decode");
    assert_eq!(decoder.state(), DecoderState::AwaitingHeader);
    let e = decoder.finish().unwrap_err();
    assert_eq!(e.kind(), ErrorKind::TruncatedDelta);
    assert_eq!(e.description(), "delta ends inside a header or window");
    assert_eq!(e.message(), "vcdiff error: delta ends inside a header or window");
}

fn header() -> Vec<u8> {
    vec![0xD6, 0xC3, 0xC4, 0x00, 0x00]
}

fn run_window() -> Vec<u8> {
    // no source; target length 5; RUN of 5 times 'A'
    vec![0x01, 0x00, 0x00, 0x05, 0x02, 0x00, 0x05, 0x00, 0x01, 0x41]
}

fn overlap_window() -> Vec<u8> {
    // no source; target length 8; ADD "ab", then COPY 6 from address 0, which overlaps itself
    vec![0x01, 0x00, 0x00, 0x08, 0x02, 0x03, 0x16, 0x01, 0x00, 0x02, 0x61, 0x62]
}

fn target_window() -> Vec<u8> {
    // source: the decoded target, offset 2, length 4; target length 4; COPY 4 from address 0
    vec![0x02, 0x02, 0x04, 0x04, 0x01, 0x14, 0x01, 0x00, 0x00]
}

#[test]
fn run_instruction_repeats_a_byte() {
    let mut delta = header();
    delta.extend(run_window());
    let mut decoder = Decoder::new(b"");
    let mut out: Vec<u8> = Vec::new();
    decoder.decode(&delta, &mut out).expect("decode");
    assert_eq!(decoder.state(), DecoderState::AwaitingWindow);
    decoder.finish().expect("finish");
    assert_eq!(out, b"AAAAA".to_vec());
}

#[test]
fn overlapping_copy_replicates_byte_by_byte() {
    let mut delta = header();
    delta.extend(overlap_window());
    let mut decoder = Decoder::new(b"");
    let mut out: Vec<u8> = Vec::new();
    decoder.decode(&delta, &mut out).expect("decode");
    decoder.finish().expect("finish");
    assert_eq!(out, b"abababab".to_vec());
}

#[test]
fn window_may_take_its_source_from_the_target_where_allowed() {
    let mut delta = header();
    delta.extend(overlap_window());
    delta.extend(target_window());
    let mut decoder = Decoder::with_options(b"", 100, 100, true).expect("with_options()");
    let mut out: Vec<u8> = Vec::new();
    decoder.decode(&delta, &mut out).expect("decode");
    decoder.finish().expect("finish");
    assert_eq!(out, b"abababababab".to_vec());
}

#[test]
fn window_from_target_is_malformed_where_not_allowed() {
    let mut delta = header();
    delta.extend(overlap_window());
    delta.extend(target_window());
    let mut decoder = Decoder::with_options(b"", 100, 100, false).expect("with_options()");
    let mut out: Vec<u8> = Vec::new();
    let e = decoder.decode(&delta, &mut out).unwrap_err();
    assert_eq!(e.kind(), ErrorKind::FormatError);
    // the call fails as a whole: not even the first window's bytes are written
    assert_eq!(out.len(), 0);
}

#[test]
fn window_above_the_window_limit_is_refused() {
    let mut delta = header();
    delta.extend(run_window());
    let mut decoder = Decoder::with_options(b"", 100, 4, false).expect("with_options()");
    let mut out: Vec<u8> = Vec::new();
    let e = decoder.decode(&delta, &mut out).unwrap_err();
    assert_eq!(e.kind(), ErrorKind::ResourceLimitExceeded);
    assert_eq!(out.len(), 0);
}

#[test]
fn target_above_the_file_limit_is_refused() {
    let mut decoder = Decoder::with_options(b"", 12, 100, false).expect("with_options()");
    let mut out: Vec<u8> = Vec::new();
    decoder.decode(&header(), &mut out).expect("header");
    decoder.decode(&overlap_window(), &mut out).expect("first window");
    assert_eq!(out.len(), 8);
    let e = decoder.decode(&run_window(), &mut out).unwrap_err();
    assert_eq!(e.kind(), ErrorKind::ResourceLimitExceeded);
    assert_eq!(e.description(), "target size limit exceeded");
    assert_eq!(out, b"abababab".to_vec());
}

#[test]
fn window_limit_above_the_accepted_range_is_an_invalid_option() {
    match Decoder::with_options(b"", 10, 0x8000_0000, false) {
        Ok(_) => panic!("expected with_options to fail"),
        Err(e) => {
            assert_eq!(e.kind(), ErrorKind::InvalidOption);
            assert_eq!(e.message(), "vcdiff error: decoder option out of range");
        }
    }
    Decoder::with_options(b"", usize::MAX, 0x7fff_ffff, true).expect("with_options()");
}

#[test]
fn unassigned_opcode_is_malformed() {
    let mut delta = header();
    delta.extend(vec![0x01, 0x00, 0x00, 0x01, 0x01, 0xFF, 0x00, 0x01, 0x41]);
    let mut decoder = Decoder::new(b"");
    let mut out: Vec<u8> = Vec::new();
    let e = decoder.decode(&delta, &mut out).unwrap_err();
    assert_eq!(e.kind(), ErrorKind::FormatError);
    assert_eq!(e.message(), "vcdiff error: malformed delta");
}

#[test]
fn overlong_integer_is_malformed() {
    let mut delta = header();
    delta.push(0x01);
    delta.extend(vec![0x80; 9]);
    let mut decoder = Decoder::new(b"");
    let mut out: Vec<u8> = Vec::new();
    let e = decoder.decode(&delta, &mut out).unwrap_err();
    assert_eq!(e.kind(), ErrorKind::FormatError);
}

#[test]
fn copy_from_unwritten_target_is_malformed() {
    let mut delta = header();
    // COPY 4 from address 0 with nothing in the address space yet
    delta.extend(vec![0x01, 0x00, 0x00, 0x04, 0x01, 0x14, 0x01, 0x00, 0x00]);
    let mut decoder = Decoder::new(b"");
    let mut out: Vec<u8> = Vec::new();
    let e = decoder.decode(&delta, &mut out).unwrap_err();
    assert_eq!(e.kind(), ErrorKind::FormatError);
}

#[test]
fn source_segment_outside_the_dictionary_is_malformed() {
    let mut delta = header();
    delta.extend(vec![0x01, 0x02, 0x02]);
    let mut decoder = Decoder::new(b"abc");
    let mut out: Vec<u8> = Vec::new();
    let e = decoder.decode(&delta, &mut out).unwrap_err();
    assert_eq!(e.kind(), ErrorKind::FormatError);
}

#[test]
fn window_that_gives_too_few_bytes_is_malformed() {
    let mut delta = header();
    // announces 6 target bytes, the RUN gives 5
    delta.extend(vec![0x01, 0x00, 0x00, 0x06, 0x02, 0x00, 0x05, 0x00, 0x01, 0x41]);
    let mut decoder = Decoder::new(b"");
    let mut out: Vec<u8> = Vec::new();
    let e = decoder.decode(&delta, &mut out).unwrap_err();
    assert_eq!(e.kind(), ErrorKind::FormatError);
}

#[test]
fn wrong_version_or_flags_are_malformed() {
    for bad in [vec![0xD6u8, 0xC3, 0xC4, 0x01], vec![0xD6, 0xC3, 0xC4, 0x00, 0x04], vec![0xD6, 0xC4]] {
        let mut decoder = Decoder::new(b"");
        let mut out: Vec<u8> = Vec::new();
        let e = decoder.decode(&bad, &mut out).unwrap_err();
        assert_eq!(e.kind(), ErrorKind::FormatError);
    }
}

#[test]
fn truncated_window_is_reported_by_finish() {
    let mut delta = header();
    delta.extend(run_window());
    delta.pop();
    let mut decoder = Decoder::new(b"");
    let mut out: Vec<u8> = Vec::new();
    decoder.decode(&delta, &mut out).expect("decode");
    assert_eq!(decoder.state(), DecoderState::ParsingWindowSections);
    assert_eq!(out.len(), 0);
    assert_eq!(decoder.finish().unwrap_err().kind(), ErrorKind::TruncatedDelta);
}
