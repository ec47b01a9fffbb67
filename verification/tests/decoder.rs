use vcdiff::decoder::DecodeError;
use vcdiff::decoder::DecoderState;
use vcdiff::decoder::VCDiffDecoder;

/// The worked stream used by several tests: source "abcdefgh", one window
/// with an ADD of "X", a COPY of source bytes "cdef", and a RUN of three
/// '!' bytes, giving the target "Xcdef!!!".
fn sample_stream() -> Vec<u8> {
    let mut bytes = vec![0xD6, 0xC3, 0xC4, 0x00, 0x00];
    bytes.extend_from_slice(&[
        0x01, // window over a source segment
        0x08, 0x00, // segment length 8 at position 0
        0x0E, // size of the delta encoding
        0x08, // target window size
        0x00, // delta indicator: sections stored plain
        0x02, // adds/runs section size
        0x04, // instructions section size
        0x01, // addresses section size
    ]);
    bytes.extend_from_slice(b"X!"); // adds/runs section
    bytes.extend_from_slice(&[
        0x02, // ADD of size 1
        0x14, // COPY of size 4, mode 0
        0x00, 0x03, // RUN, size 3 as a trailing varint
    ]);
    bytes.push(0x02); // COPY address 2, absolute
    bytes
}

#[test]
fn end_to_end_scenario() {
    let mut decoder = VCDiffDecoder::new(b"abcdefgh".to_vec(), 64);
    let state = decoder.decode(&sample_stream()).unwrap();
    assert_eq!(state, DecoderState::WantMoreInputOrDone);
    assert_eq!(decoder.target_bytes().as_slice(), b"Xcdef!!!");
}

#[test]
fn chunking_invariance() {
    let stream = sample_stream();
    let mut whole = VCDiffDecoder::new(b"abcdefgh".to_vec(), 64);
    whole.decode(&stream).unwrap();

    let mut byte_at_a_time = VCDiffDecoder::new(b"abcdefgh".to_vec(), 64);
    let mut state = DecoderState::WantMoreInput;
    for b in &stream {
        state = byte_at_a_time.decode(std::slice::from_ref(b)).unwrap();
    }
    assert_eq!(state, DecoderState::WantMoreInputOrDone);
    assert_eq!(byte_at_a_time.target_bytes(), whole.target_bytes());

    for cut in [1usize, 4, 5, 7, 13, 14, 20] {
        let mut split = VCDiffDecoder::new(b"abcdefgh".to_vec(), 64);
        split.decode(&stream[..cut]).unwrap();
        let state = split.decode(&stream[cut..]).unwrap();
        assert_eq!(state, DecoderState::WantMoreInputOrDone, "cut at {}", cut);
        assert_eq!(split.target_bytes(), whole.target_bytes(), "cut at {}", cut);
    }
}

#[test]
fn truncation_reports_want_more_input() {
    let stream = sample_stream();
    let mut decoder = VCDiffDecoder::new(b"abcdefgh".to_vec(), 64);
    let state = decoder.decode(&stream[..stream.len() - 1]).unwrap();
    assert_eq!(state, DecoderState::WantMoreInput);
    // nothing of the unfinished window reaches the target
    assert_eq!(decoder.target_bytes().len(), 0);
}

#[test]
fn unsupported_delta_indicator() {
    let mut stream = sample_stream();
    stream[10] = 0x01; // declare compressed section data
    let mut decoder = VCDiffDecoder::new(b"abcdefgh".to_vec(), 64);
    assert_eq!(decoder.decode(&stream), Err(DecodeError::UnsupportedFeature));
    assert_eq!(decoder.target_bytes().len(), 0);
}

#[test]
fn bad_magic_is_a_format_error() {
    let mut decoder = VCDiffDecoder::new(Vec::new(), 64);
    assert_eq!(
        decoder.decode(&[0xD6, 0xC3, 0xC4, 0x01, 0x00]),
        Err(DecodeError::FormatError)
    );
    // a mismatch is reported as soon as it is determinable, with no fifth
    // byte needed, and nothing reaches the target
    let mut early = VCDiffDecoder::new(Vec::new(), 64);
    assert_eq!(early.decode(&[0x00]), Err(DecodeError::FormatError));
    let mut four = VCDiffDecoder::new(Vec::new(), 64);
    assert_eq!(
        four.decode(&[0xD6, 0xC3, 0xC4, 0x01]),
        Err(DecodeError::FormatError)
    );
    assert_eq!(four.target_bytes().len(), 0);
    // a good prefix of the magic only asks for more input
    let mut good = VCDiffDecoder::new(Vec::new(), 64);
    assert_eq!(
        good.decode(&[0xD6, 0xC3, 0xC4, 0x00]),
        Ok(DecoderState::WantMoreInput)
    );
}

#[test]
fn malformed_custom_table_is_a_format_error() {
    // the code-table bit is set but the first record's repeat count is zero
    let mut decoder = VCDiffDecoder::new(Vec::new(), 64);
    assert_eq!(
        decoder.decode(&[0xD6, 0xC3, 0xC4, 0x00, 0x01, 0, 1, 1, 0, 0, 0, 0]),
        Err(DecodeError::FormatError)
    );
}

#[test]
fn wrong_declared_window_size_is_a_format_error() {
    // the window declares 7 target bytes but its instructions produce 8
    let mut stream = sample_stream();
    stream[9] = 0x07;
    let mut decoder = VCDiffDecoder::new(b"abcdefgh".to_vec(), 64);
    assert_eq!(decoder.decode(&stream), Err(DecodeError::FormatError));
    assert_eq!(decoder.target_bytes().len(), 0);
}

#[test]
fn self_overlap_copy_expands() {
    // no source segment: an ADD of one byte, then a COPY of size 4 whose
    // address is the byte just written, expanding it like a run
    let mut bytes = vec![0xD6, 0xC3, 0xC4, 0x00, 0x00];
    bytes.extend_from_slice(&[
        0x00, // window over nothing
        0x08, // size of the delta encoding
        0x05, // target window size
        0x00, // delta indicator
        0x01, // adds/runs section size
        0x02, // instructions section size
        0x01, // addresses section size
    ]);
    bytes.push(b'a');
    bytes.extend_from_slice(&[0x02, 0x24]); // ADD size 1; COPY size 4 mode 1
    bytes.push(0x01); // distance 1 below here = 1, so address 0
    let mut decoder = VCDiffDecoder::new(Vec::new(), 64);
    let state = decoder.decode(&bytes).unwrap();
    assert_eq!(state, DecoderState::WantMoreInputOrDone);
    assert_eq!(decoder.target_bytes().as_slice(), b"aaaaa");
}

#[test]
fn two_windows_and_target_segment() {
    // first window emits "abcd" by plain adds; the second copies all four
    // bytes back out of the target produced so far
    let mut bytes = vec![0xD6, 0xC3, 0xC4, 0x00, 0x00];
    bytes.extend_from_slice(&[
        0x00, // first window: no segment
        0x07, 0x04, 0x00, // sizes of the encoding and the target window
        0x04, 0x01, 0x00, // four adds bytes, one instruction, no address
    ]);
    bytes.extend_from_slice(b"abcd");
    bytes.push(0x05); // ADD of size 4
    bytes.extend_from_slice(&[
        0x02, // second window: segment in the target
        0x04, 0x00, // segment: length 4 at position 0
        0x07, 0x04, 0x00, // sizes of the encoding and the target window
        0x00, 0x01, 0x01, // no adds, one instruction, one address byte
    ]);
    bytes.push(0x14); // COPY of size 4, mode 0
    bytes.push(0x00); // address 0
    let mut decoder = VCDiffDecoder::new(Vec::new(), 64);
    let state = decoder.decode(&bytes).unwrap();
    assert_eq!(state, DecoderState::WantMoreInputOrDone);
    assert_eq!(decoder.target_bytes().as_slice(), b"abcdabcd");
}

#[test]
fn combined_opcode_runs_both_instructions() {
    // entry 163 of the default table: an ADD of size 1, then a COPY of
    // size 4 in mode 0
    let mut bytes = vec![0xD6, 0xC3, 0xC4, 0x00, 0x00];
    bytes.extend_from_slice(&[
        0x01, // window over a source segment
        0x04, 0x00, // segment length 4 at position 0
        0x07, 0x05, 0x00, // encoding size, target size 5, delta indicator
        0x01, 0x01, 0x01, // one adds byte, one instruction, one address
    ]);
    bytes.push(b'Z');
    bytes.push(163);
    bytes.push(0x00); // COPY address 0
    let mut decoder = VCDiffDecoder::new(b"wxyz".to_vec(), 64);
    let state = decoder.decode(&bytes).unwrap();
    assert_eq!(state, DecoderState::WantMoreInputOrDone);
    assert_eq!(decoder.target_bytes().as_slice(), b"Zwxyz");
}

#[test]
fn custom_code_table_in_force() {
    // a header table where selector 0 is an ADD of size 2, and a window
    // written against it
    let mut bytes = vec![0xD6, 0xC3, 0xC4, 0x00, 0x01];
    bytes.extend_from_slice(&[255, 1, 2, 0, 0, 0, 0]);
    bytes.extend_from_slice(&[1, 1, 2, 0, 0, 0, 0]);
    bytes.extend_from_slice(&[
        0x00, // window over nothing
        0x06, 0x02, 0x00, // encoding size, target size 2, delta indicator
        0x02, 0x01, 0x00, // two adds bytes, one instruction, no address
    ]);
    bytes.extend_from_slice(b"hi");
    bytes.push(0x00); // the custom ADD of size 2
    let mut decoder = VCDiffDecoder::new(Vec::new(), 64);
    let state = decoder.decode(&bytes).unwrap();
    assert_eq!(state, DecoderState::WantMoreInputOrDone);
    assert_eq!(decoder.target_bytes().as_slice(), b"hi");
}

#[test]
fn leftover_section_bytes_are_a_format_error() {
    // the instruction stream ends with an unread adds byte left over
    let mut bytes = vec![0xD6, 0xC3, 0xC4, 0x00, 0x00];
    bytes.extend_from_slice(&[
        0x00, // window over nothing
        0x06, 0x01, 0x00, // encoding size, target size, delta indicator
        0x02, 0x01, 0x00, // two adds bytes, one instruction, no address
    ]);
    bytes.extend_from_slice(b"ab");
    bytes.push(0x02); // ADD of size 1 consumes only one of them
    let mut decoder = VCDiffDecoder::new(Vec::new(), 64);
    assert_eq!(decoder.decode(&bytes), Err(DecodeError::FormatError));
}

#[test]
fn checksum_bytes_are_skipped() {
    // same window as the worked stream, with the checksum bit set and four
    // checksum bytes after the section sizes
    let mut bytes = vec![0xD6, 0xC3, 0xC4, 0x00, 0x00];
    bytes.extend_from_slice(&[
        0x05, // source segment, with a trailing checksum
        0x08, 0x00, // segment length 8 at position 0
        0x12, 0x08, 0x00, // encoding size, target size, delta indicator
        0x02, 0x04, 0x01, // section sizes
        0x12, 0x34, 0x56, 0x78, // checksum, read and discarded
    ]);
    bytes.extend_from_slice(b"X!");
    bytes.extend_from_slice(&[0x02, 0x14, 0x00, 0x03]);
    bytes.push(0x02);
    let mut decoder = VCDiffDecoder::new(b"abcdefgh".to_vec(), 64);
    let state = decoder.decode(&bytes).unwrap();
    assert_eq!(state, DecoderState::WantMoreInputOrDone);
    assert_eq!(decoder.target_bytes().as_slice(), b"Xcdef!!!");
}

#[test]
fn empty_input_at_start_may_finish() {
    let mut decoder = VCDiffDecoder::new(Vec::new(), 16);
    // before the header, stopping is not a window boundary
    assert_eq!(decoder.decode(&[]), Ok(DecoderState::WantMoreInput));
    assert_eq!(
        decoder.decode(&[0xD6, 0xC3, 0xC4, 0x00, 0x00]),
        Ok(DecoderState::WantMoreInputOrDone)
    );
}
