use maxsonar::frame::{decode_payload, is_text, parse_payload, FrameAssembler, FrameError};

fn feed_all(chunks: &[&[u8]]) -> Option<Result<u16, FrameError>> {
    let mut frames = FrameAssembler::new();
    for c in chunks {
        if let Some(r) = frames.feed(c) {
            assert_eq!(frames.len(), 0);
            return Some(r);
        }
    }
    None
}

fn feed_strs(chunks: &[&str]) -> Option<Result<u16, FrameError>> {
    let bytes: Vec<&[u8]> = chunks.iter().map(|c| c.as_bytes()).collect();
    feed_all(&bytes)
}

#[test]
fn single_frame_in_one_read() {
    assert_eq!(feed_strs(&["R0123\r"]), Some(Ok(123)));
}

#[test]
fn leading_garbage_is_discarded() {
    assert_eq!(feed_strs(&["XXR004", "5\r"]), Some(Ok(45)));
    assert_eq!(feed_strs(&["XXR0045\r"]), Some(Ok(45)));
}

#[test]
fn frame_split_over_two_reads() {
    assert_eq!(feed_strs(&["R01", "23\r"]), Some(Ok(123)));
}

#[test]
fn letter_among_digits_fails() {
    assert_eq!(feed_strs(&["R12A4\r"]), Some(Err(FrameError::InvalidNumber)));
}

#[test]
fn one_byte_at_a_time() {
    let stream = b"23\rR9876\rR1111\r";
    let chunks: Vec<&[u8]> = stream.chunks(1).collect();
    assert_eq!(feed_all(&chunks), Some(Ok(9876)));
}

#[test]
fn every_split_of_a_stream_agrees() {
    let stream = b"7\rXR0502\rR0001\r";
    let whole = feed_all(&[&stream[..]]);
    assert_eq!(whole, Some(Ok(502)));
    for cut in 0..stream.len() {
        let (a, b) = stream.split_at(cut);
        assert_eq!(feed_all(&[a, b]), whole);
    }
    for size in 1..=6 {
        let chunks: Vec<&[u8]> = stream.chunks(size).collect();
        assert_eq!(feed_all(&chunks), whole);
    }
}

#[test]
fn truncated_prior_frame_is_ignored() {
    assert_eq!(feed_strs(&["34\rR2", "000\rR"]), Some(Ok(2000)));
}

#[test]
fn empty_and_markerless_reads_leave_nothing() {
    let mut frames = FrameAssembler::new();
    assert_eq!(frames.feed(b""), None);
    assert_eq!(frames.feed(b"0123\r4"), None);
    assert_eq!(frames.len(), 0);
    assert_eq!(frames.feed(b"R0"), None);
    assert_eq!(frames.len(), 2);
    assert_eq!(frames.feed(b"0"), None);
    assert_eq!(frames.feed(b"07\rR9"), Some(Ok(7)));
    assert_eq!(frames.len(), 0);
}

#[test]
fn bad_payload_clears_and_next_frame_parses() {
    let mut frames = FrameAssembler::new();
    assert_eq!(frames.feed(b"R12A4\r"), Some(Err(FrameError::InvalidNumber)));
    assert_eq!(frames.len(), 0);
    assert_eq!(frames.feed(b"R1234\r"), Some(Ok(1234)));
}

#[test]
fn payload_completes_at_fifth_byte() {
    let mut frames = FrameAssembler::new();
    assert_eq!(frames.feed(b"R0"), None);
    assert_eq!(frames.feed(b"12345"), Some(Ok(123)));
    assert_eq!(frames.len(), 0);
}

#[test]
fn terminator_drops_short_frame() {
    let mut frames = FrameAssembler::new();
    assert_eq!(frames.feed(b"R12\rR0"), None);
    assert_eq!(frames.len(), 2);
    assert_eq!(frames.feed(b"123\r"), Some(Ok(123)));
    assert_eq!(feed_strs(&["R12\rXY", "34\r"]), None);
    assert_eq!(feed_strs(&["R12\rR0123\r"]), Some(Ok(123)));
}

#[test]
fn fresh_marker_restarts_frame() {
    assert_eq!(feed_strs(&["R12R0", "456\r"]), Some(Ok(456)));
    assert_eq!(feed_strs(&["R1\rR", "\rR98", "76\r"]), Some(Ok(9876)));
    let stream = b"3\rR1\rXR12R0042\rR1111\r";
    for size in 1..=6 {
        let chunks: Vec<&[u8]> = stream.chunks(size).collect();
        assert_eq!(feed_all(&chunks), Some(Ok(42)));
    }
}

#[test]
fn invalid_utf8_payload_is_a_text_error() {
    assert_eq!(decode_payload(&[82, 0xff, 48, 48, 49]), Err(FrameError::InvalidText));
    assert_eq!(feed_all(&[&[82u8, 49, 0xc3, 50, 51, 13][..]]), Some(Err(FrameError::InvalidText)));
}

#[test]
fn multibyte_text_payload_is_a_numeric_error() {
    // "Ré12": valid UTF-8, but not four digits.
    let p = [82u8, 0xc3, 0xa9, 49, 50];
    assert!(is_text(&p));
    assert_eq!(decode_payload(&p), Err(FrameError::InvalidNumber));
}

#[test]
fn text_check() {
    assert!(is_text(b"R0123"));
    assert!(!is_text(&[82, 0x80, 48, 48, 48]));
    assert!(is_text(b""));
}

#[test]
fn decode_values() {
    assert_eq!(decode_payload(b"R0000"), Ok(0));
    assert_eq!(decode_payload(b"R9999"), Ok(9999));
    assert_eq!(decode_payload(b"R0045"), Ok(45));
    assert_eq!(decode_payload(b"X0045"), Err(FrameError::InvalidNumber));
    assert_eq!(decode_payload(b"R+123"), Err(FrameError::InvalidNumber));
    assert_eq!(decode_payload(b"R123"), Err(FrameError::InvalidNumber));
    assert_eq!(parse_payload(b"R0123", false), Err(FrameError::InvalidText));
    assert_eq!(parse_payload(b"R0123", true), Ok(123));
}
