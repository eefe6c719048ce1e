use char_reader::CharReader;
use char_reader::ReadError;
use char_reader::VecSource;

const TEXT: &str = "Comunicações\n概\n要éléphants blancs\nالعاشر ليونيكود\n\nhi?\n";
const INVALID: [u8; 3] = [b'a', 0xff, 0x4a]; // invalid as UTF8

fn reader_over(text: &str) -> CharReader<VecSource> {
    CharReader::new(VecSource::new(text.as_bytes().to_vec()))
}

#[test]
fn test_chars() {
    let mut reader = reader_over(TEXT);
    for str_char in TEXT.chars() {
        let read_char = reader.next_char().unwrap();
        assert_eq!(read_char, Some(str_char));
    }
    assert_eq!(reader.next_char().unwrap(), None);
}

#[test]
fn test_lines() {
    let mut reader = reader_over(TEXT);
    for str_line in TEXT.lines() {
        let cr_line = reader.next_line(50, 500).unwrap();
        assert_eq!(&cr_line.unwrap(), str_line);
    }
    assert_eq!(reader.next_line(50, 500).unwrap(), None);
}

#[test]
fn test_thresholds() {
    let mut reader = reader_over(TEXT);
    assert_eq!(&reader.next_line(5, 15).unwrap().unwrap(), "Comun");
    assert_eq!(&reader.next_line(5, 15).unwrap().unwrap(), "概");
    // the third line exceeds 15 chars with no terminator in that span
    assert!(matches!(reader.next_line(5, 15), Err(ReadError::LineTooLong)));
}

#[test]
fn check_utf8_error() {
    let mut reader = CharReader::new(VecSource::new(INVALID.to_vec()));
    assert_eq!(reader.next_char().unwrap(), Some('a'));
    assert!(matches!(reader.next_char(), Err(ReadError::InvalidData)));
}

#[test]
fn crlf_and_lf_are_single_breaks() {
    let mut reader = reader_over("a\r\nb\nc\r");
    assert_eq!(reader.next_line(50, 500).unwrap().unwrap(), "a");
    assert_eq!(reader.next_line(50, 500).unwrap().unwrap(), "b");
    assert_eq!(reader.next_line(50, 500).unwrap().unwrap(), "c");
    assert_eq!(reader.next_line(50, 500).unwrap(), None);
}

#[test]
fn empty_line_leaves_accumulator_unchanged() {
    let mut reader = reader_over("\nrest");
    let mut line = String::new();
    line.push('k');
    line.push('p');
    assert_eq!(reader.read_line(&mut line, 10, 20).unwrap(), true);
    assert_eq!(line, "kp");
}

#[test]
fn read_line_appends_to_accumulator() {
    let mut reader = reader_over("abc\ndef\n");
    let mut line = String::new();
    assert_eq!(reader.read_line(&mut line, 50, 500).unwrap(), true);
    assert_eq!(line, "abc");
    assert_eq!(reader.read_line(&mut line, 50, 500).unwrap(), true);
    assert_eq!(line, "abcdef");
    assert_eq!(reader.read_line(&mut line, 50, 500).unwrap(), false);
    assert_eq!(line, "abcdef");
}

#[test]
fn exhausted_stream_is_idempotent() {
    let mut reader = CharReader::new(VecSource::new(Vec::new()));
    for _ in 0..3 {
        assert_eq!(reader.next_char().unwrap(), None);
        assert_eq!(reader.peek_char().unwrap(), None);
        assert_eq!(reader.next_line(5, 15).unwrap(), None);
        let mut line = String::new();
        assert_eq!(reader.read_line(&mut line, 5, 15).unwrap(), false);
        assert_eq!(line, "");
    }
    let mut reader = reader_over("hi");
    assert_eq!(reader.next_char().unwrap(), Some('h'));
    assert_eq!(reader.next_char().unwrap(), Some('i'));
    for _ in 0..3 {
        assert_eq!(reader.next_char().unwrap(), None);
        assert_eq!(reader.next_line(5, 15).unwrap(), None);
    }
}

#[test]
fn truncated_trailing_sequence_is_end_of_stream() {
    // the first byte of a 3-byte encoding, with the stream ending after it
    let mut reader = CharReader::new(VecSource::new(vec![0xE6]));
    assert_eq!(reader.next_char().unwrap(), None);
    assert_eq!(reader.next_char().unwrap(), None);
    // a consumed char first, then the truncated tail of a 2-byte encoding
    let mut reader = CharReader::new(VecSource::new(vec![b'x', 0xC3]));
    assert_eq!(reader.next_char().unwrap(), Some('x'));
    assert_eq!(reader.next_char().unwrap(), None);
}

#[test]
fn small_buffer_splits_encodings_across_refills() {
    let text = "概要é概x要";
    let mut reader = CharReader::with_capacity(VecSource::new(text.as_bytes().to_vec()), 4);
    for str_char in text.chars() {
        assert_eq!(reader.next_char().unwrap(), Some(str_char));
    }
    assert_eq!(reader.next_char().unwrap(), None);
}

#[test]
fn small_buffer_reads_lines_too() {
    let text = "Comunicações\n概\nhi?\n";
    let mut reader = CharReader::with_capacity(VecSource::new(text.as_bytes().to_vec()), 5);
    for str_line in text.lines() {
        assert_eq!(&reader.next_line(50, 500).unwrap().unwrap(), str_line);
    }
    assert_eq!(reader.next_line(50, 500).unwrap(), None);
}

#[test]
fn peek_is_idempotent_and_does_not_consume() {
    let mut reader = reader_over("é1");
    assert_eq!(reader.peek_char().unwrap(), Some('é'));
    assert_eq!(reader.peek_char().unwrap(), Some('é'));
    assert_eq!(reader.next_char().unwrap(), Some('é'));
    assert_eq!(reader.peek_char().unwrap(), Some('1'));
    assert_eq!(reader.next_char().unwrap(), Some('1'));
    assert_eq!(reader.peek_char().unwrap(), None);
}

#[test]
fn load_char_reports_width() {
    let mut reader = reader_over("é1");
    assert_eq!(reader.load_char().unwrap(), Some(('é', 2)));
    // load does not consume
    assert_eq!(reader.load_char().unwrap(), Some(('é', 2)));
    assert_eq!(reader.next_char().unwrap(), Some('é'));
    assert_eq!(reader.load_char().unwrap(), Some(('1', 1)));
}

#[test]
fn fail_threshold_wins_over_drop_when_inverted() {
    // drop_after above fail_after: nothing past fail_after is ever appended
    let mut reader = reader_over("abcdefg\n");
    let mut line = String::new();
    assert!(matches!(reader.read_line(&mut line, 10, 3), Err(ReadError::LineTooLong)));
    assert_eq!(line, "abc");
}

#[test]
fn terminator_at_fail_threshold_still_ends_line() {
    let mut reader = reader_over("abc\n");
    assert_eq!(reader.next_line(3, 3).unwrap().unwrap(), "abc");
    assert_eq!(reader.next_line(3, 3).unwrap(), None);
}

#[test]
fn dropped_characters_still_count() {
    // 12 chars: 5 kept, 7 dropped, all below the fail threshold
    let mut reader = reader_over("Comunicações\nnext\n");
    assert_eq!(reader.next_line(5, 15).unwrap().unwrap(), "Comun");
    assert_eq!(reader.next_line(5, 15).unwrap().unwrap(), "next");
}

#[test]
fn malformed_encodings_are_invalid_data() {
    // overlong two-byte encoding of '/'
    let mut reader = CharReader::new(VecSource::new(vec![0xC0, 0xAF]));
    assert!(matches!(reader.next_char(), Err(ReadError::InvalidData)));
    // broken continuation byte
    let mut reader = CharReader::new(VecSource::new(vec![0xC3, 0x28]));
    assert!(matches!(reader.next_char(), Err(ReadError::InvalidData)));
    // an encoded surrogate half
    let mut reader = CharReader::new(VecSource::new(vec![0xED, 0xA0, 0x80]));
    assert!(matches!(reader.next_char(), Err(ReadError::InvalidData)));
    // beyond the Unicode range
    let mut reader = CharReader::new(VecSource::new(vec![0xF4, 0x90, 0x80, 0x80]));
    assert!(matches!(reader.next_char(), Err(ReadError::InvalidData)));
}

#[test]
fn decode_error_is_deterministic_on_retry() {
    let mut reader = CharReader::new(VecSource::new(vec![0xFF, b'a']));
    assert!(matches!(reader.next_char(), Err(ReadError::InvalidData)));
    // the cursor was left on the offending byte: retrying hits it again
    assert!(matches!(reader.next_char(), Err(ReadError::InvalidData)));
    assert!(matches!(reader.peek_char(), Err(ReadError::InvalidData)));
}

#[test]
fn decode_error_in_line_keeps_appended_chars() {
    let mut reader = CharReader::new(VecSource::new(vec![b'a', b'b', 0xFF]));
    let mut line = String::new();
    assert!(matches!(reader.read_line(&mut line, 50, 500), Err(ReadError::InvalidData)));
    assert_eq!(line, "ab");
}

#[test]
fn line_ended_by_end_of_stream_is_available() {
    let mut reader = reader_over("tail");
    assert_eq!(reader.next_line(50, 500).unwrap().unwrap(), "tail");
    assert_eq!(reader.next_line(50, 500).unwrap(), None);
}

#[test]
fn cr_followed_by_non_lf_terminates_alone() {
    let mut reader = reader_over("a\rb\n");
    assert_eq!(reader.next_line(50, 500).unwrap().unwrap(), "a");
    assert_eq!(reader.next_line(50, 500).unwrap().unwrap(), "b");
    assert_eq!(reader.next_line(50, 500).unwrap(), None);
}
