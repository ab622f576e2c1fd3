use chewing::dictionary::uhash::{bin_in_bounds, load_bin_records, try_load_bin, try_load_text, UhashError, BIN_FIELD_SIZE};
use chewing::dictionary::Phrase;
use chewing::zhuyin::Syllable;

fn entry(syllables: &[u16], text: &str, freq: u32, time: u64) -> (Vec<Syllable>, Phrase) {
    (
        syllables.iter().map(|&v| Syllable::try_from_u16(v).unwrap()).collect(),
        Phrase::new(text, freq).with_time(time),
    )
}

#[test]
fn load_valid_text() {
    let input = b"42\nP 1 1 2 3 4\n";
    let phrases = try_load_text(&input[..]).unwrap();
    assert_eq!(vec![entry(&[1], "P", 1, 2)], phrases);
}

#[test]
fn load_truncated_text() {
    let input = b"42\nPhrase 1 2 3 4 5 6\n";
    let phrases = try_load_text(&input[..]);
    assert!(phrases.is_err());
}

#[test]
fn load_malformed_text() {
    let input = br#"<?xml version="1.0" encoding="UTF-8"?>\n"#;
    let phrases = try_load_text(&input[..]);
    assert!(phrases.is_err());
}

#[test]
fn load_binary_as_text() {
    let input = b"CBiH\0\0\0\0";
    let phrases = try_load_text(&input[..]);
    assert!(phrases.is_err());
}

#[test]
fn text_lines_may_end_with_crlf_and_numbers_with_plus() {
    let input = "7\r\n測試 +1 2 10 20 0 0\r\n".as_bytes();
    assert_eq!(vec![entry(&[1, 2], "測試", 10, 20)], try_load_text(input).unwrap());
}

#[test]
fn text_extra_columns_are_ignored() {
    let input = b"0\nP 1 1 2 3 4 5 6";
    assert_eq!(vec![entry(&[1], "P", 1, 2)], try_load_text(&input[..]).unwrap());
}

#[test]
fn text_errors() {
    // Empty input, a lifetime over 16 bits, an empty line, a bad syllable.
    assert_eq!(Err(UhashError::InvalidData), try_load_text(b""));
    assert_eq!(Err(UhashError::InvalidData), try_load_text(b"65536\n"));
    assert_eq!(Err(UhashError::InvalidData), try_load_text(b"1\n\nP 1 1 2 3 4\n"));
    assert_eq!(Err(UhashError::InvalidData), try_load_text(b"1\nP 65535 1 2 3 4\n"));
    assert_eq!(Err(UhashError::InvalidData), try_load_text(b"1\nP 1 1 -2 3 4\n"));
    assert_eq!(Ok(vec![]), try_load_text(b"65535"));
}

fn bin_record(freqs: [i32; 4], syllables: &[u16], text: &[u8]) -> Vec<u8> {
    let mut r = Vec::new();
    for f in freqs {
        r.extend_from_slice(&f.to_ne_bytes());
    }
    r.push(syllables.len() as u8);
    for s in syllables {
        r.extend_from_slice(&s.to_ne_bytes());
    }
    r.push(text.len() as u8);
    r.extend_from_slice(text);
    r.resize(BIN_FIELD_SIZE, 0);
    r
}

fn bin_header() -> Vec<u8> {
    let mut input = vec![b'C', b'B', b'i', b'H'];
    input.extend_from_slice(&0_i32.to_ne_bytes());
    input
}

#[test]
fn load_valid_bin() {
    let mut input = vec![b'C', b'B', b'i', b'H'];
    input.extend_from_slice(&(0 as i32).to_ne_bytes());
    input.extend_from_slice(&1_i32.to_ne_bytes());
    input.extend_from_slice(&2_i32.to_ne_bytes());
    input.extend_from_slice(&3_i32.to_ne_bytes());
    input.extend_from_slice(&4_i32.to_ne_bytes());
    input.push(1);
    input.extend_from_slice(&1_u16.to_ne_bytes());
    input.push(1);
    input.extend_from_slice(b"P");
    input.extend(std::iter::repeat(0).take(BIN_FIELD_SIZE - input.len() + 4 + 4));
    let phrases = try_load_bin(&input[..]).unwrap();
    assert_eq!(vec![entry(&[1], "P", 1, 2)], phrases);
}

#[test]
fn bin_skips_removed_and_negative_records() {
    let mut input = bin_header();
    input.extend(bin_record([-1, 2, 3, 4], &[1], b"A"));
    input.extend(bin_record([1, 2, 3, 4], &[1], b""));
    input.extend(bin_record([5, 6, 0, 0], &[1, 2], "測試".as_bytes()));
    input.extend_from_slice(b"partial");
    assert!(bin_in_bounds(&input, u16::from_ne_bytes([1, 0]) == 1));
    assert_eq!(vec![entry(&[1, 2], "測試", 5, 6)], try_load_bin(&input).unwrap());
}

#[test]
fn bin_errors() {
    assert_eq!(Err(UhashError::UnexpectedEof), try_load_bin(b"CBi"));
    assert_eq!(Err(UhashError::InvalidData), try_load_bin(b"XBiH\0\0\0\0"));
    assert_eq!(Err(UhashError::UnexpectedEof), try_load_bin(b"CBiH\0\0"));
    let mut input = bin_header();
    input.extend(bin_record([1, 2, 3, 4], &[65535], b"P"));
    assert_eq!(Err(UhashError::InvalidData), try_load_bin(&input));
}

#[test]
fn bin_byte_order_is_a_parameter() {
    let mut input = b"CBiH\0\0\0\0".to_vec();
    let mut rec = vec![0, 0, 0, 9, 0, 0, 0, 7, 0, 0, 0, 0, 0, 0, 0, 0, 1, 0, 2, 1, b'Q'];
    rec.resize(BIN_FIELD_SIZE, 0);
    input.extend(rec);
    assert_eq!(Ok(vec![entry(&[2], "Q", 9, 7)]), load_bin_records(&input, false));
}

#[test]
fn bin_length_past_the_record_is_out_of_bounds() {
    let mut input = bin_header();
    let mut rec = bin_record([1, 2, 3, 4], &[], b"");
    rec[16] = 60;
    input.extend(rec);
    assert!(!bin_in_bounds(&input, true));
    assert!(!bin_in_bounds(&input, false));
}
