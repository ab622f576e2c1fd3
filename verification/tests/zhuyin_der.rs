use chewing::der::{push_uint, read_tlv, read_uint, TAG_INTEGER, TAG_SEQUENCE};
use chewing::dictionary::trie_format::{decode_file, encode_file, push_phrase, read_phrases};
use chewing::dictionary::{DictionaryInfo, Phrase};
use chewing::zhuyin::Syllable;
use der::Encode;

#[test]
fn syllable_components_round_trip() {
    let s = Syllable::from_components(20, 0, 3, 4).unwrap();
    assert_eq!(20, s.initial());
    assert_eq!(0, s.medial());
    assert_eq!(3, s.rime());
    assert_eq!(4, s.tone());
    assert_eq!(Some(s), Syllable::try_from_u16(s.to_u16()));
    assert!(Syllable::from_components(22, 0, 0, 0).is_none());
    assert!(Syllable::try_from_u16(22 * 512).is_none());
    assert_eq!("\u{3118}\u{311c}\u{02cb}", s.to_string());
}

#[test]
fn syllable_prefix_match() {
    let full = Syllable::from_components(20, 0, 3, 4).unwrap();
    let initial = Syllable::from_components(20, 0, 0, 0).unwrap();
    let other = Syllable::from_components(19, 0, 0, 0).unwrap();
    assert!(full.starts_with(initial));
    assert!(!full.starts_with(other));
    assert!(!full.starts_with(Syllable::empty()));
}

#[test]
fn integers_match_der_crate() {
    for v in [0u64, 1, 127, 128, 255, 256, 65535, 1 << 40, u64::MAX] {
        let mut ours = Vec::new();
        push_uint(&mut ours, TAG_INTEGER, v);
        let theirs = v.to_der().unwrap();
        assert_eq!(theirs, ours);
        let (start, end) = read_tlv(&ours, 0, TAG_INTEGER).unwrap();
        assert_eq!(ours.len(), end);
        assert_eq!(Some(v), read_uint(&ours, start, end, 8));
    }
}

#[test]
fn non_minimal_integer_is_refused() {
    let bytes = [0x02u8, 0x02, 0x00, 0x01];
    let (start, end) = read_tlv(&bytes, 0, TAG_INTEGER).unwrap();
    assert_eq!(None, read_uint(&bytes, start, end, 8));
}

#[test]
fn long_length_form() {
    let content = vec![7u8; 300];
    let mut out = Vec::new();
    chewing::der::push_tlv(&mut out, TAG_SEQUENCE, &content);
    assert_eq!(&[0x30u8, 0x82, 0x01, 0x2c], &out[..4]);
    assert_eq!(Some((4, 304)), read_tlv(&out, 0, TAG_SEQUENCE));
}

#[test]
fn phrases_round_trip() {
    let mut bytes = Vec::new();
    assert!(push_phrase(&mut bytes, &Phrase::new("測", 1)));
    assert!(push_phrase(&mut bytes, &Phrase::new("策", 2).with_time(9)));
    assert_eq!(
        vec![Phrase::new("測", 1), Phrase::new("策", 2).with_time(9)],
        read_phrases(&bytes)
    );
}

#[test]
fn file_round_trip() {
    let info = DictionaryInfo {
        name: "n".into(),
        copyright: "c".into(),
        license: "l".into(),
        version: "v".into(),
        software: "s".into(),
    };
    let bytes = encode_file(&info, &[1, 2, 3], &[]).unwrap();
    let (i, x, d) = decode_file(&bytes).unwrap();
    assert_eq!("n", i.name);
    assert_eq!(vec![1u8, 2, 3], x);
    assert!(d.is_empty());
}
