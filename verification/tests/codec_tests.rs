use minidb::codec::{decode_record, encode_record};
use minidb::records::{LanguageInfo, Typing};

fn info(creator: &str, year: u16, typing: Typing) -> LanguageInfo {
    LanguageInfo { creator: creator.to_string(), year, typing }
}

#[test]
fn encode_exact_bytes() {
    let bytes = encode_record(&"C".to_string(), &info("me", 1972, Typing::Static));
    let expected: Vec<u8> = vec![
        1, 0, 0, 0, 0, 0, 0, 0, // key length
        b'C', // key
        2, 0, 0, 0, 0, 0, 0, 0, // creator length
        b'm', b'e', // creator
        0xB4, 0x07, // year 1972, little endian
        1, 0, 0, 0, // typing tag: Static
    ];
    assert_eq!(bytes, expected);
}

#[test]
fn encode_dynamic_tag() {
    let bytes = encode_record(&"k".to_string(), &info("", 0, Typing::Dynamic));
    assert_eq!(&bytes[bytes.len() - 4..], &[0, 0, 0, 0]);
    assert_eq!(&bytes[bytes.len() - 6..bytes.len() - 4], &[0, 0]);
}

#[test]
fn decode_round_trip() {
    let bytes = encode_record(&"Python".to_string(), &info("Guido van Rossum", 1989, Typing::Dynamic));
    let (rec, end) = decode_record(&bytes, 0).expect("a complete frame decodes");
    assert_eq!(end, bytes.len());
    assert_eq!(rec.key, "Python");
    assert_eq!(rec.value.creator, "Guido van Rossum");
    assert_eq!(rec.value.year, 1989);
    assert_eq!(rec.value.typing, Typing::Dynamic);
}

#[test]
fn decode_non_ascii_key() {
    let bytes = encode_record(&"caf\u{e9}".to_string(), &info("no\u{eb}l", 2000, Typing::Static));
    let (rec, end) = decode_record(&bytes, 0).expect("UTF-8 keys decode");
    assert_eq!(end, bytes.len());
    assert_eq!(rec.key, "caf\u{e9}");
    assert_eq!(rec.value.creator, "no\u{eb}l");
}

#[test]
fn decode_every_truncation_fails() {
    let bytes = encode_record(&"Go".to_string(), &info("Rob Pike", 2009, Typing::Static));
    for cut in 0..bytes.len() {
        let prefix = bytes[..cut].to_vec();
        assert!(decode_record(&prefix, 0).is_none(), "a torn frame must not decode (cut {cut})");
    }
}

#[test]
fn decode_with_trailing_bytes() {
    let mut bytes = encode_record(&"a".to_string(), &info("b", 1, Typing::Static));
    let frame_len = bytes.len();
    bytes.extend_from_slice(&[0xFF, 0xFF, 0xFF]);
    let (rec, end) = decode_record(&bytes, 0).expect("trailing bytes do not disturb a frame");
    assert_eq!(end, frame_len);
    assert_eq!(rec.key, "a");
}

#[test]
fn decode_at_offset() {
    let mut bytes = encode_record(&"x".to_string(), &info("p", 1, Typing::Static));
    let first = bytes.len();
    bytes.extend(encode_record(&"y".to_string(), &info("q", 2, Typing::Dynamic)));
    let (rec, end) = decode_record(&bytes, first).expect("the second frame decodes at its offset");
    assert_eq!(end, bytes.len());
    assert_eq!(rec.key, "y");
    assert_eq!(rec.value.year, 2);
}

#[test]
fn decode_rejects_unknown_tag() {
    let mut bytes = encode_record(&"k".to_string(), &info("c", 5, Typing::Static));
    let n = bytes.len();
    bytes[n - 4] = 2; // no third variant
    assert!(decode_record(&bytes, 0).is_none());
}

#[test]
fn decode_rejects_invalid_utf8() {
    // a one-byte key that is not valid UTF-8
    let mut bytes: Vec<u8> = vec![1, 0, 0, 0, 0, 0, 0, 0, 0xFF];
    bytes.extend(vec![0, 0, 0, 0, 0, 0, 0, 0]); // empty creator
    bytes.extend(vec![0, 0]); // year
    bytes.extend(vec![1, 0, 0, 0]); // tag
    assert!(decode_record(&bytes, 0).is_none());
}
