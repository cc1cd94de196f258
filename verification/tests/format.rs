//! The formats: records, segment names, numbers and text.

use flint::decimal::{parse_number, to_decimal};
use flint::keydir::Keydir;
use flint::naming::{seg_path, segment_id};
use flint::record::{encode, HEADER, MAX_KV, TOMBSTONE};
use flint::segment::replay;
use flint::text::{find, find_byte, space, trim};

fn chars(text: &str) -> Vec<char> {
    text.chars().collect()
}

#[test]
fn a_record_has_these_bytes() {
    assert_eq!(
        encode(b"k", Some(b"v")),
        [136, 182, 123, 248, 1, 0, 0, 0, 1, 0, 0, 0, 107, 118]
    );
    assert_eq!(encode(b"", Some(b"")), [105, 223, 34, 101, 0, 0, 0, 0, 0, 0, 0, 0]);
    assert_eq!(
        encode(b"gone", None),
        [223, 77, 210, 193, 4, 0, 0, 0, 255, 255, 255, 255, 103, 111, 110, 101]
    );
    assert_eq!(HEADER, 12);
    assert_eq!(MAX_KV, 268_435_456);
    assert_eq!(TOMBSTONE, u32::MAX);
}

#[test]
fn the_checksum_is_crc32() {
    let record = encode(b"checked", Some(b"bytes"));
    assert_eq!(record[..4], crc32fast::hash(&record[4..]).to_le_bytes());
}

#[test]
fn replay_finds_where_values_are() {
    let mut bytes = encode(b"a", Some(b"one"));
    bytes.extend(encode(b"b", Some(b"two!")));
    bytes.extend(encode(b"a", None));
    let mut keydir = Keydir::new();
    assert_eq!(replay(&bytes, true, 5, &mut keydir), (true, true));
    assert_eq!(keydir.len(), 1);
    assert!(keydir.get(b"a").is_none());
    let loc = keydir.get(b"b").unwrap();
    assert_eq!((loc.file_id, loc.val_pos, loc.val_len), (5, 16 + 13, 4));
    assert_eq!(&bytes[29..33], b"two!");
}

#[test]
fn segment_names_are_padded_to_six_digits() {
    assert_eq!(seg_path(1), "000001.flog");
    assert_eq!(seg_path(0), "000000.flog");
    assert_eq!(seg_path(999_999), "999999.flog");
    assert_eq!(seg_path(1_000_000), "1000000.flog");
    assert_eq!(seg_path(u64::MAX), "18446744073709551615.flog");
}

#[test]
fn segment_names_are_read_back() {
    for id in [0, 1, 9, 10, 999_999, 1_000_000, u64::MAX] {
        assert_eq!(segment_id(&seg_path(id)), Some(id));
    }
    assert_eq!(segment_id("7.flog"), Some(7));
    assert_eq!(segment_id("+7.flog"), Some(7));
    assert_eq!(segment_id(".flog"), None);
    assert_eq!(segment_id("x.flog"), None);
    assert_eq!(segment_id("000001.log"), None);
    assert_eq!(segment_id("000001.flog.tmp"), None);
    assert_eq!(segment_id("18446744073709551616.flog"), None);
    assert_eq!(segment_id(""), None);
}

#[test]
fn numbers_are_written_and_read() {
    for n in [0, 9, 10, 65_535, u64::MAX] {
        assert_eq!(to_decimal(n), n.to_string());
        assert_eq!(parse_number(&chars(&n.to_string()), u64::MAX), Some(n));
    }
    assert_eq!(parse_number(&chars("+5"), 10), Some(5));
    assert_eq!(parse_number(&chars("007"), 10), Some(7));
    assert_eq!(parse_number(&chars("11"), 10), None);
    assert_eq!(parse_number(&chars("+"), 10), None);
    assert_eq!(parse_number(&chars(""), 10), None);
    assert_eq!(parse_number(&chars("-1"), 10), None);
    assert_eq!(parse_number(&chars("1 "), 10), None);
    assert_eq!(parse_number(&chars("18446744073709551616"), u64::MAX), None);
}

#[test]
fn white_space_is_what_unicode_says() {
    for c in '\0'..=char::MAX {
        assert_eq!(space(c), c.is_whitespace(), "{c:?}");
    }
}

#[test]
fn text_is_trimmed() {
    for text in ["", " ", "a", " a", "a ", "\t a b\u{3000}\n", "  \u{85}"] {
        assert_eq!(trim(&chars(text)).iter().collect::<String>(), text.trim());
    }
}

#[test]
fn the_first_match_is_found() {
    assert_eq!(find(&chars("ab cd ef"), ' '), 2);
    assert_eq!(find(&chars("abc"), ' '), 3);
    assert_eq!(find_byte(b" x", 32), 0);
    assert_eq!(find_byte(b"", 32), 0);
}

#[test]
fn replay_tells_where_the_records_end() {
    let whole = encode(b"a", Some(b"one"));
    for tail in [&[1u8, 2, 3][..], &[0; 12], &[255; 12]] {
        let mut bytes = whole.clone();
        bytes.extend(tail);
        let mut keydir = Keydir::new();
        assert_eq!(replay(&bytes, true, 5, &mut keydir), (true, false));
        assert_eq!(keydir.len(), 1);
    }
    let mut keydir = Keydir::new();
    assert_eq!(replay(&[], true, 5, &mut keydir), (true, true));
    assert_eq!(replay(&[0; 11], false, 5, &mut keydir), (false, false));
    assert_eq!(replay(&[0; 12], false, 5, &mut keydir), (true, false));
}
