use s3_archiving::byte_range::ByteRange;
use s3_archiving::crc::decode_s3_crc32;
use s3_archiving::le_bytes::{p16, p32, p64, push_bytes};
use s3_archiving::plan::{plan_single_mpu, FileId, SingleRouting, SourceFile};
use s3_archiving::sorting::{sort_items, sort_picks};
use s3_archiving::text::{
    chars_of, contains_char, contains_text, decimal, padded_decimal, parse_number, strip_prefix,
    trimmed_chars,
};
use s3_archiving::zip_format::{entry_total_len, local_header_len};

#[test]
fn numbers_are_little_endian() {
    let mut out = Vec::new();
    p16(&mut out, 0x0102);
    p32(&mut out, 0x0304_0506);
    p64(&mut out, 0x0708_090a_0b0c_0d0e);
    push_bytes(&mut out, b"z");
    assert_eq!(
        out,
        vec![2, 1, 6, 5, 4, 3, 0x0e, 0x0d, 0x0c, 0x0b, 0x0a, 9, 8, 7, b'z']
    );
}

#[test]
fn numbers_in_decimal() {
    assert_eq!(decimal(0), "0");
    assert_eq!(decimal(u64::MAX), u64::MAX.to_string());
    assert_eq!(padded_decimal(42, 8), "00000042");
    assert_eq!(padded_decimal(42, 1), "42");
    for n in [0, 1, 9, 10, 1_234_567] {
        assert_eq!(parse_number(&decimal(n)), Some(n as usize));
    }
}

#[test]
fn numbers_are_read_as_std_reads_them() {
    for text in ["", "+", "-", "+5", "-5", "5 ", "007", "18446744073709551615", "18446744073709551616", "x", "++1"] {
        assert_eq!(parse_number(text), text.parse::<usize>().ok(), "{text:?}");
    }
}

#[test]
fn texts_are_searched() {
    assert_eq!(chars_of("aé"), vec!['a', 'é']);
    assert_eq!(strip_prefix("files/a", "files/"), Some("a".to_string()));
    assert_eq!(strip_prefix("files", "files/"), None);
    assert_eq!(strip_prefix("é/x", "é/"), Some("x".to_string()));
    assert!(contains_char("a/b", '/'));
    assert!(!contains_char("ab", '/'));
    assert!(contains_text("a SlowDown b", "SlowDown"));
    assert!(!contains_text("SlowDow", "SlowDown"));
    assert!(contains_text("x", ""));
}

#[test]
fn texts_are_trimmed_as_std_trims_them() {
    for text in ["", "  a b\t\n", "\u{3000}é\u{2009}", "\u{feff}x", "a"] {
        let trimmed: String = trimmed_chars(text).into_iter().collect();
        assert_eq!(trimmed, text.trim());
    }
}

#[test]
fn ranges_as_headers() {
    assert_eq!(ByteRange { first: 0, last: 99 }.header(), "bytes=0-99");
}

#[test]
fn sorting_is_stable() {
    let keys = vec![(2, 0), (1, 5), (2, 0), (1, 4)];
    assert_eq!(sort_items(vec!['a', 'b', 'c', 'd'], &keys), vec!['d', 'b', 'a', 'c']);
    assert_eq!(sort_picks(&keys, vec![0, 2, 1]), vec![1, 0, 2]);
}

#[test]
fn entry_lengths() {
    assert_eq!(local_header_len("abc"), 33);
    assert_eq!(local_header_len("é"), 32);
    assert_eq!(entry_total_len("abc", 10), 43);
}

#[test]
fn checksum_text_is_trimmed_and_read_back() {
    assert_eq!(decode_s3_crc32("3q2+7w=="), Some(0xDEAD_BEEF));
    assert_eq!(decode_s3_crc32("AAAAAA=="), Some(0));
    assert_eq!(decode_s3_crc32("/////w=="), Some(u32::MAX));
    assert_eq!(decode_s3_crc32(" 3q2+7w==\n"), Some(0xDEAD_BEEF));
    assert_eq!(decode_s3_crc32(""), None);
}

#[test]
fn little_input_is_streamed() {
    let files = vec![SourceFile {
        id: FileId(0),
        key: "files/a".to_string(),
        name: "a".to_string(),
        size: 10,
    }];
    assert!(matches!(plan_single_mpu(files), SingleRouting::Fallback));
    assert!(matches!(plan_single_mpu(vec![]), SingleRouting::Fallback));
}
