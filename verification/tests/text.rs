//! Numbers, JSON text, byte searches and checksums.

use localbench_core::bytes::{
    find_subslice, find_subslice_from, has_at, is_bytes_less, read_be16, read_be32, read_le16,
    read_le32, read_le64,
};
use localbench_core::checksum::crc32;
use localbench_core::encoding::lossy_detail;
use localbench_core::notices::{contains_code, push_notice, Notice};
use localbench_core::text::{
    decimal_text, padded_decimal_text, push_json_bool, push_json_string, signed_decimal_text,
    text_mentions_location, truncate_detail,
};
use localbench_core::version::core_version;

fn json(value: &str) -> String {
    let mut output = String::new();
    push_json_string(&mut output, value);
    output
}

#[test]
fn numbers_are_written_in_decimal() {
    assert_eq!(decimal_text(0), "0");
    assert_eq!(decimal_text(u64::MAX), "18446744073709551615");
    assert_eq!(signed_decimal_text(-42), "-42");
    assert_eq!(signed_decimal_text(i64::MIN), "-9223372036854775808");
    assert_eq!(padded_decimal_text(7, 2), "07");
    assert_eq!(padded_decimal_text(2026, 2), "2026");
}

#[test]
fn json_strings_escape_quotes_backslashes_and_controls() {
    assert_eq!(json("plain äöü"), "\"plain äöü\"");
    assert_eq!(json("a\"b\\c"), "\"a\\\"b\\\\c\"");
    assert_eq!(json("\u{8}\u{c}\n\r\t"), "\"\\b\\f\\n\\r\\t\"");
    assert_eq!(json("\u{0}\u{1f}"), "\"\\u0000\\u001f\"");
    let mut output = String::new();
    push_json_bool(&mut output, true);
    push_json_bool(&mut output, false);
    assert_eq!(output, "truefalse");
}

#[test]
fn json_text_stays_on_one_line_and_tells_texts_apart() {
    let texts = ["\n", "\\n", "n", "\u{1}", "\\u0001", "\"", "\\\"", ""];
    for (i, left) in texts.iter().enumerate() {
        assert!(json(left).chars().all(|c| c >= ' '));
        for (j, right) in texts.iter().enumerate() {
            assert_eq!(json(left) == json(right), i == j);
        }
    }
}

#[test]
fn long_details_are_cut_after_160_characters() {
    let exact = "é".repeat(160);
    assert_eq!(truncate_detail(&exact), exact);
    let longer = "é".repeat(161);
    assert_eq!(truncate_detail(&longer), format!("{exact}…"));
}

#[test]
fn invalid_bytes_are_shown_as_replacement_characters() {
    assert_eq!(lossy_detail("ä".as_bytes()), "ä");
    assert_eq!(lossy_detail(b"a\xffb"), "a\u{fffd}b");
}

#[test]
fn locations_are_found_in_any_letter_case() {
    assert!(text_mentions_location("gpsLatitude"));
    assert!(text_mentions_location("my GeoLocation"));
    assert!(!text_mentions_location("GP S"));
    assert!(!text_mentions_location(""));
}

#[test]
fn integers_are_read_in_both_byte_orders() {
    let bytes = [0x01, 0x02, 0x03, 0x04, 0x05, 0x06, 0x07, 0x08];
    assert_eq!(read_be16(&bytes, 0), 0x0102);
    assert_eq!(read_le16(&bytes, 0), 0x0201);
    assert_eq!(read_be32(&bytes, 1), 0x0203_0405);
    assert_eq!(read_le32(&bytes, 1), 0x0504_0302);
    assert_eq!(read_le64(&bytes, 0), 0x0807_0605_0403_0201);
}

#[test]
fn parts_are_found_at_their_first_place() {
    assert_eq!(find_subslice(b"abcabc", b"bc"), Some(1));
    assert_eq!(find_subslice_from(b"abcabc", b"bc", 2), Some(4));
    assert_eq!(find_subslice(b"abc", b"abcd"), None);
    assert!(has_at(b"abc", b"bc", 1));
    assert!(!has_at(b"abc", b"bc", 2));
    assert!(is_bytes_less(b"ab", b"abc"));
    assert!(is_bytes_less(b"ab", b"b"));
    assert!(!is_bytes_less(b"b", b"ab"));
}

#[test]
fn crc32_matches_its_published_check_value() {
    assert_eq!(crc32(b"123456789"), 0xcbf4_3926);
    assert_eq!(crc32(b""), 0);
}

#[test]
fn a_repeated_condition_reads_as_one_statement() {
    let mut notices = Vec::new();
    push_notice(&mut notices, Notice::new("one", "First."));
    push_notice(&mut notices, Notice::new("two", "Second."));
    push_notice(&mut notices, Notice::new("one", "Again."));
    let codes = notices.iter().map(Notice::code).collect::<Vec<_>>();
    assert_eq!(codes, vec!["one", "two"]);
    assert_eq!(notices[0].message(), "First.");
    assert!(contains_code(&notices, "two"));
    assert!(!contains_code(&notices, "three"));
}

#[test]
fn the_version_is_told() {
    assert_eq!(core_version(), "0.1.0");
}
