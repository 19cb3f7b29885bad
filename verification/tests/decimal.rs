use fcoreutils::decimal::{parse_i32, parse_i64, parse_u32, parse_u64};
use fcoreutils::seq::format_int_value;
use fcoreutils::shuf::render_numbers;
use fcoreutils::text::{ends_with_bytes, eq_ignore_ascii_case_bytes, trim_bytes};

#[test]
fn unsigned_parsing() {
    assert_eq!(parse_u64(b"0"), Some(0));
    assert_eq!(parse_u64(b"+42"), Some(42));
    assert_eq!(parse_u64(b"18446744073709551615"), Some(u64::MAX));
    assert_eq!(parse_u64(b"18446744073709551616"), None);
    assert_eq!(parse_u64(b"-1"), None);
    assert_eq!(parse_u64(b"+"), None);
    assert_eq!(parse_u64(b""), None);
    assert_eq!(parse_u32(b"4294967295"), Some(u32::MAX));
    assert_eq!(parse_u32(b"4294967296"), None);
}

#[test]
fn signed_parsing() {
    assert_eq!(parse_i64(b"-9223372036854775808"), Some(i64::MIN));
    assert_eq!(parse_i64(b"9223372036854775807"), Some(i64::MAX));
    assert_eq!(parse_i64(b"9223372036854775808"), None);
    assert_eq!(parse_i64(b"-9223372036854775809"), None);
    assert_eq!(parse_i64(b"+-1"), None);
    assert_eq!(parse_i64(b"-"), None);
    assert_eq!(parse_i64(b"-0"), Some(0));
    assert_eq!(parse_i32(b"-2147483648"), Some(i32::MIN));
    assert_eq!(parse_i32(b"2147483648"), None);
}

#[test]
fn rendering() {
    assert_eq!(render_numbers(&vec![0, 1234567890, u64::MAX], 3, b' '), b"0 1234567890 18446744073709551615 ".to_vec());
    assert_eq!(format_int_value(-42), b"-42".to_vec());
    for v in [0i64, 1, -1, 99, i64::MAX, i64::MIN] {
        assert_eq!(parse_i64(&format_int_value(v)), Some(v));
    }
}

#[test]
fn text_helpers() {
    assert_eq!(trim_bytes(b"  a b \t\n"), b"a b");
    assert_eq!(trim_bytes("\u{a0}x\u{3000}".as_bytes()), b"x");
    assert_eq!(trim_bytes(b"   "), b"");
    assert!(ends_with_bytes(b"5 days", b" days"));
    assert!(!ends_with_bytes(b"ays", b" days"));
    assert!(eq_ignore_ascii_case_bytes(b"NoW", b"now"));
    assert!(!eq_ignore_ascii_case_bytes(b"no", b"now"));
}
