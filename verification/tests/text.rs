use metrics_bridge::text::{
    bytes_equal, bytes_less, ends_with, parse_decimal, parse_unsigned, push_decimal, scan,
    starts_with, ByteClass,
};

fn decimal(v: i64) -> Vec<u8> {
    let mut out: Vec<u8> = Vec::new();
    push_decimal(&mut out, v);
    out
}

#[test]
fn decimal_notation_of_some_numbers() {
    assert_eq!(decimal(0), b"0".to_vec());
    assert_eq!(decimal(7), b"7".to_vec());
    assert_eq!(decimal(10), b"10".to_vec());
    assert_eq!(decimal(-1), b"-1".to_vec());
    assert_eq!(decimal(614400000), b"614400000".to_vec());
    assert_eq!(decimal(i64::MAX), b"9223372036854775807".to_vec());
    assert_eq!(decimal(i64::MIN), b"-9223372036854775808".to_vec());
}

#[test]
fn decimal_notation_is_read_back() {
    let values: [i64; 9] = [0, 1, -1, 9, 10, 99, -100, i64::MAX, i64::MIN];
    for v in values {
        assert_eq!(parse_decimal(&decimal(v)), Some(v));
    }
}

#[test]
fn parse_decimal_accepts_and_refuses() {
    assert_eq!(parse_decimal(b"42"), Some(42));
    assert_eq!(parse_decimal(b"-42"), Some(-42));
    assert_eq!(parse_decimal(b"007"), Some(7));
    assert_eq!(parse_decimal(b"-0"), Some(0));
    assert_eq!(parse_decimal(b""), None);
    assert_eq!(parse_decimal(b"-"), None);
    assert_eq!(parse_decimal(b"+1"), None);
    assert_eq!(parse_decimal(b"1.5"), None);
    assert_eq!(parse_decimal(b"1e3"), None);
    assert_eq!(parse_decimal(b"12a"), None);
    assert_eq!(parse_decimal(b"NaN"), None);
    assert_eq!(parse_decimal(b"9223372036854775807"), Some(i64::MAX));
    assert_eq!(parse_decimal(b"9223372036854775808"), None);
    assert_eq!(parse_decimal(b"-9223372036854775808"), Some(i64::MIN));
    assert_eq!(parse_decimal(b"-9223372036854775809"), None);
    assert_eq!(parse_decimal(b"99999999999999999999999999"), None);
    assert_eq!(parse_decimal(b"000000000000000000000000001"), Some(1));
}

#[test]
fn parse_unsigned_accepts_and_refuses() {
    assert_eq!(parse_unsigned(b"0"), Some(0));
    assert_eq!(parse_unsigned(b"18446744073709551615"), Some(u64::MAX));
    assert_eq!(parse_unsigned(b"18446744073709551616"), None);
    assert_eq!(parse_unsigned(b"-1"), None);
    assert_eq!(parse_unsigned(b""), None);
    assert_eq!(parse_unsigned(b"1 "), None);
}

#[test]
fn byte_strings_are_ordered_lexicographically() {
    assert!(bytes_less(b"a", b"b"));
    assert!(bytes_less(b"a", b"ab"));
    assert!(bytes_less(b"", b"a"));
    assert!(bytes_less(b"ab", b"b"));
    assert!(!bytes_less(b"b", b"a"));
    assert!(!bytes_less(b"a", b"a"));
    assert!(!bytes_less(b"", b""));
    assert!(bytes_equal(b"abc", b"abc"));
    assert!(!bytes_equal(b"abc", b"abd"));
    assert!(!bytes_equal(b"abc", b"ab"));
}

#[test]
fn prefixes_and_suffixes() {
    assert!(starts_with(b"MemTotal: 1", b"MemTotal"));
    assert!(starts_with(b"abc", b""));
    assert!(!starts_with(b"ab", b"abc"));
    assert!(!starts_with(b"xbc", b"ab"));
    assert!(ends_with(b"requests_total", b"_total"));
    assert!(ends_with(b"_total", b"_total"));
    assert!(!ends_with(b"total", b"_total"));
    assert!(!ends_with(b"requests_totals", b"_total"));
}

#[test]
fn scan_measures_a_run() {
    assert_eq!(scan(b"  \tabc", 0, ByteClass::Blank), 3);
    assert_eq!(scan(b"  \tabc", 3, ByteClass::Graphic), 3);
    assert_eq!(scan(b"abc def", 0, ByteClass::Graphic), 3);
    assert_eq!(scan(b"name{", 0, ByteClass::Name), 4);
    assert_eq!(scan(b"a:b=", 0, ByteClass::Key), 1);
    assert_eq!(scan(b"one\ntwo", 0, ByteClass::LineBody), 3);
    assert_eq!(scan(b"abc", 3, ByteClass::Graphic), 0);
}
