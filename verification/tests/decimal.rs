use mini_redis_rs::decimal::is_decimal_text;
use mini_redis_rs::decimal::parse_decimal;
use mini_redis_rs::decimal::write_decimal;
use mini_redis_rs::decimal::write_digits;

fn written(val: i64) -> Vec<u8> {
    let mut out = Vec::new();
    write_decimal(&mut out, val);
    out
}

#[test]
fn decimal_fields_are_read_as_their_numbers() {
    assert_eq!(parse_decimal(b"0"), Some(0));
    assert_eq!(parse_decimal(b"42"), Some(42));
    assert_eq!(parse_decimal(b"-42"), Some(-42));
    assert_eq!(parse_decimal(b"0042"), Some(42));
    assert_eq!(parse_decimal(b"-0"), Some(0));
}

#[test]
fn decimal_fields_reach_both_ends_of_the_range() {
    assert_eq!(parse_decimal(b"9223372036854775807"), Some(i64::MAX));
    assert_eq!(parse_decimal(b"-9223372036854775808"), Some(i64::MIN));
}

#[test]
fn decimal_fields_out_of_range_are_refused() {
    assert_eq!(parse_decimal(b"9223372036854775808"), None);
    assert_eq!(parse_decimal(b"-9223372036854775809"), None);
    assert_eq!(parse_decimal(b"100000000000000000000000"), None);
}

#[test]
fn texts_that_are_no_decimal_fields_are_refused() {
    assert_eq!(parse_decimal(b""), None);
    assert_eq!(parse_decimal(b"-"), None);
    assert_eq!(parse_decimal(b"+"), None);
    assert_eq!(parse_decimal(b"+5"), None);
    assert_eq!(parse_decimal(b"12abc"), None);
    assert_eq!(parse_decimal(b"abc"), None);
    assert_eq!(parse_decimal(b" 12"), None);
    assert_eq!(parse_decimal(b"1-2"), None);
    assert_eq!(parse_decimal(b"--2"), None);
}

#[test]
fn is_decimal_text_wants_an_optional_minus_and_digits() {
    assert!(is_decimal_text(b"7"));
    assert!(is_decimal_text(b"-7"));
    assert!(is_decimal_text(b"0123456789"));
    assert!(!is_decimal_text(b""));
    assert!(!is_decimal_text(b"-"));
    assert!(!is_decimal_text(b"7 "));
    assert!(!is_decimal_text(b"7\r"));
    assert!(!is_decimal_text(b"/"));
    assert!(!is_decimal_text(b":"));
}

#[test]
fn numbers_are_written_in_decimal() {
    assert_eq!(written(0), b"0".to_vec());
    assert_eq!(written(7), b"7".to_vec());
    assert_eq!(written(10), b"10".to_vec());
    assert_eq!(written(1234567890), b"1234567890".to_vec());
    assert_eq!(written(-1), b"-1".to_vec());
    assert_eq!(written(-120), b"-120".to_vec());
    assert_eq!(written(i64::MAX), b"9223372036854775807".to_vec());
    assert_eq!(written(i64::MIN), b"-9223372036854775808".to_vec());
}

#[test]
fn written_numbers_are_appended() {
    let mut out = b"len=".to_vec();
    write_digits(&mut out, 18446744073709551615);
    assert_eq!(out, b"len=18446744073709551615".to_vec());
}

#[test]
fn written_numbers_read_back() {
    for val in [0, 1, -1, 9, 10, -10, 99, 100, 4096, -65536, i64::MAX, i64::MIN, i64::MIN + 1] {
        assert_eq!(parse_decimal(&written(val)), Some(val));
    }
}
