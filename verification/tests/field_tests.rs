//! Unit tests of the fixed-width ASCII field parsers and the decimal tick
//! conversions.

use edfplus::ascii::atoi_nonlocalized;
use edfplus::decimal::{dec_eq, parse_decimal_field, parse_duration_field};
use edfplus::numeric::{check_time_text, time_text_ticks, timestamp_ticks};

#[test]
fn atoi_parses_fields() {
    assert_eq!(atoi_nonlocalized(b"123"), 123);
    assert_eq!(atoi_nonlocalized(b"  42"), 42);
    assert_eq!(atoi_nonlocalized(b"-7"), -7);
    assert_eq!(atoi_nonlocalized(b"+8"), 8);
    assert_eq!(atoi_nonlocalized(b""), 0);
    assert_eq!(atoi_nonlocalized(b"abc"), 0);
    assert_eq!(atoi_nonlocalized(b"12ab"), 12);
    assert_eq!(atoi_nonlocalized(b"99999999"), 99999999);
}

#[test]
fn duration_field_ticks() {
    assert_eq!(parse_duration_field(b"1"), 10_000_000);
    assert_eq!(parse_duration_field(b"1      "), 10_000_000);
    assert_eq!(parse_duration_field(b"0.5"), 5_000_000);
    assert_eq!(parse_duration_field(b"2"), 20_000_000);
    assert_eq!(parse_duration_field(b"0.001"), 10_000);
    assert_eq!(parse_duration_field(b"2e-3"), 20_000);
    assert_eq!(parse_duration_field(b"1.5E2"), 1_500_000_000);
    assert_eq!(parse_duration_field(b"-1"), -10_000_000);
    assert_eq!(parse_duration_field(b""), 0);
    // a huge exponent saturates instead of wrapping
    assert_eq!(parse_duration_field(b"1e99"), i64::MAX);
    assert_eq!(parse_duration_field(b"-1e99"), i64::MIN);
    assert_eq!(parse_duration_field(b"1e-99"), 0);
}

#[test]
fn decimal_fields_compare_by_value() {
    let a = parse_decimal_field(b"0.5");
    let b = parse_decimal_field(b"5e-1");
    assert!(dec_eq(a, b));
    let c = parse_decimal_field(b"-0");
    let d = parse_decimal_field(b"0.0");
    assert!(dec_eq(c, d));
    let e = parse_decimal_field(b"1");
    let f = parse_decimal_field(b"2");
    assert!(!dec_eq(e, f));
    let g = parse_decimal_field(b"100");
    let h = parse_decimal_field(b"1e2");
    assert!(dec_eq(g, h));
    let i = parse_decimal_field(b"1e9");
    let j = parse_decimal_field(b"1e10");
    assert!(!dec_eq(i, j));
}

#[test]
fn decimal_field_parts() {
    let d = parse_decimal_field(b"-500.5");
    assert_eq!(d.mant, -5005);
    assert_eq!(d.exp10, -1);
    let z = parse_decimal_field(b"");
    assert_eq!(z.mant, 0);
}

#[test]
fn onset_text_validation() {
    assert!(check_time_text(b"1.5", 0, 3));
    assert!(check_time_text(b"0", 0, 1));
    assert!(check_time_text(b"123.456", 0, 7));
    assert!(!check_time_text(b"", 0, 0));
    assert!(!check_time_text(b".5", 0, 2));
    assert!(!check_time_text(b"5.", 0, 2));
    assert!(!check_time_text(b"1..2", 0, 4));
    assert!(!check_time_text(b"1a2", 0, 3));
    assert!(!check_time_text(b"-1", 0, 2));
}

#[test]
fn onset_ticks_are_exact() {
    assert_eq!(time_text_ticks(b"1.125", 0, 5), 11_250_000);
    assert_eq!(time_text_ticks(b"0", 0, 1), 0);
    assert_eq!(time_text_ticks(b"2.5", 0, 3), 25_000_000);
    // the eighth fractional digit lies below one tick and is truncated
    assert_eq!(time_text_ticks(b"0.00000019", 0, 10), 1);
    // a huge onset saturates
    assert_eq!(time_text_ticks(b"99999999999999999999", 0, 20), i64::MAX);
}

#[test]
fn timestamp_parsing() {
    assert_eq!(timestamp_ticks(b"+1.5", 0, 4), Some(15_000_000));
    assert_eq!(timestamp_ticks(b"-0.5", 0, 4), Some(-5_000_000));
    assert_eq!(timestamp_ticks(b"++2", 0, 3), Some(20_000_000));
    assert_eq!(timestamp_ticks(b"0.125", 0, 5), Some(1_250_000));
    assert_eq!(timestamp_ticks(b".5", 0, 2), Some(5_000_000));
    assert_eq!(timestamp_ticks(b"3.", 0, 2), Some(30_000_000));
    assert_eq!(timestamp_ticks(b"", 0, 0), None);
    assert_eq!(timestamp_ticks(b"-", 0, 1), None);
    assert_eq!(timestamp_ticks(b"1.2.3", 0, 5), None);
    assert_eq!(timestamp_ticks(b"abc", 0, 3), None);
}
