//! Tests of relative date resolution.

use vaultiel::parser::dates::{parse_i64, parse_relative_date, resolve_relative_date};

#[test]
fn test_parse_relative_date() {
    let today = (2026, 2, 2);

    assert_eq!(parse_relative_date("today", today), Some("2026-02-02".to_string()));
    assert_eq!(parse_relative_date("tomorrow", today), Some("2026-02-03".to_string()));
    assert_eq!(parse_relative_date("yesterday", today), Some("2026-02-01".to_string()));
    assert_eq!(parse_relative_date("+3d", today), Some("2026-02-05".to_string()));
    assert_eq!(parse_relative_date("-1w", today), Some("2026-01-26".to_string()));
}

#[test]
fn test_relative_date_months_and_case() {
    let today = (2026, 2, 2);
    assert_eq!(parse_relative_date("+1m", today), Some("2026-03-04".to_string()));
    assert_eq!(parse_relative_date("TODAY", today), Some("2026-02-02".to_string()));
    assert_eq!(parse_relative_date("+2y", today), None);
    assert_eq!(parse_relative_date("2026-05-01", today), Some("2026-05-01".to_string()));
    assert_eq!(parse_relative_date("next week", today), None);
    assert_eq!(parse_relative_date("+d", today), None);
}

#[test]
fn test_relative_date_overflow_is_refused() {
    let today = (2026, 2, 2);
    assert_eq!(resolve_relative_date("+9223372036854775807d", today), None);
    assert_eq!(resolve_relative_date("+3é", today), None);
    assert_eq!(resolve_relative_date("+3d", today), Some(Some("2026-02-05".to_string())));
}

#[test]
fn test_parse_i64() {
    let s: Vec<char> = "x-42y".chars().collect();
    assert_eq!(parse_i64(&s, 1, 4), Some(-42));
    let t: Vec<char> = "+7".chars().collect();
    assert_eq!(parse_i64(&t, 0, 2), Some(7));
    let u: Vec<char> = "-9223372036854775808".chars().collect();
    assert_eq!(parse_i64(&u, 0, u.len()), Some(i64::MIN));
    let v: Vec<char> = "9223372036854775808".chars().collect();
    assert_eq!(parse_i64(&v, 0, v.len()), None);
    let w: Vec<char> = "-".chars().collect();
    assert_eq!(parse_i64(&w, 0, 1), None);
}
