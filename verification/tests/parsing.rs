use seating::parse::{parse_score, parse_usize};

#[test]
fn unsigned_digits_parse() {
    assert_eq!(parse_usize(b"0"), Some(0));
    assert_eq!(parse_usize(b"8"), Some(8));
    assert_eq!(parse_usize(b"144"), Some(144));
    assert_eq!(parse_usize(b"007"), Some(7));
}

#[test]
fn unsigned_rejects_non_digits_and_emptiness() {
    assert_eq!(parse_usize(b""), None);
    assert_eq!(parse_usize(b"1a"), None);
    assert_eq!(parse_usize(b"-3"), None);
    assert_eq!(parse_usize(b" 3"), None);
    assert_eq!(parse_usize(b"99999999999999999999999999999"), None);
}

#[test]
fn scores_parse_with_optional_sign() {
    assert_eq!(parse_score(b"5"), Some(5));
    assert_eq!(parse_score(b"+7"), Some(7));
    assert_eq!(parse_score(b"-2"), Some(-2));
    assert_eq!(parse_score(b"0"), Some(0));
    assert_eq!(parse_score(b"-0"), Some(0));
}

#[test]
fn scores_cover_the_full_range() {
    assert_eq!(parse_score(b"2147483647"), Some(i32::MAX));
    assert_eq!(parse_score(b"-2147483648"), Some(i32::MIN));
    assert_eq!(parse_score(b"2147483648"), None);
    assert_eq!(parse_score(b"-2147483649"), None);
}

#[test]
fn malformed_scores_are_rejected() {
    assert_eq!(parse_score(b""), None);
    assert_eq!(parse_score(b"-"), None);
    assert_eq!(parse_score(b"+"), None);
    assert_eq!(parse_score(b"--1"), None);
    assert_eq!(parse_score(b"1.5"), None);
    assert_eq!(parse_score(b"ten"), None);
}
