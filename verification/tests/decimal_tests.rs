use bookticker::decimal::{parse_scaled, MAX_SCALED, SCALE};

#[test]
fn parses_plain_integer() {
    assert_eq!(parse_scaled("100"), Some(100 * SCALE));
}

#[test]
fn parses_two_decimals() {
    assert_eq!(parse_scaled("100.50"), Some(100 * SCALE + 50_000_000));
}

#[test]
fn parses_smallest_step() {
    assert_eq!(parse_scaled("0.00000001"), Some(1));
}

#[test]
fn parses_trailing_dot() {
    assert_eq!(parse_scaled("5."), Some(5 * SCALE));
}

#[test]
fn parses_leading_dot() {
    assert_eq!(parse_scaled(".5"), Some(50_000_000));
}

#[test]
fn truncates_extra_fraction_digits() {
    assert_eq!(parse_scaled("0.123456789"), Some(12_345_678));
}

#[test]
fn parses_zero() {
    assert_eq!(parse_scaled("0"), Some(0));
    assert_eq!(parse_scaled("0.0"), Some(0));
}

#[test]
fn rejects_empty() {
    assert_eq!(parse_scaled(""), None);
}

#[test]
fn rejects_lone_dot() {
    assert_eq!(parse_scaled("."), None);
}

#[test]
fn rejects_letters() {
    assert_eq!(parse_scaled("abc"), None);
    assert_eq!(parse_scaled("1x2"), None);
}

#[test]
fn rejects_two_dots() {
    assert_eq!(parse_scaled("1.2.3"), None);
}

#[test]
fn rejects_sign_and_exponent() {
    assert_eq!(parse_scaled("-1"), None);
    assert_eq!(parse_scaled("+1"), None);
    assert_eq!(parse_scaled("1e5"), None);
}

#[test]
fn rejects_whitespace() {
    assert_eq!(parse_scaled(" 1"), None);
    assert_eq!(parse_scaled("1 "), None);
}

#[test]
fn accepts_largest_value() {
    assert_eq!(parse_scaled("1000000000"), Some(MAX_SCALED));
}

#[test]
fn rejects_just_over_largest_value() {
    assert_eq!(parse_scaled("1000000000.00000001"), None);
    assert_eq!(parse_scaled("1000000001"), None);
}

#[test]
fn rejects_huge_numeral() {
    assert_eq!(parse_scaled("99999999999999999999999999999999999999990"), None);
}
