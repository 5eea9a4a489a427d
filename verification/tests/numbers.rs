use csv_stats::number::parse_decimal;

fn parse(text: &str) -> Option<i64> {
    parse_decimal(&text.as_bytes().to_vec())
}

#[test]
fn plain_integers_parse() {
    assert_eq!(parse("0"), Some(0));
    assert_eq!(parse("7"), Some(7_000_000));
    assert_eq!(parse("42"), Some(42_000_000));
}

#[test]
fn fractions_parse_to_micros() {
    assert_eq!(parse("2.0"), Some(2_000_000));
    assert_eq!(parse("7.5"), Some(7_500_000));
    assert_eq!(parse("0.000001"), Some(1));
    assert_eq!(parse("3.141592"), Some(3_141_592));
}

#[test]
fn signs_are_honoured() {
    assert_eq!(parse("-1.5"), Some(-1_500_000));
    assert_eq!(parse("+0.25"), Some(250_000));
    assert_eq!(parse("-0"), Some(0));
}

#[test]
fn bare_point_forms_parse() {
    assert_eq!(parse(".5"), Some(500_000));
    assert_eq!(parse("5."), Some(5_000_000));
}

#[test]
fn malformed_literals_are_rejected() {
    assert_eq!(parse(""), None);
    assert_eq!(parse("abc"), None);
    assert_eq!(parse("."), None);
    assert_eq!(parse("-"), None);
    assert_eq!(parse("+."), None);
    assert_eq!(parse("1.2.3"), None);
    assert_eq!(parse("1e5"), None);
    assert_eq!(parse(" 1"), None);
    assert_eq!(parse("1 "), None);
    assert_eq!(parse("--1"), None);
}

#[test]
fn more_than_six_fraction_digits_is_rejected() {
    assert_eq!(parse("0.1234567"), None);
    assert_eq!(parse("0.123456"), Some(123_456));
}

#[test]
fn range_edges_are_exact() {
    assert_eq!(parse("9223372036854.775807"), Some(i64::MAX));
    assert_eq!(parse("-9223372036854.775807"), Some(-i64::MAX));
    assert_eq!(parse("9223372036854.775808"), None);
    assert_eq!(parse("99999999999999999999"), None);
}
