use movies_data::parse::parse_i32;
use movies_data::parse::parse_rating;
use movies_data::parse::split_str;
use movies_data::parse::strip_brackets;

#[test]
fn split_keeps_every_token() {
    let v = split_str("a,bb,,c", ',');
    assert_eq!(v.len(), 4);
    assert_eq!(v[0], "a");
    assert_eq!(v[1], "bb");
    assert_eq!(v[2], "");
    assert_eq!(v[3], "c");
}

#[test]
fn split_without_delimiter_is_one_token() {
    let v = split_str("alone", ';');
    assert_eq!(v.len(), 1);
    assert_eq!(v[0], "alone");
}

#[test]
fn split_empty_text_is_one_empty_token() {
    let v = split_str("", ',');
    assert_eq!(v.len(), 1);
    assert_eq!(v[0], "");
}

#[test]
fn strip_brackets_both_sides() {
    assert_eq!(strip_brackets("[English"), "English");
    assert_eq!(strip_brackets("German]"), "German");
    assert_eq!(strip_brackets("[Korean]"), "Korean");
    assert_eq!(strip_brackets("French"), "French");
    assert_eq!(strip_brackets("[[x]]"), "x");
    assert_eq!(strip_brackets("[]"), "");
    assert_eq!(strip_brackets("a[b"), "a[b");
}

#[test]
fn parse_i32_accepts_signed_decimals() {
    assert_eq!(parse_i32("2001"), Some(2001));
    assert_eq!(parse_i32("+12"), Some(12));
    assert_eq!(parse_i32("-45"), Some(-45));
    assert_eq!(parse_i32("2147483647"), Some(2147483647));
    assert_eq!(parse_i32("-2147483648"), Some(-2147483648));
    assert_eq!(parse_i32("007"), Some(7));
}

#[test]
fn parse_i32_rejects_bad_input() {
    assert_eq!(parse_i32(""), None);
    assert_eq!(parse_i32("-"), None);
    assert_eq!(parse_i32("+"), None);
    assert_eq!(parse_i32("12a"), None);
    assert_eq!(parse_i32("1.5"), None);
    assert_eq!(parse_i32("2147483648"), None);
    assert_eq!(parse_i32("-2147483649"), None);
    assert_eq!(parse_i32("99999999999999999999"), None);
}

#[test]
fn parse_rating_fixed_point_millionths() {
    assert_eq!(parse_rating("7.4"), Some(7_400_000));
    assert_eq!(parse_rating("8"), Some(8_000_000));
    assert_eq!(parse_rating("8.6"), Some(8_600_000));
    assert_eq!(parse_rating("7.05"), Some(7_050_000));
    assert_eq!(parse_rating("0.123456"), Some(123_456));
    assert_eq!(parse_rating("7."), Some(7_000_000));
    assert_eq!(parse_rating("-1.25"), Some(-1_250_000));
    assert_eq!(parse_rating("+2.5"), Some(2_500_000));
}

#[test]
fn parse_rating_rejects_bad_input() {
    assert_eq!(parse_rating(""), None);
    assert_eq!(parse_rating("."), None);
    assert_eq!(parse_rating(".5"), None);
    assert_eq!(parse_rating("7,4"), None);
    assert_eq!(parse_rating("abc"), None);
    assert_eq!(parse_rating("1.2345678"), None);
    assert_eq!(parse_rating("1.2.3"), None);
    assert_eq!(parse_rating("1000000000001"), None);
}
