use bills::parse::{parse_i32, ParseError};

#[test]
fn plain_numbers_parse() {
    assert_eq!(parse_i32("0"), Ok(0));
    assert_eq!(parse_i32("123"), Ok(123));
    assert_eq!(parse_i32("007"), Ok(7));
    assert_eq!(parse_i32("1200"), Ok(1200));
}

#[test]
fn signed_numbers_parse() {
    assert_eq!(parse_i32("+60"), Ok(60));
    assert_eq!(parse_i32("-5"), Ok(-5));
    assert_eq!(parse_i32("-0"), Ok(0));
}

#[test]
fn i32_bounds_parse_exactly() {
    assert_eq!(parse_i32("2147483647"), Ok(i32::MAX));
    assert_eq!(parse_i32("-2147483648"), Ok(i32::MIN));
}

#[test]
fn values_beyond_i32_are_out_of_range() {
    assert_eq!(parse_i32("2147483648"), Err(ParseError::OutOfRange));
    assert_eq!(parse_i32("-2147483649"), Err(ParseError::OutOfRange));
    assert_eq!(parse_i32("99999999999999999999"), Err(ParseError::OutOfRange));
}

#[test]
fn missing_digits_are_empty() {
    assert_eq!(parse_i32(""), Err(ParseError::Empty));
    assert_eq!(parse_i32("+"), Err(ParseError::Empty));
    assert_eq!(parse_i32("-"), Err(ParseError::Empty));
}

#[test]
fn non_digits_are_invalid() {
    assert_eq!(parse_i32("abc"), Err(ParseError::InvalidDigit));
    assert_eq!(parse_i32("12a"), Err(ParseError::InvalidDigit));
    assert_eq!(parse_i32("1 2"), Err(ParseError::InvalidDigit));
    assert_eq!(parse_i32("--1"), Err(ParseError::InvalidDigit));
    assert_eq!(parse_i32("1.5"), Err(ParseError::InvalidDigit));
}
