//! Numeric conversion at its edges, and the error taxonomy's equality.

use warlib::numbers::{parse_u64, u64_to_string, IntError};
use warlib::parser::errors::{ErrorKind, ParseError};

#[test]
fn parse_u64_accepts_the_full_range() {
    assert_eq!(parse_u64("0"), Ok(0));
    assert_eq!(parse_u64("007"), Ok(7));
    assert_eq!(parse_u64("18446744073709551615"), Ok(u64::MAX));
}

#[test]
fn parse_u64_rejects_empty_tokens() {
    assert_eq!(parse_u64(""), Err(IntError::Empty));
}

#[test]
fn parse_u64_rejects_non_digits() {
    assert_eq!(parse_u64("five"), Err(IntError::InvalidDigit));
    assert_eq!(parse_u64("12a"), Err(IntError::InvalidDigit));
    assert_eq!(parse_u64("-1"), Err(IntError::InvalidDigit));
    assert_eq!(parse_u64("+1"), Err(IntError::InvalidDigit));
    assert_eq!(parse_u64("1 2"), Err(IntError::InvalidDigit));
}

#[test]
fn parse_u64_rejects_values_past_sixty_four_bits() {
    assert_eq!(parse_u64("18446744073709551616"), Err(IntError::Overflow));
    assert_eq!(parse_u64("99999999999999999999999"), Err(IntError::Overflow));
}

#[test]
fn u64_to_string_writes_base_ten() {
    assert_eq!(u64_to_string(0), "0");
    assert_eq!(u64_to_string(7), "7");
    assert_eq!(u64_to_string(12345), "12345");
    assert_eq!(u64_to_string(u64::MAX), "18446744073709551615");
}

#[test]
fn numeric_conversion_round_trips() {
    for n in [0u64, 1, 9, 10, 99, 100, 4096, u64::MAX] {
        assert_eq!(parse_u64(u64_to_string(n).as_str()), Ok(n));
    }
}

#[test]
fn parse_error_equality_compares_kind_only() {
    let a = ParseError::with_description(ErrorKind::MalformedCommand, "one thing");
    let b = ParseError::with_detail(
        ErrorKind::MalformedCommand,
        "another thing",
        "detail".to_owned(),
    );
    let c = ParseError::with_description(ErrorKind::UnknownCommand, "one thing");
    assert!(a == b);
    assert!(a != c);
}

#[test]
fn parse_error_message_appends_the_detail() {
    let a = ParseError::with_description(ErrorKind::MalformedCommand, "bad shape");
    assert_eq!(a.message(), "bad shape");
    let b = ParseError::with_detail(
        ErrorKind::MalformedCommand,
        "failed to parse as an integer",
        "invalid digit found in string".to_owned(),
    );
    assert_eq!(
        b.message(),
        "failed to parse as an integer: invalid digit found in string"
    );
    assert_eq!(b.description(), "failed to parse as an integer");
    assert!(matches!(b.kind(), ErrorKind::MalformedCommand));
}

#[test]
fn parser_reports_the_conversion_text_as_detail() {
    let e = warlib::parser::parse("settings timebank five".to_owned()).unwrap_err();
    assert_eq!(
        e.message(),
        "failed to parse as an integer: invalid digit found in string"
    );
}

#[test]
fn consecutive_spaces_make_empty_tokens_that_fail_conversion() {
    let e = warlib::parser::parse("go place_armies  100".to_owned()).unwrap_err();
    assert!(matches!(e.kind(), ErrorKind::MalformedCommand));
    assert_eq!(
        e.message(),
        "failed to parse as an integer: cannot parse integer from empty string"
    );
}
