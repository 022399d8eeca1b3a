use jpl_runtime::error::{ErrorKind, Expected, IntError};

#[test]
fn diagnostic_of_a_malformed_descriptor() {
    let token = ErrorKind::MalformedDescriptor { offset: 1, expected: Expected::Token };
    assert_eq!(token.origin(), "parse_type_str");
    assert_eq!(token.cause(), "Invalid type string");
    assert_eq!(token.diagnostic(), "[abort] parse_type_str: Invalid type string");
    let integer = ErrorKind::MalformedDescriptor { offset: 21, expected: Expected::Integer };
    assert_eq!(integer.diagnostic(), "[abort] parse_type_str: Invalid integer in type string");
}

#[test]
fn diagnostic_of_an_invalid_text_encoding() {
    assert_eq!(
        ErrorKind::InvalidTextEncoding.diagnostic(),
        "[abort] to_str: Could not parse c strings"
    );
}

#[test]
fn diagnostic_of_an_allocation_error() {
    assert_eq!(
        ErrorKind::AllocationError.diagnostic(),
        "[abort] jpl_alloc: Could not allocate 0 or negative amount of memory"
    );
}

#[test]
fn diagnostic_of_an_argument_parse_error() {
    let digit = ErrorKind::ArgumentParseError { index: 2, cause: IntError::InvalidDigit };
    assert_eq!(digit.origin(), "main");
    assert_eq!(
        digit.diagnostic(),
        "[abort] main: Could not parse command line arguments: invalid digit found in string"
    );
    let empty = ErrorKind::ArgumentParseError { index: 1, cause: IntError::Empty };
    assert_eq!(
        empty.cause(),
        "Could not parse command line arguments: cannot parse integer from empty string"
    );
    let overflow = ErrorKind::ArgumentParseError { index: 1, cause: IntError::Overflow };
    assert_eq!(
        overflow.cause(),
        "Could not parse command line arguments: number too large to fit in target type"
    );
}

#[test]
fn messages_agree_with_the_standard_ones() {
    assert_eq!(IntError::Empty.message(), "".parse::<u64>().unwrap_err().to_string());
    assert_eq!(IntError::InvalidDigit.message(), "x".parse::<u64>().unwrap_err().to_string());
    assert_eq!(
        IntError::Overflow.message(),
        "99999999999999999999".parse::<u64>().unwrap_err().to_string()
    );
}
