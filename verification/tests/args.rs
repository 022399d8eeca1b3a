use jpl_runtime::args::{parse_unsigned, Args};
use jpl_runtime::error::{ErrorKind, IntError};

fn argv(words: &[&str]) -> Vec<String> {
    words.iter().map(|w| w.to_string()).collect()
}

#[test]
fn parse_unsigned_reads_decimal() {
    assert_eq!(parse_unsigned(b"0"), Ok(0));
    assert_eq!(parse_unsigned(b"42"), Ok(42));
    assert_eq!(parse_unsigned(b"007"), Ok(7));
    assert_eq!(parse_unsigned(b"+5"), Ok(5));
    assert_eq!(parse_unsigned(b"18446744073709551615"), Ok(u64::MAX));
    assert_eq!(parse_unsigned(b"000018446744073709551615"), Ok(u64::MAX));
}

#[test]
fn parse_unsigned_rejects_empty_text() {
    assert_eq!(parse_unsigned(b""), Err(IntError::Empty));
}

#[test]
fn parse_unsigned_rejects_what_is_no_digit() {
    assert_eq!(parse_unsigned(b"+"), Err(IntError::InvalidDigit));
    assert_eq!(parse_unsigned(b"-"), Err(IntError::InvalidDigit));
    assert_eq!(parse_unsigned(b"-1"), Err(IntError::InvalidDigit));
    assert_eq!(parse_unsigned(b"++1"), Err(IntError::InvalidDigit));
    assert_eq!(parse_unsigned(b"1 "), Err(IntError::InvalidDigit));
    assert_eq!(parse_unsigned(b" 1"), Err(IntError::InvalidDigit));
    assert_eq!(parse_unsigned(b"12a"), Err(IntError::InvalidDigit));
    assert_eq!(parse_unsigned(b"0x10"), Err(IntError::InvalidDigit));
    assert_eq!(parse_unsigned("٣".as_bytes()), Err(IntError::InvalidDigit));
}

#[test]
fn parse_unsigned_rejects_what_does_not_fit() {
    assert_eq!(parse_unsigned(b"18446744073709551616"), Err(IntError::Overflow));
    assert_eq!(parse_unsigned(b"99999999999999999999"), Err(IntError::Overflow));
    assert_eq!(parse_unsigned(b"184467440737095516150"), Err(IntError::Overflow));
}

#[test]
fn parse_unsigned_reports_what_comes_first() {
    assert_eq!(parse_unsigned(b"99999999999999999999x"), Err(IntError::Overflow));
    assert_eq!(parse_unsigned(b"x99999999999999999999"), Err(IntError::InvalidDigit));
    assert_eq!(parse_unsigned(b"18446744073709551615x"), Err(IntError::InvalidDigit));
}

#[test]
fn parse_unsigned_agrees_with_the_standard_parser() {
    let samples = [
        "", "0", "1", "+1", "-1", "+", "-", "12", "1_000", "18446744073709551615",
        "18446744073709551616", "+18446744073709551615", "00000000000000000000001", "1e3", "٣",
        "99999999999999999999x", "18446744073709551615x", "1844674407370955161x", " 7", "7 ", "+-7",
        "340282366920938463463374607431768211456",
    ];
    for sample in samples {
        let expected = u64::from_str_radix(sample, 10).map_err(|e| match e.kind() {
            std::num::IntErrorKind::Empty => IntError::Empty,
            std::num::IntErrorKind::InvalidDigit => IntError::InvalidDigit,
            _ => IntError::Overflow,
        });
        assert_eq!(parse_unsigned(sample.as_bytes()), expected, "{:?}", sample);
    }
}

#[test]
fn arguments_pass_over_the_program_name() {
    let args = Args::parse(&argv(&["prog", "1", "22", "+333"])).unwrap();
    assert_eq!(args.argc, 3);
    assert_eq!(args.data, vec![1, 22, 333]);
}

#[test]
fn no_arguments_give_an_empty_array() {
    let args = Args::parse(&argv(&["prog"])).unwrap();
    assert_eq!(args, Args { argc: 0, data: vec![] });
    let none = Args::parse(&argv(&[])).unwrap();
    assert_eq!(none, Args { argc: 0, data: vec![] });
}

#[test]
fn program_name_is_not_read_as_a_number() {
    let args = Args::parse(&argv(&["not-a-number", "5"])).unwrap();
    assert_eq!(args.data, vec![5]);
}

#[test]
fn first_bad_argument_is_reported() {
    assert_eq!(
        Args::parse(&argv(&["prog", "1", "two", "", "4"])),
        Err(ErrorKind::ArgumentParseError { index: 2, cause: IntError::InvalidDigit })
    );
    assert_eq!(
        Args::parse(&argv(&["prog", "", "two"])),
        Err(ErrorKind::ArgumentParseError { index: 1, cause: IntError::Empty })
    );
    assert_eq!(
        Args::parse(&argv(&["prog", "1", "2", "18446744073709551616"])),
        Err(ErrorKind::ArgumentParseError { index: 3, cause: IntError::Overflow })
    );
}
