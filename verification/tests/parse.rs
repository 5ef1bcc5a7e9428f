use intiterator::{parse_line, ParseFailure};

#[test]
fn parses_plain_digits() {
    assert_eq!(parse_line("1"), Ok(1));
    assert_eq!(parse_line("1234"), Ok(1234));
    assert_eq!(parse_line("0"), Ok(0));
    assert_eq!(parse_line("0000000000000000000042"), Ok(42));
}

#[test]
fn parses_signs() {
    assert_eq!(parse_line("+5"), Ok(5));
    assert_eq!(parse_line("-5"), Ok(-5));
    assert_eq!(parse_line("-0"), Ok(0));
}

#[test]
fn parses_the_extremes() {
    assert_eq!(parse_line("2147483647"), Ok(i32::MAX));
    assert_eq!(parse_line("-2147483648"), Ok(i32::MIN));
}

#[test]
fn rejects_values_out_of_range() {
    assert_eq!(parse_line("2147483648"), Err(ParseFailure::OutOfRange));
    assert_eq!(parse_line("-2147483649"), Err(ParseFailure::OutOfRange));
    assert_eq!(
        parse_line("99999999999999999999999999999999"),
        Err(ParseFailure::OutOfRange)
    );
}

#[test]
fn rejects_empty_text() {
    assert_eq!(parse_line(""), Err(ParseFailure::Empty));
    assert_eq!(parse_line("\n"), Err(ParseFailure::Empty));
    assert_eq!(parse_line("\r\n"), Err(ParseFailure::Empty));
}

#[test]
fn rejects_text_that_is_not_a_number() {
    for text in [
        "1.2", "str", "u123", "32.22", "+", "-", "+-1", "1 ", " 1", "1_000", "12a", "\u{ff11}", "\r",
        "1\n\n", "99999999999999999999x",
    ] {
        assert_eq!(parse_line(text), Err(ParseFailure::InvalidDigit));
    }
}

#[test]
fn drops_one_line_terminator() {
    assert_eq!(parse_line("12\n"), Ok(12));
    assert_eq!(parse_line("-12\r\n"), Ok(-12));
    assert_eq!(parse_line("12\r"), Err(ParseFailure::InvalidDigit));
    assert_eq!(parse_line("12\n\r"), Err(ParseFailure::InvalidDigit));
}

#[test]
fn agrees_with_the_standard_parser() {
    for text in [
        "", "0", "7", "-7", "+7", "+", "-", "--1", "2147483647", "2147483648", "-2147483648",
        "-2147483649", "00", "-00012", "1e3", "0x10", "１２", "4294967296", "12 ", "9999999999",
    ] {
        assert_eq!(parse_line(text).ok(), text.parse::<i32>().ok());
    }
}
