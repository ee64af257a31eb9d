use min_timer::text::parse_bytes;
use min_timer::{ParseError, Sec, MILLI, SECOND};

#[test]
fn parse_whole_and_fraction() {
    assert_eq!(Sec::parse("123.456"), Ok(Sec::new(123_456_000_000)));
    assert_eq!(Sec::parse("0.05"), Ok(Sec::new(50 * MILLI)));
    assert_eq!(Sec::parse("7"), Ok(Sec::from_secs(7)));
    assert_eq!(Sec::parse("-1.5"), Ok(Sec::new(-1_500_000_000)));
    assert_eq!(Sec::parse("+2."), Ok(Sec::from_secs(2)));
    assert_eq!(Sec::parse(".25"), Ok(Sec::new(SECOND / 4)));
    assert_eq!(Sec::parse("0.000000001"), Ok(Sec::new(1)));
    assert_eq!(Sec::parse("007"), Ok(Sec::from_secs(7)));
}

#[test]
fn parse_drops_digits_past_the_nanosecond() {
    assert_eq!(Sec::parse("0.0000000019"), Ok(Sec::new(1)));
    assert_eq!(Sec::parse("-1.1234567899"), Ok(Sec::new(-1_123_456_789)));
}

#[test]
fn parse_the_bounds() {
    assert_eq!(Sec::parse("9223372036.854775807"), Ok(Sec::new(i64::MAX)));
    assert_eq!(Sec::parse("-9223372036.854775808"), Ok(Sec::new(i64::MIN)));
    assert_eq!(Sec::parse("9223372036.854775808"), Err(ParseError::Overflow));
    assert_eq!(Sec::parse("-9223372036.854775809"), Err(ParseError::Overflow));
    assert_eq!(Sec::parse("100000000000000000000000"), Err(ParseError::Overflow));
}

#[test]
fn parse_errors() {
    assert_eq!(Sec::parse(""), Err(ParseError::Empty));
    assert_eq!(Sec::parse("-"), Err(ParseError::InvalidDigit));
    assert_eq!(Sec::parse("."), Err(ParseError::InvalidDigit));
    assert_eq!(Sec::parse("1.2.3"), Err(ParseError::InvalidDigit));
    assert_eq!(Sec::parse("12a"), Err(ParseError::InvalidDigit));
    assert_eq!(Sec::parse("1 s"), Err(ParseError::InvalidDigit));
    assert_eq!(Sec::parse("--1"), Err(ParseError::InvalidDigit));
    assert_eq!(Sec::parse("1e"), Err(ParseError::InvalidDigit));
    assert_eq!(Sec::parse("1e+"), Err(ParseError::InvalidDigit));
    assert_eq!(Sec::parse("e3"), Err(ParseError::InvalidDigit));
    assert_eq!(Sec::parse("1e3.5"), Err(ParseError::InvalidDigit));
    assert_eq!(Sec::parse("1.5e2x"), Err(ParseError::InvalidDigit));
    assert_eq!(Sec::parse("99999999999999999999x"), Err(ParseError::InvalidDigit));
    assert_eq!(parse_bytes(&[0xff]), Err(ParseError::InvalidDigit));
}

#[test]
fn text_of_durations() {
    assert_eq!(Sec::new(123_456_000_000).to_text(), "123.456 s");
    assert_eq!(Sec::zero().to_text(), "0 s");
    assert_eq!(Sec::from_secs(60).to_text(), "60 s");
    assert_eq!(Sec::new(1_500_000_000).to_text(), "1.5 s");
    assert_eq!(Sec::new(-1).to_text(), "-0.000000001 s");
    assert_eq!(Sec::new(50 * MILLI).to_text(), "0.05 s");
    assert_eq!(Sec::new(i64::MIN).to_text(), "-9223372036.854775808 s");
    assert_eq!(Sec::new(i64::MAX).to_text(), "9223372036.854775807 s");
}

#[test]
fn text_parses_back() {
    for v in [0, 1, -1, 123_456_789_012, -50 * MILLI, i64::MAX, i64::MIN] {
        let text = Sec::new(v).to_text();
        let number = text.strip_suffix(" s").unwrap();
        assert_eq!(Sec::parse(number), Ok(Sec::new(v)));
    }
}

#[test]
fn parse_exponents() {
    assert_eq!(Sec::parse("1e3"), Ok(Sec::from_secs(1_000)));
    assert_eq!(Sec::parse("1.5E-3"), Ok(Sec::new(1_500_000)));
    assert_eq!(Sec::parse("-2.5e+2"), Ok(Sec::from_secs(-250)));
    assert_eq!(Sec::parse("1.0000000001e1"), Ok(Sec::new(10_000_000_001)));
    assert_eq!(Sec::parse("123456789012345678901234567890e-25"), Ok(Sec::new(12_345_678_901_234)));
    assert_eq!(Sec::parse("5e-10"), Ok(Sec::zero()));
    assert_eq!(Sec::parse("0e999999999999999999999999"), Ok(Sec::zero()));
    assert_eq!(Sec::parse("1e-999999999999999999999999"), Ok(Sec::zero()));
    assert_eq!(Sec::parse("1e999999999999999999999999"), Err(ParseError::Overflow));
    assert_eq!(Sec::parse("9.3e9"), Err(ParseError::Overflow));
    assert_eq!(Sec::parse("9.2e9"), Ok(Sec::new(9_200_000_000_000_000_000)));
    assert_eq!(Sec::parse(".5e1"), Ok(Sec::from_secs(5)));
}

#[test]
fn parse_rejects_infinity_and_nan() {
    assert_eq!(Sec::parse("inf"), Err(ParseError::NotFinite));
    assert_eq!(Sec::parse("-Infinity"), Err(ParseError::NotFinite));
    assert_eq!(Sec::parse("+INF"), Err(ParseError::NotFinite));
    assert_eq!(Sec::parse("NaN"), Err(ParseError::NotFinite));
    assert_eq!(Sec::parse("nan"), Err(ParseError::NotFinite));
    assert_eq!(Sec::parse("infinit"), Err(ParseError::InvalidDigit));
}
