use tax_statement::Error;
use tax_statement::date::{Date, format_date, parse_date};
use tax_statement::decimal::{Decimal, format_decimal, parse_decimal};
use tax_statement::digits::{format_integer, parse_integer};

fn dec(negative: bool, mantissa: u64, scale: u32) -> Decimal {
    Decimal { negative, mantissa, scale }
}

#[test]
fn decimal_format() {
    assert_eq!(format_decimal(&dec(false, 576002, 4)), "57.6002");
    assert_eq!(format_decimal(&dec(false, 100, 0)), "100");
    assert_eq!(format_decimal(&dec(false, 150, 2)), "1.50");
    assert_eq!(format_decimal(&dec(true, 5, 1)), "-0.5");
    assert_eq!(format_decimal(&dec(false, 0, 0)), "0");
    assert_eq!(format_decimal(&dec(false, 50, 3)), "0.050");
}

#[test]
fn decimal_parse() {
    assert_eq!(parse_decimal("57.6002"), Ok(dec(false, 576002, 4)));
    assert_eq!(parse_decimal("100"), Ok(dec(false, 100, 0)));
    assert_eq!(parse_decimal("1.50"), Ok(dec(false, 150, 2)));
    assert_eq!(parse_decimal("-0.5"), Ok(dec(true, 5, 1)));
    assert_eq!(parse_decimal("0"), Ok(dec(false, 0, 0)));
    assert_eq!(parse_decimal("0.050"), Ok(dec(false, 50, 3)));
}

#[test]
fn decimal_rejects_non_canonical() {
    assert_eq!(parse_decimal(""), Err(Error::InvalidNumber));
    assert_eq!(parse_decimal("-"), Err(Error::InvalidNumber));
    assert_eq!(parse_decimal("01"), Err(Error::InvalidNumber));
    assert_eq!(parse_decimal("1."), Err(Error::InvalidNumber));
    assert_eq!(parse_decimal(".5"), Err(Error::InvalidNumber));
    assert_eq!(parse_decimal("+5"), Err(Error::InvalidNumber));
    assert_eq!(parse_decimal("1,5"), Err(Error::InvalidNumber));
    assert_eq!(parse_decimal("1.2.3"), Err(Error::InvalidNumber));
    assert_eq!(parse_decimal("abc"), Err(Error::InvalidNumber));
    // more digits than any mantissa can hold
    assert_eq!(parse_decimal("123456789012345678901234567890"), Err(Error::InvalidNumber));
}

#[test]
fn decimal_roundtrip() {
    for d in [
        dec(false, 576002, 4),
        dec(false, 0, 0),
        dec(true, 0, 0),
        dec(false, u64::MAX, 0),
        dec(false, u64::MAX, 19),
        dec(true, 123, 7),
    ] {
        assert_eq!(parse_decimal(&format_decimal(&d)), Ok(d));
    }
}

#[test]
fn date_format_and_parse() {
    let d = Date { day: 1, month: 1, year: 2018 };
    assert_eq!(format_date(&d), "01.01.2018");
    assert_eq!(parse_date("01.01.2018"), Ok(d));
    assert_eq!(parse_date("31.12.0001"), Ok(Date { day: 31, month: 12, year: 1 }));
    assert_eq!(parse_date(&format_date(&Date { day: 29, month: 2, year: 2016 })),
        Ok(Date { day: 29, month: 2, year: 2016 }));
}

#[test]
fn date_rejects_mismatches() {
    assert_eq!(parse_date("1.1.2018"), Err(Error::InvalidDate));
    assert_eq!(parse_date("01/01/2018"), Err(Error::InvalidDate));
    assert_eq!(parse_date("00.01.2018"), Err(Error::InvalidDate));
    assert_eq!(parse_date("32.01.2018"), Err(Error::InvalidDate));
    assert_eq!(parse_date("01.13.2018"), Err(Error::InvalidDate));
    assert_eq!(parse_date("01.01.18"), Err(Error::InvalidDate));
    assert_eq!(parse_date(""), Err(Error::InvalidDate));
}

#[test]
fn integer_roundtrip() {
    assert_eq!(format_integer(0), "0");
    assert_eq!(format_integer(9999), "9999");
    assert_eq!(parse_integer("0"), Ok(0));
    assert_eq!(parse_integer("12"), Ok(12));
    assert_eq!(parse_integer(&format_integer(u64::MAX)), Ok(u64::MAX));
    assert_eq!(parse_integer("012"), Err(Error::InvalidNumber));
    assert_eq!(parse_integer(""), Err(Error::InvalidNumber));
    assert_eq!(parse_integer("-1"), Err(Error::InvalidNumber));
    assert_eq!(parse_integer("18446744073709551616"), Err(Error::InvalidNumber));
}
