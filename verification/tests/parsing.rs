use luxtensor_core::currency::{format_lts_as_mdt, parse_mdt_amount, parse_mdt_to_lts};
use luxtensor_core::decimal::parse_digits;
use luxtensor_core::error::ParseError;

#[test]
fn parse_reads_whole_amounts() {
    assert_eq!(parse_mdt_to_lts("0"), Ok(0));
    assert_eq!(parse_mdt_to_lts("007"), Ok(7_000_000_000_000_000_000));
    assert_eq!(
        parse_mdt_to_lts("340282366920938463463"),
        Ok(340_282_366_920_938_463_463_000_000_000_000_000_000)
    );
}

#[test]
fn parse_reads_decimals_as_if_zeros_followed() {
    assert_eq!(parse_mdt_to_lts("0.000000000000000001"), Ok(1));
    assert_eq!(parse_mdt_to_lts("0.1"), Ok(100_000_000_000_000_000));
    assert_eq!(parse_mdt_to_lts("0.10"), Ok(100_000_000_000_000_000));
    assert_eq!(parse_mdt_to_lts("0.01"), Ok(10_000_000_000_000_000));
    assert_eq!(parse_mdt_to_lts("2.25"), Ok(2_250_000_000_000_000_000));
    assert_eq!(
        parse_mdt_to_lts("12345.6789"),
        Ok(12_345_678_900_000_000_000_000)
    );
}

#[test]
fn parse_accepts_an_empty_fraction() {
    assert_eq!(parse_mdt_to_lts("1."), Ok(1_000_000_000_000_000_000));
    assert_eq!(parse_mdt_to_lts("1."), parse_mdt_to_lts("1"));
}

#[test]
fn parse_reads_the_largest_amount() {
    assert_eq!(
        parse_mdt_to_lts("340282366920938463463.374607431768211455"),
        Ok(u128::MAX)
    );
}

#[test]
fn parse_rejects_a_second_separator() {
    assert_eq!(
        parse_mdt_to_lts("1.1.1"),
        Err(String::from("Invalid MDT format"))
    );
    assert_eq!(parse_mdt_amount(b"1.1.1"), Err(ParseError::TooManySeparators));
    assert_eq!(parse_mdt_amount(b".."), Err(ParseError::TooManySeparators));
    assert_eq!(parse_mdt_amount(b"x.y.z"), Err(ParseError::TooManySeparators));
    assert_eq!(
        parse_mdt_amount(b"1.1234567890123456789.0"),
        Err(ParseError::TooManySeparators)
    );
}

#[test]
fn parse_rejects_a_whole_part_that_is_no_number() {
    assert_eq!(
        parse_mdt_to_lts("invalid"),
        Err(String::from("Invalid MDT amount"))
    );
    assert_eq!(parse_mdt_amount(b"invalid"), Err(ParseError::InvalidWhole));
    assert_eq!(parse_mdt_amount(b""), Err(ParseError::InvalidWhole));
    assert_eq!(parse_mdt_amount(b"."), Err(ParseError::InvalidWhole));
    assert_eq!(parse_mdt_amount(b".5"), Err(ParseError::InvalidWhole));
    assert_eq!(parse_mdt_amount(b" 1"), Err(ParseError::InvalidWhole));
    assert_eq!(parse_mdt_amount(b"1 "), Err(ParseError::InvalidWhole));
    assert_eq!(parse_mdt_amount(b"1,000"), Err(ParseError::InvalidWhole));
    assert_eq!(parse_mdt_amount(b"1e3"), Err(ParseError::InvalidWhole));
    assert_eq!(parse_mdt_amount(b"0x10"), Err(ParseError::InvalidWhole));
    assert_eq!(
        parse_mdt_amount(b"x.1234567890123456789"),
        Err(ParseError::InvalidWhole)
    );
}

#[test]
fn parse_rejects_a_sign() {
    assert_eq!(parse_mdt_amount(b"-1"), Err(ParseError::InvalidWhole));
    assert_eq!(parse_mdt_amount(b"+1"), Err(ParseError::InvalidWhole));
    assert_eq!(parse_mdt_amount(b"+1.5"), Err(ParseError::InvalidWhole));
    assert_eq!(parse_mdt_amount(b"1.+5"), Err(ParseError::InvalidFraction));
    assert_eq!(parse_mdt_amount(b"1.-5"), Err(ParseError::InvalidFraction));
    assert!(parse_mdt_to_lts("+1").is_err());
}

#[test]
fn parse_rejects_a_whole_part_beyond_128_bits() {
    assert_eq!(
        parse_mdt_amount(b"340282366920938463463374607431768211456"),
        Err(ParseError::InvalidWhole)
    );
    assert_eq!(
        parse_mdt_amount(b"99999999999999999999999999999999999999999999.5"),
        Err(ParseError::InvalidWhole)
    );
    assert_eq!(
        parse_mdt_to_lts("340282366920938463463374607431768211456"),
        Err(String::from("Invalid MDT amount"))
    );
}

#[test]
fn parse_rejects_more_decimals_than_an_lts_has() {
    assert_eq!(
        parse_mdt_to_lts("1.1234567890123456789"),
        Err(String::from("Too many decimal places (max 18)"))
    );
    assert_eq!(
        parse_mdt_amount(b"1.1234567890123456789"),
        Err(ParseError::TooManyDecimals)
    );
    assert_eq!(
        parse_mdt_amount(b"1.0000000000000000000"),
        Err(ParseError::TooManyDecimals)
    );
    assert_eq!(
        parse_mdt_amount(b"1.not a number at all"),
        Err(ParseError::TooManyDecimals)
    );
    assert_eq!(
        parse_mdt_amount(b"1.123456789012345678"),
        Ok(1_123_456_789_012_345_678)
    );
}

#[test]
fn parse_counts_the_bytes_of_the_fraction() {
    // Nine letters of two bytes each are eighteen bytes, a tenth makes twenty.
    assert_eq!(
        parse_mdt_to_lts("1.ééééééééé"),
        Err(String::from("Invalid fractional amount"))
    );
    assert_eq!(
        parse_mdt_to_lts("1.éééééééééé"),
        Err(String::from("Too many decimal places (max 18)"))
    );
}

#[test]
fn parse_rejects_a_fraction_that_is_no_number() {
    assert_eq!(
        parse_mdt_to_lts("1.5x"),
        Err(String::from("Invalid fractional amount"))
    );
    assert_eq!(parse_mdt_amount(b"1.5x"), Err(ParseError::InvalidFraction));
    assert_eq!(parse_mdt_amount(b"1. 5"), Err(ParseError::InvalidFraction));
    assert_eq!(parse_mdt_amount(b"1.5e3"), Err(ParseError::InvalidFraction));
}

#[test]
fn parse_reports_overflow_of_the_product() {
    assert_eq!(
        parse_mdt_to_lts("340282366920938463464"),
        Err(String::from("Amount too large - would overflow"))
    );
    assert_eq!(
        parse_mdt_amount(b"340282366920938463464"),
        Err(ParseError::Overflow)
    );
    assert_eq!(
        parse_mdt_amount(b"340282366920938463464.0"),
        Err(ParseError::Overflow)
    );
    assert_eq!(
        parse_mdt_amount(b"340282366920938463463374607431768211455"),
        Err(ParseError::Overflow)
    );
}

#[test]
fn parse_reports_overflow_of_the_sum() {
    assert_eq!(
        parse_mdt_amount(b"340282366920938463463.374607431768211456"),
        Err(ParseError::Overflow)
    );
    assert_eq!(
        parse_mdt_amount(b"340282366920938463463.5"),
        Err(ParseError::Overflow)
    );
}

#[test]
fn parse_checks_in_a_fixed_order() {
    // The whole part is looked at before the length of the fraction.
    assert_eq!(
        parse_mdt_amount(b"x.1234567890123456789"),
        Err(ParseError::InvalidWhole)
    );
    // The fraction is looked at before the size of the amount.
    assert_eq!(
        parse_mdt_amount(b"340282366920938463464.x"),
        Err(ParseError::InvalidFraction)
    );
    assert_eq!(
        parse_mdt_amount(b"340282366920938463464.1234567890123456789"),
        Err(ParseError::TooManyDecimals)
    );
}

#[test]
fn error_messages() {
    assert_eq!(ParseError::TooManySeparators.message(), "Invalid MDT format");
    assert_eq!(ParseError::InvalidWhole.message(), "Invalid MDT amount");
    assert_eq!(
        ParseError::TooManyDecimals.message(),
        "Too many decimal places (max 18)"
    );
    assert_eq!(
        ParseError::InvalidFraction.message(),
        "Invalid fractional amount"
    );
    assert_eq!(
        ParseError::Overflow.message(),
        "Amount too large - would overflow"
    );
}

#[test]
fn parse_digits_reads_unsigned_decimals() {
    assert_eq!(parse_digits(b"0"), Some(0));
    assert_eq!(parse_digits(b"000"), Some(0));
    assert_eq!(parse_digits(b"42"), Some(42));
    assert_eq!(parse_digits(b"0042"), Some(42));
    assert_eq!(
        parse_digits(b"340282366920938463463374607431768211455"),
        Some(u128::MAX)
    );
    assert_eq!(
        parse_digits(b"00340282366920938463463374607431768211455"),
        Some(u128::MAX)
    );
}

#[test]
fn parse_digits_rejects_everything_else() {
    assert_eq!(parse_digits(b""), None);
    assert_eq!(parse_digits(b"+1"), None);
    assert_eq!(parse_digits(b"-1"), None);
    assert_eq!(parse_digits(b"1 "), None);
    assert_eq!(parse_digits(b"12a"), None);
    assert_eq!(parse_digits(b"/"), None);
    assert_eq!(parse_digits(b":"), None);
    assert_eq!(parse_digits(b"340282366920938463463374607431768211456"), None);
    assert_eq!(parse_digits(b"3402823669209384634633746074317682114550"), None);
}

/// What `format_lts_as_mdt` writes, without the blank and the unit symbol.
fn rendered_number(lts: u128) -> String {
    let text = format_lts_as_mdt(lts);
    assert!(text.ends_with(" MDT"));
    String::from(&text[..text.len() - 4])
}

#[test]
fn rendered_amounts_parse_back() {
    let amounts: [u128; 9] = [
        0,
        1,
        10,
        999_999_999_999_999_999,
        1_000_000_000_000_000_000,
        1_500_000_000_000_000_000,
        1_000_000_000_000_000_001,
        340_282_366_920_938_463_463_000_000_000_000_000_000,
        u128::MAX,
    ];
    for lts in amounts {
        assert_eq!(parse_mdt_to_lts(&rendered_number(lts)), Ok(lts));
    }
}

#[test]
fn rendered_amounts_with_the_symbol_are_rejected() {
    let amounts: [u128; 3] = [0, 1_500_000_000_000_000_000, u128::MAX];
    for lts in amounts {
        assert_eq!(
            parse_mdt_to_lts(&format_lts_as_mdt(lts)),
            Err(String::from("Too many decimal places (max 18)"))
        );
    }
}

#[test]
fn text_without_separator_means_text_with_no_decimals() {
    assert_eq!(parse_mdt_amount(b"15"), parse_mdt_amount(b"15."));
    assert_eq!(parse_mdt_amount(b"15"), parse_mdt_amount(b"15.0"));
    assert_eq!(
        parse_mdt_amount(b"340282366920938463464"),
        parse_mdt_amount(b"340282366920938463464.")
    );
}
