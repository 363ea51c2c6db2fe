//! Why a text was not accepted as an MDT amount.

use crate::currency::MDT_DECIMALS;
use crate::decimal::{append_decimal, ascii_text, decimal_digits};
use vstd::prelude::*;

verus! {

/// The reasons for which a text is rejected as an MDT amount.
///
/// `TooManySeparators`, `InvalidWhole` and `InvalidFraction` say that the text
/// is malformed. `TooManyDecimals` says that it asks for a precision that an
/// LTS does not have, and `Overflow` that a well-formed amount is too large.
#[derive(Clone, Copy, Debug, PartialEq, Eq, Structural)]
pub enum ParseError {
    /// The text holds more than one separator.
    TooManySeparators,
    /// The part before the separator is not an unsigned decimal number that
    /// fits in 128 bits.
    InvalidWhole,
    /// The part after the separator is longer than `MDT_DECIMALS` bytes.
    TooManyDecimals,
    /// The part after the separator holds something other than digits.
    InvalidFraction,
    /// The amount in LTS does not fit in 128 bits.
    Overflow,
}

impl ParseError {
    /// The text of the message for this error.
    pub open spec fn message_text(self) -> Seq<char> {
        match self {
            ParseError::TooManySeparators => "Invalid MDT format"@,
            ParseError::InvalidWhole => "Invalid MDT amount"@,
            ParseError::TooManyDecimals => "Too many decimal places (max "@ + ascii_text(
                decimal_digits(MDT_DECIMALS as nat),
            ) + ")"@,
            ParseError::InvalidFraction => "Invalid fractional amount"@,
            ParseError::Overflow => "Amount too large - would overflow"@,
        }
    }

    /// A message for people that says what was wrong.
    pub fn message(&self) -> (text: String)
        ensures
            text@ == self.message_text(),
    {
        match self {
            ParseError::TooManySeparators => "Invalid MDT format".to_owned(),
            ParseError::InvalidWhole => "Invalid MDT amount".to_owned(),
            ParseError::TooManyDecimals => {
                let mut text = "Too many decimal places (max ".to_owned();
                append_decimal(&mut text, MDT_DECIMALS as u128);
                text.append(")");
                text
            },
            ParseError::InvalidFraction => "Invalid fractional amount".to_owned(),
            ParseError::Overflow => "Amount too large - would overflow".to_owned(),
        }
    }
}

} // verus!
