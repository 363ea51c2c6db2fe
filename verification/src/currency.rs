//! Amounts in LTS and MDT: converting, rendering and reading them.
//!
//! An amount is an unsigned 128-bit number of LTS. Text is modelled by its
//! UTF-8 bytes; all that is written or accepted here is ASCII.

use crate::decimal::{
    append_decimal, append_padded, ascii_text, decimal_digits, padded_digits, parse_digits,
    parsed_digits, ZERO,
};
use crate::error::ParseError;
use vstd::prelude::*;
use vstd::slice::{slice_subrange, slice_to_vec};
use vstd::string::StringSliceAdditionalSpecFns;

verus! {

/// Number of LTS in one MDT: `10^18`.
pub const LTS_PER_MDT: u128 = 1_000_000_000_000_000_000;

/// Number of LTS in a thousand MDT.
pub const LTS_PER_KMDT: u128 = 1_000 * LTS_PER_MDT;

/// Number of LTS in a million MDT.
pub const LTS_PER_MMDT: u128 = 1_000_000 * LTS_PER_MDT;

/// Number of decimal places of an MDT amount.
pub const MDT_DECIMALS: u8 = 18;

/// The LTS value of `mdt` whole MDT, where it fits in 128 bits.
pub open spec fn mdt_to_lts_spec(mdt: u128) -> Option<u128> {
    if mdt * LTS_PER_MDT <= u128::MAX {
        Some((mdt * LTS_PER_MDT) as u128)
    } else {
        None
    }
}

/// Converts whole MDT to LTS. Returns `None` exactly when the product does
/// not fit in 128 bits; the amount is never clamped or wrapped.
#[verifier::when_used_as_spec(mdt_to_lts_spec)]
pub fn mdt_to_lts(mdt: u128) -> (lts: Option<u128>)
    ensures
        lts == mdt_to_lts_spec(mdt),
{
    mdt.checked_mul(LTS_PER_MDT)
}

/// The number of whole MDT in `lts`.
pub open spec fn lts_to_mdt_spec(lts: u128) -> u128 {
    lts / LTS_PER_MDT
}

/// Converts LTS to whole MDT, rounding down: what is left below one MDT is
/// dropped. `format_lts_as_mdt` keeps it.
#[verifier::when_used_as_spec(lts_to_mdt_spec)]
pub fn lts_to_mdt(lts: u128) -> (mdt: u128)
    ensures
        mdt == lts / LTS_PER_MDT,
        mdt == lts_to_mdt_spec(lts),
{
    lts / LTS_PER_MDT
}

/// The byte `'.'`, which parts the whole MDT from the fraction.
pub const SEPARATOR: u8 = 0x2e;

/// An LTS amount written in MDT: the whole MDT in decimal, the separator, and
/// the remaining LTS as a fraction of exactly `MDT_DECIMALS` digits.
pub open spec fn mdt_digits(lts: u128) -> Seq<u8> {
    decimal_digits((lts / LTS_PER_MDT) as nat).push(SEPARATOR) + padded_digits(
        (lts % LTS_PER_MDT) as nat,
        MDT_DECIMALS as nat,
    )
}

/// Renders an LTS amount in MDT with all its decimals, followed by a blank and
/// the unit symbol, as in `1.500000000000000000 MDT`. Nothing is rounded or
/// dropped.
pub fn format_lts_as_mdt(lts: u128) -> (text: String)
    ensures
        text@ == ascii_text(mdt_digits(lts)) + " MDT"@,
{
    let mdt_whole: u128 = lts / LTS_PER_MDT;
    let lts_fractional: u128 = lts % LTS_PER_MDT;
    let mut text = String::new();
    append_decimal(&mut text, mdt_whole);
    text.append(".");
    append_padded(&mut text, lts_fractional, MDT_DECIMALS);
    text.append(" MDT");
    proof {
        reveal_strlit(".");
        let whole = decimal_digits(mdt_whole as nat);
        let fraction = padded_digits(lts_fractional as nat, MDT_DECIMALS as nat);
        assert("."@ =~= ascii_text(seq![SEPARATOR]));
        assert(ascii_text(mdt_digits(lts)) =~= ascii_text(whole) + ascii_text(seq![SEPARATOR])
            + ascii_text(fraction));
    }
    text
}

/// Renders an LTS amount as it is, in decimal, followed by a blank and the
/// unit symbol, as in `1500000000000000000 LTS`.
pub fn format_lts(lts: u128) -> (text: String)
    ensures
        text@ == ascii_text(decimal_digits(lts as nat)) + " LTS"@,
{
    let mut text = String::new();
    append_decimal(&mut text, lts);
    text.append(" LTS");
    text
}

/// Where the first separator of `text` stands; the length of `text` where it
/// holds none.
pub open spec fn first_separator(text: Seq<u8>) -> int
    decreases text.len(),
{
    if text.len() == 0 || text[0] == SEPARATOR {
        0
    } else {
        1 + first_separator(text.drop_first())
    }
}

/// `text` with as many `'0'` bytes behind it as it takes to reach `width`
/// bytes; `text` itself where it is that long or longer.
pub open spec fn right_padded(text: Seq<u8>, width: nat) -> Seq<u8> {
    text + Seq::new((width - text.len()) as nat, |i: int| ZERO)
}

/// The LTS amount of `whole` MDT and `fraction` LTS, or the overflow error
/// where the sum does not fit in 128 bits.
pub open spec fn combined_amount(whole: u128, fraction: u128) -> Result<u128, ParseError> {
    if whole * LTS_PER_MDT + fraction <= u128::MAX {
        Ok((whole * LTS_PER_MDT + fraction) as u128)
    } else {
        Err(ParseError::Overflow)
    }
}

/// What a text means as an MDT amount, given by its bytes.
///
/// A text without separator is a whole number of MDT. A text with one
/// separator is a whole number of MDT before it and a fraction after it: up to
/// `MDT_DECIMALS` digits, read as if zeros followed them. Each part is made
/// of digits only; there is no sign, no blank and no exponent. The fraction
/// may be empty, the whole number may not. The checks are made in this order:
/// the number of separators, the whole part, the length of the fraction, its
/// digits, and last whether the amount fits.
pub open spec fn parsed_amount(text: Seq<u8>) -> Result<u128, ParseError> {
    let at = first_separator(text);
    if at == text.len() {
        match parsed_digits(text) {
            None => Err(ParseError::InvalidWhole),
            Some(whole) => combined_amount(whole, 0),
        }
    } else {
        let fraction_text = text.skip(at + 1);
        if fraction_text.contains(SEPARATOR) {
            Err(ParseError::TooManySeparators)
        } else {
            match parsed_digits(text.take(at)) {
                None => Err(ParseError::InvalidWhole),
                Some(whole) => if fraction_text.len() > MDT_DECIMALS {
                    Err(ParseError::TooManyDecimals)
                } else {
                    match parsed_digits(right_padded(fraction_text, MDT_DECIMALS as nat)) {
                        None => Err(ParseError::InvalidFraction),
                        Some(fraction) => combined_amount(whole, fraction),
                    }
                },
            }
        }
    }
}

/// `first_separator` lies within the text or at its end, no separator
/// stands before it, and one stands there unless the text is over.
pub proof fn lemma_first_separator_is_first(text: Seq<u8>)
    ensures
        0 <= first_separator(text) <= text.len(),
        forall|i: int| 0 <= i < first_separator(text) ==> text[i] != SEPARATOR,
        first_separator(text) < text.len() ==> text[first_separator(text)] == SEPARATOR,
    decreases text.len(),
{
    if text.len() > 0 && text[0] != SEPARATOR {
        let rest = text.drop_first();
        lemma_first_separator_is_first(rest);
        assert forall|i: int| 0 <= i < first_separator(text) implies text[i] != SEPARATOR by {
            if i > 0 {
                assert(text[i] == rest[i - 1]);
            }
        }
    }
}

/// No other place is like that: a place that holds a separator with none
/// before it, or the end of a text that holds none, is `first_separator`.
pub proof fn lemma_first_separator_unique(text: Seq<u8>, at: int)
    requires
        0 <= at <= text.len(),
        forall|i: int| 0 <= i < at ==> text[i] != SEPARATOR,
        at < text.len() ==> text[at] == SEPARATOR,
    ensures
        first_separator(text) == at,
    decreases text.len(),
{
    if at > 0 {
        lemma_first_separator_unique(text.drop_first(), at - 1);
    }
}

/// Reads an MDT amount from the bytes of a text and returns it in LTS, or the
/// reason for which the text is rejected. Nothing is rounded: a text that asks
/// for more decimals than an LTS has is rejected.
pub fn parse_mdt_amount(text: &[u8]) -> (amount: Result<u128, ParseError>)
    ensures
        amount == parsed_amount(text@),
{
    let n: usize = text.len();
    let mut at: usize = 0;
    while at < n && text[at] != SEPARATOR
        invariant
            at <= n,
            n == text@.len(),
            forall|i: int| 0 <= i < at ==> text@[i] != SEPARATOR,
        decreases n - at,
    {
        at += 1;
    }
    proof {
        lemma_first_separator_unique(text@, at as int);
    }
    if at == n {
        return match parse_digits(text) {
            None => Err(ParseError::InvalidWhole),
            Some(whole) => match mdt_to_lts(whole) {
                None => Err(ParseError::Overflow),
                Some(lts) => Ok(lts),
            },
        };
    }
    let fraction_text: &[u8] = slice_subrange(text, at + 1, n);
    assert(fraction_text@ =~= text@.skip(at + 1));
    let mut i: usize = 0;
    while i < fraction_text.len()
        invariant
            i <= fraction_text@.len(),
            first_separator(text@) == at < text@.len(),
            fraction_text@ == text@.skip(at + 1),
            forall|j: int| 0 <= j < i ==> fraction_text@[j] != SEPARATOR,
        decreases fraction_text@.len() - i,
    {
        if fraction_text[i] == SEPARATOR {
            assert(fraction_text@[i as int] == SEPARATOR);
            return Err(ParseError::TooManySeparators);
        }
        i += 1;
    }
    let whole: u128 = match parse_digits(slice_subrange(text, 0, at)) {
        None => {
            return Err(ParseError::InvalidWhole);
        },
        Some(whole) => whole,
    };
    if fraction_text.len() > MDT_DECIMALS as usize {
        return Err(ParseError::TooManyDecimals);
    }
    let mut padded: Vec<u8> = slice_to_vec(fraction_text);
    while padded.len() < MDT_DECIMALS as usize
        invariant
            fraction_text@.len() <= padded@.len() <= MDT_DECIMALS,
            padded@ == right_padded(fraction_text@, padded@.len()),
        decreases MDT_DECIMALS - padded@.len(),
    {
        padded.push(ZERO);
        proof {
            assert(padded@ =~= right_padded(fraction_text@, padded@.len()));
        }
    }
    let fraction: u128 = match parse_digits(padded.as_slice()) {
        None => {
            return Err(ParseError::InvalidFraction);
        },
        Some(fraction) => fraction,
    };
    let whole_lts: u128 = match mdt_to_lts(whole) {
        None => {
            return Err(ParseError::Overflow);
        },
        Some(lts) => lts,
    };
    match whole_lts.checked_add(fraction) {
        None => Err(ParseError::Overflow),
        Some(lts) => Ok(lts),
    }
}

/// Reads an MDT amount such as `1`, `0.5` or `1.000000000000000001` and
/// returns it in LTS. What the text means is decided on its UTF-8 bytes by
/// `parsed_amount`; a text that is rejected gives the message of its error.
pub fn parse_mdt_to_lts(mdt_str: &str) -> (amount: Result<u128, String>)
    ensures
        match parsed_amount(mdt_str.spec_bytes()) {
            Ok(lts) => amount == Ok::<u128, String>(lts),
            Err(error) => amount is Err && amount->Err_0@ == error.message_text(),
        },
{
    match parse_mdt_amount(mdt_str.as_bytes()) {
        Ok(lts) => Ok(lts),
        Err(error) => Err(error.message()),
    }
}

} // verus!
