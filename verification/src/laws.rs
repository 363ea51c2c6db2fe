//! What holds between converting, rendering and reading amounts.

use crate::currency::{
    first_separator, lemma_first_separator_is_first, lemma_first_separator_unique, lts_to_mdt,
    mdt_digits, mdt_to_lts, parsed_amount, right_padded, LTS_PER_KMDT, LTS_PER_MDT, LTS_PER_MMDT,
    MDT_DECIMALS, SEPARATOR,
};
use crate::decimal::{
    all_digits, ascii_text, decimal_digits, digits_value, is_digit, lemma_ascii_text_bytes,
    lemma_decimal_digits_value, lemma_digits_value_bound, lemma_padded_digits_value,
    lemma_trailing_zeros_value, padded_digits, parsed_digits, ZERO,
};
use crate::error::ParseError;
use vstd::arithmetic::power::pow;
use vstd::prelude::*;
use vstd::string::StringSliceAdditionalSpecFns;

verus! {

/// The scale is ten to the number of decimals, and the larger units are a
/// thousand and a million times the scale.
pub proof fn lemma_scale_is_power_of_ten()
    ensures
        LTS_PER_MDT == pow(10, MDT_DECIMALS as nat),
        LTS_PER_KMDT == 1_000 * LTS_PER_MDT,
        LTS_PER_MMDT == 1_000_000 * LTS_PER_MDT,
{
    reveal_with_fuel(pow, 19);
}

/// A whole number of MDT that can be converted to LTS comes back unchanged
/// when the LTS are converted to MDT.
pub proof fn lemma_whole_amount_round_trip(mdt: u128)
    requires
        mdt * LTS_PER_MDT <= u128::MAX,
    ensures
        mdt_to_lts(mdt) matches Some(lts) && lts_to_mdt(lts) == mdt,
{
}

/// Converting LTS to MDT and back gives the largest multiple of the scale that
/// is not above the amount: what is lost is less than one MDT.
pub proof fn lemma_whole_part_round_trip(lts: u128)
    ensures
        mdt_to_lts(lts_to_mdt(lts)) matches Some(floor) && floor <= lts < floor + LTS_PER_MDT,
{
}

/// In a rendered amount the separator is found behind the whole MDT, and the
/// two parts are what was rendered, whatever follows the fraction as long as
/// it holds no separator.
proof fn lemma_mdt_digits_parts(lts: u128, rest: Seq<u8>)
    requires
        !rest.contains(SEPARATOR),
    ensures
        ({
            let whole = decimal_digits((lts / LTS_PER_MDT) as nat);
            let fraction = padded_digits((lts % LTS_PER_MDT) as nat, MDT_DECIMALS as nat);
            let text = mdt_digits(lts) + rest;
            &&& first_separator(text) == whole.len() < text.len()
            &&& text.take(whole.len() as int) == whole
            &&& text.skip(whole.len() as int + 1) == fraction + rest
            &&& !(fraction + rest).contains(SEPARATOR)
            &&& fraction.len() == MDT_DECIMALS
            &&& parsed_digits(whole) == Some(lts / LTS_PER_MDT)
            &&& parsed_digits(fraction) == Some(lts % LTS_PER_MDT)
        }),
{
    let whole = decimal_digits((lts / LTS_PER_MDT) as nat);
    let fraction = padded_digits((lts % LTS_PER_MDT) as nat, MDT_DECIMALS as nat);
    let text = mdt_digits(lts) + rest;
    lemma_decimal_digits_value((lts / LTS_PER_MDT) as nat);
    lemma_padded_digits_value((lts % LTS_PER_MDT) as nat, MDT_DECIMALS as nat);
    lemma_scale_is_power_of_ten();
    assert forall|i: int| 0 <= i < whole.len() implies text[i] != SEPARATOR by {
        assert(text[i] == whole[i]);
    }
    assert(text[whole.len() as int] == SEPARATOR);
    lemma_first_separator_unique(text, whole.len() as int);
    assert(text.take(whole.len() as int) =~= whole);
    assert(text.skip(whole.len() as int + 1) =~= fraction + rest);
    assert forall|i: int| 0 <= i < (fraction + rest).len() implies (fraction + rest)[i]
        != SEPARATOR by {
        if i < fraction.len() {
            assert((fraction + rest)[i] == fraction[i]);
        } else {
            assert((fraction + rest)[i] == rest[i - fraction.len()]);
        }
    }
}

/// Reading a rendered amount gives the amount back, for every amount: the
/// digits that `format_lts_as_mdt` writes before the blank and the unit
/// symbol are accepted, and they mean the LTS that were rendered.
pub proof fn lemma_rendered_amount_parses_back(lts: u128)
    ensures
        parsed_amount(mdt_digits(lts)) == Ok::<u128, ParseError>(lts),
{
    let fraction = padded_digits((lts % LTS_PER_MDT) as nat, MDT_DECIMALS as nat);
    lemma_mdt_digits_parts(lts, Seq::empty());
    assert(mdt_digits(lts) + Seq::<u8>::empty() =~= mdt_digits(lts));
    assert(fraction + Seq::<u8>::empty() =~= fraction);
    assert(right_padded(fraction, MDT_DECIMALS as nat) =~= fraction);
}

/// Rendering loses nothing: two amounts that are written alike are the same
/// amount.
pub proof fn lemma_rendering_is_lossless(a: u128, b: u128)
    requires
        mdt_digits(a) == mdt_digits(b),
    ensures
        a == b,
{
    lemma_rendered_amount_parses_back(a);
    lemma_rendered_amount_parses_back(b);
}

/// Reading gives the amount back from a string too: where a string holds a
/// rendered amount without the blank and the unit symbol, `parse_mdt_to_lts`
/// returns the amount.
pub proof fn lemma_rendered_text_parses_back(text: &str, lts: u128)
    requires
        text@ == ascii_text(mdt_digits(lts)),
    ensures
        parsed_amount(text.spec_bytes()) == Ok::<u128, ParseError>(lts),
{
    lemma_mdt_digits_ascii(lts);
    lemma_ascii_text_bytes(mdt_digits(lts));
    lemma_rendered_amount_parses_back(lts);
}

/// The unit symbol is no part of an amount: what `format_lts_as_mdt` returns,
/// symbol included, is rejected by `parse_mdt_to_lts`, for every amount. The
/// blank and the symbol count as decimals beyond those that an LTS has.
pub proof fn lemma_rendered_text_with_symbol_is_rejected(text: &str, lts: u128)
    requires
        text@ == ascii_text(mdt_digits(lts)) + " MDT"@,
    ensures
        parsed_amount(text.spec_bytes()) == Err::<u128, ParseError>(ParseError::TooManyDecimals),
{
    let symbol = seq![0x20u8, 0x4du8, 0x44u8, 0x54u8];
    let bytes = mdt_digits(lts) + symbol;
    reveal_strlit(" MDT");
    assert(" MDT"@ =~= ascii_text(symbol));
    assert(text@ =~= ascii_text(bytes));
    lemma_mdt_digits_ascii(lts);
    lemma_ascii_text_bytes(bytes);
    lemma_mdt_digits_parts(lts, symbol);
}

/// A rendered amount is made of ASCII bytes.
proof fn lemma_mdt_digits_ascii(lts: u128)
    ensures
        forall|i: int| 0 <= i < mdt_digits(lts).len() ==> #[trigger] mdt_digits(lts)[i] < 0x80,
{
    let whole = decimal_digits((lts / LTS_PER_MDT) as nat);
    let fraction = padded_digits((lts % LTS_PER_MDT) as nat, MDT_DECIMALS as nat);
    lemma_decimal_digits_value((lts / LTS_PER_MDT) as nat);
    lemma_padded_digits_value((lts % LTS_PER_MDT) as nat, MDT_DECIMALS as nat);
    assert forall|i: int| 0 <= i < mdt_digits(lts).len() implies #[trigger] mdt_digits(lts)[i]
        < 0x80 by {
        if i < whole.len() {
            assert(mdt_digits(lts)[i] == whole[i]);
        } else if i > whole.len() {
            assert(mdt_digits(lts)[i] == fraction[i - whole.len() - 1]);
        }
    }
}

/// The LTS that the digits `whole` before the separator and the digits
/// `fraction` behind it come to: each MDT counts `10^18` LTS, and a fraction
/// of `k` digits counts its value times `10^(18 - k)`.
pub open spec fn amount_of_parts(whole: Seq<u8>, fraction: Seq<u8>) -> int {
    digits_value(whole) * LTS_PER_MDT + digits_value(fraction) * pow(
        10,
        (MDT_DECIMALS - fraction.len()) as nat,
    )
}

/// What a well-formed text means, and when it is accepted. A text made of
/// one or more digits, a separator and up to `MDT_DECIMALS` digits is accepted
/// exactly when the amount it denotes fits in 128 bits, and then it is read
/// as that amount. Without separator it means what it means with a separator
/// and no decimals.
pub proof fn lemma_parsed_amount_of_parts(whole: Seq<u8>, fraction: Seq<u8>)
    requires
        whole.len() > 0,
        all_digits(whole),
        all_digits(fraction),
        fraction.len() <= MDT_DECIMALS,
    ensures
        parsed_amount(whole.push(SEPARATOR) + fraction) == (if digits_value(whole) > u128::MAX {
            Err::<u128, ParseError>(ParseError::InvalidWhole)
        } else if amount_of_parts(whole, fraction) > u128::MAX {
            Err(ParseError::Overflow)
        } else {
            Ok(amount_of_parts(whole, fraction) as u128)
        }),
        parsed_amount(whole) == parsed_amount(whole.push(SEPARATOR)),
{
    let zeros = (MDT_DECIMALS - fraction.len()) as nat;
    let padded = right_padded(fraction, MDT_DECIMALS as nat);
    let text = whole.push(SEPARATOR) + fraction;
    lemma_first_separator_unique(text, whole.len() as int);
    assert(text.take(whole.len() as int) =~= whole);
    assert(text.skip(whole.len() as int + 1) =~= fraction);
    lemma_trailing_zeros_value(fraction, zeros);
    lemma_digits_value_bound(padded);
    lemma_scale_is_power_of_ten();
    assert(digits_value(fraction) * pow(10, zeros) >= 0);

    let alone = whole.push(SEPARATOR);
    let no_decimals = right_padded(Seq::<u8>::empty(), MDT_DECIMALS as nat);
    lemma_first_separator_unique(whole, whole.len() as int);
    lemma_first_separator_unique(alone, whole.len() as int);
    assert(alone.take(whole.len() as int) =~= whole);
    assert(alone.skip(whole.len() as int + 1) =~= Seq::<u8>::empty());
    lemma_trailing_zeros_value(Seq::<u8>::empty(), MDT_DECIMALS as nat);
    assert(digits_value(Seq::<u8>::empty()) * pow(10, MDT_DECIMALS as nat) == 0)
        by (nonlinear_arith)
        requires
            digits_value(Seq::<u8>::empty()) == 0,
    ;
    assert(no_decimals =~= Seq::<u8>::empty() + Seq::new(MDT_DECIMALS as nat, |i: int| ZERO));
}

/// Nothing but a well-formed text is accepted, and nothing is rounded. Where
/// a text is accepted, what stands before its first separator is one or more
/// digits, what stands behind it is at most `MDT_DECIMALS` digits, and the
/// result is the amount that these digits denote.
pub proof fn lemma_accepted_text(text: Seq<u8>)
    requires
        parsed_amount(text) is Ok,
    ensures
        ({
            let at = first_separator(text);
            let whole = text.take(at);
            let fraction = if at < text.len() {
                text.skip(at + 1)
            } else {
                Seq::empty()
            };
            &&& 0 <= at <= text.len()
            &&& text == whole || text == whole.push(SEPARATOR) + fraction
            &&& whole.len() > 0 && all_digits(whole)
            &&& fraction.len() <= MDT_DECIMALS && all_digits(fraction)
            &&& amount_of_parts(whole, fraction) <= u128::MAX
            &&& parsed_amount(text) == Ok::<u128, ParseError>(
                amount_of_parts(whole, fraction) as u128,
            )
        }),
{
    let at = first_separator(text);
    let whole = text.take(at);
    lemma_first_separator_is_first(text);
    if at == text.len() {
        assert(whole =~= text);
        lemma_parsed_amount_of_parts(whole, Seq::empty());
        assert(whole.push(SEPARATOR) + Seq::<u8>::empty() =~= whole.push(SEPARATOR));
    } else {
        let fraction = text.skip(at + 1);
        let padded = right_padded(fraction, MDT_DECIMALS as nat);
        assert(text =~= whole.push(SEPARATOR) + fraction);
        assert forall|i: int| 0 <= i < fraction.len() implies is_digit(#[trigger] fraction[i]) by {
            assert(padded[i] == fraction[i]);
        }
        lemma_parsed_amount_of_parts(whole, fraction);
    }
}

} // verus!
