//! Unsigned decimal numbers as sequences of ASCII digits.
//!
//! Text is modelled by its bytes. A decimal number is a non-empty run of the
//! bytes `'0'` to `'9'`, most significant digit first; `digits_value` says
//! which number a run of digits denotes and `decimal_digits` which run of
//! digits denotes a number.

use vstd::arithmetic::power::pow;
use vstd::prelude::*;
use vstd::utf8::{encode_utf8, is_ascii_chars, is_ascii_chars_encode_utf8};

verus! {

/// The byte `'0'`. The other digits follow it in order.
pub const ZERO: u8 = 0x30;

/// `b` is one of the bytes `'0'` to `'9'`.
pub open spec fn is_digit(b: u8) -> bool {
    ZERO <= b <= ZERO + 9
}

/// The number that the digit `b` stands for; zero for any other byte.
pub open spec fn digit_value(b: u8) -> nat {
    if is_digit(b) {
        (b - ZERO) as nat
    } else {
        0
    }
}

/// The digit that stands for `d`, a number below ten.
pub open spec fn digit_byte(d: nat) -> u8
    recommends
        d < 10,
{
    (ZERO + d) as u8
}

/// Every byte of `text` is a digit.
pub open spec fn all_digits(text: Seq<u8>) -> bool {
    forall|i: int| 0 <= i < text.len() ==> is_digit(#[trigger] text[i])
}

/// The number that the digits of `text` denote in base ten, most significant
/// digit first. Leading zeros do not change it; the empty text denotes zero.
pub open spec fn digits_value(text: Seq<u8>) -> nat
    decreases text.len(),
{
    if text.len() == 0 {
        0
    } else {
        10 * digits_value(text.drop_last()) + digit_value(text.last())
    }
}

/// What reading `text` as an unsigned 128-bit decimal number gives: its value
/// where `text` is one or more digits, nothing else, and the value fits.
pub open spec fn parsed_digits(text: Seq<u8>) -> Option<u128> {
    if text.len() > 0 && all_digits(text) && digits_value(text) <= u128::MAX {
        Some(digits_value(text) as u128)
    } else {
        None
    }
}

/// A digit more never makes the value smaller: every prefix of `text` denotes
/// at most what `text` denotes.
pub proof fn lemma_prefix_value_bounded(text: Seq<u8>, k: int)
    requires
        0 <= k <= text.len(),
    ensures
        digits_value(text.take(k)) <= digits_value(text),
    decreases text.len(),
{
    if k == text.len() {
        assert(text.take(k) =~= text);
    } else {
        assert(text.drop_last().take(k) =~= text.take(k));
        lemma_prefix_value_bounded(text.drop_last(), k);
    }
}

/// A text of `k` bytes denotes a number below `10^k`.
pub proof fn lemma_digits_value_bound(text: Seq<u8>)
    ensures
        digits_value(text) < pow(10, text.len()),
    decreases text.len(),
{
    if text.len() == 0 {
        reveal_with_fuel(pow, 1);
    } else {
        lemma_digits_value_bound(text.drop_last());
        assert(pow(10, text.len()) == 10 * pow(10, (text.len() - 1) as nat)) by {
            reveal_with_fuel(pow, 2);
        }
    }
}

/// Reads `text` as an unsigned decimal number. The text must be one or more
/// digits and nothing else, no sign and no blank, and its value must fit in
/// 128 bits; otherwise `None` is returned.
pub fn parse_digits(text: &[u8]) -> (value: Option<u128>)
    ensures
        value == parsed_digits(text@),
{
    let n: usize = text.len();
    if n == 0 {
        return None;
    }
    let mut acc: u128 = 0;
    let mut i: usize = 0;
    while i < n
        invariant
            i <= n,
            n == text@.len(),
            all_digits(text@.take(i as int)),
            acc == digits_value(text@.take(i as int)),
        decreases n - i,
    {
        let b: u8 = text[i];
        if b < ZERO || b > ZERO + 9 {
            return None;
        }
        let ghost longer = text@.take(i + 1);
        proof {
            assert(longer.drop_last() =~= text@.take(i as int));
            assert(longer.last() == b);
            lemma_prefix_value_bounded(text@, i + 1);
        }
        let digit: u128 = (b - ZERO) as u128;
        let shifted: u128 = match acc.checked_mul(10) {
            Some(v) => v,
            None => {
                return None;
            },
        };
        acc = match shifted.checked_add(digit) {
            Some(v) => v,
            None => {
                return None;
            },
        };
        i += 1;
    }
    proof {
        assert(text@.take(n as int) =~= text@);
    }
    Some(acc)
}

/// The decimal digits of `n`, most significant first, with no leading zero;
/// zero is the single digit `0`.
pub open spec fn decimal_digits(n: nat) -> Seq<u8>
    decreases n,
{
    if n < 10 {
        seq![digit_byte(n)]
    } else {
        decimal_digits(n / 10).push(digit_byte(n % 10))
    }
}

/// The last `width` decimal digits of `n`, with zeros in front where `n` has
/// fewer. For `n` below `10^width` this is `n` padded on the left with zeros.
pub open spec fn padded_digits(n: nat, width: nat) -> Seq<u8>
    decreases width,
{
    if width == 0 {
        Seq::empty()
    } else {
        padded_digits(n / 10, (width - 1) as nat).push(digit_byte(n % 10))
    }
}

/// The characters that the ASCII bytes `bytes` encode, one for each byte.
pub open spec fn ascii_text(bytes: Seq<u8>) -> Seq<char> {
    Seq::new(bytes.len(), |i: int| bytes[i] as char)
}

/// The text of a byte sequence followed by a byte is the text of the sequence
/// followed by the character of the byte.
pub proof fn lemma_ascii_text_push(bytes: Seq<u8>, b: u8)
    ensures
        ascii_text(bytes.push(b)) == ascii_text(bytes) + ascii_text(seq![b]),
{
    assert(ascii_text(bytes.push(b)) =~= ascii_text(bytes) + ascii_text(seq![b]));
}

/// The one-character text of a digit.
fn digit_str(d: u8) -> (s: &'static str)
    requires
        d < 10,
    ensures
        s@ == ascii_text(seq![digit_byte(d as nat)]),
{
    proof {
        reveal_strlit("0");
        reveal_strlit("1");
        reveal_strlit("2");
        reveal_strlit("3");
        reveal_strlit("4");
        reveal_strlit("5");
        reveal_strlit("6");
        reveal_strlit("7");
        reveal_strlit("8");
        reveal_strlit("9");
    }
    let s: &'static str = match d {
        0 => "0",
        1 => "1",
        2 => "2",
        3 => "3",
        4 => "4",
        5 => "5",
        6 => "6",
        7 => "7",
        8 => "8",
        _ => "9",
    };
    assert(s@ =~= ascii_text(seq![digit_byte(d as nat)]));
    s
}

/// Appends the decimal digits of `n` to `out`.
pub fn append_decimal(out: &mut String, n: u128)
    ensures
        final(out)@ == old(out)@ + ascii_text(decimal_digits(n as nat)),
    decreases n,
{
    if n >= 10 {
        append_decimal(out, n / 10);
        proof {
            lemma_ascii_text_push(decimal_digits((n / 10) as nat), digit_byte((n % 10) as nat));
        }
    }
    out.append(digit_str((n % 10) as u8));
}

/// Appends the last `width` decimal digits of `n` to `out`, zeros included.
pub fn append_padded(out: &mut String, n: u128, width: u8)
    ensures
        final(out)@ == old(out)@ + ascii_text(padded_digits(n as nat, width as nat)),
    decreases width,
{
    if width > 0 {
        append_padded(out, n / 10, width - 1);
        proof {
            lemma_ascii_text_push(
                padded_digits((n / 10) as nat, (width - 1) as nat),
                digit_byte((n % 10) as nat),
            );
        }
        out.append(digit_str((n % 10) as u8));
    }
}

/// The digits of a number are digits, at least one and nothing else, and
/// they denote that number: a number that fits in 128 bits is read back from
/// its digits.
pub proof fn lemma_decimal_digits_value(n: nat)
    ensures
        decimal_digits(n).len() > 0,
        all_digits(decimal_digits(n)),
        digits_value(decimal_digits(n)) == n,
        n <= u128::MAX ==> parsed_digits(decimal_digits(n)) == Some(n as u128),
    decreases n,
{
    let digits = decimal_digits(n);
    assert(digit_value(digit_byte(n % 10)) == n % 10);
    assert(digits.last() == digit_byte(n % 10));
    if n < 10 {
        assert(digits.drop_last() =~= Seq::<u8>::empty());
        assert(digits_value(digits.drop_last()) == 0);
    } else {
        lemma_decimal_digits_value(n / 10);
        assert(digits.drop_last() =~= decimal_digits(n / 10));
    }
}

/// A number padded to `width` digits has exactly `width` digits, and they
/// denote the number where it is below `10^width`.
pub proof fn lemma_padded_digits_value(n: nat, width: nat)
    ensures
        padded_digits(n, width).len() == width,
        all_digits(padded_digits(n, width)),
        n < pow(10, width) ==> digits_value(padded_digits(n, width)) == n,
    decreases width,
{
    if width > 0 {
        let digits = padded_digits(n, width);
        lemma_padded_digits_value(n / 10, (width - 1) as nat);
        assert(digit_value(digit_byte(n % 10)) == n % 10);
        assert(digits.last() == digit_byte(n % 10));
        assert(digits.drop_last() =~= padded_digits(n / 10, (width - 1) as nat));
        assert(pow(10, width) == 10 * pow(10, (width - 1) as nat)) by {
            reveal_with_fuel(pow, 2);
        }
    } else {
        assert(pow(10, 0) == 1) by {
            reveal_with_fuel(pow, 1);
        }
    }
}

/// Zeros behind a run of digits multiply its value by ten each.
pub proof fn lemma_trailing_zeros_value(text: Seq<u8>, zeros: nat)
    ensures
        digits_value(text + Seq::new(zeros, |i: int| ZERO)) == digits_value(text) * pow(
            10,
            zeros,
        ),
    decreases zeros,
{
    let tail = Seq::new(zeros, |i: int| ZERO);
    if zeros == 0 {
        assert(text + tail =~= text);
        reveal_with_fuel(pow, 1);
    } else {
        let shorter = Seq::new((zeros - 1) as nat, |i: int| ZERO);
        lemma_trailing_zeros_value(text, (zeros - 1) as nat);
        assert((text + tail).drop_last() =~= text + shorter);
        assert(pow(10, zeros) == 10 * pow(10, (zeros - 1) as nat)) by {
            reveal_with_fuel(pow, 2);
        }
        assert(10 * (digits_value(text) * pow(10, (zeros - 1) as nat)) == digits_value(text) * (10
            * pow(10, (zeros - 1) as nat))) by (nonlinear_arith);
    }
}

/// ASCII bytes are their own UTF-8 encoding: the bytes of the text of `bytes`
/// are `bytes` again.
pub proof fn lemma_ascii_text_bytes(bytes: Seq<u8>)
    requires
        forall|i: int| 0 <= i < bytes.len() ==> #[trigger] bytes[i] < 0x80,
    ensures
        is_ascii_chars(ascii_text(bytes)),
        encode_utf8(ascii_text(bytes)) == bytes,
{
    let text = ascii_text(bytes);
    assert(is_ascii_chars(text)) by {
        assert forall|i: int| 0 <= i < text.len() implies '\0' <= #[trigger] text[i]
            <= '\u{7f}' by {
            assert(bytes[i] < 0x80);
        }
    }
    is_ascii_chars_encode_utf8(text);
    assert forall|i: int| 0 <= i < bytes.len() implies encode_utf8(text)[i] == bytes[i] by {
        assert(text[i] as u8 == bytes[i]);
    }
    assert(encode_utf8(text) =~= bytes);
}

} // verus!
