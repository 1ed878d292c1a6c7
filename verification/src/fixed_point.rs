//! Measurements in fixed point.
//!
//! A measurement is written as a decimal number with one digit after the
//! point, such as `-12.3`, and kept as the integer number of tenths, `-123`.
//! Sums over millions of readings are then exact.

use vstd::prelude::*;
use vstd::slice::slice_subrange;
use crate::bytes::{find_byte, first_from, lemma_first_from};
use crate::error::PipelineError;

verus! {

pub const DECIMAL_POINT: u8 = 46;

pub const MINUS: u8 = 45;

pub const PLUS: u8 = 43;

/// `byte` is one of the ASCII digits `0` to `9`.
pub open spec fn is_digit(byte: u8) -> bool {
    48 <= byte <= 57
}

/// Every byte of `text` is an ASCII digit.
pub open spec fn all_digits(text: Seq<u8>) -> bool {
    forall|i: int| 0 <= i < text.len() ==> is_digit(#[trigger] text[i])
}

/// The number that one ASCII digit stands for.
pub open spec fn digit_value(byte: u8) -> nat {
    if is_digit(byte) {
        (byte - 48) as nat
    } else {
        0
    }
}

/// The number that a run of ASCII digits stands for, read in base ten.
pub open spec fn digits_value(text: Seq<u8>) -> nat
    decreases text.len(),
{
    if text.len() == 0 {
        0
    } else {
        digits_value(text.drop_last()) * 10 + digit_value(text.last())
    }
}

/// The part of a measurement before its decimal point.
pub open spec fn whole_part(text: Seq<u8>) -> Seq<u8> {
    text.subrange(0, first_from(text, DECIMAL_POINT, 0))
}

/// The part of a measurement after its decimal point.
pub open spec fn fraction_part(text: Seq<u8>) -> Seq<u8> {
    text.subrange(first_from(text, DECIMAL_POINT, 0) + 1, text.len() as int)
}

/// The whole part begins with a sign.
pub open spec fn has_sign(whole: Seq<u8>) -> bool {
    whole.len() > 0 && (whole[0] == MINUS || whole[0] == PLUS)
}

/// The digits of the whole part, without its sign.
pub open spec fn whole_digits(whole: Seq<u8>) -> Seq<u8> {
    if has_sign(whole) {
        whole.subrange(1, whole.len() as int)
    } else {
        whole
    }
}

/// `text` has the shape of a measurement: an optional sign, digits, a decimal
/// point, digits.
pub open spec fn well_formed(text: Seq<u8>) -> bool {
    &&& first_from(text, DECIMAL_POINT, 0) < text.len()
    &&& whole_digits(whole_part(text)).len() > 0
    &&& all_digits(whole_digits(whole_part(text)))
    &&& fraction_part(text).len() > 0
    &&& all_digits(fraction_part(text))
}

/// The number of tenths that a well-formed `text` stands for: ten times its
/// whole part plus its fraction, with the sign of the whole part.
pub open spec fn tenths(text: Seq<u8>) -> int {
    let whole = whole_part(text);
    let magnitude = digits_value(whole_digits(whole)) * 10 + digits_value(fraction_part(text));
    if whole.len() > 0 && whole[0] == MINUS {
        -magnitude
    } else {
        magnitude as int
    }
}

/// The fixed-point value of `text`; `None` where `text` is no measurement or
/// its value does not fit in 64 bits.
pub open spec fn measurement_value(text: Seq<u8>) -> Option<int> {
    if well_formed(text) && i64::MIN <= tenths(text) <= i64::MAX {
        Some(tenths(text))
    } else {
        None
    }
}

/// A measurement with one digit after the point can be read back from its
/// value: the last decimal digit of the value is the digit after the point,
/// and what stands before it is the whole part.
pub proof fn lemma_value_keeps_both_parts(text: Seq<u8>)
    requires
        well_formed(text),
        fraction_part(text).len() == 1,
    ensures
        ({
            let magnitude = if tenths(text) < 0 {
                -tenths(text)
            } else {
                tenths(text)
            };
            &&& magnitude / 10 == digits_value(whole_digits(whole_part(text)))
            &&& magnitude % 10 == digit_value(fraction_part(text)[0])
        }),
{
    let fraction = fraction_part(text);
    assert(fraction.drop_last().len() == 0);
    assert(fraction.last() == fraction[0]);
    assert(digits_value(fraction.drop_last()) == 0);
    assert(digits_value(fraction) == digit_value(fraction[0]));
    assert(is_digit(fraction[0]));
}

/// A run of digits stands for at least as much as any of its prefixes.
proof fn lemma_digits_value_grows(text: Seq<u8>, k: int)
    requires
        0 <= k <= text.len(),
    ensures
        digits_value(text.take(k)) <= digits_value(text),
    decreases text.len() - k,
{
    if k == text.len() {
        assert(text.take(k) =~= text);
    } else {
        lemma_digits_value_grows(text.drop_last(), k);
        assert(text.drop_last().take(k) =~= text.take(k));
    }
}

/// Reads a run of digits; `None` where `text` is empty, holds another byte,
/// or stands for more than 64 bits can hold.
fn parse_digits(text: &[u8]) -> (value: Option<u64>)
    ensures
        match value {
            Some(v) => text@.len() > 0 && all_digits(text@) && v == digits_value(text@),
            None => text@.len() == 0 || !all_digits(text@) || digits_value(text@) > u64::MAX,
        },
{
    if text.len() == 0 {
        return None;
    }
    let mut value: u64 = 0;
    let mut i: usize = 0;
    while i < text.len()
        invariant
            i <= text@.len(),
            all_digits(text@.take(i as int)),
            value == digits_value(text@.take(i as int)),
        decreases text@.len() - i,
    {
        let byte: u8 = text[i];
        if byte < 48 || byte > 57 {
            return None;
        }
        proof {
            assert(text@.take(i as int + 1).drop_last() =~= text@.take(i as int));
            lemma_digits_value_grows(text@, i as int + 1);
        }
        let digit: u64 = (byte - 48) as u64;
        value = match value.checked_mul(10) {
            Some(scaled) => match scaled.checked_add(digit) {
                Some(next) => next,
                None => {
                    return None;
                },
            },
            None => {
                return None;
            },
        };
        i = i + 1;
    }
    assert(text@.take(i as int) =~= text@);
    Some(value)
}

/// Reads a decimal measurement as a number of tenths.
///
/// The text is an optional `+` or `-`, one or more digits, a decimal point
/// and the digits after it, of which the format allows one. Anything else,
/// and a value that 64 bits cannot hold, is a `MalformedMeasurement`.
pub fn parse_measurement(text: &[u8]) -> (parsed: Result<i64, PipelineError>)
    ensures
        match measurement_value(text@) {
            Some(v) => parsed == Ok::<i64, PipelineError>(v as i64),
            None => parsed == Err::<i64, PipelineError>(PipelineError::MalformedMeasurement),
        },
{
    let dot: usize = find_byte(text, DECIMAL_POINT, 0);
    if dot >= text.len() {
        return Err(PipelineError::MalformedMeasurement);
    }
    let whole: &[u8] = slice_subrange(text, 0, dot);
    let fraction: &[u8] = slice_subrange(text, dot + 1, text.len());
    let negative: bool = whole.len() > 0 && whole[0] == MINUS;
    let signed: bool = whole.len() > 0 && (whole[0] == MINUS || whole[0] == PLUS);
    let digits: &[u8] = if signed {
        slice_subrange(whole, 1, whole.len())
    } else {
        whole
    };
    let (high, low): (u64, u64) = match (parse_digits(digits), parse_digits(fraction)) {
        (Some(high), Some(low)) => (high, low),
        _ => {
            return Err(PipelineError::MalformedMeasurement);
        },
    };
    let magnitude: u128 = high as u128 * 10 + low as u128;
    if magnitude <= 0x7fff_ffff_ffff_ffff {
        let value: i64 = magnitude as i64;
        if negative {
            Ok(-value)
        } else {
            Ok(value)
        }
    } else if negative && magnitude == 0x8000_0000_0000_0000 {
        Ok(i64::MIN)
    } else {
        Err(PipelineError::MalformedMeasurement)
    }
}

} // verus!
