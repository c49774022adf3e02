//! Recognizer of numbers in scientific `E` notation in their plain form:
//! sign, digits and exponent, without rounding. It runs the scanner with one
//! guard digit beyond the digits asked for.

use vstd::prelude::*;
use vstd::string::StringSliceAdditionalSpecFns;
use crate::common::{clamp_i32, saturating_add};
use crate::grammar::{
    fraction_digits, has_signaling_mark, is_finite_literal, is_infinity_literal, is_nan_literal,
    is_negative, lemma_mantissa_digits, mantissa_digits, written_exponent,
};
use crate::mantissa::{kept_value, lemma_kept_value_bound, MAX_LIMIT};
use crate::scanner::{scan, Token};

verus! {

/// Parsed number.
#[derive(Clone, Copy, Debug, PartialEq, Eq)]
pub enum Value {
    /// Variant representing a finite number.
    Finite(
        /// Flag indicating if the number is signed, if `true` then signed.
        bool,
        /// Recognized value.
        u128,
        /// Exponent.
        i32,
    ),
    /// Variant representing an infinity.
    Infinite(
        /// Flag indicating if the infinity is signed, if `true` then signed.
        bool,
    ),
    /// Variant representing an invalid number.
    NotANumber(
        /// Flag indicating if the value is signed, if `true` then signed.
        bool,
        /// Flag indicating if this is a signalling NaN, if `true` then signaling.
        bool,
    ),
}

/// The plain exponent of a finite literal `s`: the exponent as written, less
/// one for each fraction digit. Both the count and the sum saturate at the
/// bounds of an `i32`.
pub open spec fn plain_exponent(s: Seq<u8>) -> int {
    clamp_i32(clamp_i32(-(fraction_digits(s).len() as int)) + written_exponent(s))
}

/// The plain value of the text `s`. The recognized value of a finite literal
/// holds its first `max_digits` significant digits and one more, the guard
/// digit; later digits are left out, and leave the exponent as it is. A text
/// that is no literal is a quiet, unsigned NaN.
pub open spec fn recognized(s: Seq<u8>, max_digits: nat) -> Value {
    if is_finite_literal(s) {
        Value::Finite(
            is_negative(s),
            kept_value(mantissa_digits(s), max_digits + 1) as u128,
            plain_exponent(s) as i32,
        )
    } else if is_infinity_literal(s) {
        Value::Infinite(is_negative(s))
    } else if is_nan_literal(s) {
        Value::NotANumber(is_negative(s), has_signaling_mark(s))
    } else {
        Value::NotANumber(false, false)
    }
}

/// Recognizes the plain form of a number from scientific notation.
pub fn recognize(input: &str, max_digits: u32) -> (v: Value)
    requires
        max_digits < MAX_LIMIT,
    ensures
        v == recognized(input.spec_bytes(), max_digits as nat),
{
    let bytes = input.as_bytes();
    proof {
        lemma_mantissa_digits(bytes@);
        lemma_kept_value_bound(mantissa_digits(bytes@), (max_digits + 1) as nat);
        assert(bytes@.len() == bytes.len());
    }
    match scan(bytes, max_digits as usize + 1) {
        Token::Number { negative, mantissa, exponent } => Value::Finite(
            negative,
            mantissa.value,
            saturating_add(mantissa.fraction_shift(), exponent),
        ),
        Token::Infinity { negative } => Value::Infinite(negative),
        Token::NaN { negative, signaling } => Value::NotANumber(negative, signaling),
        Token::Invalid => Value::NotANumber(false, false),
    }
}

} // verus!
