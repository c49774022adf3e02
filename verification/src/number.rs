//! # Number parser

use vstd::prelude::*;
use vstd::string::StringSliceAdditionalSpecFns;
use crate::fsm::{recognize, recognized, Value};

verus! {

/// Parsed number.
#[derive(Clone, Copy, Debug, PartialEq, Eq)]
pub enum Number {
    /// Variant representing a finite number.
    Finite(
        /// Flag indicating if the number is signed,
        /// `true` signed (`-` minus), `false` unsigned (`+` plus).
        bool,
        /// Higher 64-bits of the number.
        u64,
        /// Lower 64-bits of the number.
        u64,
        /// Exponent.
        i32,
    ),
    /// Variant representing an infinity.
    Infinite(
        /// Flag indicating if the infinity is signed,
        /// `true` negative infinity, `false` positive infinity.
        bool,
    ),
    /// Variant representing an invalid number.
    NotANumber(
        /// Flag indicating if the value is signed,
        /// `true` signed, `false` unsigned.
        bool,
        /// Flag indicating if this is a signalling NaN,
        /// `true` signaling, `false` quiet.
        bool,
    ),
}

/// The number of digits of a coefficient with which a [Number] is parsed.
pub const NUMBER_DIGITS: u32 = 34;

/// The value `v` with its coefficient split in two words of 64 bits.
pub open spec fn number_of(v: Value) -> Number {
    match v {
        Value::Finite(sign, value, exponent) => Number::Finite(
            sign,
            (value / 0x1_0000_0000_0000_0000) as u64,
            (value % 0x1_0000_0000_0000_0000) as u64,
            exponent,
        ),
        Value::Infinite(sign) => Number::Infinite(sign),
        Value::NotANumber(sign, signaling) => Number::NotANumber(sign, signaling),
    }
}

/// Parses the properties of a number from text in scientific notation.
///
/// A finite number such as `1234.5678e-2` is `Number::Finite(false, 0,
/// 12345678, -6)`; `inf` and `-Infinity` are infinities; `NaN` is a quiet and
/// `SNaN` a signaling not-a-number.
pub fn number_from_string(input: &str) -> (n: Number)
    ensures
        n == number_of(recognized(input.spec_bytes(), NUMBER_DIGITS as nat)),
{
    match recognize(input, NUMBER_DIGITS) {
        Value::Finite(sign, value, exponent) => {
            let high: u64 = (value >> 64) as u64;
            let low: u64 = value as u64;
            assert(high == value / 0x1_0000_0000_0000_0000 && low == value
                % 0x1_0000_0000_0000_0000) by (bit_vector)
                requires
                    high == (value >> 64) as u64,
                    low == value as u64,
            ;
            Number::Finite(sign, high, low, exponent)
        },
        Value::Infinite(sign) => Number::Infinite(sign),
        Value::NotANumber(sign, signaling) => Number::NotANumber(sign, signaling),
    }
}

} // verus!
