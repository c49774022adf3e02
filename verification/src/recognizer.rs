//! The recognizer for scientific `E` notation, and the rounding of a
//! coefficient whose literal had more digits than the coefficient holds.

use vstd::prelude::*;
use vstd::string::StringSliceAdditionalSpecFns;
use crate::common::{clamp_i32, digit_value, digits_value, pow10, saturating_add, spec_is_digit};
use crate::grammar::{
    fraction_digits, has_signaling_mark, is_finite_literal, is_infinity_literal, is_literal,
    is_nan_literal, is_negative, lemma_mantissa_digits, mantissa_digits, written_exponent,
};
use crate::mantissa::{
    dropped_digits, kept_value, lemma_kept_value_bound, lemma_significant_digits, MAX_LIMIT,
};
use crate::scanner::{scan, Token};

verus! {

/// Status flag: the result is too large for the format.
pub const FLAG_OVERFLOW: u32 = 0x08;

/// Status flag: the result is too small for the format.
pub const FLAG_UNDERFLOW: u32 = 0x10;

/// Status flag: the result is not the exact value of the text.
pub const FLAG_INEXACT: u32 = 0x20;

/// Rounding modes.
#[derive(Clone, Copy, Debug, PartialEq, Eq)]
pub enum Rounding {
    /// To the nearest value; a tie goes to the even one.
    ToNearest,
    /// Toward negative infinity.
    Down,
    /// Toward positive infinity.
    Up,
    /// Toward zero.
    ToZero,
    /// To the nearest value; a tie goes away from zero.
    TiesAway,
}

impl From<i32> for Rounding {
    /// Converts [Rounding] from [i32]: 0 to 4 name the modes in the order of
    /// their declaration, any other number the first.
    fn from(value: i32) -> (r: Rounding) {
        match value {
            1 => Rounding::Down,
            2 => Rounding::Up,
            3 => Rounding::ToZero,
            4 => Rounding::TiesAway,
            _ => Rounding::ToNearest,
        }
    }
}

impl vstd::std_specs::convert::FromSpecImpl<i32> for Rounding {
    open spec fn obeys_from_spec() -> bool {
        true
    }

    open spec fn from_spec(value: i32) -> Rounding {
        match value {
            1 => Rounding::Down,
            2 => Rounding::Up,
            3 => Rounding::ToZero,
            4 => Rounding::TiesAway,
            _ => Rounding::ToNearest,
        }
    }
}

impl Default for Rounding {
    /// The default mode rounds to the nearest value, ties to even.
    fn default() -> (r: Rounding)
        ensures
            r == Rounding::ToNearest,
    {
        Rounding::ToNearest
    }
}

/// What is known of the significant digits that a coefficient could not
/// hold.
#[derive(Clone, Copy, Debug, PartialEq, Eq)]
pub struct Excess {
    /// The first of these digits, as a number from 0 to 9.
    pub first: u8,
    /// Some digit after the first is nonzero.
    pub tail: bool,
}

impl Excess {
    /// Some digit of the excess is nonzero.
    pub open spec fn spec_is_nonzero(self) -> bool {
        self.first != 0 || self.tail
    }

    /// Tests whether some digit of the excess is nonzero.
    #[verifier::when_used_as_spec(spec_is_nonzero)]
    pub fn is_nonzero(self) -> (r: bool)
        ensures
            r == self.spec_is_nonzero(),
    {
        self.first != 0 || self.tail
    }
}

/// Parsed number.
#[derive(Clone, Copy, Debug, PartialEq, Eq)]
pub enum Value {
    /// Variant representing a finite number.
    Finite(
        /// Flag indicating if the number is signed, if `true` then signed.
        bool,
        /// Coefficient: the leading significant digits, as many as fit.
        u128,
        /// The significant digits that did not fit, if there were any.
        Option<Excess>,
        /// Exponent.
        i32,
    ),
    /// Variant representing an infinity.
    Infinity(
        /// Flag indicating if the infinity is signed, if `true` then signed.
        bool,
    ),
    /// Variant representing an invalid number.
    NaN(
        /// Flag indicating if the value is signed, if `true` then signed.
        bool,
        /// Flag indicating if this is a signalling NaN, if `true` then signaling.
        bool,
    ),
}

/// What rounding needs to know of the digits `rest` that were dropped.
pub open spec fn excess_of(rest: Seq<u8>) -> Option<Excess> {
    if rest.len() > 0 {
        Some(
            Excess {
                first: digit_value(rest[0]) as u8,
                tail: digits_value(rest.drop_first()) != 0,
            },
        )
    } else {
        None
    }
}

/// The exponent of a finite literal `s` whose coefficient keeps `max_digits`
/// significant digits: each dropped digit raises it by one, each fraction
/// digit lowers it by one, and the exponent as written is added. Both the
/// count and the sum saturate at the bounds of an `i32`.
pub open spec fn recognized_exponent(s: Seq<u8>, max_digits: nat) -> int {
    clamp_i32(
        clamp_i32(dropped_digits(mantissa_digits(s), max_digits).len() - fraction_digits(s).len())
            + written_exponent(s),
    )
}

/// The value of the text `s`, when a coefficient holds at most `max_digits`
/// significant digits. A text that is no literal is a quiet, unsigned NaN.
pub open spec fn recognized(s: Seq<u8>, max_digits: nat) -> Value {
    if is_finite_literal(s) {
        Value::Finite(
            is_negative(s),
            kept_value(mantissa_digits(s), max_digits) as u128,
            excess_of(dropped_digits(mantissa_digits(s), max_digits)),
            recognized_exponent(s, max_digits) as i32,
        )
    } else if is_infinity_literal(s) {
        Value::Infinity(is_negative(s))
    } else if is_nan_literal(s) {
        Value::NaN(is_negative(s), has_signaling_mark(s))
    } else {
        Value::NaN(false, false)
    }
}

/// The value of a token: a number scales its kept digits by a power of ten
/// for each dropped digit and against each fraction digit, on top of the
/// exponent as written; what is no literal is a quiet, unsigned NaN.
pub open spec fn value_of(token: Token) -> Value {
    match token {
        Token::Number { negative, mantissa, exponent } => Value::Finite(
            negative,
            mantissa.value,
            if mantissa.dropped > 0 {
                Some(Excess { first: mantissa.first, tail: mantissa.tail })
            } else {
                None
            },
            clamp_i32(clamp_i32(mantissa.dropped - mantissa.fraction) + exponent) as i32,
        ),
        Token::Infinity { negative } => Value::Infinity(negative),
        Token::NaN { negative, signaling } => Value::NaN(negative, signaling),
        Token::Invalid => Value::NaN(false, false),
    }
}

/// Evaluates a token.
pub fn evaluate(token: Token) -> (v: Value)
    ensures
        v == value_of(token),
{
    match token {
        Token::Number { negative, mantissa, exponent } => {
            let excess = if mantissa.dropped > 0 {
                Some(Excess { first: mantissa.first, tail: mantissa.tail })
            } else {
                None
            };
            Value::Finite(negative, mantissa.value, excess, saturating_add(mantissa.shift(), exponent))
        },
        Token::Infinity { negative } => Value::Infinity(negative),
        Token::NaN { negative, signaling } => Value::NaN(negative, signaling),
        Token::Invalid => Value::NaN(false, false),
    }
}

/// A recognized coefficient has at most `max_digits` digits, and the first
/// digit of an excess is a digit.
pub proof fn lemma_recognized_bound(s: Seq<u8>, max_digits: nat)
    requires
        max_digits <= MAX_LIMIT,
    ensures
        recognized(s, max_digits) matches Value::Finite(_, coefficient, excess, _) ==> {
            &&& coefficient < pow10(max_digits)
            &&& excess matches Some(x) ==> x.first <= 9
        },
{
    let ds = mantissa_digits(s);
    lemma_mantissa_digits(s);
    lemma_kept_value_bound(ds, max_digits);
    lemma_significant_digits(ds);
    let rest = dropped_digits(ds, max_digits);
    if rest.len() > 0 {
        assert(spec_is_digit(rest[0]));
    }
}

/// The sign that a value carries.
pub open spec fn sign_of_value(v: Value) -> bool {
    match v {
        Value::Finite(sign, _, _, _) => sign,
        Value::Infinity(sign) => sign,
        Value::NaN(sign, _) => sign,
    }
}

/// The sign is kept: the value of a literal is signed exactly when the
/// literal begins with a minus sign, whatever its class. A text that is no
/// literal has a value without sign.
pub proof fn lemma_recognized_sign(s: Seq<u8>, max_digits: nat)
    ensures
        sign_of_value(recognized(s, max_digits)) == (is_literal(s) && is_negative(s)),
{
}

/// Recognizes a number from scientific notation. The coefficient of a finite
/// number holds the first `max_digits` significant digits of the text.
pub fn recognize(input: &str, max_digits: usize) -> (v: Value)
    requires
        max_digits <= MAX_LIMIT,
    ensures
        v == recognized(input.spec_bytes(), max_digits as nat),
{
    let bytes = input.as_bytes();
    let token = scan(bytes, max_digits);
    proof {
        let s = bytes@;
        let ds = mantissa_digits(s);
        lemma_mantissa_digits(s);
        lemma_kept_value_bound(ds, max_digits as nat);
        lemma_significant_digits(ds);
        assert(s.len() == bytes.len());
    }
    evaluate(token)
}

/// The carry that rounding in the given mode adds to a coefficient with the
/// given sign and excess.
pub open spec fn carry(coefficient: u128, excess: Excess, sign: bool, mode: Rounding) -> bool {
    match mode {
        Rounding::ToNearest => excess.first > 5 || (excess.first == 5 && (excess.tail || coefficient
            % 2 == 1)),
        Rounding::Down => sign && excess.spec_is_nonzero(),
        Rounding::Up => !sign && excess.spec_is_nonzero(),
        Rounding::ToZero => false,
        Rounding::TiesAway => excess.first >= 5,
    }
}

/// The coefficient after rounding in the given mode, and whether it is
/// inexact. A coefficient without excess is exact and stays as it is.
pub open spec fn rounded(coefficient: u128, excess: Option<Excess>, sign: bool, mode: Rounding) -> (
    nat,
    bool,
) {
    match excess {
        Some(x) => (
            if carry(coefficient, x, sign, mode) {
                (coefficient + 1) as nat
            } else {
                coefficient as nat
            },
            x.spec_is_nonzero(),
        ),
        None => (coefficient as nat, false),
    }
}

/// Rounds a coefficient whose literal had the given excess of digits. Returns
/// the coefficient with the carry added, the exponent as it was, and whether
/// the result is inexact, which it is when a digit of the excess is nonzero.
pub fn round(coefficient: u128, exponent: i32, excess: Excess, sign: bool, mode: Rounding) -> (r: (
    u128,
    i32,
    bool,
))
    requires
        coefficient < u128::MAX,
    ensures
        r.0 == rounded(coefficient, Some(excess), sign, mode).0,
        r.1 == exponent,
        r.2 == rounded(coefficient, Some(excess), sign, mode).1,
{
    let up = match mode {
        Rounding::ToNearest => excess.first > 5 || (excess.first == 5 && (excess.tail || coefficient
            % 2 == 1)),
        Rounding::Down => sign && excess.is_nonzero(),
        Rounding::Up => !sign && excess.is_nonzero(),
        Rounding::ToZero => false,
        Rounding::TiesAway => excess.first >= 5,
    };
    let result = if up {
        coefficient + 1
    } else {
        coefficient
    };
    (result, exponent, excess.is_nonzero())
}

/// Ties go to even: when the first dropped digit is a 5 and nothing but
/// zeros follows it, rounding to nearest adds a carry exactly when the last
/// kept digit is odd.
pub proof fn lemma_ties_to_even(coefficient: u128, sign: bool)
    ensures
        carry(coefficient, Excess { first: 5, tail: false }, sign, Rounding::ToNearest) == (
        coefficient % 10 % 2 == 1),
{
    assert(coefficient % 10 % 2 == coefficient % 2) by (nonlinear_arith);
}

} // verus!
