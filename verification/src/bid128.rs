//! # Number parser for 128-bit floating-point decimals.
//!
//! A 128-bit decimal in binary integer format holds, from the top bit down,
//! the sign, a biased exponent of 14 bits and a coefficient of 113 bits. Read
//! as one number of 128 bits, a finite decimal is therefore
//! `sign * 2^127 + (exponent + 6176) * 2^113 + coefficient`.

use vstd::prelude::*;
use vstd::string::StringSliceAdditionalSpecFns;
use crate::common::{lemma_pow10_adds, lemma_pow10_increases, lemma_pow10_values, pow10};
use crate::grammar::{is_literal, is_negative};
use crate::recognizer::{
    lemma_recognized_bound, recognize, recognized, round, rounded, Rounding, Value, FLAG_INEXACT,
    FLAG_OVERFLOW, FLAG_UNDERFLOW,
};

verus! {

/// 128-bit decimal in binary format: `w[0]` is the low word, `w[1]` the high
/// one.
#[derive(Clone, Copy, Debug, PartialEq, Eq)]
pub struct Bid128 {
    pub w: [u64; 2],
}

/// The bias of the exponent.
pub const BID128_BIAS: i32 = 6176;

/// The largest exponent of a number written with one digit before the point.
pub const BID128_EMAX: i32 = 6144;

/// The number of digits of a coefficient.
pub const BID128_MAX_DIGITS: i32 = 34;

/// The largest coefficient: 34 nines.
pub const MAX_COEFFICIENT: u128 = 9999999999999999999999999999999999;

/// The largest exponent of a coefficient.
pub const MAX_EXPONENT: i32 = BID128_EMAX - BID128_MAX_DIGITS + 1;

/// The smallest exponent of a coefficient.
pub const MIN_EXPONENT: i32 = -BID128_BIAS;

/// The exponent below which a zero is flagged as an underflow.
pub const MIN_ZERO_EXPONENT: i32 = -(BID128_BIAS + BID128_MAX_DIGITS);

/// Two to the 64: the weight of the high word.
pub const HIGH_WORD: u128 = 0x1_0000_0000_0000_0000;

/// Two to the 113: the weight of the exponent field.
pub const EXPONENT_UNIT: u128 = 0x2_0000_0000_0000_0000_0000_0000_0000;

/// Two to the 125: the weight of the two bits that tell a finite number from
/// the special values.
pub const SPECIAL_UNIT: u128 = 0x2000_0000_0000_0000_0000_0000_0000_0000;

/// Two to the 127: the sign bit.
pub const SIGN_BIT: u128 = 0x8000_0000_0000_0000_0000_0000_0000_0000;

/// The bits of the positive infinity.
pub const INFINITY_BITS: u128 = 0x7800_0000_0000_0000_0000_0000_0000_0000;

/// The bits of the positive quiet NaN.
pub const NAN_BITS: u128 = 0x7c00_0000_0000_0000_0000_0000_0000_0000;

/// The bits of the positive signaling NaN.
pub const SNAN_BITS: u128 = 0x7e00_0000_0000_0000_0000_0000_0000_0000;

impl View for Bid128 {
    type V = nat;

    /// The two words as one number of 128 bits.
    open spec fn view(&self) -> nat {
        (self.w[1] * HIGH_WORD + self.w[0]) as nat
    }
}

/// The sign bit of a negative number, nothing of another.
pub open spec fn sign_bits(sign: bool) -> nat {
    if sign {
        SIGN_BIT as nat
    } else {
        0
    }
}

/// The bits of the finite number with the given sign, coefficient and
/// exponent.
pub open spec fn finite_bits(sign: bool, coefficient: nat, exponent: int) -> nat
    recommends
        coefficient <= MAX_COEFFICIENT,
        MIN_EXPONENT <= exponent <= MAX_EXPONENT,
{
    (sign_bits(sign) + (exponent + BID128_BIAS) * EXPONENT_UNIT + coefficient) as nat
}

/// The bits of the infinity with the given sign.
pub open spec fn infinity_bits(sign: bool) -> nat {
    sign_bits(sign) + INFINITY_BITS as nat
}

/// The bits of the NaN with the given sign, quiet or signaling.
pub open spec fn nan_bits(sign: bool, signaling: bool) -> nat {
    sign_bits(sign) + if signaling {
        SNAN_BITS as nat
    } else {
        NAN_BITS as nat
    }
}

/// How a coefficient and an exponent fit the format.
pub enum Fit {
    /// They stand for the same value as the given pair, which is in range.
    Exact { coefficient: nat, exponent: int },
    /// The value is too large.
    Overflow,
    /// The value is too small.
    Underflow,
}

/// Brings a coefficient and an exponent into the range of the format.
///
/// A zero keeps the nearest exponent that is in range; its exponent counts as
/// too small only below `MIN_ZERO_EXPONENT`. A coefficient of 35 digits gives
/// its last digit to the exponent. An exponent that is too large by `k` is
/// brought down by scaling the coefficient up by ten to the `k`, if the
/// coefficient stays in range; one that is too small by `k` is brought up by
/// scaling the coefficient down by ten to the `k`, if that divides it.
pub open spec fn fit(coefficient: nat, exponent: int) -> Fit {
    if coefficient == 0 {
        if exponent < MIN_ZERO_EXPONENT {
            Fit::Underflow
        } else if exponent < MIN_EXPONENT {
            Fit::Exact { coefficient: 0, exponent: MIN_EXPONENT as int }
        } else if exponent > MAX_EXPONENT {
            Fit::Exact { coefficient: 0, exponent: MAX_EXPONENT as int }
        } else {
            Fit::Exact { coefficient: 0, exponent }
        }
    } else {
        let (c, e) = if coefficient > MAX_COEFFICIENT {
            (coefficient / 10, exponent + 1)
        } else {
            (coefficient, exponent)
        };
        if e > MAX_EXPONENT {
            let scale = pow10((e - MAX_EXPONENT) as nat);
            if c * scale <= MAX_COEFFICIENT {
                Fit::Exact { coefficient: c * scale, exponent: MAX_EXPONENT as int }
            } else {
                Fit::Overflow
            }
        } else if e < MIN_EXPONENT {
            let scale = pow10((MIN_EXPONENT - e) as nat);
            if c % scale == 0 {
                Fit::Exact { coefficient: c / scale, exponent: MIN_EXPONENT as int }
            } else {
                Fit::Underflow
            }
        } else {
            Fit::Exact { coefficient: c, exponent: e }
        }
    }
}

/// The bits that encode a finite number: those of the fitted coefficient and
/// exponent, of the infinity on overflow, of the zero with the smallest
/// exponent on underflow, each with the sign of the number.
pub open spec fn encoded(sign: bool, coefficient: nat, exponent: int) -> nat {
    match fit(coefficient, exponent) {
        Fit::Exact { coefficient, exponent } => finite_bits(sign, coefficient, exponent),
        Fit::Overflow => infinity_bits(sign),
        Fit::Underflow => sign_bits(sign),
    }
}

/// The status flags that encoding a finite number raises: none if it fits,
/// else inexact with overflow or with underflow.
pub open spec fn raised(coefficient: nat, exponent: int) -> u32 {
    match fit(coefficient, exponent) {
        Fit::Exact { .. } => 0,
        Fit::Overflow => (FLAG_OVERFLOW + FLAG_INEXACT) as u32,
        Fit::Underflow => (FLAG_UNDERFLOW + FLAG_INEXACT) as u32,
    }
}

/// The status flags of a conversion that rounded a number, exactly or not,
/// and encoded it.
pub open spec fn status(inexact: bool, coefficient: nat, exponent: int) -> u32 {
    match fit(coefficient, exponent) {
        Fit::Exact { .. } => if inexact {
            FLAG_INEXACT
        } else {
            0
        },
        _ => raised(coefficient, exponent),
    }
}

/// The bits are those of a finite number with its coefficient in 113 bits:
/// the two bits below the sign are not both set, as they are in an infinity,
/// in a NaN and in the forms that imply leading bits of the coefficient.
pub open spec fn is_finite_bits(bits: nat) -> bool {
    (bits % (SIGN_BIT as nat)) / (SPECIAL_UNIT as nat) != 3
}

/// The sign that the bits hold.
pub open spec fn sign_of(bits: nat) -> bool {
    bits >= SIGN_BIT
}

/// The coefficient that the bits of a finite number hold.
pub open spec fn coefficient_of(bits: nat) -> nat {
    bits % (EXPONENT_UNIT as nat)
}

/// The exponent that the bits of a finite number hold.
pub open spec fn exponent_of(bits: nat) -> int {
    (bits % (SIGN_BIT as nat)) / (EXPONENT_UNIT as nat) - BID128_BIAS
}

/// A decimal is its bits: two decimals with the same bits are the same.
pub proof fn lemma_bits_injective(a: Bid128, b: Bid128)
    requires
        a@ == b@,
    ensures
        a == b,
{
    assert(a.w[0] == b.w[0] && a.w[1] == b.w[1]);
    assert(a.w =~= b.w);
}

impl Bid128 {
    /// Packs a sign, the 14 bits of an exponent field and a coefficient of at
    /// most 113 bits.
    fn pack(sign: bool, field: u64, coefficient: u128) -> (r: Bid128)
        requires
            field < 0x4000,
            coefficient < EXPONENT_UNIT,
        ensures
            r@ == sign_bits(sign) + field * EXPONENT_UNIT + coefficient,
    {
        let s: u64 = if sign {
            0x8000_0000_0000_0000
        } else {
            0
        };
        let low: u64 = coefficient as u64;
        let top: u64 = (coefficient >> 64) as u64;
        let high: u64 = top | field << 49 | s;
        assert(low == coefficient % 0x1_0000_0000_0000_0000 && top == coefficient
            / 0x1_0000_0000_0000_0000 && top < 0x2_0000_0000_0000) by (bit_vector)
            requires
                low == coefficient as u64,
                top == (coefficient >> 64) as u64,
                coefficient < 0x2_0000_0000_0000_0000_0000_0000_0000u128,
        ;
        assert(high == top + field * 0x2_0000_0000_0000 + s) by (bit_vector)
            requires
                high == top | field << 49 | s,
                top < 0x2_0000_0000_0000u64,
                field < 0x4000u64,
                s == 0x8000_0000_0000_0000u64 || s == 0u64,
        ;
        Bid128 { w: [low, high] }
    }

    /// The infinity with the given sign.
    pub fn infinity(sign: bool) -> (r: Bid128)
        ensures
            r@ == infinity_bits(sign),
    {
        if sign {
            Bid128 { w: [0, 0xf800_0000_0000_0000] }
        } else {
            Bid128 { w: [0, 0x7800_0000_0000_0000] }
        }
    }

    /// The NaN with the given sign, quiet or signaling.
    pub fn nan(sign: bool, signaling: bool) -> (r: Bid128)
        ensures
            r@ == nan_bits(sign, signaling),
    {
        let high: u64 = if sign {
            if signaling {
                0xfe00_0000_0000_0000
            } else {
                0xfc00_0000_0000_0000
            }
        } else {
            if signaling {
                0x7e00_0000_0000_0000
            } else {
                0x7c00_0000_0000_0000
            }
        };
        Bid128 { w: [0, high] }
    }

    /// The sign, coefficient and exponent that the fields of a finite number
    /// hold; nothing of an infinity, of a NaN or of a form that implies
    /// leading bits of the coefficient.
    pub fn unpack(&self) -> (r: Option<(bool, u128, i32)>)
        ensures
            r == if is_finite_bits(self@) {
                Some((sign_of(self@), coefficient_of(self@) as u128, exponent_of(self@) as i32))
            } else {
                None::<(bool, u128, i32)>
            },
    {
        let low: u64 = self.w[0];
        let high: u64 = self.w[1];
        let special: u64 = (high >> 61) & 3;
        let sign: bool = (high >> 63) == 1;
        let field: u64 = (high >> 49) & 0x3fff;
        let top: u64 = high & 0x1_ffff_ffff_ffff;
        let coefficient: u128 = ((top as u128) << 64) | (low as u128);
        assert(special == (high % 0x8000_0000_0000_0000) / 0x2000_0000_0000_0000 && sign == (high
            >= 0x8000_0000_0000_0000) && field == (high % 0x8000_0000_0000_0000)
            / 0x2_0000_0000_0000 && top == high % 0x2_0000_0000_0000) by (bit_vector)
            requires
                special == (high >> 61) & 3,
                sign == ((high >> 63) == 1),
                field == (high >> 49) & 0x3fff,
                top == high & 0x1_ffff_ffff_ffff,
        ;
        assert(coefficient == top * 0x1_0000_0000_0000_0000 + low) by (bit_vector)
            requires
                coefficient == ((top as u128) << 64) | (low as u128),
                top < 0x2_0000_0000_0000u64,
        ;
        assert(field < 0x4000);
        if special == 3 {
            None
        } else {
            Some((sign, coefficient, field as i32 - BID128_BIAS))
        }
    }
}

/// Scaling up by a larger power of ten overflows if scaling up by a smaller
/// one does.
proof fn lemma_scale_up_overflows(c: nat, j: nat, k: nat)
    requires
        j <= k,
        c * pow10(j) > MAX_COEFFICIENT,
    ensures
        c * pow10(k) > MAX_COEFFICIENT,
{
    lemma_pow10_increases(j, k);
    assert(c * pow10(j) <= c * pow10(k)) by (nonlinear_arith)
        requires
            pow10(j) <= pow10(k),
    ;
}

/// A number that ten to the `j` divides, with a quotient that ten does not
/// divide, is not divided by a higher power of ten.
proof fn lemma_scale_down_fails(whole: nat, c: nat, j: nat, k: nat)
    requires
        c * pow10(j) == whole,
        j < k,
        c % 10 != 0,
    ensures
        whole % pow10(k) != 0,
{
    let low = pow10(j);
    let high = pow10((k - j - 1) as nat);
    lemma_pow10_increases(0, j);
    lemma_pow10_increases(0, (k - j - 1) as nat);
    lemma_pow10_increases(0, k);
    lemma_pow10_adds(j, (k - j) as nat);
    assert(pow10((k - j) as nat) == 10 * high);
    assert(pow10(k) == low * (10 * high));
    if whole % pow10(k) == 0 {
        let q = whole / pow10(k);
        assert(whole == pow10(k) * q) by (nonlinear_arith)
            requires
                whole % pow10(k) == 0,
                q == whole / pow10(k),
                pow10(k) > 0,
        ;
        assert(c == 10 * (high * q)) by (nonlinear_arith)
            requires
                c * low == whole,
                whole == (low * (10 * high)) * q,
                low > 0,
        ;
        assert(c % 10 == 0) by (nonlinear_arith)
            requires
                c == 10 * (high * q),
        ;
    }
}

/// A multiple of a power of ten is divided by it, and the quotient is the
/// other factor.
proof fn lemma_scale_down_exact(whole: nat, c: nat, k: nat)
    requires
        c * pow10(k) == whole,
    ensures
        whole % pow10(k) == 0,
        whole / pow10(k) == c,
{
    lemma_pow10_increases(0, k);
    let p = pow10(k);
    assert(whole % p == 0 && whole / p == c) by (nonlinear_arith)
        requires
            c * p == whole,
            p > 0,
    ;
}

/// Encodes the finite number with the given sign, coefficient and exponent,
/// and adds the flags that this raises to `flags`.
///
/// A coefficient and an exponent that fit the format, as they are or after
/// scaling the coefficient by a power of ten, are packed into their fields.
/// A number that is too large gives the infinity and raises overflow and
/// inexact; one that is too small gives the zero with the smallest exponent
/// and raises underflow and inexact. The sign is kept in each case.
pub fn encode(sign: bool, coefficient: u128, exponent: i32, flags: u32) -> (r: (Bid128, u32))
    requires
        coefficient <= MAX_COEFFICIENT + 1,
    ensures
        r.0@ == encoded(sign, coefficient as nat, exponent as int),
        r.1 == flags | raised(coefficient as nat, exponent as int),
{
    assert(flags | 0 == flags) by (bit_vector);
    assert(FLAG_OVERFLOW | FLAG_INEXACT == 0x28 && FLAG_UNDERFLOW | FLAG_INEXACT == 0x30)
        by (bit_vector);
    if coefficient == 0 {
        if exponent < MIN_ZERO_EXPONENT {
            return (Bid128::pack(sign, 0, 0), flags | (FLAG_UNDERFLOW | FLAG_INEXACT));
        }
        let clamped: i32 = if exponent < MIN_EXPONENT {
            MIN_EXPONENT
        } else if exponent > MAX_EXPONENT {
            MAX_EXPONENT
        } else {
            exponent
        };
        return (Bid128::pack(sign, (clamped + BID128_BIAS) as u64, 0), flags);
    }
    let mut c: u128 = coefficient;
    let mut e: i64 = exponent as i64;
    if c > MAX_COEFFICIENT {
        // a carry has made a 35th digit, which is a zero
        c = c / 10;
        e = e + 1;
    }
    let ghost c0 = c as nat;
    let ghost e0 = e as int;
    if e > MAX_EXPONENT as i64 {
        // try to normalize before reporting an overflow
        assert(pow10(0) == 1);
        assert(c0 * 1 == c0);
        while e > MAX_EXPONENT as i64 && c <= MAX_COEFFICIENT / 10
            invariant
                1 <= c <= MAX_COEFFICIENT,
                MAX_EXPONENT <= e <= e0,
                c == c0 * pow10((e0 - e) as nat),
            decreases e,
        {
            proof {
                let p = pow10((e0 - e) as nat);
                assert(pow10((e0 - e + 1) as nat) == 10 * p);
                assert(c0 * (10 * p) == (c0 * p) * 10) by (nonlinear_arith);
            }
            c = c * 10;
            e = e - 1;
        }
        if e > MAX_EXPONENT as i64 {
            proof {
                let p = pow10((e0 - e) as nat);
                assert(pow10((e0 - e + 1) as nat) == 10 * p);
                assert(c0 * (10 * p) == (c0 * p) * 10) by (nonlinear_arith);
                lemma_scale_up_overflows(c0, (e0 - e + 1) as nat, (e0 - MAX_EXPONENT) as nat);
            }
            return (Bid128::infinity(sign), flags | (FLAG_OVERFLOW | FLAG_INEXACT));
        }
    } else if e < MIN_EXPONENT as i64 {
        // try to normalize before reporting an underflow
        assert(pow10(0) == 1);
        assert(c0 * 1 == c0);
        while e < MIN_EXPONENT as i64 && c % 10 == 0
            invariant
                1 <= c <= MAX_COEFFICIENT,
                e0 <= e <= MIN_EXPONENT,
                c * pow10((e - e0) as nat) == c0,
            decreases MIN_EXPONENT - e,
        {
            proof {
                let p = pow10((e - e0) as nat);
                assert(pow10((e - e0 + 1) as nat) == 10 * p);
                assert((c / 10) * (10 * p) == c * p) by (nonlinear_arith)
                    requires
                        c % 10 == 0,
                ;
            }
            c = c / 10;
            e = e + 1;
        }
        if e < MIN_EXPONENT as i64 {
            proof {
                lemma_scale_down_fails(c0, c as nat, (e - e0) as nat, (MIN_EXPONENT - e0) as nat);
            }
            return (Bid128::pack(sign, 0, 0), flags | (FLAG_UNDERFLOW | FLAG_INEXACT));
        }
        proof {
            lemma_scale_down_exact(c0, c as nat, (MIN_EXPONENT - e0) as nat);
        }
    }
    (Bid128::pack(sign, (e + BID128_BIAS as i64) as u64, c), flags)
}

/// The bits and the status flags of the decimal that the text `s` denotes,
/// rounded in the given mode: the text is recognized with a coefficient of 34
/// digits, a finite number is rounded and encoded, and an infinity or a NaN
/// has its own bits and no flags.
pub open spec fn converted(s: Seq<u8>, mode: Rounding) -> (nat, u32) {
    match recognized(s, BID128_MAX_DIGITS as nat) {
        Value::Finite(sign, coefficient, excess, exponent) => {
            let (c, inexact) = rounded(coefficient, excess, sign, mode);
            (encoded(sign, c, exponent as int), status(inexact, c, exponent as int))
        },
        Value::Infinity(sign) => (infinity_bits(sign), 0u32),
        Value::NaN(sign, signaling) => (nan_bits(sign, signaling), 0u32),
    }
}

/// Parses a 128-bit floating-point decimal from text in scientific notation,
/// rounding in the given mode. Returns the decimal and the status flags.
pub fn bid128_from_string_rnd(input: &str, rnd: Rounding) -> (r: (Bid128, u32))
    ensures
        r.0@ == converted(input.spec_bytes(), rnd).0,
        r.1 == converted(input.spec_bytes(), rnd).1,
{
    proof {
        lemma_recognized_bound(input.spec_bytes(), BID128_MAX_DIGITS as nat);
        lemma_pow10_values();
    }
    match recognize(input, BID128_MAX_DIGITS as usize) {
        Value::Finite(sign, coefficient, excess, exponent) => {
            let (c, e, inexact) = match excess {
                Some(x) => round(coefficient, exponent, x, sign, rnd),
                None => (coefficient, exponent, false),
            };
            let flags: u32 = if inexact {
                FLAG_INEXACT
            } else {
                0
            };
            assert(0x20u32 | 0 == 0x20 && 0x20u32 | 0x28 == 0x28 && 0x20u32 | 0x30 == 0x30 && 0u32
                | 0 == 0 && 0u32 | 0x28 == 0x28 && 0u32 | 0x30 == 0x30) by (bit_vector);
            encode(sign, c, e, flags)
        },
        Value::Infinity(sign) => (Bid128::infinity(sign), 0),
        Value::NaN(sign, signaling) => (Bid128::nan(sign, signaling), 0),
    }
}

/// Parses a 128-bit floating-point decimal from text in scientific notation,
/// rounding to the nearest value, ties to even.
pub fn bid128_from_string(input: &str) -> (r: (Bid128, u32))
    ensures
        r.0@ == converted(input.spec_bytes(), Rounding::ToNearest).0,
        r.1 == converted(input.spec_bytes(), Rounding::ToNearest).1,
{
    bid128_from_string_rnd(input, Rounding::ToNearest)
}

/// Encoding a second time changes nothing: the sign, coefficient and
/// exponent that the bits of an encoded finite number hold are in range, and
/// encode to the same bits without raising a flag.
pub proof fn lemma_encode_idempotent(sign: bool, coefficient: nat, exponent: int)
    requires
        coefficient <= MAX_COEFFICIENT + 1,
    ensures
        ({
            let bits = encoded(sign, coefficient, exponent);
            is_finite_bits(bits) ==> {
                &&& sign_of(bits) == sign
                &&& coefficient_of(bits) <= MAX_COEFFICIENT
                &&& MIN_EXPONENT <= exponent_of(bits) <= MAX_EXPONENT
                &&& encoded(sign_of(bits), coefficient_of(bits), exponent_of(bits)) == bits
                &&& raised(coefficient_of(bits), exponent_of(bits)) == 0
            }
        }),
{
    lemma_fit_in_range(coefficient, exponent);
    match fit(coefficient, exponent) {
        Fit::Exact { coefficient: c, exponent: e } => {
            lemma_finite_bits(sign, c, e);
        },
        Fit::Overflow => {},
        Fit::Underflow => {
            lemma_finite_bits(sign, 0, MIN_EXPONENT as int);
        },
    }
}

/// What was fitted is in range.
pub proof fn lemma_fit_in_range(coefficient: nat, exponent: int)
    requires
        coefficient <= MAX_COEFFICIENT + 1,
    ensures
        fit(coefficient, exponent) matches Fit::Exact { coefficient: c, exponent: e } ==> c
            <= MAX_COEFFICIENT && MIN_EXPONENT <= e <= MAX_EXPONENT,
{
    if coefficient != 0 {
        let (c, e) = if coefficient > MAX_COEFFICIENT {
            (coefficient / 10, exponent + 1)
        } else {
            (coefficient, exponent)
        };
        if e < MIN_EXPONENT {
            let scale = pow10((MIN_EXPONENT - e) as nat);
            lemma_pow10_increases(0, (MIN_EXPONENT - e) as nat);
            assert(c / scale <= c) by (nonlinear_arith)
                requires
                    scale > 0,
            ;
        }
    }
}

/// The fields of the bits of a finite number in range are its sign, its
/// coefficient and its exponent.
pub proof fn lemma_finite_bits(sign: bool, coefficient: nat, exponent: int)
    requires
        coefficient <= MAX_COEFFICIENT,
        MIN_EXPONENT <= exponent <= MAX_EXPONENT,
    ensures
        is_finite_bits(finite_bits(sign, coefficient, exponent)),
        sign_of(finite_bits(sign, coefficient, exponent)) == sign,
        coefficient_of(finite_bits(sign, coefficient, exponent)) == coefficient,
        exponent_of(finite_bits(sign, coefficient, exponent)) == exponent,
        fit(coefficient, exponent) == (Fit::Exact { coefficient, exponent }),
{
    let field = exponent + BID128_BIAS;
    let rest = field * EXPONENT_UNIT + coefficient;
    assert(0 <= rest < SIGN_BIT);
    assert(rest / (EXPONENT_UNIT as int) == field);
    assert(rest % (EXPONENT_UNIT as int) == coefficient);
    assert(rest / (SPECIAL_UNIT as int) <= 2);
}

/// The decimal of a text encodes itself: where it is finite, the sign,
/// coefficient and exponent that its bits hold encode to the same bits.
pub proof fn lemma_round_trip(s: Seq<u8>, mode: Rounding)
    ensures
        ({
            let bits = converted(s, mode).0;
            is_finite_bits(bits) ==> encoded(sign_of(bits), coefficient_of(bits), exponent_of(bits))
                == bits
        }),
{
    lemma_recognized_bound(s, BID128_MAX_DIGITS as nat);
    lemma_pow10_values();
    match recognized(s, BID128_MAX_DIGITS as nat) {
        Value::Finite(sign, coefficient, excess, exponent) => {
            let c = rounded(coefficient, excess, sign, mode).0;
            lemma_encode_idempotent(sign, c, exponent as int);
        },
        _ => {},
    }
}

/// The sign is kept: the decimal of a literal is negative exactly when the
/// literal begins with a minus sign, be it finite, rounded to zero or to an
/// infinity, an infinity or a NaN. A text that is no literal gives a decimal
/// without sign.
pub proof fn lemma_sign_preserved(s: Seq<u8>, mode: Rounding)
    ensures
        sign_of(converted(s, mode).0) == (is_literal(s) && is_negative(s)),
{
    lemma_recognized_bound(s, BID128_MAX_DIGITS as nat);
    lemma_pow10_values();
    match recognized(s, BID128_MAX_DIGITS as nat) {
        Value::Finite(sign, coefficient, excess, exponent) => {
            let c = rounded(coefficient, excess, sign, mode).0;
            lemma_fit_in_range(c, exponent as int);
            match fit(c, exponent as int) {
                Fit::Exact { coefficient: c2, exponent: e2 } => {
                    lemma_finite_bits(sign, c2, e2);
                },
                _ => {},
            }
        },
        _ => {},
    }
}

} // verus!
