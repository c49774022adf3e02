//! Common definitions: the states of the scanner, the bytes a literal is
//! made of, and the arithmetic of decimal digit sequences.

use vstd::prelude::*;

verus! {

/// States of the finite state machine that scans a literal.
///
/// The `Inf..` and `Nan..` states are named after the position and the
/// letter that the machine expects next: `Inf3f` waits for the third letter
/// of `infinity`, an `f`.
#[derive(Clone, Copy, Debug, PartialEq, Eq)]
pub enum State {
    BeginNumber,
    LeadingZeros,
    DigitsBefore,
    DigitsAfter,
    ExponentSign,
    ExponentLeadingZeros,
    ExponentDigits,
    Inf2n,
    Inf3f,
    Inf4i,
    Inf5n,
    Inf6i,
    Inf7t,
    Inf8y,
    Nan1n,
    Nan2a,
    Nan3n,
}

/// The byte `0`.
pub const ZERO: u8 = 0x30;

/// The byte `9`.
pub const NINE: u8 = 0x39;

/// The byte `+`.
pub const PLUS: u8 = 0x2b;

/// The byte `-`.
pub const MINUS: u8 = 0x2d;

/// The byte `.`.
pub const POINT: u8 = 0x2e;

/// The byte `a`.
pub const LETTER_A: u8 = 0x61;

/// The byte `e`.
pub const LETTER_E: u8 = 0x65;

/// The byte `f`.
pub const LETTER_F: u8 = 0x66;

/// The byte `i`.
pub const LETTER_I: u8 = 0x69;

/// The byte `n`.
pub const LETTER_N: u8 = 0x6e;

/// The byte `s`.
pub const LETTER_S: u8 = 0x73;

/// The byte `t`.
pub const LETTER_T: u8 = 0x74;

/// The byte `y`.
pub const LETTER_Y: u8 = 0x79;

/// Largest value of an `i32`, as a mathematical integer.
pub open spec fn i32_max() -> int {
    0x7fff_ffff
}

/// Smallest value of an `i32`, as a mathematical integer.
pub open spec fn i32_min() -> int {
    -0x8000_0000
}

/// `v` brought into the range of an `i32`.
pub open spec fn clamp_i32(v: int) -> int {
    if v > i32_max() {
        i32_max()
    } else if v < i32_min() {
        i32_min()
    } else {
        v
    }
}

/// `b` is one of the bytes `0` to `9`.
pub open spec fn spec_is_digit(b: u8) -> bool {
    ZERO <= b <= NINE
}

/// `b` is `+` or `-`.
pub open spec fn spec_is_sign(b: u8) -> bool {
    b == PLUS || b == MINUS
}

/// `b` is the lower-case letter `lower` or its upper-case form.
pub open spec fn spec_is_letter(b: u8, lower: u8) -> bool {
    b == lower || b + 0x20 == lower
}

/// The number that the digit `b` stands for.
pub open spec fn digit_value(b: u8) -> nat
    recommends
        spec_is_digit(b),
{
    (b - ZERO) as nat
}

/// Every byte of `ds` is a digit.
pub open spec fn all_digits(ds: Seq<u8>) -> bool {
    forall|i: int| 0 <= i < ds.len() ==> spec_is_digit(#[trigger] ds[i])
}

/// The number that the digit sequence `ds` denotes in base ten, most
/// significant digit first. The empty sequence denotes zero.
pub open spec fn digits_value(ds: Seq<u8>) -> nat
    decreases ds.len(),
{
    if ds.len() == 0 {
        0
    } else {
        digits_value(ds.drop_last()) * 10 + digit_value(ds.last())
    }
}

/// Ten to the power `n`.
pub open spec fn pow10(n: nat) -> nat
    decreases n,
{
    if n == 0 {
        1
    } else {
        10 * pow10((n - 1) as nat)
    }
}

/// Tests whether `b` is a decimal digit.
#[verifier::when_used_as_spec(spec_is_digit)]
pub fn is_digit(b: u8) -> (r: bool)
    ensures
        r == spec_is_digit(b),
{
    ZERO <= b && b <= NINE
}

/// Tests whether `b` is a sign.
#[verifier::when_used_as_spec(spec_is_sign)]
pub fn is_sign(b: u8) -> (r: bool)
    ensures
        r == spec_is_sign(b),
{
    b == PLUS || b == MINUS
}

/// Tests whether `b` is the letter `lower`, in either case.
#[verifier::when_used_as_spec(spec_is_letter)]
pub fn is_letter(b: u8, lower: u8) -> (r: bool)
    ensures
        r == spec_is_letter(b, lower),
{
    b == lower || (b <= 0xff - 0x20 && b + 0x20 == lower)
}

/// Multiplies the value by 10 and adds the number represented by a digit.
pub fn mul_add(v: u128, c: u8) -> (r: u128)
    requires
        spec_is_digit(c),
        v * 10 + digit_value(c) <= u128::MAX,
    ensures
        r == v * 10 + digit_value(c),
{
    v * 10 + ((c - ZERO) as u128)
}

/// Appends the digit `c` to a non-negative exponent, saturating at the
/// largest `i32`.
pub fn update_exponent(v: i32, c: u8) -> (r: i32)
    requires
        0 <= v,
        spec_is_digit(c),
    ensures
        r == clamp_i32(v * 10 + digit_value(c)),
{
    let d: i32 = (c - ZERO) as i32;
    if v > (i32::MAX - d) / 10 {
        i32::MAX
    } else {
        v * 10 + d
    }
}

/// Adds two exponents, saturating at the bounds of an `i32`.
pub fn saturating_add(a: i32, b: i32) -> (r: i32)
    ensures
        r == clamp_i32(a + b),
{
    let wide: i64 = a as i64 + b as i64;
    if wide > i32::MAX as i64 {
        i32::MAX
    } else if wide < i32::MIN as i64 {
        i32::MIN
    } else {
        wide as i32
    }
}

/// Appending a digit multiplies the value by ten and adds the digit.
pub proof fn lemma_digits_value_push(ds: Seq<u8>, d: u8)
    ensures
        digits_value(ds.push(d)) == digits_value(ds) * 10 + digit_value(d),
{
    assert(ds.push(d).drop_last() =~= ds);
}

/// A sequence of `n` digits denotes a number below ten to the `n`.
pub proof fn lemma_digits_value_bound(ds: Seq<u8>)
    requires
        all_digits(ds),
    ensures
        digits_value(ds) < pow10(ds.len()),
    decreases ds.len(),
{
    if ds.len() > 0 {
        lemma_digits_value_bound(ds.drop_last());
        assert(spec_is_digit(ds.last()));
    }
}

/// Powers of ten grow with the exponent.
pub proof fn lemma_pow10_increases(m: nat, n: nat)
    requires
        m <= n,
    ensures
        0 < pow10(m) <= pow10(n),
    decreases n,
{
    if n == 0 {
    } else if m == n {
        lemma_pow10_increases((m - 1) as nat, (n - 1) as nat);
    } else {
        lemma_pow10_increases(m, (n - 1) as nat);
    }
}

/// Ten to the sum of two exponents is the product of the two powers.
pub proof fn lemma_pow10_adds(m: nat, n: nat)
    ensures
        pow10(m + n) == pow10(m) * pow10(n),
    decreases m,
{
    if m == 0 {
        assert(pow10(0) == 1);
        assert(1 * pow10(n) == pow10(n));
    } else {
        lemma_pow10_adds((m - 1) as nat, n);
        assert(pow10(m + n) == 10 * pow10((m - 1 + n) as nat));
        assert(10 * (pow10((m - 1) as nat) * pow10(n)) == (10 * pow10((m - 1) as nat)) * pow10(n))
            by (nonlinear_arith);
    }
}

/// The powers of ten that bound a coefficient of 34 and of 38 digits.
pub proof fn lemma_pow10_values()
    ensures
        pow10(33) == 1_000_000_000_000_000_000_000_000_000_000_000,
        pow10(34) == 10_000_000_000_000_000_000_000_000_000_000_000,
        pow10(38) == 100_000_000_000_000_000_000_000_000_000_000_000_000,
{
    reveal_with_fuel(pow10, 40);
}

} // verus!
