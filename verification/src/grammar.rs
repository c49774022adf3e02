//! The syntax of a literal, stated over the bytes of the text.
//!
//! A finite literal is an optional sign, a mantissa and an optional exponent:
//!
//! ```text
//! ["+"|"-"] ( digits ["." digits] | "." digits ) [("e"|"E") ["+"|"-"] digits]
//! ```
//!
//! A point that is the very last byte of the text, after at least one digit,
//! counts as a point followed by a single `0`. An infinity is an optional sign
//! and `inf` or `infinity`; a NaN is an optional sign, an optional `s` and
//! `nan`. Letters match in either case. Everything else is no literal.

use vstd::prelude::*;
use crate::common::{
    all_digits, digits_value, i32_max, spec_is_digit, spec_is_letter, spec_is_sign, LETTER_A,
    LETTER_E, LETTER_F, LETTER_I, LETTER_N, LETTER_S, LETTER_T, LETTER_Y, MINUS, POINT, ZERO,
};

verus! {

/// 1 if the byte at `at` is a sign, else 0.
pub open spec fn sign_len(s: Seq<u8>, at: int) -> int {
    if 0 <= at < s.len() && spec_is_sign(s[at]) {
        1
    } else {
        0
    }
}

/// The byte at `at` exists and is `byte`.
pub open spec fn has_byte(s: Seq<u8>, at: int, byte: u8) -> bool {
    0 <= at < s.len() && s[at] == byte
}

/// The byte at `at` exists and is the letter `lower`, in either case.
pub open spec fn has_letter(s: Seq<u8>, at: int, lower: u8) -> bool {
    0 <= at < s.len() && spec_is_letter(s[at], lower)
}

/// The end of the longest run of digits that starts at `from`: the position
/// of the first byte at or after `from` that is no digit, or the length of
/// the text.
pub open spec fn digits_end(s: Seq<u8>, from: int) -> int
    decreases s.len() - from,
{
    if 0 <= from < s.len() && spec_is_digit(s[from]) {
        digits_end(s, from + 1)
    } else {
        from
    }
}

/// Where the parts of a finite literal lie in the text. Each part is the
/// half-open range of its digits.
pub struct Layout {
    pub int_from: int,
    pub int_to: int,
    pub frac_from: int,
    pub frac_to: int,
    pub exp_from: int,
    pub exp_to: int,
}

impl Layout {
    /// A point follows the integer digits.
    pub open spec fn has_point(self) -> bool {
        self.frac_from > self.int_to
    }

    /// An exponent marker follows the mantissa.
    pub open spec fn has_exponent(self) -> bool {
        self.exp_from > self.frac_to
    }
}

/// The parts of `s`, read from the left as far as they go: sign, integer
/// digits, point and fraction digits, exponent marker with sign and digits.
pub open spec fn layout(s: Seq<u8>) -> Layout {
    let int_from = sign_len(s, 0);
    let int_to = digits_end(s, int_from);
    let frac_from = if has_byte(s, int_to, POINT) {
        int_to + 1
    } else {
        int_to
    };
    let frac_to = digits_end(s, frac_from);
    let exp_from = if has_letter(s, frac_to, LETTER_E) {
        frac_to + 1 + sign_len(s, frac_to + 1)
    } else {
        frac_to
    };
    let exp_to = digits_end(s, exp_from);
    Layout { int_from, int_to, frac_from, frac_to, exp_from, exp_to }
}

/// The mantissa of `s` is well formed: it has a digit, and a point without
/// fraction digits is the last byte of the text.
pub open spec fn is_mantissa(s: Seq<u8>) -> bool {
    let l = layout(s);
    &&& l.int_to > l.int_from || l.frac_to > l.frac_from
    &&& l.has_point() && l.frac_to == l.frac_from ==> l.int_to > l.int_from && l.frac_to == s.len()
}

/// `s` is a finite literal.
pub open spec fn is_finite_literal(s: Seq<u8>) -> bool {
    let l = layout(s);
    &&& is_mantissa(s)
    &&& l.has_exponent() ==> l.exp_to > l.exp_from
    &&& l.exp_to == s.len()
}

/// The first `count` letters of `infinity` stand in `s` from `from` on, in
/// either case.
pub open spec fn spells_infinity(s: Seq<u8>, from: int, count: int) -> bool {
    &&& count > 0 ==> has_letter(s, from, LETTER_I)
    &&& count > 1 ==> has_letter(s, from + 1, LETTER_N)
    &&& count > 2 ==> has_letter(s, from + 2, LETTER_F)
    &&& count > 3 ==> has_letter(s, from + 3, LETTER_I)
    &&& count > 4 ==> has_letter(s, from + 4, LETTER_N)
    &&& count > 5 ==> has_letter(s, from + 5, LETTER_I)
    &&& count > 6 ==> has_letter(s, from + 6, LETTER_T)
    &&& count > 7 ==> has_letter(s, from + 7, LETTER_Y)
}

/// The first `count` letters of `nan` stand in `s` from `from` on, in either
/// case.
pub open spec fn spells_nan(s: Seq<u8>, from: int, count: int) -> bool {
    &&& count > 0 ==> has_letter(s, from, LETTER_N)
    &&& count > 1 ==> has_letter(s, from + 1, LETTER_A)
    &&& count > 2 ==> has_letter(s, from + 2, LETTER_N)
}

/// `s` is `inf` or `infinity` after an optional sign.
pub open spec fn is_infinity_literal(s: Seq<u8>) -> bool {
    let from = sign_len(s, 0);
    ||| spells_infinity(s, from, 3) && s.len() == from + 3
    ||| spells_infinity(s, from, 8) && s.len() == from + 8
}

/// An `s` stands between the optional sign and the rest of the text.
pub open spec fn has_signaling_mark(s: Seq<u8>) -> bool {
    has_letter(s, sign_len(s, 0), LETTER_S)
}

/// Where the word `nan` is to begin: behind the optional sign and the
/// optional mark of a signaling NaN.
pub open spec fn nan_from(s: Seq<u8>) -> int {
    if has_signaling_mark(s) {
        sign_len(s, 0) + 1
    } else {
        sign_len(s, 0)
    }
}

/// `s` is `nan` or `snan` after an optional sign.
pub open spec fn is_nan_literal(s: Seq<u8>) -> bool {
    spells_nan(s, nan_from(s), 3) && s.len() == nan_from(s) + 3
}

/// `s` is a literal of one of the three classes.
pub open spec fn is_literal(s: Seq<u8>) -> bool {
    is_finite_literal(s) || is_infinity_literal(s) || is_nan_literal(s)
}

/// `s` starts with a minus sign.
pub open spec fn is_negative(s: Seq<u8>) -> bool {
    has_byte(s, 0, MINUS)
}

/// The digits before the point.
pub open spec fn integer_digits(s: Seq<u8>) -> Seq<u8> {
    let l = layout(s);
    s.subrange(l.int_from, l.int_to)
}

/// The digits after the point. A point that ends the text has the single
/// fraction digit `0`.
pub open spec fn fraction_digits(s: Seq<u8>) -> Seq<u8> {
    let l = layout(s);
    if l.has_point() && l.frac_to == l.frac_from {
        seq![ZERO]
    } else {
        s.subrange(l.frac_from, l.frac_to)
    }
}

/// All digits of the mantissa, those before the point first.
pub open spec fn mantissa_digits(s: Seq<u8>) -> Seq<u8> {
    integer_digits(s) + fraction_digits(s)
}

/// The digits of the exponent.
pub open spec fn exponent_digits(s: Seq<u8>) -> Seq<u8> {
    let l = layout(s);
    s.subrange(l.exp_from, l.exp_to)
}

/// The exponent is written with a minus sign.
pub open spec fn exponent_negative(s: Seq<u8>) -> bool {
    let l = layout(s);
    l.has_exponent() && has_byte(s, l.frac_to + 1, MINUS)
}

/// The magnitude of an exponent with the digits `ds`, saturated at the
/// largest `i32`.
pub open spec fn saturated(ds: Seq<u8>) -> int {
    if digits_value(ds) > i32_max() {
        i32_max()
    } else {
        digits_value(ds) as int
    }
}

/// The exponent as written: its digits, saturated at the largest `i32`, with
/// its sign; zero where the literal has no exponent.
pub open spec fn written_exponent(s: Seq<u8>) -> int {
    if exponent_negative(s) {
        -saturated(exponent_digits(s))
    } else {
        saturated(exponent_digits(s))
    }
}

/// A run of digits ends inside the text, holds digits only, and stops at a
/// byte that is no digit.
pub proof fn lemma_digits_end(s: Seq<u8>, from: int)
    requires
        0 <= from <= s.len(),
    ensures
        from <= digits_end(s, from) <= s.len(),
        forall|k: int| from <= k < digits_end(s, from) ==> spec_is_digit(#[trigger] s[k]),
        digits_end(s, from) < s.len() ==> !spec_is_digit(s[digits_end(s, from)]),
    decreases s.len() - from,
{
    if from < s.len() && spec_is_digit(s[from]) {
        lemma_digits_end(s, from + 1);
    }
}

/// The parts of a layout follow one another inside the text, and each holds
/// digits only.
pub proof fn lemma_layout(s: Seq<u8>)
    ensures
        ({
            let l = layout(s);
            &&& 0 <= l.int_from <= l.int_to <= l.frac_from <= l.frac_to <= l.exp_from <= l.exp_to
                <= s.len()
            &&& forall|k: int| l.int_from <= k < l.int_to ==> spec_is_digit(#[trigger] s[k])
            &&& forall|k: int| l.frac_from <= k < l.frac_to ==> spec_is_digit(#[trigger] s[k])
            &&& forall|k: int| l.exp_from <= k < l.exp_to ==> spec_is_digit(#[trigger] s[k])
            &&& l.int_to < s.len() ==> !spec_is_digit(s[l.int_to])
            &&& l.frac_to < s.len() ==> !spec_is_digit(s[l.frac_to])
            &&& l.exp_to < s.len() ==> !spec_is_digit(s[l.exp_to])
        }),
{
    let l = layout(s);
    lemma_digits_end(s, l.int_from);
    lemma_digits_end(s, l.frac_from);
    lemma_digits_end(s, l.exp_from);
}

/// The mantissa of a text consists of digits, no more than the text has
/// bytes.
pub proof fn lemma_mantissa_digits(s: Seq<u8>)
    ensures
        all_digits(mantissa_digits(s)),
        all_digits(fraction_digits(s)),
        fraction_digits(s).len() <= mantissa_digits(s).len() <= s.len(),
{
    lemma_layout(s);
    let l = layout(s);
    let ds = mantissa_digits(s);
    assert forall|i: int| 0 <= i < ds.len() implies spec_is_digit(#[trigger] ds[i]) by {
        if i < l.int_to - l.int_from {
            assert(ds[i] == s[l.int_from + i]);
        } else if l.has_point() && l.frac_to == l.frac_from {
            assert(ds[i] == ZERO);
        } else {
            assert(ds[i] == s[l.frac_from + (i - (l.int_to - l.int_from))]);
        }
    }
    let fs = fraction_digits(s);
    assert forall|i: int| 0 <= i < fs.len() implies spec_is_digit(#[trigger] fs[i]) by {
        if l.has_point() && l.frac_to == l.frac_from {
            assert(fs[i] == ZERO);
        } else {
            assert(fs[i] == s[l.frac_from + i]);
        }
    }
}

/// The three classes of literals exclude one another.
pub proof fn lemma_classes_disjoint(s: Seq<u8>)
    ensures
        !(is_finite_literal(s) && is_infinity_literal(s)),
        !(is_finite_literal(s) && is_nan_literal(s)),
        !(is_infinity_literal(s) && is_nan_literal(s)),
{
    lemma_layout(s);
}

/// A literal is made of digits, signs, a point and letters: no byte of it
/// lies beyond the ASCII range.
pub proof fn lemma_literal_is_ascii(s: Seq<u8>)
    requires
        is_literal(s),
    ensures
        forall|i: int| 0 <= i < s.len() ==> #[trigger] s[i] < 0x80,
{
    lemma_layout(s);
    let l = layout(s);
    let a = sign_len(s, 0);
    assert forall|i: int| 0 <= i < s.len() implies #[trigger] s[i] < 0x80 by {
        if is_finite_literal(s) {
            if i < l.int_from {
                assert(spec_is_sign(s[i]));
            } else if i < l.int_to {
                assert(spec_is_digit(s[i]));
            } else if i < l.frac_from {
                assert(s[i] == POINT);
            } else if i < l.frac_to {
                assert(spec_is_digit(s[i]));
            } else if i == l.frac_to {
                assert(spec_is_letter(s[i], LETTER_E));
            } else if i < l.exp_from {
                assert(spec_is_sign(s[i]));
            } else {
                assert(spec_is_digit(s[i]));
            }
        } else if is_infinity_literal(s) {
            if i < a {
                assert(spec_is_sign(s[i]));
            } else {
                assert(spells_infinity(s, a, i - a + 1));
            }
        } else {
            if i < a {
                assert(spec_is_sign(s[i]));
            } else if i < nan_from(s) {
                assert(has_signaling_mark(s));
            } else {
                assert(spells_nan(s, nan_from(s), i - nan_from(s) + 1));
            }
        }
    }
}

} // verus!
