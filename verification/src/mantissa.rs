//! The accumulator of a literal's mantissa.
//!
//! It keeps the first `limit` significant digits as a number and remembers of
//! the digits beyond them how many there were, the first one, and whether any
//! later one was nonzero: enough to round, in constant space.

use vstd::prelude::*;
use crate::common::{
    all_digits, clamp_i32, digit_value, digits_value, lemma_digits_value_bound,
    lemma_digits_value_push, lemma_pow10_increases, lemma_pow10_values, mul_add, pow10,
    spec_is_digit, ZERO,
};

verus! {

/// Most digits that a coefficient of 128 bits holds, whatever the digits.
pub const MAX_LIMIT: usize = 38;

/// What is kept of the mantissa digits read so far.
#[derive(Clone, Copy, Debug, PartialEq, Eq)]
pub struct Mantissa {
    /// Most significant digits that `value` may hold.
    pub limit: usize,
    /// The number denoted by the kept digits.
    pub value: u128,
    /// How many significant digits were kept.
    pub digits: usize,
    /// How many significant digits came after the kept ones.
    pub dropped: usize,
    /// How many digits stood after the point, kept or not.
    pub fraction: usize,
    /// The first digit that was not kept, as a number; zero if there is none.
    pub first: u8,
    /// Some digit after the first that was not kept is nonzero.
    pub tail: bool,
}

/// The number of zeros at the front of `ds`.
pub open spec fn leading_zeros(ds: Seq<u8>) -> nat
    decreases ds.len(),
{
    if ds.len() > 0 && ds[0] == ZERO {
        1 + leading_zeros(ds.drop_first())
    } else {
        0
    }
}

/// The significant digits of `ds`: those from the first nonzero one on.
pub open spec fn significant(ds: Seq<u8>) -> Seq<u8> {
    ds.skip(leading_zeros(ds) as int)
}

/// How many of the significant digits `sig` a mantissa of `limit` digits
/// keeps.
pub open spec fn kept_len(sig: Seq<u8>, limit: nat) -> nat {
    if sig.len() <= limit {
        sig.len()
    } else {
        limit
    }
}

/// The number denoted by the first `limit` significant digits of `ds`, or by
/// all of them if they are fewer.
pub open spec fn kept_value(ds: Seq<u8>, limit: nat) -> nat {
    let sig = significant(ds);
    digits_value(sig.take(kept_len(sig, limit) as int))
}

/// The significant digits of `ds` beyond the first `limit`.
pub open spec fn dropped_digits(ds: Seq<u8>, limit: nat) -> Seq<u8> {
    let sig = significant(ds);
    sig.skip(kept_len(sig, limit) as int)
}

/// The mantissa of the digits `ds`, of which the last `fraction` stood after
/// the point, with at most `limit` digits kept.
pub open spec fn accumulated(ds: Seq<u8>, fraction: nat, limit: nat) -> Mantissa {
    let rest = dropped_digits(ds, limit);
    Mantissa {
        limit: limit as usize,
        value: kept_value(ds, limit) as u128,
        digits: kept_len(significant(ds), limit) as usize,
        dropped: rest.len() as usize,
        fraction: fraction as usize,
        first: if rest.len() > 0 {
            digit_value(rest[0]) as u8
        } else {
            0
        },
        tail: rest.len() > 0 && digits_value(rest.drop_first()) != 0,
    }
}

/// The zeros at the front of a sequence are no more than its digits.
pub proof fn lemma_leading_zeros_bound(ds: Seq<u8>)
    ensures
        leading_zeros(ds) <= ds.len(),
    decreases ds.len(),
{
    if ds.len() > 0 && ds[0] == ZERO {
        lemma_leading_zeros_bound(ds.drop_first());
    }
}

/// A digit appended to a sequence of zeros only lengthens the run of zeros
/// if it is a zero itself; appended to anything else it changes nothing at
/// the front.
pub proof fn lemma_leading_zeros_push(ds: Seq<u8>, d: u8)
    ensures
        leading_zeros(ds.push(d)) == if leading_zeros(ds) == ds.len() && d == ZERO {
            ds.len() + 1
        } else {
            leading_zeros(ds)
        },
    decreases ds.len(),
{
    lemma_leading_zeros_bound(ds);
    if ds.len() == 0 {
        assert(ds.push(d).drop_first() =~= ds);
    } else {
        assert(ds.push(d).drop_first() =~= ds.drop_first().push(d));
        lemma_leading_zeros_bound(ds.drop_first());
        if ds[0] == ZERO {
            lemma_leading_zeros_push(ds.drop_first(), d);
        }
    }
}

/// The significant digits after one more digit: still none if there were
/// none and the digit is a zero, else the old ones and the digit.
pub proof fn lemma_significant_push(ds: Seq<u8>, d: u8)
    ensures
        significant(ds.push(d)) == if significant(ds).len() == 0 && d == ZERO {
            Seq::<u8>::empty()
        } else {
            significant(ds).push(d)
        },
{
    lemma_leading_zeros_bound(ds);
    lemma_leading_zeros_push(ds, d);
    if significant(ds).len() == 0 && d == ZERO {
        assert(significant(ds.push(d)) =~= Seq::<u8>::empty());
    } else {
        assert(significant(ds.push(d)) =~= significant(ds).push(d));
    }
}

/// The significant digits of digits are digits.
pub proof fn lemma_significant_digits(ds: Seq<u8>)
    requires
        all_digits(ds),
    ensures
        all_digits(significant(ds)),
        significant(ds).len() <= ds.len(),
{
    lemma_leading_zeros_bound(ds);
    let z = leading_zeros(ds) as int;
    assert forall|i: int| 0 <= i < significant(ds).len() implies spec_is_digit(
        #[trigger] significant(ds)[i],
    ) by {
        assert(significant(ds)[i] == ds[i + z]);
    }
}

/// The kept digits denote a number of at most `limit` digits.
pub proof fn lemma_kept_value_bound(ds: Seq<u8>, limit: nat)
    requires
        all_digits(ds),
        limit <= MAX_LIMIT,
    ensures
        kept_value(ds, limit) < pow10(limit),
        pow10(limit) <= pow10(38),
        pow10(38) <= u128::MAX,
{
    lemma_significant_digits(ds);
    let sig = significant(ds);
    let kept = kept_len(sig, limit);
    let head = sig.take(kept as int);
    assert forall|i: int| 0 <= i < head.len() implies spec_is_digit(#[trigger] head[i]) by {
        assert(head[i] == sig[i]);
    }
    lemma_digits_value_bound(head);
    lemma_pow10_increases(kept, limit);
    lemma_pow10_increases(limit, 38);
    lemma_pow10_values();
}

/// The number of two digit sequences in a row: the first, scaled by a power
/// of ten for each digit of the second, plus the second.
pub proof fn lemma_digits_value_concat(front: Seq<u8>, back: Seq<u8>)
    ensures
        digits_value(front + back) == digits_value(front) * pow10(back.len()) + digits_value(back),
    decreases back.len(),
{
    if back.len() == 0 {
        assert(front + back =~= front);
        assert(pow10(0) == 1);
        assert(digits_value(front) * 1 == digits_value(front));
    } else {
        let rest = back.drop_last();
        lemma_digits_value_concat(front, rest);
        assert((front + back).drop_last() =~= front + rest);
        assert(pow10(back.len()) == 10 * pow10(rest.len()));
        assert(digits_value(front) * (10 * pow10(rest.len())) == (digits_value(front) * pow10(
            rest.len(),
        )) * 10) by (nonlinear_arith);
    }
}

/// Zeros at the front add nothing to the number that digits denote.
pub proof fn lemma_significant_value(ds: Seq<u8>)
    ensures
        digits_value(significant(ds)) == digits_value(ds),
    decreases ds.len(),
{
    if ds.len() > 0 && ds[0] == ZERO {
        let rest = ds.drop_first();
        lemma_significant_value(rest);
        lemma_leading_zeros_bound(rest);
        assert(significant(ds) =~= significant(rest));
        let head = seq![ZERO];
        assert(ds =~= head + rest);
        lemma_digits_value_concat(head, rest);
        assert(head.drop_last() =~= Seq::<u8>::empty());
        assert(digits_value(head) == 0) by {
            assert(digits_value(head.drop_last()) == 0);
        }
        assert(0 * pow10(rest.len()) == 0);
    } else {
        assert(significant(ds) =~= ds);
    }
}

/// Nothing is lost between the kept and the dropped digits: the kept number,
/// scaled by a power of ten for each dropped digit, plus the number of the
/// dropped digits, is the number of all digits.
pub proof fn lemma_kept_and_dropped(ds: Seq<u8>, limit: nat)
    ensures
        kept_value(ds, limit) * pow10(dropped_digits(ds, limit).len()) + digits_value(
            dropped_digits(ds, limit),
        ) == digits_value(ds),
{
    let sig = significant(ds);
    let kept = kept_len(sig, limit) as int;
    lemma_significant_value(ds);
    lemma_digits_value_concat(sig.take(kept), sig.skip(kept));
    assert(sig.take(kept) + sig.skip(kept) =~= sig);
}

impl Mantissa {
    /// The mantissa of no digits.
    pub fn new(limit: usize) -> (r: Mantissa)
        ensures
            r == accumulated(Seq::<u8>::empty(), 0, limit as nat),
    {
        assert(significant(Seq::<u8>::empty()) =~= Seq::<u8>::empty());
        assert(Seq::<u8>::empty().take(0) =~= Seq::<u8>::empty());
        Mantissa { limit, value: 0, digits: 0, dropped: 0, fraction: 0, first: 0, tail: false }
    }

    /// Takes in the next digit `b` of the mantissa; `after_point` says on
    /// which side of the point it stood. `ds` and `fraction` are the digits
    /// taken in before.
    pub(crate) fn push(
        self,
        b: u8,
        after_point: bool,
        Ghost(ds): Ghost<Seq<u8>>,
        Ghost(fraction): Ghost<nat>,
    ) -> (r: Mantissa)
        requires
            spec_is_digit(b),
            all_digits(ds),
            self.limit <= MAX_LIMIT,
            fraction <= ds.len() < usize::MAX,
            self == accumulated(ds, fraction, self.limit as nat),
        ensures
            r == accumulated(
                ds.push(b),
                if after_point {
                    fraction + 1
                } else {
                    fraction
                },
                self.limit as nat,
            ),
    {
        let ghost limit = self.limit as nat;
        let ghost sig = significant(ds);
        let ghost kept = kept_len(sig, limit) as int;
        let ghost rest = dropped_digits(ds, limit);
        let ghost next = significant(ds.push(b));
        let ghost next_rest = dropped_digits(ds.push(b), limit);
        proof {
            lemma_significant_push(ds, b);
            lemma_significant_digits(ds);
            lemma_kept_value_bound(ds, limit);
        }
        let mut r = self;
        if after_point {
            r.fraction = r.fraction + 1;
        }
        if b == ZERO && self.digits == 0 && self.dropped == 0 {
            // a zero in front of the first significant digit
            assert(sig.len() == 0);
            assert(next == sig);
        } else if self.digits < self.limit {
            assert(sig.len() == kept);
            assert(next == sig.push(b));
            proof {
                assert(next.take(kept + 1) =~= sig.take(kept).push(b));
                assert(next_rest =~= rest);
                lemma_digits_value_push(sig.take(kept), b);
                lemma_kept_value_bound(ds.push(b), limit);
            }
            r.value = mul_add(self.value, b);
            r.digits = self.digits + 1;
        } else {
            // beyond the limit: only what rounding needs changes
            assert(next == sig.push(b));
            assert(next.take(kept) =~= sig.take(kept));
            assert(next_rest =~= rest.push(b));
            if self.dropped == 0 {
                assert(next_rest.drop_first() =~= Seq::<u8>::empty());
                r.first = b - ZERO;
                r.tail = false;
            } else {
                proof {
                    assert(next_rest.drop_first() =~= rest.drop_first().push(b));
                    lemma_digits_value_push(rest.drop_first(), b);
                }
                r.tail = self.tail || b != ZERO;
            }
            r.dropped = self.dropped + 1;
        }
        r
    }

    /// The power of ten by which the kept digits are to be scaled for the
    /// value of the mantissa, up to the digits that were dropped: the number
    /// of dropped digits less the number of fraction digits, saturated at the
    /// bounds of an `i32`.
    pub fn shift(&self) -> (r: i32)
        ensures
            r == clamp_i32(self.dropped - self.fraction),
    {
        if self.dropped >= self.fraction {
            let up: usize = self.dropped - self.fraction;
            if up > 0x7fff_ffff {
                i32::MAX
            } else {
                up as i32
            }
        } else {
            let down: usize = self.fraction - self.dropped;
            if down >= 0x8000_0000 {
                i32::MIN
            } else {
                -(down as i32)
            }
        }
    }

    /// The power of ten by which the kept digits are to be scaled where the
    /// dropped digits are left out of account: the number of fraction
    /// digits, negated and saturated at the smallest `i32`.
    pub fn fraction_shift(&self) -> (r: i32)
        ensures
            r == clamp_i32(-self.fraction),
    {
        if self.fraction >= 0x8000_0000 {
            i32::MIN
        } else {
            -(self.fraction as i32)
        }
    }
}

} // verus!
