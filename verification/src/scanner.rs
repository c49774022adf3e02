//! The finite state machine that scans a literal in a single pass from left
//! to right, and the proof that it accepts exactly the literals of the
//! grammar.

use vstd::prelude::*;
use crate::common::{
    all_digits, digits_value, is_digit, is_letter, is_sign, lemma_digits_value_push,
    update_exponent, State, LETTER_A, LETTER_E, LETTER_F, LETTER_I, LETTER_N, LETTER_S, LETTER_T,
    LETTER_Y, MINUS, POINT, ZERO,
};
use crate::grammar::{
    exponent_negative, fraction_digits, has_signaling_mark, is_finite_literal,
    is_infinity_literal, is_mantissa, is_nan_literal, is_negative, layout, lemma_digits_end,
    lemma_layout, mantissa_digits, nan_from, saturated, spells_infinity, spells_nan,
    written_exponent,
};
use crate::mantissa::{accumulated, lemma_significant_push, significant, Mantissa, MAX_LIMIT};

verus! {

/// What the scanner found in a text.
#[derive(Clone, Copy, Debug, PartialEq, Eq)]
pub enum Token {
    /// A finite literal: its sign, its mantissa and its exponent as written.
    Number { negative: bool, mantissa: Mantissa, exponent: i32 },
    /// An infinity and its sign.
    Infinity { negative: bool },
    /// A NaN, its sign, and whether it is a signaling one.
    NaN { negative: bool, signaling: bool },
    /// The text is no literal.
    Invalid,
}

/// The token of the text `s`, when the mantissa keeps at most `limit`
/// significant digits.
pub open spec fn scanned(s: Seq<u8>, limit: nat) -> Token {
    if is_finite_literal(s) {
        Token::Number {
            negative: is_negative(s),
            mantissa: accumulated(mantissa_digits(s), fraction_digits(s).len(), limit),
            exponent: written_exponent(s) as i32,
        }
    } else if is_infinity_literal(s) {
        Token::Infinity { negative: is_negative(s) }
    } else if is_nan_literal(s) {
        Token::NaN { negative: is_negative(s), signaling: has_signaling_mark(s) }
    } else {
        Token::Invalid
    }
}

/// The scanner between two bytes of the text.
#[derive(Clone, Copy)]
struct Scanner {
    /// The state of the machine.
    state: State,
    /// The text began with a minus sign.
    negative: bool,
    /// The text began, after the sign, with an `s`.
    signaling: bool,
    /// The mantissa digits read so far.
    mantissa: Mantissa,
    /// The exponent began with a minus sign.
    exponent_negative: bool,
    /// The exponent digits read so far, as a saturated number.
    exponent: i32,
}

/// The outcome of one transition.
enum Step {
    /// The byte was taken; the scan goes on from the given scanner.
    Next(Scanner),
    /// The scan is over, with the given token.
    Done(Token),
}

impl Step {
    /// The outcome is right for the text `s`, of which the bytes before `at`
    /// have been taken.
    spec fn fits(self, s: Seq<u8>, at: int, limit: usize) -> bool {
        match self {
            Step::Next(next) => next.inv(s, at) && next.mantissa.limit == limit,
            Step::Done(token) => token == scanned(s, limit as nat),
        }
    }
}

impl Scanner {
    /// The scanner is inside `infinity` or `nan`.
    spec fn in_word(self) -> bool {
        match self.state {
            State::BeginNumber
            | State::LeadingZeros
            | State::DigitsBefore
            | State::DigitsAfter
            | State::ExponentSign
            | State::ExponentLeadingZeros
            | State::ExponentDigits => false,
            _ => true,
        }
    }

    /// No exponent has been read.
    spec fn no_exponent(self) -> bool {
        !self.exponent_negative && self.exponent == 0
    }

    /// The scanner is inside the mantissa, of which it has read the digits
    /// `ds`, the last `fraction` of them after the point.
    spec fn in_mantissa(self, ds: Seq<u8>, fraction: int) -> bool {
        &&& self.no_exponent()
        &&& 0 <= fraction <= ds.len()
        &&& all_digits(ds)
        &&& self.mantissa == accumulated(ds, fraction as nat, self.mantissa.limit as nat)
    }

    /// The scanner has read the whole mantissa of `s`, which is well formed,
    /// and the exponent marker.
    spec fn past_mantissa(self, s: Seq<u8>) -> bool {
        &&& is_mantissa(s)
        &&& layout(s).has_exponent()
        &&& self.mantissa == accumulated(
            mantissa_digits(s),
            fraction_digits(s).len(),
            self.mantissa.limit as nat,
        )
    }

    /// The scanner is inside the exponent of `s`, behind its sign if it has
    /// one, and has read the digits of the exponent before `at`.
    spec fn in_exponent(self, s: Seq<u8>, at: int) -> bool {
        let l = layout(s);
        &&& self.past_mantissa(s)
        &&& l.exp_from <= at <= l.exp_to
        &&& at == l.exp_from ==> at < s.len()
        &&& self.exponent_negative == exponent_negative(s)
        &&& self.exponent == saturated(s.subrange(l.exp_from, at))
    }

    /// What holds of the scanner when it has taken the bytes of `s` before
    /// `at`.
    spec fn inv(self, s: Seq<u8>, at: int) -> bool {
        let l = layout(s);
        let a = l.int_from;
        &&& 0 <= at <= s.len() <= usize::MAX
        &&& self.mantissa.limit <= MAX_LIMIT
        &&& self.negative == (at > 0 && s[0] == MINUS)
        &&& match self.state {
            State::BeginNumber => {
                &&& at == 0 || (at == 1 && a == 1)
                &&& !self.signaling
                &&& self.in_mantissa(Seq::<u8>::empty(), 0)
            },
            State::LeadingZeros => {
                &&& a < at <= l.int_to
                &&& self.in_mantissa(s.subrange(a, at), 0)
                &&& significant(s.subrange(a, at)).len() == 0
            },
            State::DigitsBefore => {
                &&& a < at <= l.int_to
                &&& self.in_mantissa(s.subrange(a, at), 0)
                &&& significant(s.subrange(a, at)).len() > 0
            },
            State::DigitsAfter => {
                &&& l.has_point()
                &&& l.frac_from <= at <= l.frac_to
                &&& at == l.frac_from ==> at < s.len()
                &&& self.in_mantissa(
                    s.subrange(a, l.int_to) + s.subrange(l.frac_from, at),
                    at - l.frac_from,
                )
            },
            State::ExponentSign => {
                &&& self.past_mantissa(s)
                &&& at == l.frac_to + 1
                &&& self.no_exponent()
            },
            State::ExponentLeadingZeros => {
                &&& self.in_exponent(s, at)
                &&& self.exponent == 0
            },
            State::ExponentDigits => {
                &&& self.in_exponent(s, at)
                &&& self.exponent > 0
            },
            State::Inf2n => at == a + 1 && spells_infinity(s, a, 1),
            State::Inf3f => at == a + 2 && spells_infinity(s, a, 2),
            State::Inf4i => at == a + 3 && spells_infinity(s, a, 3) && at < s.len(),
            State::Inf5n => at == a + 4 && spells_infinity(s, a, 4),
            State::Inf6i => at == a + 5 && spells_infinity(s, a, 5),
            State::Inf7t => at == a + 6 && spells_infinity(s, a, 6),
            State::Inf8y => at == a + 7 && spells_infinity(s, a, 7),
            State::Nan1n => at == a + 1 && self.signaling && has_signaling_mark(s),
            State::Nan2a => {
                &&& at == nan_from(s) + 1
                &&& self.signaling == has_signaling_mark(s)
                &&& spells_nan(s, nan_from(s), 1)
            },
            State::Nan3n => {
                &&& at == nan_from(s) + 2
                &&& self.signaling == has_signaling_mark(s)
                &&& spells_nan(s, nan_from(s), 2)
            },
        }
    }

    /// The scanner before the first byte.
    fn new(limit: usize) -> (r: Scanner)
        requires
            limit <= MAX_LIMIT,
        ensures
            r.mantissa.limit == limit,
            forall|s: Seq<u8>| s.len() <= usize::MAX ==> #[trigger] r.inv(s, 0),
    {
        Scanner {
            state: State::BeginNumber,
            negative: false,
            signaling: false,
            mantissa: Mantissa::new(limit),
            exponent_negative: false,
            exponent: 0,
        }
    }

    /// The transition out of `BeginNumber`: a sign, if it is the first byte,
    /// the first digit, the point, or the first letter of a word.
    fn step_begin(self, b: u8, first: bool, last: bool, Ghost(s): Ghost<Seq<u8>>, Ghost(at): Ghost<
        int,
    >) -> (r: Step)
        requires
            self.state == State::BeginNumber,
            self.inv(s, at),
            at < s.len(),
            b == s[at],
            first == (at == 0),
            last == (at + 1 == s.len()),
        ensures
            r.fits(s, at + 1, self.mantissa.limit),
    {
        proof {
            lemma_layout(s);
            lemma_digits_end(s, at + 1);
        }
        let mut next = self;
        if first && is_sign(b) {
            next.negative = b == MINUS;
            Step::Next(next)
        } else if is_digit(b) {
            proof {
                assert(Seq::<u8>::empty().push(b) =~= s.subrange(at, at + 1));
                assert(significant(Seq::<u8>::empty()) =~= Seq::<u8>::empty());
                lemma_significant_push(Seq::<u8>::empty(), b);
            }
            next.mantissa = self.mantissa.push(b, false, Ghost(Seq::empty()), Ghost(0));
            next.state = if b == ZERO {
                State::LeadingZeros
            } else {
                State::DigitsBefore
            };
            Step::Next(next)
        } else if b == POINT && !last {
            assert(s.subrange(at, at) + s.subrange(at + 1, at + 1) =~= Seq::<u8>::empty());
            next.state = State::DigitsAfter;
            Step::Next(next)
        } else if is_letter(b, LETTER_I) {
            next.state = State::Inf2n;
            Step::Next(next)
        } else if is_letter(b, LETTER_N) {
            next.state = State::Nan2a;
            Step::Next(next)
        } else if is_letter(b, LETTER_S) {
            next.signaling = true;
            next.state = State::Nan1n;
            Step::Next(next)
        } else {
            Step::Done(Token::Invalid)
        }
    }

    /// The transition out of `LeadingZeros` and `DigitsBefore`: one more
    /// digit, the point, or the exponent marker. A point that ends the text
    /// ends the literal, with a zero for its fraction.
    fn step_integer(
        self,
        b: u8,
        last: bool,
        Ghost(s): Ghost<Seq<u8>>,
        Ghost(at): Ghost<int>,
    ) -> (r: Step)
        requires
            self.state == State::LeadingZeros || self.state == State::DigitsBefore,
            self.inv(s, at),
            at < s.len(),
            b == s[at],
            last == (at + 1 == s.len()),
        ensures
            r.fits(s, at + 1, self.mantissa.limit),
    {
        let ghost l = layout(s);
        let ghost seen = s.subrange(l.int_from, at);
        proof {
            lemma_layout(s);
            lemma_digits_end(s, at + 1);
        }
        let mut next = self;
        if is_digit(b) {
            proof {
                assert(seen.push(b) =~= s.subrange(l.int_from, at + 1));
                lemma_significant_push(seen, b);
            }
            next.mantissa = self.mantissa.push(b, false, Ghost(seen), Ghost(0));
            next.state = match self.state {
                State::LeadingZeros => if b == ZERO {
                    State::LeadingZeros
                } else {
                    State::DigitsBefore
                },
                _ => State::DigitsBefore,
            };
            Step::Next(next)
        } else if b == POINT {
            assert(l.int_to == at);
            if last {
                assert(mantissa_digits(s) =~= seen.push(ZERO));
                assert(digits_value(Seq::<u8>::empty()) == 0);
                Step::Done(
                    Token::Number {
                        negative: self.negative,
                        mantissa: self.mantissa.push(ZERO, true, Ghost(seen), Ghost(0)),
                        exponent: 0,
                    },
                )
            } else {
                assert(seen + s.subrange(at + 1, at + 1) =~= seen);
                next.state = State::DigitsAfter;
                Step::Next(next)
            }
        } else if is_letter(b, LETTER_E) {
            assert(l.int_to == at);
            assert(mantissa_digits(s) =~= seen);
            next.state = State::ExponentSign;
            Step::Next(next)
        } else {
            assert(l.int_to == at);
            Step::Done(Token::Invalid)
        }
    }

    /// The transition out of `DigitsAfter`: one more digit, or the exponent
    /// marker once a digit has followed the point.
    fn step_fraction(self, b: u8, Ghost(s): Ghost<Seq<u8>>, Ghost(at): Ghost<int>) -> (r: Step)
        requires
            self.state == State::DigitsAfter,
            self.inv(s, at),
            at < s.len(),
            b == s[at],
        ensures
            r.fits(s, at + 1, self.mantissa.limit),
    {
        let ghost l = layout(s);
        let ghost whole = s.subrange(l.int_from, l.int_to);
        let ghost seen = whole + s.subrange(l.frac_from, at);
        proof {
            lemma_layout(s);
            lemma_digits_end(s, at + 1);
        }
        let mut next = self;
        if is_digit(b) {
            assert(seen.push(b) =~= whole + s.subrange(l.frac_from, at + 1));
            next.mantissa = self.mantissa.push(b, true, Ghost(seen), Ghost((at - l.frac_from) as nat));
            Step::Next(next)
        } else if is_letter(b, LETTER_E) && self.mantissa.fraction > 0 {
            assert(l.frac_to == at);
            next.state = State::ExponentSign;
            Step::Next(next)
        } else {
            assert(l.frac_to == at);
            Step::Done(Token::Invalid)
        }
    }

    /// The transition out of the three exponent states: the sign, if a digit
    /// can still follow it, or one more digit.
    fn step_exponent(
        self,
        b: u8,
        last: bool,
        Ghost(s): Ghost<Seq<u8>>,
        Ghost(at): Ghost<int>,
    ) -> (r: Step)
        requires
            self.state == State::ExponentSign || self.state == State::ExponentLeadingZeros
                || self.state == State::ExponentDigits,
            self.inv(s, at),
            at < s.len(),
            b == s[at],
            last == (at + 1 == s.len()),
        ensures
            r.fits(s, at + 1, self.mantissa.limit),
    {
        let ghost l = layout(s);
        proof {
            lemma_layout(s);
            lemma_digits_end(s, at + 1);
        }
        let mut next = self;
        match self.state {
            State::ExponentSign => {
                if is_sign(b) && !last {
                    assert(s.subrange(at + 1, at + 1) =~= Seq::<u8>::empty());
                    next.exponent_negative = b == MINUS;
                    next.state = State::ExponentLeadingZeros;
                    Step::Next(next)
                } else if is_digit(b) {
                    proof {
                        assert(s.subrange(at, at + 1) =~= Seq::<u8>::empty().push(b));
                        lemma_digits_value_push(Seq::<u8>::empty(), b);
                    }
                    next.exponent = update_exponent(0, b);
                    next.state = if b == ZERO {
                        State::ExponentLeadingZeros
                    } else {
                        State::ExponentDigits
                    };
                    Step::Next(next)
                } else {
                    Step::Done(Token::Invalid)
                }
            },
            _ => {
                if is_digit(b) {
                    proof {
                        let seen = s.subrange(l.exp_from, at);
                        assert(s.subrange(l.exp_from, at + 1) =~= seen.push(b));
                        lemma_digits_value_push(seen, b);
                    }
                    next.exponent = update_exponent(self.exponent, b);
                    next.state = match self.state {
                        State::ExponentLeadingZeros => if b == ZERO {
                            State::ExponentLeadingZeros
                        } else {
                            State::ExponentDigits
                        },
                        _ => State::ExponentDigits,
                    };
                    Step::Next(next)
                } else {
                    assert(l.exp_to == at);
                    Step::Done(Token::Invalid)
                }
            },
        }
    }

    /// The transition out of the states that spell `infinity` and `nan`:
    /// the next letter of the word. The words end with the text.
    fn step_word(self, b: u8, last: bool, Ghost(s): Ghost<Seq<u8>>, Ghost(at): Ghost<int>) -> (r:
        Step)
        requires
            self.in_word(),
            self.inv(s, at),
            at < s.len(),
            b == s[at],
            last == (at + 1 == s.len()),
        ensures
            r.fits(s, at + 1, self.mantissa.limit),
    {
        proof {
            lemma_layout(s);
        }
        let mut next = self;
        let expected: u8 = match self.state {
            State::Inf2n | State::Inf5n | State::Nan1n | State::Nan3n => LETTER_N,
            State::Inf3f => LETTER_F,
            State::Inf4i | State::Inf6i => LETTER_I,
            State::Inf7t => LETTER_T,
            State::Inf8y => LETTER_Y,
            _ => LETTER_A,
        };
        if !is_letter(b, expected) {
            return Step::Done(Token::Invalid);
        }
        match self.state {
            State::Inf3f => {
                if last {
                    Step::Done(Token::Infinity { negative: self.negative })
                } else {
                    next.state = State::Inf4i;
                    Step::Next(next)
                }
            },
            State::Inf8y => {
                if last {
                    Step::Done(Token::Infinity { negative: self.negative })
                } else {
                    Step::Done(Token::Invalid)
                }
            },
            State::Nan3n => {
                if last {
                    Step::Done(Token::NaN { negative: self.negative, signaling: self.signaling })
                } else {
                    Step::Done(Token::Invalid)
                }
            },
            _ => {
                next.state = match self.state {
                    State::Inf2n => State::Inf3f,
                    State::Inf4i => State::Inf5n,
                    State::Inf5n => State::Inf6i,
                    State::Inf6i => State::Inf7t,
                    State::Inf7t => State::Inf8y,
                    State::Nan1n => State::Nan2a,
                    _ => State::Nan3n,
                };
                Step::Next(next)
            },
        }
    }

    /// The transition function: takes the byte `b`, which stands at `at` in
    /// the text `s`; `first` and `last` say whether it begins and whether it
    /// ends the text.
    fn step(
        self,
        b: u8,
        first: bool,
        last: bool,
        Ghost(s): Ghost<Seq<u8>>,
        Ghost(at): Ghost<int>,
    ) -> (r: Step)
        requires
            self.inv(s, at),
            at < s.len(),
            b == s[at],
            first == (at == 0),
            last == (at + 1 == s.len()),
        ensures
            r.fits(s, at + 1, self.mantissa.limit),
    {
        match self.state {
            State::BeginNumber => self.step_begin(b, first, last, Ghost(s), Ghost(at)),
            State::LeadingZeros | State::DigitsBefore => self.step_integer(
                b,
                last,
                Ghost(s),
                Ghost(at),
            ),
            State::DigitsAfter => self.step_fraction(b, Ghost(s), Ghost(at)),
            State::ExponentSign | State::ExponentLeadingZeros | State::ExponentDigits => {
                self.step_exponent(b, last, Ghost(s), Ghost(at))
            },
            _ => self.step_word(b, last, Ghost(s), Ghost(at)),
        }
    }

    /// The token at the end of the text `s`: a number if the scanner stands
    /// behind a digit of a mantissa or of an exponent, else nothing.
    fn finish(self, Ghost(s): Ghost<Seq<u8>>) -> (t: Token)
        requires
            self.inv(s, s.len() as int),
        ensures
            t == scanned(s, self.mantissa.limit as nat),
    {
        let ghost l = layout(s);
        proof {
            lemma_layout(s);
        }
        match self.state {
            State::LeadingZeros | State::DigitsBefore => {
                proof {
                    assert(mantissa_digits(s) =~= s.subrange(l.int_from, s.len() as int));
                    assert(digits_value(Seq::<u8>::empty()) == 0);
                    assert(s.subrange(s.len() as int, s.len() as int) =~= Seq::<u8>::empty());
                }
                Token::Number { negative: self.negative, mantissa: self.mantissa, exponent: 0 }
            },
            State::DigitsAfter => {
                proof {
                    assert(digits_value(Seq::<u8>::empty()) == 0);
                    assert(s.subrange(s.len() as int, s.len() as int) =~= Seq::<u8>::empty());
                }
                Token::Number { negative: self.negative, mantissa: self.mantissa, exponent: 0 }
            },
            State::ExponentLeadingZeros | State::ExponentDigits => {
                let exponent: i32 = if self.exponent_negative {
                    -self.exponent
                } else {
                    self.exponent
                };
                Token::Number { negative: self.negative, mantissa: self.mantissa, exponent }
            },
            _ => Token::Invalid,
        }
    }
}

/// Scans the text `bytes` in one pass. The mantissa of a finite literal keeps
/// at most `limit` significant digits.
pub fn scan(bytes: &[u8], limit: usize) -> (t: Token)
    requires
        limit <= MAX_LIMIT,
    ensures
        t == scanned(bytes@, limit as nat),
{
    let n: usize = bytes.len();
    let mut scanner = Scanner::new(limit);
    let mut i: usize = 0;
    while i < n
        invariant
            i <= n,
            n == bytes@.len(),
            scanner.inv(bytes@, i as int),
            scanner.mantissa.limit == limit,
        decreases n - i,
    {
        match scanner.step(bytes[i], i == 0, i + 1 == n, Ghost(bytes@), Ghost(i as int)) {
            Step::Next(next) => {
                scanner = next;
            },
            Step::Done(token) => {
                return token;
            },
        }
        i = i + 1;
    }
    scanner.finish(Ghost(bytes@))
}

} // verus!
