//! Tests of the recognizer, of rounding, and of the plain recognizer.

use scidec::common::State;
use scidec::fsm;
use scidec::mantissa::Mantissa;
use scidec::recognizer::{evaluate, recognize, round, Excess, Rounding, Value};
use scidec::scanner::{scan, Token};

#[test]
fn recognizes_literals() {
    assert_eq!(Value::Finite(false, 12, None, 0), recognize("12", 34));
    assert_eq!(Value::Finite(false, 3, None, -7), recognize("0.00003E-02", 34));
    assert_eq!(Value::Finite(true, 12345678, None, -6), recognize("-1234.5678e-2", 34));
    assert_eq!(Value::Finite(false, 10, None, -1), recognize("1.", 34));
    assert_eq!(Value::Finite(false, 0, None, -1), recognize("0.", 34));
    assert_eq!(Value::Finite(false, 5, None, -1), recognize(".5", 34));
    assert_eq!(Value::Finite(true, 0, None, 0), recognize("-0", 34));
    assert_eq!(Value::Finite(false, 1, None, 0), recognize("1e0", 34));
    assert_eq!(Value::Finite(false, 7, None, 12), recognize("007E+012", 34));
}

#[test]
fn recognizes_infinities_in_either_case() {
    assert_eq!(Value::Infinity(false), recognize("infinity", 34));
    assert_eq!(Value::Infinity(false), recognize("+infinity", 34));
    assert_eq!(Value::Infinity(true), recognize("-infinity", 34));
    assert_eq!(Value::Infinity(true), recognize("-inFINity", 34));
    assert_eq!(Value::Infinity(false), recognize("INF", 34));
    assert_eq!(Value::Infinity(true), recognize("-Inf", 34));
}

#[test]
fn recognizes_nans() {
    assert_eq!(Value::NaN(false, true), recognize("SNaN", 34));
    assert_eq!(Value::NaN(false, true), recognize("+SNaN", 34));
    assert_eq!(Value::NaN(true, true), recognize("-SNaN", 34));
    assert_eq!(Value::NaN(false, false), recognize("NaN", 34));
    assert_eq!(Value::NaN(false, false), recognize("nan", 34));
    assert_eq!(Value::NaN(false, false), recognize("+NaN", 34));
    assert_eq!(Value::NaN(true, false), recognize("-nan", 34));
}

#[test]
fn malformed_text_is_quiet_unsigned_nan() {
    for input in [
        "", "1.1P2", "1..", ".", "IE0", "Infa", "+", "-", "+-1", "1e", "1e+", "1E-", "1.e5", ".e5",
        "e5", "-.", "0inf", "0nan", "in", "inf ", "infi", "infinit", "infinityy", "na", "nanx",
        "sna", "ssnan", "-s", "1e5.0", "1 ", " 1", "1_000", "\u{ff11}", "1\u{e9}", "\u{e9}",
    ] {
        assert_eq!(Value::NaN(false, false), recognize(input, 34), "{:?}", input);
    }
}

#[test]
fn digits_beyond_the_limit_are_dropped() {
    // digits before the point raise the exponent
    assert_eq!(
        Value::Finite(false, 123, Some(Excess { first: 4, tail: true }), 2),
        recognize("12345", 3)
    );
    assert_eq!(
        Value::Finite(false, 123, Some(Excess { first: 5, tail: false }), 2),
        recognize("12350", 3)
    );
    assert_eq!(
        Value::Finite(false, 123, Some(Excess { first: 0, tail: false }), 1),
        recognize("1230", 3)
    );
    // digits after the point leave it as it is
    assert_eq!(
        Value::Finite(false, 123, Some(Excess { first: 4, tail: true }), -1),
        recognize("12.345", 3)
    );
    assert_eq!(
        Value::Finite(false, 123, Some(Excess { first: 4, tail: false }), 1),
        recognize("1234.000", 3)
    );
    // leading zeros do not count
    assert_eq!(
        Value::Finite(false, 123, Some(Excess { first: 4, tail: false }), -5),
        recognize("000.001234", 3)
    );
    assert_eq!(Value::Finite(false, 123, None, -5), recognize("000.00123", 3));
    // a point at the end is a point and a zero
    assert_eq!(
        Value::Finite(false, 123, Some(Excess { first: 0, tail: false }), 0),
        recognize("123.", 3)
    );
    assert_eq!(Value::Finite(false, 0, Some(Excess { first: 7, tail: false }), 1), recognize("7", 0));
    assert_eq!(Value::Finite(false, 0, None, 0), recognize("0", 0));
}

#[test]
fn coefficient_of_38_digits() {
    assert_eq!(
        Value::Finite(false, 99999999999999999999999999999999999999, Some(Excess { first: 9, tail: false }), 1),
        recognize("999999999999999999999999999999999999999", 38)
    );
}

#[test]
fn exponent_saturates() {
    assert_eq!(Value::Finite(false, 1, None, 2147483647), recognize("1E+2147483647", 34));
    assert_eq!(Value::Finite(false, 1, None, 2147483647), recognize("1E+2147483648", 34));
    assert_eq!(Value::Finite(false, 1, None, 2147483647), recognize("1E+99999999999999999999", 34));
    assert_eq!(Value::Finite(false, 1, None, -2147483647), recognize("1E-2147483648", 34));
    assert_eq!(Value::Finite(false, 1, None, -2147483648), recognize("0.1E-2147483647", 34));
    assert_eq!(Value::Finite(false, 1, None, -2147483648), recognize("0.01E-2147483647", 34));
    assert_eq!(Value::Finite(false, 1, None, 2147483646), recognize("0.1E+2147483648", 34));
    assert_eq!(
        Value::Finite(false, 12, Some(Excess { first: 3, tail: false }), 2147483647),
        recognize("123E+2147483647", 2)
    );
}

#[test]
fn rounds_by_mode() {
    let tie = Excess { first: 5, tail: false };
    let above = Excess { first: 5, tail: true };
    let below = Excess { first: 4, tail: true };
    let exact = Excess { first: 0, tail: false };
    assert_eq!((12, 3, true), round(12, 3, tie, false, Rounding::ToNearest));
    assert_eq!((14, 3, true), round(13, 3, tie, false, Rounding::ToNearest));
    assert_eq!((13, 3, true), round(12, 3, above, false, Rounding::ToNearest));
    assert_eq!((12, 3, true), round(12, 3, below, false, Rounding::ToNearest));
    assert_eq!((13, 3, true), round(12, 3, Excess { first: 6, tail: false }, true, Rounding::ToNearest));
    assert_eq!((13, -3, true), round(12, -3, tie, false, Rounding::TiesAway));
    assert_eq!((13, -3, true), round(12, -3, tie, true, Rounding::TiesAway));
    assert_eq!((12, -3, true), round(12, -3, below, true, Rounding::TiesAway));
    assert_eq!((12, 0, true), round(12, 0, above, false, Rounding::ToZero));
    assert_eq!((12, 0, true), round(12, 0, Excess { first: 9, tail: true }, true, Rounding::ToZero));
    assert_eq!((12, 0, true), round(12, 0, below, false, Rounding::Down));
    assert_eq!((13, 0, true), round(12, 0, below, true, Rounding::Down));
    assert_eq!((13, 0, true), round(12, 0, Excess { first: 0, tail: true }, true, Rounding::Down));
    assert_eq!((13, 0, true), round(12, 0, below, false, Rounding::Up));
    assert_eq!((12, 0, true), round(12, 0, below, true, Rounding::Up));
    for mode in [Rounding::ToNearest, Rounding::Down, Rounding::Up, Rounding::ToZero, Rounding::TiesAway] {
        assert_eq!((12, 0, false), round(12, 0, exact, false, mode));
        assert_eq!((12, 0, false), round(12, 0, exact, true, mode));
    }
}

#[test]
fn ties_go_to_even() {
    for coefficient in 0..40u128 {
        let (rounded, _, inexact) =
            round(coefficient, 0, Excess { first: 5, tail: false }, false, Rounding::ToNearest);
        assert_eq!(coefficient + coefficient % 2, rounded);
        assert!(inexact);
    }
}

#[test]
fn rounding_from_number() {
    assert_eq!(Rounding::ToNearest, Rounding::from(0));
    assert_eq!(Rounding::Down, Rounding::from(1));
    assert_eq!(Rounding::Up, Rounding::from(2));
    assert_eq!(Rounding::ToZero, Rounding::from(3));
    assert_eq!(Rounding::TiesAway, Rounding::from(4));
    assert_eq!(Rounding::ToNearest, Rounding::from(5));
    assert_eq!(Rounding::ToNearest, Rounding::from(-1));
    assert_eq!(Rounding::ToNearest, Rounding::default());
}

#[test]
fn plain_recognizer_keeps_a_guard_digit() {
    assert_eq!(fsm::Value::Finite(false, 12, 0), fsm::recognize("12", 34));
    assert_eq!(fsm::Value::Finite(false, 1234, 0), fsm::recognize("12345", 3));
    assert_eq!(fsm::Value::Finite(false, 1234, -3), fsm::recognize("12.345", 3));
    assert_eq!(fsm::Value::Finite(false, 1, 0), fsm::recognize("12345", 0));
    assert_eq!(fsm::Value::Finite(true, 10, -1), fsm::recognize("-1.", 5));
    assert_eq!(fsm::Value::Infinite(true), fsm::recognize("-INF", 34));
    assert_eq!(fsm::Value::NotANumber(true, true), fsm::recognize("-snan", 34));
    assert_eq!(fsm::Value::NotANumber(false, false), fsm::recognize("-snap", 34));
    assert_eq!(fsm::Value::Finite(false, 1, -2147483648), fsm::recognize("0.1E-2147483647", 34));
}

#[test]
fn scans_tokens() {
    let mantissa = Mantissa { limit: 3, value: 123, digits: 3, dropped: 3, fraction: 4, first: 4, tail: true };
    assert_eq!(
        Token::Number { negative: true, mantissa, exponent: -8 },
        scan("-0012.3405e-08".as_bytes(), 3)
    );
    assert_eq!(Token::Infinity { negative: false }, scan(b"+INF", 3));
    assert_eq!(Token::NaN { negative: true, signaling: false }, scan(b"-nan", 3));
    assert_eq!(Token::Invalid, scan(b"-nan.", 3));
    assert_eq!(Token::Invalid, scan(&[0x31, 0xff], 3));
    assert_eq!(Token::Invalid, scan(&[], 3));
    assert_eq!(-1, mantissa.shift());
    assert_eq!(-4, mantissa.fraction_shift());
}

#[test]
fn evaluates_tokens() {
    let mantissa = Mantissa { limit: 3, value: 123, digits: 3, dropped: 3, fraction: 4, first: 4, tail: true };
    assert_eq!(
        Value::Finite(true, 123, Some(Excess { first: 4, tail: true }), -9),
        evaluate(Token::Number { negative: true, mantissa, exponent: -8 })
    );
    assert_eq!(Value::NaN(false, false), evaluate(Token::Invalid));
    assert_eq!(Value::Infinity(true), evaluate(Token::Infinity { negative: true }));
    assert_eq!(Value::NaN(true, true), evaluate(Token::NaN { negative: true, signaling: true }));
}

#[test]
fn states_are_distinct() {
    assert!(State::BeginNumber != State::LeadingZeros);
    assert!(State::Inf8y == State::Inf8y);
}
