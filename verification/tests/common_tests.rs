//! Tests of the helpers on bytes, digits and exponents.

use scidec::common::{is_digit, is_letter, is_sign, mul_add, saturating_add, update_exponent};
use scidec::mantissa::Mantissa;

#[test]
fn classifies_bytes() {
    for b in 0..=255u8 {
        assert_eq!((b as char).is_ascii_digit(), is_digit(b));
        assert_eq!(b == b'+' || b == b'-', is_sign(b));
        assert_eq!(b == b'e' || b == b'E', is_letter(b, b'e'));
        assert_eq!(b == b'y' || b == b'Y', is_letter(b, b'y'));
    }
}

#[test]
fn appends_digits() {
    assert_eq!(7, mul_add(0, b'7'));
    assert_eq!(120, mul_add(12, b'0'));
    assert_eq!(129, mul_add(12, b'9'));
    assert_eq!(
        99999999999999999999999999999999999999,
        mul_add(9999999999999999999999999999999999999, b'9')
    );
}

#[test]
fn appends_exponent_digits_saturating() {
    assert_eq!(0, update_exponent(0, b'0'));
    assert_eq!(129, update_exponent(12, b'9'));
    assert_eq!(2147483647, update_exponent(214748364, b'7'));
    assert_eq!(2147483647, update_exponent(214748364, b'8'));
    assert_eq!(2147483647, update_exponent(214748365, b'0'));
    assert_eq!(2147483647, update_exponent(2147483647, b'0'));
}

#[test]
fn adds_exponents_saturating() {
    assert_eq!(5, saturating_add(2, 3));
    assert_eq!(-1, saturating_add(2, -3));
    assert_eq!(i32::MAX, saturating_add(i32::MAX, 1));
    assert_eq!(i32::MAX, saturating_add(i32::MAX, i32::MAX));
    assert_eq!(i32::MIN, saturating_add(i32::MIN, -1));
    assert_eq!(i32::MIN, saturating_add(i32::MIN, i32::MIN));
    assert_eq!(-1, saturating_add(i32::MAX, i32::MIN));
}

#[test]
fn mantissa_shifts() {
    let empty = Mantissa::new(34);
    assert_eq!(Mantissa { limit: 34, value: 0, digits: 0, dropped: 0, fraction: 0, first: 0, tail: false }, empty);
    assert_eq!(0, empty.shift());
    assert_eq!(0, empty.fraction_shift());
    let mantissa = Mantissa { limit: 2, value: 12, digits: 2, dropped: 5, fraction: 2, first: 3, tail: true };
    assert_eq!(3, mantissa.shift());
    assert_eq!(-2, mantissa.fraction_shift());
    let far = Mantissa { limit: 2, value: 12, digits: 2, dropped: 0, fraction: 2147483648, first: 0, tail: false };
    assert_eq!(i32::MIN, far.shift());
    assert_eq!(i32::MIN, far.fraction_shift());
    let near = Mantissa { limit: 2, value: 12, digits: 2, dropped: 0, fraction: 2147483647, first: 0, tail: false };
    assert_eq!(-2147483647, near.shift());
    assert_eq!(-2147483647, near.fraction_shift());
    let high = Mantissa { limit: 2, value: 12, digits: 2, dropped: 2147483648, fraction: 0, first: 0, tail: false };
    assert_eq!(i32::MAX, high.shift());
}
