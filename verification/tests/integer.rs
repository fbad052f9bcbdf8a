use num_bigint::{BigInt, Sign};
use poke::integer::{bytes_ge, Int};

fn num(v: i64) -> Int {
    Int::from_le_bytes(v < 0, &v.unsigned_abs().to_le_bytes())
}

fn value(x: &Int) -> BigInt {
    let sign = if x.is_negative() { Sign::Minus } else { Sign::Plus };
    BigInt::from_bytes_le(sign, &x.magnitude_le_bytes())
}

fn v(x: i64) -> BigInt {
    BigInt::from(x)
}

#[test]
fn signed_sums_and_differences() {
    assert_eq!(value(&num(7).add(&num(5))), v(12));
    assert_eq!(value(&num(7).add(&num(-9))), v(-2));
    assert_eq!(value(&num(-7).add(&num(9))), v(2));
    assert_eq!(value(&num(-7).add(&num(-9))), v(-16));
    assert_eq!(value(&num(3).sub(&num(10))), v(-7));
    assert_eq!(value(&num(-3).sub(&num(-10))), v(7));
}

#[test]
fn signed_products() {
    assert_eq!(value(&num(-6).mul(&num(7))), v(-42));
    assert_eq!(value(&num(-6).mul(&num(-7))), v(42));
    assert_eq!(value(&num(-12).square()), v(144));
    let big = num(i64::MAX).mul(&num(i64::MAX));
    assert_eq!(value(&big), v(i64::MAX) * v(i64::MAX));
}

#[test]
fn division_rounds_toward_zero() {
    let (q, r) = num(-17).div_rem(&num(5));
    assert_eq!((value(&q), value(&r)), (v(-3), v(-2)));
    let (q, r) = num(17).div_rem(&num(-5));
    assert_eq!((value(&q), value(&r)), (v(-3), v(2)));
    let (q, r) = num(-17).div_rem(&num(-5));
    assert_eq!((value(&q), value(&r)), (v(3), v(-2)));
    assert_eq!(value(&num(29).rem(&num(-17))), v(12));
}

#[test]
fn square_roots_round_down() {
    assert_eq!(value(&num(0).sqrt()), v(0));
    assert_eq!(value(&num(15).sqrt()), v(3));
    assert_eq!(value(&num(16).sqrt()), v(4));
}

#[test]
fn modular_powers_are_non_negative() {
    assert_eq!(value(&num(3).pow_mod(&num(4), &num(7))), v(4));
    // (-4)^3 = -64 = 23 (mod 29)
    assert_eq!(value(&num(-4).pow_mod(&num(3), &num(29))), v(23));
    assert_eq!(value(&num(-4).pow_mod(&num(2), &num(29))), v(16));
    assert_eq!(value(&num(-29).pow_mod(&num(3), &num(29))), v(0));
    assert_eq!(value(&num(5).pow_mod(&num(0), &num(29))), v(1));
}

#[test]
fn shifts_and_powers_of_two() {
    assert_eq!(value(&Int::pow2(70)), v(1) << 70);
    assert_eq!(value(&num(1000).shr(3)), v(125));
    assert_eq!(num(40).trailing_zeros(), 3);
    assert_eq!(num(41).trailing_zeros(), 0);
}

#[test]
fn comparisons_by_value() {
    let negative_zero = Int::from_le_bytes(true, &[0]);
    assert!(negative_zero.is_zero());
    assert!(!negative_zero.is_negative());
    assert!(negative_zero.equals(&num(0)));
    assert!(num(-3).ge(&num(-5)));
    assert!(!num(-5).ge(&num(-3)));
    assert!(num(2).ge(&num(-100)));
    assert!(!num(-1).ge(&num(0)));
    assert_eq!(value(&num(-8).abs()), v(8));
    assert_eq!(value(&num(-8).neg()), v(8));
    assert_eq!(value(&num(-8).duplicate()), v(-8));
    assert_eq!(value(&Int::from_u8(200)), v(200));
}

#[test]
fn bytes_ge_compares_values() {
    assert!(bytes_ge(&[1, 0, 0], &[1]));
    assert!(bytes_ge(&[], &[0, 0]));
    assert!(!bytes_ge(&[255], &[0, 1]));
    assert!(bytes_ge(&[0, 2], &[255, 1]));
    assert!(!bytes_ge(&[3, 4], &[4, 4]));
}
