use poke::bn::{BigNum, BigNumArb};
use poke::limbs::{le_bytes_to_le_words, le_words_to_le_bytes};

#[test]
fn word_bn_is_inverse_of_byte_bn() {
    let mut bn_bytes = vec![0u8; 43];
    for (i, b) in bn_bytes.iter_mut().enumerate().take(42) {
        *b = (i as u8).wrapping_mul(37).wrapping_add(11);
    }
    bn_bytes[42] = 1;

    let bn = BigNumArb::from_le_bytes(&bn_bytes);
    let bn_words = bn.as_le_words();
    let bn_bytes_roundtrip = BigNumArb::new(bn_words);

    assert_eq!(bn.as_le_words(), bn_bytes_roundtrip.as_le_words());
    assert_eq!(bn.nbits(), bn_bytes_roundtrip.nbits());
    assert_eq!(bn.as_le_words().len(), 6);
    assert_eq!(bn.nbits(), 42 * 8 + 1);
}

#[test]
fn byte_bn_is_inverse_of_word_bn() {
    let mut bn_bytes = [0u8; 48];
    for (i, b) in bn_bytes.iter_mut().enumerate() {
        *b = (i as u8).wrapping_mul(91).wrapping_add(3);
    }
    for b in bn_bytes.iter_mut().skip(43) {
        *b = 0;
    }
    let bn_words = le_bytes_to_le_words(&bn_bytes);
    let bn = BigNumArb::new(&bn_words);
    let bn_words_roundtrip = bn.as_le_words();

    assert_eq!(bn_words.as_slice(), bn_words_roundtrip);
}

#[test]
fn le_bytes_to_le_words_pads_last_word() {
    let words = le_bytes_to_le_words(&[1, 2, 3, 4, 5, 6, 7, 8, 9]);
    assert_eq!(words, vec![0x0807060504030201, 9]);
    assert_eq!(le_bytes_to_le_words(&[]), Vec::<u64>::new());
}

#[test]
fn le_words_to_le_bytes_strips_zero_bytes() {
    let (bytes, bitlen) = le_words_to_le_bytes(&[0x0102, 0]);
    assert_eq!(bytes, vec![2, 1]);
    assert_eq!(bitlen, 9);
    let (bytes, bitlen) = le_words_to_le_bytes(&[0, 0]);
    assert_eq!(bytes, vec![0]);
    assert_eq!(bitlen, 0);
}

#[test]
fn zero_and_one() {
    let zero = BigNum::<3>::zero();
    assert_eq!(zero.as_le_words(), &[0, 0, 0]);
    assert_eq!(zero.nbits(), 0);
    let one = BigNum::<1>::one();
    assert_eq!(one.as_le_words(), &[1]);
    assert_eq!(one.nbits(), 1);
    assert_eq!(one.to_le_bytes(), vec![1]);
    // With more words every word is 1, and the recorded bit length stays 1.
    let ones = BigNum::<3>::one();
    assert_eq!(ones.as_le_words(), &[1, 1, 1]);
    assert_eq!(ones.nbits(), 1);
}

#[test]
fn new_extends_and_cuts() {
    let bn = BigNum::<3>::new(&[5, 1]);
    assert_eq!(bn.as_le_words(), &[5, 1, 0]);
    assert_eq!(bn.nbits(), 65);
    let bn = BigNum::<1>::new(&[5, 1]);
    assert_eq!(bn.as_le_words(), &[5]);
    assert_eq!(bn.nbits(), 3);
}

#[test]
fn bytes_roundtrip() {
    let bn = BigNum::<2>::new(&[0x0000_0000_00ab_cdef, 0x1234]);
    let bytes = bn.to_le_bytes();
    assert_eq!(bytes, vec![0xef, 0xcd, 0xab, 0, 0, 0, 0, 0, 0x34, 0x12]);
    let back = BigNum::<2>::from_le_bytes(&bytes);
    assert_eq!(back.as_le_words(), bn.as_le_words());
    assert_eq!(back.nbits(), bn.nbits());
    assert_eq!(bn.nbits(), 64 + 13);
}

#[test]
fn decimal_string() {
    let bn = BigNum::<2>::new(&[5, 1]);
    assert_eq!(bn.to_decimal_string(), "18446744073709551621");
    assert_eq!(BigNum::<2>::zero().to_decimal_string(), "0");
}

#[test]
fn primes_and_powers() {
    assert_eq!(BigNum::<1>::from_prime(547).as_le_words(), &[547]);
    assert_eq!(BigNum::<1>::from_prime_power(3, 5).as_le_words(), &[243]);
    assert_eq!(BigNum::<1>::from_prime_power(5, 0).as_le_words(), &[1]);
    assert_eq!(BigNum::<1>::from_prime_power(2, 64).as_le_words(), &[0]);
    assert_eq!(BigNum::<2>::from_prime_power(2, 64).as_le_words(), &[0, 1]);
    let bn = BigNum::<2>::from_prime_factors(&[(2, 3), (3, 2), (7, 1)]);
    assert_eq!(bn.as_le_words(), &[504, 0]);
    assert_eq!(bn.nbits(), 9);
}

#[test]
fn widening_mul_is_exact() {
    let a = BigNum::<1>::new(&[u64::MAX]);
    let b = BigNum::<1>::new(&[u64::MAX]);
    let c: BigNum<2> = a.widening_mul::<1, 2>(&b);
    assert_eq!(c.as_le_words(), &[1, u64::MAX - 1]);
    assert_eq!(c.nbits(), 128);
}

#[test]
fn truncate_caps_bit_length() {
    let bn = BigNum::<2>::new(&[5, 1]);
    let t: BigNum<1> = bn.truncate::<1>();
    assert_eq!(t.as_le_words(), &[5]);
    assert_eq!(t.nbits(), 64);
    let small = BigNum::<2>::new(&[5, 0]);
    let t: BigNum<1> = small.truncate::<1>();
    assert_eq!(t.as_le_words(), &[5]);
    assert_eq!(t.nbits(), 3);
}

#[test]
fn widen_extends() {
    let bn = BigNum::<1>::new(&[9]);
    let w: BigNum<3> = bn.widen::<3>();
    assert_eq!(w.as_le_words(), &[9, 0, 0]);
}

#[test]
fn add_sub_wrap() {
    let max = BigNum::<1>::new(&[u64::MAX]);
    let one = BigNum::<1>::one();
    assert_eq!(max.add(&one).as_le_words(), &[0]);
    let zero = BigNum::<1>::zero();
    assert_eq!(zero.sub(&one).as_le_words(), &[u64::MAX]);
    let a = BigNum::<2>::new(&[u64::MAX, 3]);
    let b = BigNum::<2>::new(&[1, 0]);
    let s = a.add(&b);
    assert_eq!(s.as_le_words(), &[0, 4]);
    assert_eq!(s.sub(&b).as_le_words(), a.as_le_words());
}

#[test]
fn multiplications() {
    let a = BigNum::<2>::new(&[u64::MAX, 0]);
    assert_eq!(a.mul_u64(3).as_le_words(), &[u64::MAX - 2, 2]);
    let b = BigNum::<2>::new(&[2, 1]);
    // (2^64 - 1) * (2^64 + 2) = 2^128 + 2^64 - 2, modulo 2^128
    assert_eq!(a.mul(&b).as_le_words(), &[u64::MAX - 1, 0]);
    let mut c = BigNum::<2>::new(&[7, 0]);
    c.mul_assign(&b);
    assert_eq!(c.as_le_words(), &[14, 7]);
    c.add_assign(&b);
    assert_eq!(c.as_le_words(), &[16, 8]);
    assert_eq!(c.nbits(), 68);
}

#[test]
fn comparison_and_divisibility() {
    let a = BigNum::<2>::new(&[5, 1]);
    let b = BigNum::<2>::new(&[6, 0]);
    assert!(a.ge(&b));
    assert!(!b.ge(&a));
    assert!(a.ge(&a));
    assert!(!a.is_divisible_by_two());
    assert!(b.is_divisible_by_two());
    // 2^64 + 5 = 18446744073709551621 = 3 * 6148914691236517207
    assert!(a.is_divisible_by_special_prime(3));
    assert!(!a.is_divisible_by_special_prime(5));
    assert!(!a.is_divisible_by_special_prime(17));
    let c = BigNum::<2>::new(&[12, 3]);
    // 3 * 2^64 + 12 = 3 * (2^64 + 4), and 2^64 + 4 = 5 * 3689348814741910324
    assert!(c.is_divisible_by_special_prime(5));
    assert!(c.is_divisible_by_special_prime(3));
}

#[test]
fn le_bytes_are_as_long_as_the_bits_need() {
    assert_eq!(BigNum::<2>::new(&[511]).to_le_bytes(), vec![255, 1]);
    assert_eq!(BigNum::<2>::new(&[7]).to_le_bytes(), vec![7]);
    assert_eq!(BigNum::<2>::zero().to_le_bytes(), vec![0]);
    let b = BigNum::<2>::new(&[0, 1]);
    assert_eq!(b.to_le_bytes().len(), (b.nbits() + 7) / 8);
    let back = BigNum::<2>::from_le_bytes(&b.to_le_bytes());
    assert_eq!(back.as_le_words(), b.as_le_words());
}

#[test]
fn residue_mod_special_sums_words() {
    // 2^64 = 1 (mod 3) and (mod 5): [7, 1] is 7 + 2^64.
    let b = BigNum::<2>::new(&[7, 1]);
    assert_eq!(b.residue_mod_special(3), ((7u128 + (1u128 << 64)) % 3) as u64);
    assert_eq!(b.residue_mod_special(5), ((7u128 + (1u128 << 64)) % 5) as u64);
    assert!(BigNum::<1>::new(&[25]).is_divisible_by_special_prime(5));
}
