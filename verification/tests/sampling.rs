use poke::bn::BigNum;
use poke::rand::{
    element_candidate,
    sample_random_element_mod, sample_random_invertible_matrix_mod_special_prime_power,
    sample_random_secret_degree, sample_random_unit_mod_power_of_two,
    sample_random_unit_mod_special_prime_power, words_for_bits,
};

fn value(bn: &BigNum<2>) -> u128 {
    let w = bn.as_le_words();
    w[0] as u128 + ((w[1] as u128) << 64)
}

#[test]
fn elements_are_below_modulus() {
    let m = BigNum::<2>::new(&[1000, 0]);
    for _ in 0..200 {
        let x = sample_random_element_mod(&m);
        assert!(value(&x) < 1000);
        assert_eq!(x.nbits(), 128 - value(&x).leading_zeros() as usize);
    }
    let m = BigNum::<2>::new(&[0, 3]);
    for _ in 0..200 {
        let x = sample_random_element_mod(&m);
        assert!(value(&x) < 3u128 << 64);
    }
}

#[test]
fn units_mod_power_of_two_are_odd() {
    let m = BigNum::<2>::new(&[0, 1 << 10]);
    for _ in 0..200 {
        let x = sample_random_unit_mod_power_of_two(&m);
        assert_eq!(value(&x) % 2, 1);
        assert!(value(&x) < 1u128 << 74);
    }
}

#[test]
fn units_mod_prime_power_avoid_the_prime() {
    let m = BigNum::<2>::from_prime_power(5, 30);
    for _ in 0..200 {
        let x = sample_random_unit_mod_special_prime_power(5, &m);
        assert_ne!(value(&x) % 5, 0);
        assert!(value(&x) < 5u128.pow(30));
    }
}

#[test]
fn secret_degrees_are_coprime() {
    let t = BigNum::<2>::from_prime_power(2, 100);
    for _ in 0..100 {
        let (q, q_dual) = sample_random_secret_degree(&t, &[3, 5]);
        let (q, q_dual) = (value(&q), value(&q_dual));
        assert_eq!(q + q_dual, 1u128 << 100);
        assert_eq!(q % 2, 1);
        for p in [3u128, 5] {
            assert_ne!(q % p, 0);
            assert_ne!(q_dual % p, 0);
        }
    }
}

#[test]
fn matrices_are_invertible_mod_base() {
    let m = BigNum::<2>::from_prime_power(5, 20);
    let modulus = 5u128.pow(20);
    for _ in 0..50 {
        let d = sample_random_invertible_matrix_mod_special_prime_power(5, &m);
        let e: Vec<u128> = [&d[0][0], &d[0][1], &d[1][0], &d[1][1]]
            .iter()
            .map(|x| value(x))
            .collect();
        for x in &e {
            assert!(*x < modulus);
        }
        let det_mod_5 = ((e[0] % 5) * (e[3] % 5) + 25 - (e[1] % 5) * (e[2] % 5)) % 5;
        assert_ne!(det_mod_5, 0);
    }
}

#[test]
fn element_candidate_masks_the_draw_to_the_modulus_bits() {
    let modulus = BigNum::<1>::new(&[1000]);
    let (candidate, below) = element_candidate(&[u64::MAX], &modulus);
    assert_eq!(candidate.as_le_words(), &[1023]);
    assert!(!below);
    let (candidate, below) = element_candidate(&[1500], &modulus);
    assert_eq!(candidate.as_le_words(), &[476]);
    assert!(below);
}

#[test]
fn element_candidate_drops_words_above_the_modulus() {
    // A 65-bit modulus keeps one bit of the second word and nothing of the third.
    let modulus = BigNum::<3>::new(&[5, 1, 0]);
    let (candidate, below) = element_candidate(&[7, u64::MAX, u64::MAX], &modulus);
    assert_eq!(candidate.as_le_words(), &[7, 1, 0]);
    assert!(!below);
    let (candidate, below) = element_candidate(&[4, 2, 9], &modulus);
    assert_eq!(candidate.as_le_words(), &[4, 0, 0]);
    assert!(below);
    // A modulus of exactly 128 bits keeps both lower words whole.
    let modulus = BigNum::<3>::new(&[0, 1 << 63, 0]);
    let (candidate, below) = element_candidate(&[3, u64::MAX, 6], &modulus);
    assert_eq!(candidate.as_le_words(), &[3, u64::MAX, 0]);
    assert!(!below);
}

#[test]
fn matrix_modulo_one_is_zero() {
    // Modulo 1 every entry is 0, and the test value 0 + (1 - 0) = 1 is not divisible by 5.
    let m = BigNum::<1>::new(&[1]);
    let d = sample_random_invertible_matrix_mod_special_prime_power(5, &m);
    for row in &d {
        for x in row {
            assert_eq!(x.as_le_words(), &[0]);
        }
    }
}

#[test]
fn matrices_near_the_word_size_are_invertible() {
    // A modulus of 5 just below 2^64: the test value does not wrap around.
    let m = BigNum::<1>::new(&[5u64.pow(27)]);
    for _ in 0..50 {
        let d = sample_random_invertible_matrix_mod_special_prime_power(5, &m);
        let e: Vec<u128> = [&d[0][0], &d[0][1], &d[1][0], &d[1][1]]
            .iter()
            .map(|x| x.as_le_words()[0] as u128)
            .collect();
        let det_mod_5 = ((e[0] % 5) * (e[3] % 5) + 25 - (e[1] % 5) * (e[2] % 5)) % 5;
        assert_ne!(det_mod_5, 0);
    }
}

#[test]
fn words_for_bits_rounds_up() {
    assert_eq!(words_for_bits(0), 0);
    assert_eq!(words_for_bits(1), 1);
    assert_eq!(words_for_bits(64), 1);
    assert_eq!(words_for_bits(65), 2);
    assert_eq!(words_for_bits(128), 2);
}
