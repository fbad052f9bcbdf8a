use core::marker::PhantomData;

use poke::bn::BigNum;
use poke::modular::{crt2, crt3};
use poke::utilities::invert_element_mod;

#[test]
fn reduce_mod_small_moduli() {
    let a = BigNum::<2>::new(&[5, 1]);
    let r: BigNum<1> = a.reduce_mod(&BigNum::<1>::new(&[7]));
    assert_eq!(r.as_le_words(), &[0]);
    let r: BigNum<1> = a.reduce_mod(&BigNum::<1>::new(&[10]));
    assert_eq!(r.as_le_words(), &[1]);
    assert_eq!(r.nbits(), 1);
}

#[test]
fn mul_mod_reduces_product() {
    let a = BigNum::<1>::new(&[u64::MAX]);
    let b = BigNum::<1>::new(&[u64::MAX]);
    let m = BigNum::<1>::new(&[1_000_000_007]);
    let r = a.mul_mod(&b, &m);
    let expected = ((u64::MAX as u128 % 1_000_000_007) * (u64::MAX as u128 % 1_000_000_007))
        % 1_000_000_007;
    assert_eq!(r.as_le_words(), &[expected as u64]);
}

#[test]
fn mul_mod_power_of_two_masks() {
    let a = BigNum::<2>::new(&[7, 1]);
    let b = BigNum::<1>::new(&[3]);
    let sixteen = BigNum::<1>::new(&[16]);
    assert_eq!(a.mul_mod_power_of_two(&b, &sixteen).as_le_words(), &[5, 0]);
    let two_to_70 = BigNum::<2>::new(&[0, 64]);
    // (2^64 + 7) * 3 = 3 * 2^64 + 21 < 2^70
    assert_eq!(a.mul_mod_power_of_two(&b, &two_to_70).as_le_words(), &[21, 3]);
    let two_to_65 = BigNum::<2>::new(&[0, 2]);
    assert_eq!(a.mul_mod_power_of_two(&b, &two_to_65).as_le_words(), &[21, 1]);
}

#[test]
fn inversion() {
    let a = BigNum::<1>::new(&[3]);
    let m = BigNum::<1>::new(&[7]);
    let inv: BigNum<1> = a.invert_mod_vartime(&m);
    assert_eq!(inv.as_le_words(), &[5]);
    let a = BigNum::<1>::new(&[271]);
    let m = BigNum::<1>::new(&[383]);
    assert_eq!(invert_element_mod(&a, &m).as_le_words(), &[106]);
    let one = a.mul_mod(&invert_element_mod(&a, &m), &m);
    assert_eq!(one.as_le_words(), &[1]);
}

#[test]
fn crt2_combines_residues() {
    let r0 = BigNum::<1>::new(&[5]);
    let r1 = BigNum::<1>::new(&[10]);
    let m0 = BigNum::<1>::new(&[8]);
    let m1 = BigNum::<1>::new(&[27]);
    let i0 = BigNum::<1>::new(&[3]);
    let i1 = BigNum::<1>::new(&[17]);
    let m = BigNum::<1>::new(&[216]);
    let x = crt2::<1, 1, 1, 1, 1>((&r0, &r1), (&m0, &m1), (&i0, &i1), &m, PhantomData);
    assert_eq!(x.as_le_words(), &[37]);
    assert_eq!(37 % 8, 5);
    assert_eq!(37 % 27, 10);
}

#[test]
fn crt3_combines_residues() {
    let r = (BigNum::<1>::new(&[3]), BigNum::<1>::new(&[4]), BigNum::<1>::new(&[7]));
    let duals = (BigNum::<1>::new(&[225]), BigNum::<1>::new(&[200]), BigNum::<1>::new(&[72]));
    let invs = (BigNum::<1>::new(&[1]), BigNum::<1>::new(&[5]), BigNum::<1>::new(&[8]));
    let m = BigNum::<1>::new(&[1800]);
    let x = crt3::<1, 1, 1, 1, 1, 1, 1, 1, 1, 1>(
        (&r.0, &r.1, &r.2),
        (&duals.0, &duals.1, &duals.2),
        (&invs.0, &invs.1, &invs.2),
        &m,
        PhantomData,
    );
    assert_eq!(x.as_le_words(), &[1507]);
}

#[test]
fn crt2_in_wider_numbers() {
    // moduli 2^64 and 3^3: residues 2^64 - 1 and 2
    let r0 = BigNum::<1>::new(&[u64::MAX]);
    let r1 = BigNum::<1>::new(&[2]);
    let m0 = BigNum::<1>::new(&[0]); // 2^64 does not fit one word; use two-word moduli below
    let _ = (r0, r1, m0);
    let r0 = BigNum::<2>::new(&[u64::MAX, 0]);
    let r1 = BigNum::<2>::new(&[2, 0]);
    let m0 = BigNum::<2>::new(&[0, 1]);
    let m1 = BigNum::<2>::new(&[27, 0]);
    // 27^-1 mod 2^64 and (2^64)^-1 mod 27
    let i0_word = {
        let mut x: u64 = 1;
        for _ in 0..7 {
            x = x.wrapping_mul(2u64.wrapping_sub(27u64.wrapping_mul(x)));
        }
        x
    };
    assert_eq!(i0_word.wrapping_mul(27), 1);
    let two64_mod_27 = ((1u128 << 64) % 27) as u64;
    let i1_word = (1..27u64).find(|x| (x * two64_mod_27) % 27 == 1).unwrap();
    let i0 = BigNum::<2>::new(&[i0_word, 0]);
    let i1 = BigNum::<2>::new(&[i1_word, 0]);
    let m = BigNum::<2>::new(&[0, 27]);
    let x = crt2::<2, 2, 2, 6, 6>((&r0, &r1), (&m0, &m1), (&i0, &i1), &m, PhantomData);
    let words = x.as_le_words();
    let value = words[0] as u128 + ((words[1] as u128) << 64);
    assert_eq!(value % (1u128 << 64), u64::MAX as u128);
    assert_eq!(value % 27, 2);
    assert!(value < 27u128 << 64);
}
