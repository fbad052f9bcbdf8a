//! Modular inversion of big numbers.
use crate::bn::BigNum;
use crate::limbs::{bytes_value, words_value};
use num_bigint::BigUint;
use vstd::prelude::*;

verus! {

/// Whether `x` is the inverse of `a` modulo `m`, reduced into `[0, m)`.
pub open spec fn is_inverse_mod(a: nat, x: nat, m: nat) -> bool {
    x < m && (a * x) % m == 1nat % m
}

/// Whether `a` has a multiplicative inverse modulo `m`.
pub open spec fn has_inverse_mod(a: nat, m: nat) -> bool {
    exists|x: nat| #[trigger] is_inverse_mod(a, x, m)
}

/// `BigUint::modinv` of num-bigint on the numbers with the given little-endian bytes,
/// as little-endian words. num-bigint documents that it returns the inverse in
/// `[0, modulus)` exactly when one exists, and `None` otherwise; it panics on a zero
/// modulus, which `requires` rules out.
#[verifier::external_body]
pub(crate) fn biguint_modinv(a: &[u8], m: &[u8]) -> (r: Option<Vec<u64>>)
    requires
        bytes_value(m@) > 0,
    ensures
        r is Some <==> has_inverse_mod(bytes_value(a@), bytes_value(m@)),
        r matches Some(x) ==> is_inverse_mod(bytes_value(a@), words_value(x@), bytes_value(m@)),
{
    match BigUint::from_bytes_le(a).modinv(&BigUint::from_bytes_le(m)) {
        Some(x) => Some(x.to_u64_digits()),
        None => None,
    }
}

/// The inverse of `element` modulo `modulus`, which must be invertible.
pub fn invert_element_mod<const NUM_WORDS: usize>(
    element: &BigNum<NUM_WORDS>,
    modulus: &BigNum<NUM_WORDS>,
) -> (r: BigNum<NUM_WORDS>)
    requires
        modulus.value() > 0,
        has_inverse_mod(element.value(), modulus.value()),
    ensures
        is_inverse_mod(element.value(), r.value(), modulus.value()),
        r.is_canonical(),
{
    modulus.well_formed();
    let inverse = biguint_modinv(element.to_le_bytes().as_slice(), modulus.to_le_bytes().as_slice());
    match inverse {
        Some(x) => {
            let r = BigNum::new(x.as_slice());
            proof {
                vstd::arithmetic::div_mod::lemma_small_mod(
                    words_value(x@),
                    crate::limbs::word_weight(NUM_WORDS as nat),
                );
            }
            r
        },
        None => {
            proof {
                assert(false);
            }
            BigNum::zero()
        },
    }
}

} // verus!
