//! Modular reduction, inversion, power-of-two reduction and Chinese remaindering on
//! fixed-size big numbers.
use crate::bn::BigNum;
use crate::limbs::{
    lemma_pow2_le, lemma_words_value_injective, lemma_words_value_split,
    lemma_words_value_take_succ, lemma_words_value_update, lemma_words_value_zero_top,
    lemma_words_value_zeros, lemma_word_base, zero_words, zeros, bytes_value, le_words_to_le_bytes, lemma_word_weight_le, lemma_word_weight_pos,
    lemma_words_value_bound, mul_words, word_weight, words_value,
};
use crate::integer::biguint_rem;
use crate::utilities::{biguint_modinv, has_inverse_mod, is_inverse_mod};
use core::marker::PhantomData;
use vstd::arithmetic::div_mod::{
    lemma_add_mod_noop, lemma_mod_mod, lemma_mod_multiples_basic, lemma_mul_mod_noop_right,
    lemma_fundamental_div_mod, lemma_fundamental_div_mod_converse, lemma_mod_bound,
    lemma_mod_multiples_vanish, lemma_mod_twice, lemma_small_mod,
};
use vstd::arithmetic::power2::{
    lemma2_to64, lemma2_to64_rest, lemma_pow2_adds, lemma_pow2_pos, lemma_pow2_strictly_increases, pow2,
};
use vstd::bits::{lemma_u64_low_bits_mask_is_mod, lemma_u64_pow2_no_overflow, lemma_u64_shl_is_mul};
use vstd::prelude::*;

verus! {

/// The bit pattern that keeps word `t` of a number reduced modulo 2^(64j + r).
pub open spec fn power_of_two_mask(t: int, j: int, r: nat) -> u64 {
    if t < j {
        0xffff_ffff_ffff_ffffu64
    } else if t == j {
        (pow2(r) - 1) as u64
    } else {
        0u64
    }
}

/// The words of 2^(64j + r) in `n` words.
pub open spec fn power_of_two_words(n: nat, j: int, r: nat) -> Seq<u64> {
    zero_words(n).update(j, pow2(r) as u64)
}

#[verifier::spinoff_prover]
proof fn lemma_power_of_two_words(n: nat, k: nat)
    requires
        pow2(k) < word_weight(n),
    ensures
        k / 64 < n,
        words_value(power_of_two_words(n, (k / 64) as int, k % 64)) == pow2(k),
        pow2(k % 64) <= 0x8000_0000_0000_0000,
        pow2(k % 64) >= 1,
{
    let j = k / 64;
    let r = k % 64;
    if j >= n {
        lemma_pow2_le(64 * n, k);
        assert(false);
    }
    lemma_u64_pow2_no_overflow(r);
    lemma_pow2_le(r, 63);
    lemma_pow2_pos(r);
    lemma2_to64();
    lemma2_to64_rest();
    lemma_words_value_zeros(n);
    lemma_words_value_update(zero_words(n), j as int, pow2(r) as u64);
    lemma_pow2_adds(64 * j, r);
    assert(64 * j + r == k);
    assert((pow2(r) as u64) as nat == pow2(r));
    assert(zero_words(n)[j as int] == 0u64);
    assert((zero_words(n)[j as int] as nat) * word_weight(j) == 0) by (nonlinear_arith)
        requires
            zero_words(n)[j as int] == 0u64,
    ;
    assert(words_value(zero_words(n).update(j as int, pow2(r) as u64)) == pow2(r) * word_weight(j));
    assert(word_weight(j) == pow2(64 * j));
    assert(pow2(r) * pow2(64 * j) == pow2(64 * j) * pow2(r)) by (nonlinear_arith);
}

/// Two's complement negation of a word, as `(!m).wrapping_add(1)` computes it.
proof fn lemma_negate_word(m: u64)
    ensures
        m == 0 ==> (!m).wrapping_add(1) == 0,
        m != 0 ==> (!m).wrapping_add(1) == ((!m) + 1) as u64,
        (m | 0u64.wrapping_sub(m)) >> 63u64 == if m == 0 {
            0u64
        } else {
            1u64
        },
{
    assert(!m == 0xffff_ffff_ffff_ffffu64 - m) by (bit_vector);
    if m != 0 {
        assert(m != 0 ==> (m | ((!m) + 1) as u64) >> 63u64 == 1u64) by (bit_vector);
    } else {
        assert((0u64 | 0u64) >> 63u64 == 0u64) by (bit_vector);
    }
}

proof fn lemma_low_mask_of_power(r: u64)
    requires
        r < 64,
    ensures
        !(1u64 << r) != 0xffff_ffff_ffff_ffffu64,
        0xffff_ffff_ffff_ffffu64 ^ ((!(1u64 << r)) + 1) as u64 == ((1u64 << r) - 1) as u64,
        1u64 << r != 0,
{
    assert(r < 64 ==> !(1u64 << r) != 0xffff_ffff_ffff_ffffu64) by (bit_vector);
    assert(r < 64 ==> 0xffff_ffff_ffff_ffffu64 ^ ((!(1u64 << r)) + 1) as u64 == ((1u64 << r)
        - 1) as u64) by (bit_vector);
    assert(r < 64 ==> 1u64 << r != 0) by (bit_vector);
}

proof fn lemma_xor_facts(x: u64)
    ensures
        x ^ 0u64 == x,
        0xffff_ffff_ffff_ffffu64 ^ 0xffff_ffff_ffff_ffffu64 == 0u64,
        x & 0xffff_ffff_ffff_ffffu64 == x,
        x & 0u64 == 0u64,
{
    assert(x ^ 0u64 == x) by (bit_vector);
    assert(0xffff_ffff_ffff_ffffu64 ^ 0xffff_ffff_ffff_ffffu64 == 0u64) by (bit_vector);
    assert(x & 0xffff_ffff_ffff_ffffu64 == x) by (bit_vector);
    assert(x & 0u64 == 0u64) by (bit_vector);
}

/// `(x + a * y) % (a * b) == x + a * (y % b)` when `0 <= x < a`.
proof fn lemma_mod_of_scaled_sum(x: int, y: int, a: int, b: int)
    requires
        0 <= x < a,
        b > 0,
        y >= 0,
    ensures
        (x + a * y) % (a * b) == x + a * (y % b),
{
    lemma_fundamental_div_mod(y, b);
    lemma_mod_bound(y, b);
    let q = y / b;
    let s = y % b;
    assert(x + a * y == q * (a * b) + (x + a * s)) by (nonlinear_arith)
        requires
            y == b * q + s,
    ;
    assert(x + a * s < a * b) by (nonlinear_arith)
        requires
            0 <= x < a,
            0 <= s < b,
    ;
    assert(0 <= a * s) by (nonlinear_arith)
        requires
            0 <= x < a,
            0 <= s,
    ;
    lemma_fundamental_div_mod_converse(x + a * y, a * b, q, x + a * s);
}

/// Distinct exponents give distinct powers of two.
proof fn lemma_pow2_value_determines_exponent(a: nat, b: nat)
    requires
        pow2(a) == pow2(b),
    ensures
        a == b,
{
    if a < b {
        lemma_pow2_strictly_increases(a, b);
    } else if b < a {
        lemma_pow2_strictly_increases(b, a);
    }
}

/// Keeping the words below `j` and the low `r` bits of word `j` reduces modulo
/// 2^(64j + r).
pub(crate) proof fn lemma_masked_value(p: Seq<u64>, q: Seq<u64>, j: nat, r: nat, n: nat)
    requires
        j < n <= p.len(),
        r < 64,
        q.len() == n,
        forall|t: int| 0 <= t < j ==> q[t] == p[t],
        q[j as int] == p[j as int] % (pow2(r) as u64),
        forall|t: int| j < t < n ==> q[t] == 0,
    ensures
        words_value(q) == words_value(p) % pow2(64 * j + r),
{
    lemma_u64_pow2_no_overflow(r);
    lemma_pow2_pos(r);
    lemma_words_value_zero_top(q, j + 1);
    lemma_words_value_take_succ(q, j as int);
    assert(q.take(j as int) =~= p.take(j as int));
    lemma_words_value_split(p, j);
    let rest = p.skip(j as int);
    lemma_words_value_split(rest, 1);
    let s1 = seq![p[j as int]];
    assert(rest.take(1) =~= s1);
    assert(s1.len() == 1);
    assert(s1.last() == p[j as int]);
    assert(s1.drop_last() =~= Seq::<u64>::empty());
    assert(words_value(s1.drop_last()) == 0);
    lemma2_to64();
    let pj = p[j as int] as int;
    assert(words_value(s1) == pj * word_weight(0));
    assert(pj * word_weight(0) == pj) by (nonlinear_arith)
        requires
            word_weight(0) == 1,
    ;
    let z = words_value(rest.skip(1)) as int;
    let wj = word_weight(j) as int;
    let pr = pow2(r) as int;
    lemma_pow2_adds(r, (64 - r) as nat);
    let c = pow2((64 - r) as nat) as int;
    // rest = pj + 2^64 * z = pj + pr * (c * z)
    assert(word_weight(1) * z == pr * (c * z)) by (nonlinear_arith)
        requires
            word_weight(1) == pr * c,
    ;
    lemma_mod_multiples_vanish(c * z, pj, pr);
    lemma_words_value_bound(p.take(j as int));
    lemma_word_weight_pos(j);
    lemma_pow2_adds(64 * j, r);
    lemma_mod_of_scaled_sum(
        words_value(p.take(j as int)) as int,
        words_value(rest) as int,
        wj,
        pr,
    );
    assert(pj * wj == wj * pj) by (nonlinear_arith);
    assert(words_value(rest) == pj + pr * (c * z));
    assert((pr * (c * z) + pj) % pr == pj % pr);
    assert(words_value(rest) % pow2(r) == pj % pr);
    assert(q[j as int] as int == pj % pr);
    assert(words_value(q) == words_value(p.take(j as int)) + (pj % pr) * wj);
    assert(words_value(p) == words_value(p.take(j as int)) + wj * words_value(rest));
    assert(pow2(64 * j + r) == wj * pr);
    assert((pj % pr) * wj == wj * (pj % pr)) by (nonlinear_arith);
}

impl<const NUM_WORDS: usize> BigNum<NUM_WORDS> {
    /// The product with `rhs` reduced modulo `modulus`, for a modulus that is a power of
    /// two: the product is masked down to the bits below the modulus's single set bit.
    pub fn mul_mod_power_of_two<const NUM_WORDS_RHS: usize, const NUM_WORDS_MOD: usize>(
        &self,
        rhs: &BigNum<NUM_WORDS_RHS>,
        modulus: &BigNum<NUM_WORDS_MOD>,
    ) -> (r: Self)
        requires
            NUM_WORDS_MOD <= NUM_WORDS,
            NUM_WORDS + NUM_WORDS_RHS <= usize::MAX,
        ensures
            forall|k: nat|
                modulus.value() == pow2(k) ==> #[trigger] r.value() == (self.value()
                    * rhs.value()) % pow2(k),
            r.is_canonical(),
    {
        self.well_formed();
        rhs.well_formed();
        modulus.well_formed();
        let mut result = mul_words(self.as_le_words(), rhs.as_le_words());
        let modulus_words = modulus.as_le_words();
        let ghost is_p2 = exists|k: nat| modulus.value() == pow2(k);
        let ghost k: nat = choose|k: nat| modulus.value() == pow2(k);
        let ghost j: int = (k / 64) as int;
        let ghost rr: nat = k % 64;
        proof {
            if is_p2 {
                lemma_words_value_bound(modulus_words@);
                lemma_power_of_two_words(NUM_WORDS_MOD as nat, k);
                lemma_words_value_injective(
                    modulus_words@,
                    power_of_two_words(NUM_WORDS_MOD as nat, j, rr),
                );
            }
        }
        let mut ctl: u64 = 0xffff_ffff_ffff_ffff;
        let mut mask = zeros(NUM_WORDS);
        let mut i: usize = 0;
        while i < NUM_WORDS_MOD
            invariant
                NUM_WORDS_MOD <= NUM_WORDS,
                modulus_words@.len() == NUM_WORDS_MOD,
                mask@.len() == NUM_WORDS,
                i <= NUM_WORDS_MOD,
                j >= 0,
                is_p2 ==> j < NUM_WORDS_MOD && rr < 64 && pow2(rr) <= 0x8000_0000_0000_0000
                    && pow2(rr) >= 1,
                is_p2 ==> modulus_words@ == power_of_two_words(NUM_WORDS_MOD as nat, j, rr),
                is_p2 ==> ctl == if i <= j {
                    0xffff_ffff_ffff_ffffu64
                } else {
                    0u64
                },
                is_p2 ==> forall|t: int| 0 <= t < i ==> mask@[t] == power_of_two_mask(t, j, rr),
                forall|t: int| i <= t < NUM_WORDS ==> mask@[t] == 0,
            decreases NUM_WORDS_MOD - i,
        {
            let modulus_word = modulus_words[i];
            let negated = (!modulus_word).wrapping_add(1);
            let ghost before = mask@;
            mask.set(i, ctl ^ negated);
            // 0 if modulus_word is 0, 1 otherwise
            let modulus_word_is_nonzero = (modulus_word | 0u64.wrapping_sub(modulus_word)) >> 63;
            // Expand the bit to the entire word
            let modulus_word_is_nonzero = 0u64.wrapping_sub(modulus_word_is_nonzero);
            proof {
                lemma_negate_word(modulus_word);
                lemma_xor_facts(ctl);
                if is_p2 {
                    lemma_u64_shl_is_mul(1, rr as u64);
                    lemma_low_mask_of_power(rr as u64);
                    if i as int == j {
                        assert(modulus_word == 1u64 << (rr as u64));
                    } else {
                        assert(zero_words(NUM_WORDS_MOD as nat)[i as int] == 0u64);
                        assert(modulus_word == 0);
                    }
                    assert(mask@[i as int] == power_of_two_mask(i as int, j, rr));
                }
            }
            ctl = ctl ^ modulus_word_is_nonzero;
            proof {
                lemma_xor_facts(0u64);
            }
            i += 1;
        }
        let ghost product = result@;
        let mut t: usize = 0;
        while t < NUM_WORDS
            invariant
                NUM_WORDS_MOD <= NUM_WORDS,
                t <= NUM_WORDS,
                mask@.len() == NUM_WORDS,
                product.len() == NUM_WORDS + NUM_WORDS_RHS,
                result@.len() == product.len(),
                forall|u: int| 0 <= u < t ==> result@[u] == product[u] & mask@[u],
                forall|u: int| t <= u < product.len() ==> result@[u] == product[u],
            decreases NUM_WORDS - t,
        {
            let w = result[t] & mask[t];
            result.set(t, w);
            t += 1;
        }
        let r = BigNum::new(result.as_slice());
        proof {
            assert forall|kk: nat| modulus.value() == pow2(kk) implies #[trigger] r.value() == (
            self.value() * rhs.value()) % pow2(kk) by {
                assert(is_p2);
                lemma_pow2_value_determines_exponent(kk, k);
                let q = result@.take(NUM_WORDS as int);
                assert forall|u: int| 0 <= u < j implies q[u] == product[u] by {
                    lemma_xor_facts(product[u]);
                }
                assert(q[j] == product[j] % (pow2(rr) as u64)) by {
                    lemma_u64_low_bits_mask_is_mod(product[j], rr);
                }
                assert forall|u: int| j < u < NUM_WORDS implies q[u] == 0 by {
                    lemma_xor_facts(product[u]);
                }
                lemma_masked_value(product, q, j as nat, rr, NUM_WORDS as nat);
                assert(64 * (j as nat) + rr == k);
                lemma_words_value_bound(q);
                lemma_small_mod(words_value(q), word_weight(NUM_WORDS as nat));
                assert(result@.len() >= NUM_WORDS);
            }
        }
        r
    }

    /// The number reduced modulo `modulus`.
    pub fn reduce_mod<const NUM_WORDS_MOD: usize>(&self, modulus: &BigNum<NUM_WORDS_MOD>) -> (r:
        BigNum<NUM_WORDS_MOD>)
        requires
            modulus.value() > 0,
        ensures
            r.value() == self.value() % modulus.value(),
            r.is_canonical(),
    {
        modulus.well_formed();
        let this = self.to_le_bytes();
        let m = modulus.to_le_bytes();
        let result = biguint_rem(this.as_slice(), m.as_slice());
        proof {
            lemma_mod_bound(self.value() as int, modulus.value() as int);
            lemma_small_mod(bytes_value(result@), word_weight(NUM_WORDS_MOD as nat));
        }
        BigNum::from_le_bytes(result.as_slice())
    }

    /// The product with `rhs`, reduced modulo `modulus`.
    pub fn mul_mod(&self, rhs: &Self, modulus: &Self) -> (r: Self)
        requires
            modulus.value() > 0,
            NUM_WORDS <= usize::MAX / 128,
        ensures
            r.value() == (self.value() * rhs.value()) % modulus.value(),
            r.is_canonical(),
    {
        modulus.well_formed();
        let product = mul_words(self.as_le_words(), rhs.as_le_words());
        let (product_bytes, _) = le_words_to_le_bytes(product.as_slice());
        let m = modulus.to_le_bytes();
        let result = biguint_rem(product_bytes.as_slice(), m.as_slice());
        proof {
            lemma_mod_bound((self.value() * rhs.value()) as int, modulus.value() as int);
            lemma_small_mod(bytes_value(result@), word_weight(NUM_WORDS as nat));
        }
        BigNum::from_le_bytes(result.as_slice())
    }

    /// The inverse modulo `modulus` of a number that is a unit modulo `modulus`.
    pub fn invert_mod_vartime<const NUM_WORDS_MOD: usize>(
        &self,
        modulus: &BigNum<NUM_WORDS_MOD>,
    ) -> (r: BigNum<NUM_WORDS_MOD>)
        requires
            modulus.value() > 0,
            has_inverse_mod(self.value(), modulus.value()),
        ensures
            is_inverse_mod(self.value(), r.value(), modulus.value()),
            r.is_canonical(),
    {
        modulus.well_formed();
        let this = self.to_le_bytes();
        let m = modulus.to_le_bytes();
        match biguint_modinv(this.as_slice(), m.as_slice()) {
            Some(inverse) => {
                proof {
                    lemma_small_mod(words_value(inverse@), word_weight(NUM_WORDS_MOD as nat));
                }
                BigNum::new(inverse.as_slice())
            },
            None => {
                proof {
                    assert(false);
                }
                BigNum::zero()
            },
        }
    }
}


/// Multiplying by the inverse gives one: when `inverse` is what `invert_mod_vartime`
/// returns for `a` and `product` is what `mul_mod` returns for `a` and `inverse`,
/// `product` is one (zero when the modulus is one).
pub proof fn lemma_mul_mod_by_inverse(a: nat, inverse: nat, m: nat, product: nat)
    requires
        m > 0,
        is_inverse_mod(a, inverse, m),
        product == (a * inverse) % m,
    ensures
        product == 1nat % m,
{
}

/// The product `a * b` as a `w`-sized multiplication leaves it: reduced modulo `w`.
pub open spec fn wrapping_mul(a: nat, b: nat, w: nat) -> nat {
    (a * b) % w
}

/// The term `residue * inverse * cofactor` as computed in numbers modulo `w`.
pub open spec fn crt_term(residue: nat, inverse: nat, cofactor: nat, w: nat) -> nat {
    wrapping_mul(wrapping_mul(residue % w, inverse % w, w), cofactor % w, w)
}

/// Adds `x` and `y` modulo `w`, then reduces modulo `m`.
pub open spec fn add_then_reduce(x: nat, y: nat, m: nat, w: nat) -> nat {
    ((x + y) % w) % m
}

/// What `crt2` computes: the sum of the two terms, each reduced modulo `m`, added in
/// `w_xy`-sized numbers and reduced modulo `m`.
pub open spec fn crt2_value(
    residues: (nat, nat),
    partial_moduli: (nat, nat),
    inv_partial_moduli: (nat, nat),
    m: nat,
    w_xxy: nat,
    w_xyy: nat,
    w_xy: nat,
) -> nat {
    let t0 = crt_term(residues.0, inv_partial_moduli.0, partial_moduli.1, w_xxy);
    let t1 = crt_term(residues.1, inv_partial_moduli.1, partial_moduli.0, w_xyy);
    add_then_reduce(t0 % m, t1 % m, m, w_xy)
}

/// What `crt3` computes: the three terms, each reduced modulo `m`, added one after the
/// other in `w_xyz`-sized numbers, reducing modulo `m` after each addition.
pub open spec fn crt3_value(
    residues: (nat, nat, nat),
    duals: (nat, nat, nat),
    inv_duals: (nat, nat, nat),
    m: nat,
    w_xxyz: nat,
    w_xyyz: nat,
    w_xyzz: nat,
    w_xyz: nat,
) -> nat {
    let t0 = crt_term(residues.0, inv_duals.0, duals.0, w_xxyz);
    let t1 = crt_term(residues.1, inv_duals.1, duals.1, w_xyyz);
    let t2 = crt_term(residues.2, inv_duals.2, duals.2, w_xyzz);
    add_then_reduce(add_then_reduce(t0 % m, t1 % m, m, w_xyz), t2 % m, m, w_xyz)
}

/// The solution of `x = residues.0 (mod partial_moduli.0)` and
/// `x = residues.1 (mod partial_moduli.1)` modulo `full_modulus`, from the inverse of
/// each partial modulus modulo the other one.
pub fn crt2<
    const NUM_WORDS_X: usize,
    const NUM_WORDS_Y: usize,
    const NUM_WORDS_XY: usize,
    const NUM_WORDS_XXY: usize,
    const NUM_WORDS_XYY: usize,
>(
    residues: (&BigNum<NUM_WORDS_X>, &BigNum<NUM_WORDS_Y>),
    partial_moduli: (&BigNum<NUM_WORDS_X>, &BigNum<NUM_WORDS_Y>),
    inv_partial_moduli: (&BigNum<NUM_WORDS_X>, &BigNum<NUM_WORDS_Y>),
    full_modulus: &BigNum<NUM_WORDS_XY>,
    _intermediate_bignum_sizes: PhantomData<([(); NUM_WORDS_XXY], [(); NUM_WORDS_XYY])>,
) -> (r: BigNum<NUM_WORDS_XY>)
    requires
        full_modulus.value() > 0,
        BigNum::<NUM_WORDS_XXY>::size_ok(),
        BigNum::<NUM_WORDS_XYY>::size_ok(),
    ensures
        r.value() == crt2_value(
            (residues.0.value(), residues.1.value()),
            (partial_moduli.0.value(), partial_moduli.1.value()),
            (inv_partial_moduli.0.value(), inv_partial_moduli.1.value()),
            full_modulus.value(),
            word_weight(NUM_WORDS_XXY as nat),
            word_weight(NUM_WORDS_XYY as nat),
            word_weight(NUM_WORDS_XY as nat),
        ),
        r.value() < full_modulus.value(),
        r.is_canonical(),
        ({
            let (r0, r1) = (residues.0.value(), residues.1.value());
            let (m0, m1) = (partial_moduli.0.value(), partial_moduli.1.value());
            let (i0, i1) = (inv_partial_moduli.0.value(), inv_partial_moduli.1.value());
            let w_xxy = word_weight(NUM_WORDS_XXY as nat);
            let w_xyy = word_weight(NUM_WORDS_XYY as nat);
            (m0 > 0 && m1 > 0 && full_modulus.value() == m0 * m1 && (i0 * m1) % m0 == 1nat % m0
                && (i1 * m0) % m1 == 1nat % m1 && r0 < w_xxy && i0 < w_xxy && m1 < w_xxy && r0 * i0
                * m1 < w_xxy && r1 < w_xyy && i1 < w_xyy && m0 < w_xyy && r1 * i1 * m0 < w_xyy && 2
                * (m0 * m1) <= word_weight(NUM_WORDS_XY as nat)) ==> r.value() % m0 == r0 % m0
                && r.value() % m1 == r1 % m1
        }),
{
    full_modulus.well_formed();
    let mut result = BigNum::<NUM_WORDS_XY>::zero();

    // Solution mod x^ex
    let partial_result: BigNum<NUM_WORDS_XXY> = residues.0.widen::<NUM_WORDS_XXY>().mul(
        &inv_partial_moduli.0.widen(),
    ).mul(&partial_moduli.1.widen());
    result.add_assign(&partial_result.reduce_mod(full_modulus));

    // Solution mod y^ey
    let partial_result: BigNum<NUM_WORDS_XYY> = residues.1.widen::<NUM_WORDS_XYY>().mul(
        &inv_partial_moduli.1.widen(),
    ).mul(&partial_moduli.0.widen());
    result = result.add(&partial_result.reduce_mod(full_modulus)).reduce_mod(full_modulus);
    proof {
        let m = full_modulus.value();
        let w = word_weight(NUM_WORDS_XY as nat);
        lemma_mod_bound(
            crt_term(
                residues.0.value(),
                inv_partial_moduli.0.value(),
                partial_moduli.1.value(),
                word_weight(NUM_WORDS_XXY as nat),
            ) as int,
            m as int,
        );
        lemma_small_mod(
            crt_term(
                residues.0.value(),
                inv_partial_moduli.0.value(),
                partial_moduli.1.value(),
                word_weight(NUM_WORDS_XXY as nat),
            ) % m,
            w,
        );
        let (m0, m1) = (partial_moduli.0.value(), partial_moduli.1.value());
        let (i0, i1) = (inv_partial_moduli.0.value(), inv_partial_moduli.1.value());
        let (r0, r1) = (residues.0.value(), residues.1.value());
        let w_xxy = word_weight(NUM_WORDS_XXY as nat);
        let w_xyy = word_weight(NUM_WORDS_XYY as nat);
        if m0 > 0 && m1 > 0 && m == m0 * m1 && (i0 * m1) % m0 == 1nat % m0 && (i1 * m0) % m1
            == 1nat % m1 && r0 < w_xxy && i0 < w_xxy && m1 < w_xxy && r0 * i0 * m1 < w_xxy && r1
            < w_xyy && i1 < w_xyy && m0 < w_xyy && r1 * i1 * m0 < w_xyy && 2 * (m0 * m1) <= w {
            lemma_crt2_solves_congruences((r0, r1), (m0, m1), (i0, i1), w_xxy, w_xyy, w);
        }
    }
    result
}

/// The setting in which `crt3` solves its congruences: positive moduli whose product is
/// the full modulus, each dual the product of the other two moduli and inverted modulo
/// its own, and intermediate sizes that hold each term and twice the full modulus.
pub open spec fn crt3_setting(
    residues: (nat, nat, nat),
    moduli: (nat, nat, nat),
    duals: (nat, nat, nat),
    inv_duals: (nat, nat, nat),
    full: nat,
    w_xxyz: nat,
    w_xyyz: nat,
    w_xyzz: nat,
    w_xyz: nat,
) -> bool {
    &&& moduli.0 > 0 && moduli.1 > 0 && moduli.2 > 0
    &&& full == moduli.0 * moduli.1 * moduli.2
    &&& duals.0 == moduli.1 * moduli.2
    &&& duals.1 == moduli.0 * moduli.2
    &&& duals.2 == moduli.0 * moduli.1
    &&& (inv_duals.0 * duals.0) % moduli.0 == 1nat % moduli.0
    &&& (inv_duals.1 * duals.1) % moduli.1 == 1nat % moduli.1
    &&& (inv_duals.2 * duals.2) % moduli.2 == 1nat % moduli.2
    &&& residues.0 < w_xxyz && inv_duals.0 < w_xxyz && duals.0 < w_xxyz
    &&& residues.0 * inv_duals.0 * duals.0 < w_xxyz
    &&& residues.1 < w_xyyz && inv_duals.1 < w_xyyz && duals.1 < w_xyyz
    &&& residues.1 * inv_duals.1 * duals.1 < w_xyyz
    &&& residues.2 < w_xyzz && inv_duals.2 < w_xyzz && duals.2 < w_xyzz
    &&& residues.2 * inv_duals.2 * duals.2 < w_xyzz
    &&& 2 * full <= w_xyz
}

/// The solution of `x = residues.k (mod m_k)` for three moduli, modulo
/// `full_modulus`, from the product of the other two moduli (`duals_of_partial_moduli`)
/// and its inverse modulo `m_k`, for each `k`.
pub fn crt3<
    const NUM_WORDS_X: usize,
    const NUM_WORDS_Y: usize,
    const NUM_WORDS_Z: usize,
    const NUM_WORDS_XY: usize,
    const NUM_WORDS_XZ: usize,
    const NUM_WORDS_YZ: usize,
    const NUM_WORDS_XYZ: usize,
    const NUM_WORDS_XXYZ: usize,
    const NUM_WORDS_XYYZ: usize,
    const NUM_WORDS_XYZZ: usize,
>(
    residues: (&BigNum<NUM_WORDS_X>, &BigNum<NUM_WORDS_Y>, &BigNum<NUM_WORDS_Z>),
    duals_of_partial_moduli: (
        &BigNum<NUM_WORDS_YZ>,
        &BigNum<NUM_WORDS_XZ>,
        &BigNum<NUM_WORDS_XY>,
    ),
    inv_duals_of_partial_moduli: (&BigNum<NUM_WORDS_X>, &BigNum<NUM_WORDS_Y>, &BigNum<NUM_WORDS_Z>),
    full_modulus: &BigNum<NUM_WORDS_XYZ>,
    _intermediate_bignum_sizes: PhantomData<
        ([(); NUM_WORDS_XXYZ], [(); NUM_WORDS_XYYZ], [(); NUM_WORDS_XYZZ]),
    >,
) -> (r: BigNum<NUM_WORDS_XYZ>)
    requires
        full_modulus.value() > 0,
        BigNum::<NUM_WORDS_XXYZ>::size_ok(),
        BigNum::<NUM_WORDS_XYYZ>::size_ok(),
        BigNum::<NUM_WORDS_XYZZ>::size_ok(),
    ensures
        r.value() == crt3_value(
            (residues.0.value(), residues.1.value(), residues.2.value()),
            (
                duals_of_partial_moduli.0.value(),
                duals_of_partial_moduli.1.value(),
                duals_of_partial_moduli.2.value(),
            ),
            (
                inv_duals_of_partial_moduli.0.value(),
                inv_duals_of_partial_moduli.1.value(),
                inv_duals_of_partial_moduli.2.value(),
            ),
            full_modulus.value(),
            word_weight(NUM_WORDS_XXYZ as nat),
            word_weight(NUM_WORDS_XYYZ as nat),
            word_weight(NUM_WORDS_XYZZ as nat),
            word_weight(NUM_WORDS_XYZ as nat),
        ),
        r.value() < full_modulus.value(),
        r.is_canonical(),
        forall|moduli: (nat, nat, nat)|
            #[trigger] crt3_setting(
                (residues.0.value(), residues.1.value(), residues.2.value()),
                moduli,
                (
                    duals_of_partial_moduli.0.value(),
                    duals_of_partial_moduli.1.value(),
                    duals_of_partial_moduli.2.value(),
                ),
                (
                    inv_duals_of_partial_moduli.0.value(),
                    inv_duals_of_partial_moduli.1.value(),
                    inv_duals_of_partial_moduli.2.value(),
                ),
                full_modulus.value(),
                word_weight(NUM_WORDS_XXYZ as nat),
                word_weight(NUM_WORDS_XYYZ as nat),
                word_weight(NUM_WORDS_XYZZ as nat),
                word_weight(NUM_WORDS_XYZ as nat),
            ) ==> r.value() % moduli.0 == residues.0.value() % moduli.0 && r.value() % moduli.1
                == residues.1.value() % moduli.1 && r.value() % moduli.2 == residues.2.value()
                % moduli.2,
{
    full_modulus.well_formed();
    let mut result = BigNum::<NUM_WORDS_XYZ>::zero();

    // Solution mod x^ex
    let partial_result: BigNum<NUM_WORDS_XXYZ> = residues.0.widen::<NUM_WORDS_XXYZ>().mul(
        &inv_duals_of_partial_moduli.0.widen(),
    ).mul(&duals_of_partial_moduli.0.widen());
    result.add_assign(&partial_result.reduce_mod(full_modulus));

    // Solution mod y^ey
    let partial_result: BigNum<NUM_WORDS_XYYZ> = residues.1.widen::<NUM_WORDS_XYYZ>().mul(
        &inv_duals_of_partial_moduli.1.widen(),
    ).mul(&duals_of_partial_moduli.1.widen());
    result = result.add(&partial_result.reduce_mod(full_modulus)).reduce_mod(full_modulus);

    // Solution mod z^ez
    let partial_result: BigNum<NUM_WORDS_XYZZ> = residues.2.widen::<NUM_WORDS_XYZZ>().mul(
        &inv_duals_of_partial_moduli.2.widen(),
    ).mul(&duals_of_partial_moduli.2.widen());
    result = result.add(&partial_result.reduce_mod(full_modulus)).reduce_mod(full_modulus);
    proof {
        let m = full_modulus.value();
        let t0 = crt_term(
            residues.0.value(),
            inv_duals_of_partial_moduli.0.value(),
            duals_of_partial_moduli.0.value(),
            word_weight(NUM_WORDS_XXYZ as nat),
        );
        lemma_mod_bound(t0 as int, m as int);
        lemma_small_mod(t0 % m, word_weight(NUM_WORDS_XYZ as nat));
        let rs = (residues.0.value(), residues.1.value(), residues.2.value());
        let ds = (
            duals_of_partial_moduli.0.value(),
            duals_of_partial_moduli.1.value(),
            duals_of_partial_moduli.2.value(),
        );
        let is = (
            inv_duals_of_partial_moduli.0.value(),
            inv_duals_of_partial_moduli.1.value(),
            inv_duals_of_partial_moduli.2.value(),
        );
        let w0 = word_weight(NUM_WORDS_XXYZ as nat);
        let w1 = word_weight(NUM_WORDS_XYYZ as nat);
        let w2 = word_weight(NUM_WORDS_XYZZ as nat);
        let w = word_weight(NUM_WORDS_XYZ as nat);
        assert forall|moduli: (nat, nat, nat)|
            #[trigger] crt3_setting(rs, moduli, ds, is, m, w0, w1, w2, w) implies result.value()
                % moduli.0 == rs.0 % moduli.0 && result.value() % moduli.1 == rs.1 % moduli.1
                && result.value() % moduli.2 == rs.2 % moduli.2 by {
            lemma_crt3_solves_congruences(rs, moduli, ds, is, w0, w1, w2, w);
        }
    }
    result
}

/// A term `r * i * d` with `i * d = 1 (mod k)` is `r` modulo `k`.
proof fn lemma_crt_term_keeps(r: nat, i: nat, d: nat, k: nat)
    requires
        k > 0,
        (i * d) % k == 1nat % k,
    ensures
        (r * i * d) % k == r % k,
{
    assert(r * i * d == r * (i * d)) by (nonlinear_arith);
    lemma_mul_mod_noop_right(r as int, (i * d) as int, k as int);
    lemma_mul_mod_noop_right(r as int, 1, k as int);
}

/// A term `r * i * d` with `d = 0 (mod k)` is `0` modulo `k`.
proof fn lemma_crt_term_vanishes(r: nat, i: nat, d: nat, k: nat, c: nat)
    requires
        k > 0,
        d == k * c,
    ensures
        (r * i * d) % k == 0,
{
    assert(r * i * d == (r * i * c) * k) by (nonlinear_arith)
        requires
            d == k * c,
    ;
    lemma_mod_multiples_basic((r * i * c) as int, k as int);
}

/// Without wrap-around, a term is the exact product.
proof fn lemma_crt_term_exact(r: nat, i: nat, d: nat, w: nat)
    requires
        r < w,
        i < w,
        d < w,
        d > 0,
        r * i * d < w,
    ensures
        crt_term(r, i, d, w) == r * i * d,
{
    assert(r * i <= r * i * d) by (nonlinear_arith)
        requires
            d > 0,
    ;
    lemma_small_mod(r, w);
    lemma_small_mod(i, w);
    lemma_small_mod(d, w);
    lemma_small_mod(r * i, w);
    lemma_small_mod(r * i * d, w);
}

/// Reducing a sum modulo a multiple `m = k * c` of `k` keeps it modulo `k`.
proof fn lemma_reduced_sum_mod_factor(x: nat, y: nat, m: nat, k: nat, c: nat, w: nat)
    requires
        k > 0,
        c > 0,
        m == k * c,
        x < m,
        y < m,
        2 * m <= w,
    ensures
        add_then_reduce(x, y, m, w) % k == (x + y) % k,
        add_then_reduce(x, y, m, w) < m,
{
    lemma_small_mod(x + y, w);
    lemma_mod_mod((x + y) as int, k as int, c as int);
    lemma_mod_bound((x + y) as int, m as int);
}

/// Chinese remaindering with two moduli: when nothing wraps around (each product fits
/// its intermediate size and twice the full modulus fits the result size), `crt2`
/// returns a number below `m0 * m1` that is `residues.0` modulo `m0` and `residues.1`
/// modulo `m1`, given `inv0 * m1 = 1 (mod m0)` and `inv1 * m0 = 1 (mod m1)`.
pub proof fn lemma_crt2_solves_congruences(
    residues: (nat, nat),
    partial_moduli: (nat, nat),
    inv_partial_moduli: (nat, nat),
    w_xxy: nat,
    w_xyy: nat,
    w_xy: nat,
)
    requires
        partial_moduli.0 > 0,
        partial_moduli.1 > 0,
        (inv_partial_moduli.0 * partial_moduli.1) % partial_moduli.0 == 1nat % partial_moduli.0,
        (inv_partial_moduli.1 * partial_moduli.0) % partial_moduli.1 == 1nat % partial_moduli.1,
        residues.0 < w_xxy,
        inv_partial_moduli.0 < w_xxy,
        partial_moduli.1 < w_xxy,
        residues.0 * inv_partial_moduli.0 * partial_moduli.1 < w_xxy,
        residues.1 < w_xyy,
        inv_partial_moduli.1 < w_xyy,
        partial_moduli.0 < w_xyy,
        residues.1 * inv_partial_moduli.1 * partial_moduli.0 < w_xyy,
        2 * (partial_moduli.0 * partial_moduli.1) <= w_xy,
    ensures
        ({
            let x = crt2_value(
                residues,
                partial_moduli,
                inv_partial_moduli,
                partial_moduli.0 * partial_moduli.1,
                w_xxy,
                w_xyy,
                w_xy,
            );
            &&& x < partial_moduli.0 * partial_moduli.1
            &&& x % partial_moduli.0 == residues.0 % partial_moduli.0
            &&& x % partial_moduli.1 == residues.1 % partial_moduli.1
        }),
{
    let (r0, r1) = residues;
    let (m0, m1) = partial_moduli;
    let (i0, i1) = inv_partial_moduli;
    let m = m0 * m1;
    assert(m > 0) by (nonlinear_arith)
        requires
            m0 > 0,
            m1 > 0,
            m == m0 * m1,
    ;
    lemma_crt_term_exact(r0, i0, m1, w_xxy);
    lemma_crt_term_exact(r1, i1, m0, w_xyy);
    let t0 = r0 * i0 * m1;
    let t1 = r1 * i1 * m0;
    lemma_mod_bound(t0 as int, m as int);
    lemma_mod_bound(t1 as int, m as int);
    // modulo m0
    lemma_reduced_sum_mod_factor(t0 % m, t1 % m, m, m0, m1, w_xy);
    lemma_mod_mod(t0 as int, m0 as int, m1 as int);
    lemma_mod_mod(t1 as int, m0 as int, m1 as int);
    lemma_add_mod_noop((t0 % m) as int, (t1 % m) as int, m0 as int);
    lemma_crt_term_keeps(r0, i0, m1, m0);
    lemma_crt_term_vanishes(r1, i1, m0, m0, 1);
    lemma_mod_twice(r0 as int, m0 as int);
    // modulo m1
    assert(m == m1 * m0) by (nonlinear_arith)
        requires
            m == m0 * m1,
    ;
    lemma_reduced_sum_mod_factor(t0 % m, t1 % m, m, m1, m0, w_xy);
    lemma_mod_mod(t0 as int, m1 as int, m0 as int);
    lemma_mod_mod(t1 as int, m1 as int, m0 as int);
    lemma_add_mod_noop((t0 % m) as int, (t1 % m) as int, m1 as int);
    lemma_crt_term_vanishes(r0, i0, m1, m1, 1);
    lemma_crt_term_keeps(r1, i1, m0, m1);
    lemma_mod_twice(r1 as int, m1 as int);
}


/// Two rounds of reduced addition keep the whole sum modulo a factor `k` of `m`.
proof fn lemma_reduced_triple_sum_mod_factor(
    t0: nat,
    t1: nat,
    t2: nat,
    m: nat,
    k: nat,
    c: nat,
    w: nat,
)
    requires
        k > 0,
        c > 0,
        m == k * c,
        2 * m <= w,
    ensures
        add_then_reduce(add_then_reduce(t0 % m, t1 % m, m, w), t2 % m, m, w) % k == (t0 + t1
            + t2) % k,
        add_then_reduce(add_then_reduce(t0 % m, t1 % m, m, w), t2 % m, m, w) < m,
{
    assert(m > 0) by (nonlinear_arith)
        requires
            k > 0,
            c > 0,
            m == k * c,
    ;
    lemma_mod_bound(t0 as int, m as int);
    lemma_mod_bound(t1 as int, m as int);
    lemma_mod_bound(t2 as int, m as int);
    let r2 = add_then_reduce(t0 % m, t1 % m, m, w);
    lemma_reduced_sum_mod_factor(t0 % m, t1 % m, m, k, c, w);
    lemma_reduced_sum_mod_factor(r2, t2 % m, m, k, c, w);
    lemma_mod_mod(t0 as int, k as int, c as int);
    lemma_mod_mod(t1 as int, k as int, c as int);
    lemma_mod_mod(t2 as int, k as int, c as int);
    // (r2 + t2 % m) % k == (r2 % k + t2 % k) % k
    lemma_add_mod_noop(r2 as int, (t2 % m) as int, k as int);
    // r2 % k == (t0 % k + t1 % k) % k
    lemma_add_mod_noop((t0 % m) as int, (t1 % m) as int, k as int);
    lemma_add_mod_noop(t0 as int, t1 as int, k as int);
    // ((t0 + t1) % k + t2 % k) % k == (t0 + t1 + t2) % k
    lemma_add_mod_noop((t0 + t1) as int, t2 as int, k as int);
    lemma_mod_twice((t0 + t1) as int, k as int);
}

/// Chinese remaindering with three moduli: when nothing wraps around, `crt3` returns a
/// number below `m0 * m1 * m2` that is `residues.k` modulo `m_k` for each `k`, given
/// that each dual is the product of the other two moduli and each inverse inverts its
/// dual modulo `m_k`.
pub proof fn lemma_crt3_solves_congruences(
    residues: (nat, nat, nat),
    moduli: (nat, nat, nat),
    duals: (nat, nat, nat),
    inv_duals: (nat, nat, nat),
    w_xxyz: nat,
    w_xyyz: nat,
    w_xyzz: nat,
    w_xyz: nat,
)
    requires
        moduli.0 > 0,
        moduli.1 > 0,
        moduli.2 > 0,
        duals.0 == moduli.1 * moduli.2,
        duals.1 == moduli.0 * moduli.2,
        duals.2 == moduli.0 * moduli.1,
        (inv_duals.0 * duals.0) % moduli.0 == 1nat % moduli.0,
        (inv_duals.1 * duals.1) % moduli.1 == 1nat % moduli.1,
        (inv_duals.2 * duals.2) % moduli.2 == 1nat % moduli.2,
        residues.0 < w_xxyz,
        inv_duals.0 < w_xxyz,
        duals.0 < w_xxyz,
        residues.0 * inv_duals.0 * duals.0 < w_xxyz,
        residues.1 < w_xyyz,
        inv_duals.1 < w_xyyz,
        duals.1 < w_xyyz,
        residues.1 * inv_duals.1 * duals.1 < w_xyyz,
        residues.2 < w_xyzz,
        inv_duals.2 < w_xyzz,
        duals.2 < w_xyzz,
        residues.2 * inv_duals.2 * duals.2 < w_xyzz,
        2 * (moduli.0 * moduli.1 * moduli.2) <= w_xyz,
    ensures
        ({
            let m = moduli.0 * moduli.1 * moduli.2;
            let x = crt3_value(residues, duals, inv_duals, m, w_xxyz, w_xyyz, w_xyzz, w_xyz);
            &&& x < m
            &&& x % moduli.0 == residues.0 % moduli.0
            &&& x % moduli.1 == residues.1 % moduli.1
            &&& x % moduli.2 == residues.2 % moduli.2
        }),
{
    let (r0, r1, r2) = residues;
    let (m0, m1, m2) = moduli;
    let (d0, d1, d2) = duals;
    let (i0, i1, i2) = inv_duals;
    let m = m0 * m1 * m2;
    assert(d0 > 0 && d1 > 0 && d2 > 0) by (nonlinear_arith)
        requires
            m0 > 0,
            m1 > 0,
            m2 > 0,
            d0 == m1 * m2,
            d1 == m0 * m2,
            d2 == m0 * m1,
    ;
    lemma_crt_term_exact(r0, i0, d0, w_xxyz);
    lemma_crt_term_exact(r1, i1, d1, w_xyyz);
    lemma_crt_term_exact(r2, i2, d2, w_xyzz);
    let t0 = r0 * i0 * d0;
    let t1 = r1 * i1 * d1;
    let t2 = r2 * i2 * d2;
    assert(m == m0 * d0 && m == m1 * d1 && m == m2 * d2) by (nonlinear_arith)
        requires
            m == m0 * m1 * m2,
            d0 == m1 * m2,
            d1 == m0 * m2,
            d2 == m0 * m1,
    ;
    lemma_reduced_triple_sum_mod_factor(t0, t1, t2, m, m0, d0, w_xyz);
    lemma_reduced_triple_sum_mod_factor(t0, t1, t2, m, m1, d1, w_xyz);
    lemma_reduced_triple_sum_mod_factor(t0, t1, t2, m, m2, d2, w_xyz);
    // modulo m0
    lemma_crt_term_keeps(r0, i0, d0, m0);
    lemma_crt_term_vanishes(r1, i1, d1, m0, m2);
    assert(d2 == m0 * m1);
    lemma_crt_term_vanishes(r2, i2, d2, m0, m1);
    lemma_three_terms_mod(t0, t1, t2, m0);
    lemma_mod_twice(r0 as int, m0 as int);
    // modulo m1
    assert(d0 == m1 * m2);
    lemma_crt_term_vanishes(r0, i0, d0, m1, m2);
    lemma_crt_term_keeps(r1, i1, d1, m1);
    assert(d2 == m1 * m0) by (nonlinear_arith)
        requires
            d2 == m0 * m1,
    ;
    lemma_crt_term_vanishes(r2, i2, d2, m1, m0);
    lemma_three_terms_mod(t0, t1, t2, m1);
    lemma_mod_twice(r1 as int, m1 as int);
    // modulo m2
    assert(d0 == m2 * m1) by (nonlinear_arith)
        requires
            d0 == m1 * m2,
    ;
    lemma_crt_term_vanishes(r0, i0, d0, m2, m1);
    assert(d1 == m2 * m0) by (nonlinear_arith)
        requires
            d1 == m0 * m2,
    ;
    lemma_crt_term_vanishes(r1, i1, d1, m2, m0);
    lemma_crt_term_keeps(r2, i2, d2, m2);
    lemma_three_terms_mod(t0, t1, t2, m2);
    lemma_mod_twice(r2 as int, m2 as int);
}

/// The sum of three terms modulo `k` from the terms modulo `k`.
proof fn lemma_three_terms_mod(t0: nat, t1: nat, t2: nat, k: nat)
    requires
        k > 0,
    ensures
        (t0 + t1 + t2) % k == ((t0 % k) + (t1 % k) + (t2 % k)) % k,
{
    lemma_add_mod_noop(t0 as int, t1 as int, k as int);
    lemma_add_mod_noop((t0 + t1) as int, t2 as int, k as int);
    lemma_add_mod_noop(((t0 % k) + (t1 % k)) as int, t2 as int, k as int);
    lemma_mod_twice(((t0 % k) + (t1 % k)) as int, k as int);
    lemma_add_mod_noop(((t0 % k) + (t1 % k)) as int, (t2 % k) as int, k as int);
    lemma_mod_twice(t2 as int, k as int);
}

} // verus!
