//! Rejection sampling of big numbers: elements and units modulo a number, secret
//! degrees and invertible matrices.
use crate::bn::BigNum;
use crate::limbs::{
    lemma_word_base, lemma_word_weight_le, lemma_words_value_bound, word_base, word_weight,
    words_value, zeros,
};
use crate::modular::lemma_masked_value;
use vstd::arithmetic::power2::{lemma2_to64, pow2};
use vstd::bits::{
    low_bits_mask, lemma_u64_low_bits_mask_is_mod, lemma_u64_pow2_no_overflow, lemma_u64_shl_is_mul,
};
use vstd::arithmetic::div_mod::{
    lemma_add_mod_noop, lemma_mod_bound, lemma_mod_mod, lemma_mod_twice, lemma_small_mod,
    lemma_sub_mod_noop,
};
use vstd::prelude::*;

verus! {

/// `rand::fill` on `words[..count]`: overwrites the first `count` words with random
/// values from the thread-local generator and leaves the rest alone. Which values come
/// is chance, so nothing is stated of them.
#[verifier::external_body]
fn fill_words(words: &mut Vec<u64>, count: usize)
    requires
        count <= old(words)@.len(),
    ensures
        final(words)@.len() == old(words)@.len(),
        forall|i: int| count <= i < old(words)@.len() ==> final(words)@[i] == old(words)@[i],
{
    ::rand::fill(&mut words[..count]);
}

/// The all-ones word shifted right by `s` keeps the low `64 - s` bits.
proof fn lemma_top_word_mask(s: u32)
    requires
        1 <= s <= 63,
    ensures
        0xffff_ffff_ffff_ffffu64 >> s == (low_bits_mask((64 - s) as nat) as u64),
{
    let t: u64 = (64 - s) as u64;
    assert(1 <= s <= 63 && t == 64 - s ==> 0xffff_ffff_ffff_ffffu64 >> s == ((1u64 << t) - 1)
        as u64) by (bit_vector);
    lemma_u64_pow2_no_overflow(t as nat);
    lemma_u64_shl_is_mul(1, t);
}

/// The number of 64-bit words that `nbits` bits take: `nbits / 64` rounded up.
pub fn words_for_bits(nbits: usize) -> (r: usize)
    ensures
        r == (nbits + 63) / 64,
{
    nbits / 64 + if nbits % 64 != 0 {
        1
    } else {
        0
    }
}

/// The candidate that a draw of random words gives for `modulus`: the draw reduced
/// modulo 2^`modulus.nbits()` (the words above the modulus's top word are dropped and
/// its top word is masked), and whether that candidate is below the modulus.
pub fn element_candidate<const NUM_WORDS_MOD: usize>(
    draw: &[u64],
    modulus: &BigNum<NUM_WORDS_MOD>,
) -> (r: (BigNum<NUM_WORDS_MOD>, bool))
    requires
        draw@.len() == NUM_WORDS_MOD,
        modulus.bits() >= 1,
    ensures
        r.0.value() == words_value(draw@) % pow2(modulus.bits()),
        r.0.is_canonical(),
        r.1 == (r.0.value() < modulus.value()),
{
    modulus.well_formed();
    let nbits = modulus.nbits();
    let actual_num_words = words_for_bits(nbits);
    let zero_out_mask: u64 = 0xffff_ffff_ffff_ffffu64 >> (63 - ((nbits - 1) % 64) as u32);
    let ghost k = actual_num_words as nat;
    let ghost rr: nat = ((nbits - 1) % 64 + 1) as nat;
    assert(nbits == 64 * (k - 1) + rr);

    let mut words: Vec<u64> = Vec::new();
    let mut i: usize = 0;
    while i < NUM_WORDS_MOD
        invariant
            i <= NUM_WORDS_MOD,
            draw@.len() == NUM_WORDS_MOD,
            1 <= actual_num_words <= NUM_WORDS_MOD,
            words@.len() == i,
            forall|t: int| 0 <= t < i && t < actual_num_words - 1 ==> words@[t] == draw@[t],
            forall|t: int| 0 <= t < i && t >= actual_num_words ==> words@[t] == 0,
            i > actual_num_words - 1 ==> words@[actual_num_words - 1] == draw@[actual_num_words
                - 1] & zero_out_mask,
        decreases NUM_WORDS_MOD - i,
    {
        if i < actual_num_words - 1 {
            words.push(draw[i]);
        } else if i == actual_num_words - 1 {
            words.push(draw[i] & zero_out_mask);
        } else {
            words.push(0);
        }
        i += 1;
    }
    proof {
        let p = draw@;
        let q = words@;
        let n = NUM_WORDS_MOD as nat;
        let top = p[k - 1];
        if rr < 64 {
            lemma_top_word_mask((64 - rr) as u32);
            lemma_u64_low_bits_mask_is_mod(top, rr);
            lemma_masked_value(p, q, (k - 1) as nat, rr, n);
        } else {
            assert(((63 - ((nbits - 1) % 64)) as u32) == 0u32);
            assert(0xffff_ffff_ffff_ffffu64 >> 0u32 == 0xffff_ffff_ffff_ffffu64) by (bit_vector);
            assert(zero_out_mask == 0xffff_ffff_ffff_ffffu64);
            assert(top & 0xffff_ffff_ffff_ffffu64 == top) by (bit_vector);
            if k < n {
                lemma2_to64();
                lemma_masked_value(p, q, k, 0, n);
                assert(64 * k + 0 == nbits);
            } else {
                assert(q =~= p);
                lemma_words_value_bound(p);
                lemma_small_mod(words_value(p), pow2(64 * n));
                assert(nbits == 64 * n);
            }
        }
        lemma_words_value_bound(q);
        lemma_small_mod(words_value(q), word_weight(n));
    }
    let element = BigNum::new(words.as_slice());
    let below = !element.ge(modulus);
    (element, below)
}

/// `count` random words (by `fill_words`) followed by zero words, `NUM_WORDS` in all.
pub fn draw_words<const NUM_WORDS: usize>(count: usize) -> (r: Vec<u64>)
    requires
        count <= NUM_WORDS,
    ensures
        r@.len() == NUM_WORDS,
        forall|i: int| count <= i < NUM_WORDS ==> #[trigger] r@[i] == 0,
{
    let mut words = zeros(NUM_WORDS);
    fill_words(&mut words, count);
    words
}

/// A draw reduced to its lowest `bits` bits.
pub open spec fn masked_draw(d: Seq<u64>, bits: nat) -> nat {
    words_value(d) % pow2(bits)
}

/// The draws `ds` of `draw_words` for a modulus `m` of `bits` bits, and what rejection
/// sampling makes of them: each draw is an outcome of `draw_words` for the words that
/// `bits` bits take; every draw but the last reduces to a number not below `m`; the
/// result `r` is the last draw reduced, when that is below `m`, and otherwise 0 after
/// 2^64 draws.
pub open spec fn element_draws<const NUM_WORDS: usize>(
    m: nat,
    bits: nat,
    ds: Seq<Vec<u64>>,
    r: nat,
) -> bool {
    let count = ((bits + 63) / 64) as usize;
    &&& 1 <= ds.len() <= 0x1_0000_0000_0000_0000
    &&& forall|i: int|
        0 <= i < ds.len() ==> call_ensures(draw_words::<NUM_WORDS>, (count,), #[trigger] ds[i])
    &&& forall|i: int| 0 <= i < ds.len() - 1 ==> masked_draw(#[trigger] ds[i]@, bits) >= m
    &&& if masked_draw(ds.last()@, bits) < m {
        r == masked_draw(ds.last()@, bits)
    } else {
        ds.len() == 0x1_0000_0000_0000_0000 && r == 0
    }
}

/// A uniformly random number below `modulus`, by rejection sampling among the numbers of
/// `modulus.nbits()` bits: the first draw of `draw_words` whose lowest `nbits` bits are
/// below the modulus gives the result, as `element_draws` says. After 2^64 - 1 rejected
/// draws it gives up and returns zero.
pub fn sample_random_element_mod<const NUM_WORDS_MOD: usize>(
    modulus: &BigNum<NUM_WORDS_MOD>,
) -> (r: BigNum<NUM_WORDS_MOD>)
    requires
        modulus.value() > 0,
        modulus.bits() >= 1,
    ensures
        r.value() < modulus.value(),
        r.is_canonical(),
        exists|ds: Seq<Vec<u64>>|
            #[trigger] element_draws::<NUM_WORDS_MOD>(modulus.value(), modulus.bits(), ds, r.value()),
{
    modulus.well_formed();
    let nbits = modulus.nbits();
    let actual_num_words = words_for_bits(nbits);
    let ghost m = modulus.value();
    let ghost bits = modulus.bits();

    let mut words = draw_words::<NUM_WORDS_MOD>(actual_num_words);
    let (mut element, mut below) = element_candidate(words.as_slice(), modulus);
    let ghost mut ds: Seq<Vec<u64>> = seq![words];
    let mut attempts: u64 = 0;
    while !below && attempts < 0xffff_ffff_ffff_ffffu64
        invariant
            1 <= actual_num_words <= NUM_WORDS_MOD,
            actual_num_words == ((bits + 63) / 64) as usize,
            m == modulus.value(),
            bits == modulus.bits(),
            modulus.bits() >= 1,
            element.is_canonical(),
            below == (element.value() < modulus.value()),
            ds.len() == attempts + 1,
            element.value() == masked_draw(ds.last()@, bits),
            forall|i: int|
                0 <= i < ds.len() ==> call_ensures(
                    draw_words::<NUM_WORDS_MOD>,
                    (actual_num_words,),
                    #[trigger] ds[i],
                ),
            forall|i: int| 0 <= i < ds.len() - 1 ==> masked_draw(#[trigger] ds[i]@, bits) >= m,
        decreases 0xffff_ffff_ffff_ffffu64 - attempts,
    {
        let ghost old_ds = ds;
        words = draw_words::<NUM_WORDS_MOD>(actual_num_words);
        let candidate = element_candidate(words.as_slice(), modulus);
        proof {
            ds = old_ds.push(words);
            assert forall|i: int| 0 <= i < ds.len() - 1 implies masked_draw(
                #[trigger] ds[i]@,
                bits,
            ) >= m by {
                if i < old_ds.len() - 1 {
                    assert(ds[i] == old_ds[i]);
                } else {
                    assert(ds[i] == old_ds.last());
                }
            }
            assert forall|i: int| 0 <= i < ds.len() implies call_ensures(
                draw_words::<NUM_WORDS_MOD>,
                (actual_num_words,),
                #[trigger] ds[i],
            ) by {
                if i < old_ds.len() {
                    assert(ds[i] == old_ds[i]);
                }
            }
        }
        element = candidate.0;
        below = candidate.1;
        attempts += 1;
    }
    if below {
        proof {
            assert(element_draws::<NUM_WORDS_MOD>(m, bits, ds, element.value()));
        }
        element
    } else {
        let zero = BigNum::zero();
        proof {
            assert(element_draws::<NUM_WORDS_MOD>(m, bits, ds, zero.value()));
        }
        zero
    }
}


/// The draws `ds` of `sample_random_element_mod` for `modulus`, and what rejection
/// sampling with the test `accept` makes of them: every draw but the last fails the test;
/// the result `r` is the last draw when it passes, and otherwise `fallback` after 2^64
/// draws.
pub open spec fn element_rejection<const NUM_WORDS_MOD: usize>(
    modulus: &BigNum<NUM_WORDS_MOD>,
    accept: spec_fn(nat) -> bool,
    ds: Seq<BigNum<NUM_WORDS_MOD>>,
    r: nat,
    fallback: nat,
) -> bool {
    &&& 1 <= ds.len() <= 0x1_0000_0000_0000_0000
    &&& forall|i: int|
        0 <= i < ds.len() ==> call_ensures(
            sample_random_element_mod::<NUM_WORDS_MOD>,
            (modulus,),
            #[trigger] ds[i],
        )
    &&& forall|i: int| 0 <= i < ds.len() - 1 ==> !accept(#[trigger] ds[i].value())
    &&& if accept(ds.last().value()) {
        r == ds.last().value()
    } else {
        ds.len() == 0x1_0000_0000_0000_0000 && r == fallback
    }
}

/// Rejection sampling of an odd number: `element_rejection` with the test "odd" and the
/// fallback 1.
pub open spec fn odd_unit_draws<const NUM_WORDS_MOD: usize>(
    modulus: &BigNum<NUM_WORDS_MOD>,
    ds: Seq<BigNum<NUM_WORDS_MOD>>,
    r: nat,
) -> bool {
    element_rejection::<NUM_WORDS_MOD>(modulus, |v: nat| v % 2 == 1, ds, r, 1)
}

/// Rejection sampling of a number that `base` does not divide: `element_rejection` with
/// that test and the fallback 1.
pub open spec fn special_unit_draws<const NUM_WORDS_MOD: usize>(
    modulus: &BigNum<NUM_WORDS_MOD>,
    base: u8,
    ds: Seq<BigNum<NUM_WORDS_MOD>>,
    r: nat,
) -> bool {
    element_rejection::<NUM_WORDS_MOD>(modulus, |v: nat| v % (base as nat) != 0, ds, r, 1)
}

/// A random odd number below `modulus` (a unit when `modulus` is a power of two), by
/// rejection sampling. After 2^64 - 1 rejected draws it gives up and returns one.
pub fn sample_random_unit_mod_power_of_two<const NUM_WORDS_MOD: usize>(
    modulus: &BigNum<NUM_WORDS_MOD>,
) -> (r: BigNum<NUM_WORDS_MOD>)
    requires
        modulus.value() >= 2,
        modulus.bits() >= 1,
    ensures
        r.value() < modulus.value(),
        r.value() % 2 == 1,
        r.is_canonical(),
        exists|ds: Seq<BigNum<NUM_WORDS_MOD>>|
            #[trigger] odd_unit_draws::<NUM_WORDS_MOD>(modulus, ds, r.value()),
{
    modulus.well_formed();
    let ghost accept = |v: nat| v % 2 == 1;
    let mut unit = sample_random_element_mod(modulus);
    let ghost mut ds = seq![unit];
    let mut attempts: u64 = 0;
    while unit.is_divisible_by_two() && attempts < 0xffff_ffff_ffff_ffffu64
        invariant
            modulus.value() >= 2,
            modulus.bits() >= 1,
            unit.value() < modulus.value(),
            unit.is_canonical(),
            accept == |v: nat| v % 2 == 1,
            ds.len() == attempts + 1,
            ds.last() == unit,
            forall|i: int|
                0 <= i < ds.len() ==> call_ensures(
                    sample_random_element_mod::<NUM_WORDS_MOD>,
                    (modulus,),
                    #[trigger] ds[i],
                ),
            forall|i: int| 0 <= i < ds.len() - 1 ==> !accept(#[trigger] ds[i].value()),
        decreases 0xffff_ffff_ffff_ffffu64 - attempts,
    {
        let ghost old_ds = ds;
        proof {
            assert(!accept(unit.value()));
        }
        unit = sample_random_element_mod(modulus);
        proof {
            ds = old_ds.push(unit);
            assert forall|i: int| 0 <= i < ds.len() - 1 implies !accept(
                #[trigger] ds[i].value(),
            ) by {
                assert(ds[i] == old_ds[i]);
            }
            assert forall|i: int| 0 <= i < ds.len() implies call_ensures(
                sample_random_element_mod::<NUM_WORDS_MOD>,
                (modulus,),
                #[trigger] ds[i],
            ) by {
                if i < old_ds.len() {
                    assert(ds[i] == old_ds[i]);
                }
            }
        }
        attempts += 1;
    }
    if unit.is_divisible_by_two() {
        proof {
            lemma_at_least_one_word::<NUM_WORDS_MOD>(modulus.value());
        }
        let one = BigNum::unit();
        proof {
            assert(odd_unit_draws::<NUM_WORDS_MOD>(modulus, ds, one.value()));
        }
        one
    } else {
        proof {
            assert(odd_unit_draws::<NUM_WORDS_MOD>(modulus, ds, unit.value()));
        }
        unit
    }
}

/// A positive number needs at least one word.
proof fn lemma_at_least_one_word<const N: usize>(v: nat)
    requires
        v >= 1,
        v < word_weight(N as nat),
    ensures
        N >= 1,
{
    if N == 0 {
        lemma_word_base();
    }
}

/// A random number below `modulus` that `modulus_base` does not divide (a unit when
/// `modulus` is a power of the prime `modulus_base`), by rejection sampling. The base
/// must satisfy 2^64 = 1 (mod modulus_base). After 2^64 - 1 rejected draws it gives up
/// and returns one.
pub fn sample_random_unit_mod_special_prime_power<const NUM_WORDS_MOD: usize>(
    modulus_base: u8,
    modulus: &BigNum<NUM_WORDS_MOD>,
) -> (r: BigNum<NUM_WORDS_MOD>)
    requires
        modulus_base > 1,
        word_base() % (modulus_base as nat) == 1,
        modulus.value() >= 2,
        modulus.bits() >= 1,
    ensures
        r.value() < modulus.value(),
        r.value() % (modulus_base as nat) != 0,
        r.is_canonical(),
        exists|ds: Seq<BigNum<NUM_WORDS_MOD>>|
            #[trigger] special_unit_draws::<NUM_WORDS_MOD>(modulus, modulus_base, ds, r.value()),
{
    modulus.well_formed();
    let ghost accept = |v: nat| v % (modulus_base as nat) != 0;
    let mut unit = sample_random_element_mod(modulus);
    let ghost mut ds = seq![unit];
    let mut attempts: u64 = 0;
    while unit.is_divisible_by_special_prime(modulus_base) && attempts < 0xffff_ffff_ffff_ffffu64
        invariant
            modulus_base > 1,
            word_base() % (modulus_base as nat) == 1,
            modulus.value() >= 2,
            modulus.bits() >= 1,
            unit.value() < modulus.value(),
            unit.is_canonical(),
            accept == |v: nat| v % (modulus_base as nat) != 0,
            ds.len() == attempts + 1,
            ds.last() == unit,
            forall|i: int|
                0 <= i < ds.len() ==> call_ensures(
                    sample_random_element_mod::<NUM_WORDS_MOD>,
                    (modulus,),
                    #[trigger] ds[i],
                ),
            forall|i: int| 0 <= i < ds.len() - 1 ==> !accept(#[trigger] ds[i].value()),
        decreases 0xffff_ffff_ffff_ffffu64 - attempts,
    {
        let ghost old_ds = ds;
        proof {
            assert(!accept(unit.value()));
        }
        unit = sample_random_element_mod(modulus);
        proof {
            ds = old_ds.push(unit);
            assert forall|i: int| 0 <= i < ds.len() - 1 implies !accept(
                #[trigger] ds[i].value(),
            ) by {
                assert(ds[i] == old_ds[i]);
            }
            assert forall|i: int| 0 <= i < ds.len() implies call_ensures(
                sample_random_element_mod::<NUM_WORDS_MOD>,
                (modulus,),
                #[trigger] ds[i],
            ) by {
                if i < old_ds.len() {
                    assert(ds[i] == old_ds[i]);
                }
            }
        }
        attempts += 1;
    }
    if unit.is_divisible_by_special_prime(modulus_base) {
        proof {
            lemma_at_least_one_word::<NUM_WORDS_MOD>(modulus.value());
            lemma_small_mod(1, modulus_base as nat);
        }
        let one = BigNum::unit();
        proof {
            assert(special_unit_draws::<NUM_WORDS_MOD>(modulus, modulus_base, ds, one.value()));
        }
        one
    } else {
        proof {
            assert(special_unit_draws::<NUM_WORDS_MOD>(modulus, modulus_base, ds, unit.value()));
        }
        unit
    }
}

/// Whether one of `primes` divides `x`.
pub open spec fn divisible_by_any(x: nat, primes: Seq<u8>) -> bool {
    exists|i: int| 0 <= i < primes.len() && x % (primes[i] as nat) == 0
}

/// Whether each of `primes` is a prime `p > 1` with 2^64 = 1 (mod p).
pub open spec fn all_special(primes: Seq<u8>) -> bool {
    forall|i: int|
        0 <= i < primes.len() ==> primes[i] > 1 && #[trigger] (word_base() % (primes[i] as nat))
            == 1
}

/// Whether one of `primes` divides `element` or `dual_element`.
fn either_divisible_by_any<const NUM_WORDS: usize>(
    element: &BigNum<NUM_WORDS>,
    dual_element: &BigNum<NUM_WORDS>,
    primes: &[u8],
) -> (r: bool)
    requires
        all_special(primes@),
    ensures
        r == (divisible_by_any(element.value(), primes@) || divisible_by_any(
            dual_element.value(),
            primes@,
        )),
{
    let mut i: usize = 0;
    while i < primes.len()
        invariant
            i <= primes@.len(),
            all_special(primes@),
            forall|j: int|
                0 <= j < i ==> element.value() % (primes@[j] as nat) != 0
                    && dual_element.value() % (primes@[j] as nat) != 0,
        decreases primes@.len() - i,
    {
        let p = primes[i];
        proof {
            assert(word_base() % (primes@[i as int] as nat) == 1);
        }
        if element.is_divisible_by_special_prime(p) || dual_element.is_divisible_by_special_prime(
            p,
        ) {
            return true;
        }
        i += 1;
    }
    false
}

/// Whether `q` is a secret degree for `t`: odd, below `t`, and neither `q` nor `t - q` is
/// divisible by any of `primes`.
pub open spec fn good_secret_degree(q: nat, t: nat, primes: Seq<u8>) -> bool {
    q < t && q % 2 == 1 && !divisible_by_any(q, primes) && !divisible_by_any(
        (t - q) as nat,
        primes,
    )
}

/// Whether some secret degree for `t` exists.
pub open spec fn has_good_secret_degree(t: nat, primes: Seq<u8>) -> bool {
    exists|q: nat| #[trigger] good_secret_degree(q, t, primes)
}

/// The smallest secret degree for `t`, searched among the odd numbers from 1 upwards,
/// with its complement; `(0, t)` when there is none.
fn find_secret_degree<const NUM_WORDS_2: usize>(
    effective_two_torsion: &BigNum<NUM_WORDS_2>,
    special_primes_coprime_to: &[u8],
) -> (r: (BigNum<NUM_WORDS_2>, BigNum<NUM_WORDS_2>))
    requires
        effective_two_torsion.value() >= 2,
        all_special(special_primes_coprime_to@),
    ensures
        r.0.value() + r.1.value() == effective_two_torsion.value(),
        r.0.is_canonical(),
        r.1.is_canonical(),
        has_good_secret_degree(effective_two_torsion.value(), special_primes_coprime_to@)
            ==> good_secret_degree(
            r.0.value(),
            effective_two_torsion.value(),
            special_primes_coprime_to@,
        ),
        !has_good_secret_degree(effective_two_torsion.value(), special_primes_coprime_to@)
            ==> r.0.value() == 0,
        forall|q2: nat|
            q2 < r.0.value() ==> !#[trigger] good_secret_degree(
                q2,
                effective_two_torsion.value(),
                special_primes_coprime_to@,
            ),
{
    let ghost t = effective_two_torsion.value();
    let ghost primes = special_primes_coprime_to@;
    effective_two_torsion.well_formed();
    proof {
        lemma_at_least_one_word::<NUM_WORDS_2>(t);
    }
    let two = BigNum::<NUM_WORDS_2>::from_prime(2);
    let three = BigNum::<NUM_WORDS_2>::from_prime(3);
    proof {
        lemma_word_base();
        lemma_word_weight_le(1, NUM_WORDS_2 as nat);
        vstd::arithmetic::div_mod::lemma_small_mod(2, word_weight(NUM_WORDS_2 as nat));
        vstd::arithmetic::div_mod::lemma_small_mod(3, word_weight(NUM_WORDS_2 as nat));
    }
    let mut q = BigNum::<NUM_WORDS_2>::unit();
    let mut d = effective_two_torsion.sub(&q);
    while either_divisible_by_any(&q, &d, special_primes_coprime_to) && d.ge(&three)
        invariant
            t == effective_two_torsion.value(),
            primes == special_primes_coprime_to@,
            all_special(primes),
            t < word_weight(NUM_WORDS_2 as nat),
            two.value() == 2,
            three.value() == 3,
            q.value() % 2 == 1,
            q.value() < t,
            q.is_canonical(),
            d.value() == t - q.value(),
            d.is_canonical(),
            forall|q2: nat|
                q2 < q.value() && q2 % 2 == 1 ==> !#[trigger] good_secret_degree(q2, t, primes),
        decreases d.value(),
    {
        let ghost old_q = q.value();
        q = q.add(&two);
        proof {
            vstd::arithmetic::div_mod::lemma_small_mod(
                (old_q + 2) as nat,
                word_weight(NUM_WORDS_2 as nat),
            );
            assert forall|q2: nat|
                q2 < q.value() && q2 % 2 == 1 implies !#[trigger] good_secret_degree(
                q2,
                t,
                primes,
            ) by {
                if q2 >= old_q {
                    assert(q2 == old_q);
                }
            }
        }
        d = effective_two_torsion.sub(&q);
    }
    if either_divisible_by_any(&q, &d, special_primes_coprime_to) {
        proof {
            assert forall|q2: nat| !#[trigger] good_secret_degree(q2, t, primes) by {
                if q2 < t && q2 % 2 == 1 && q2 >= q.value() {
                    assert(q2 == q.value());
                }
            }
        }
        let zero = BigNum::zero();
        let all = effective_two_torsion.sub(&zero);
        (zero, all)
    } else {
        (q, d)
    }
}

/// The draws `ds` of `sample_random_unit_mod_power_of_two` for `t`, and the secret degree
/// `q` that rejection sampling makes of them: every draw but the last is no secret degree
/// for `t` and `primes`; `q` is the last draw when it is one, and otherwise, after 2^64
/// draws, the smallest secret degree (0 when there is none).
pub open spec fn secret_degree_draws<const NUM_WORDS_2: usize>(
    t: &BigNum<NUM_WORDS_2>,
    primes: Seq<u8>,
    ds: Seq<BigNum<NUM_WORDS_2>>,
    q: nat,
) -> bool {
    let tv = t.value();
    &&& 1 <= ds.len() <= 0x1_0000_0000_0000_0000
    &&& forall|i: int|
        0 <= i < ds.len() ==> call_ensures(
            sample_random_unit_mod_power_of_two::<NUM_WORDS_2>,
            (t,),
            #[trigger] ds[i],
        )
    &&& forall|i: int|
        0 <= i < ds.len() - 1 ==> !good_secret_degree(#[trigger] ds[i].value(), tv, primes)
    &&& if good_secret_degree(ds.last().value(), tv, primes) {
        q == ds.last().value()
    } else {
        &&& ds.len() == 0x1_0000_0000_0000_0000
        &&& forall|q2: nat| q2 < q ==> !#[trigger] good_secret_degree(q2, tv, primes)
        &&& has_good_secret_degree(tv, primes) ==> good_secret_degree(q, tv, primes)
        &&& !has_good_secret_degree(tv, primes) ==> q == 0
    }
}

/// A random odd `q` below `effective_two_torsion` such that neither `q` nor its
/// complement `effective_two_torsion - q` is divisible by any of
/// `special_primes_coprime_to`, with that complement; by rejection sampling. Each of
/// those primes must satisfy 2^64 = 1 (mod p). After 2^64 - 1 rejected draws it takes the
/// smallest such `q` instead; only when there is none at all does it return
/// `(0, effective_two_torsion)`.
pub fn sample_random_secret_degree<const NUM_WORDS_2: usize>(
    effective_two_torsion: &BigNum<NUM_WORDS_2>,
    special_primes_coprime_to: &[u8],
) -> (r: (BigNum<NUM_WORDS_2>, BigNum<NUM_WORDS_2>))
    requires
        effective_two_torsion.value() >= 2,
        effective_two_torsion.bits() >= 1,
        all_special(special_primes_coprime_to@),
    ensures
        r.0.value() + r.1.value() == effective_two_torsion.value(),
        r.0.is_canonical(),
        r.1.is_canonical(),
        has_good_secret_degree(effective_two_torsion.value(), special_primes_coprime_to@)
            ==> good_secret_degree(
            r.0.value(),
            effective_two_torsion.value(),
            special_primes_coprime_to@,
        ),
        !has_good_secret_degree(effective_two_torsion.value(), special_primes_coprime_to@)
            ==> r.0.value() == 0,
        exists|ds: Seq<BigNum<NUM_WORDS_2>>|
            #[trigger] secret_degree_draws::<NUM_WORDS_2>(
                effective_two_torsion,
                special_primes_coprime_to@,
                ds,
                r.0.value(),
            ),
{
    // Keep generating elements, up to 2^64 - 1 times, until we find one such that
    // q*(2^a - q) is coprime to all given primes
    let ghost tv = effective_two_torsion.value();
    let ghost primes = special_primes_coprime_to@;
    let mut element = sample_random_unit_mod_power_of_two(effective_two_torsion);
    let ghost mut ds = seq![element];
    let mut dual_element = effective_two_torsion.sub(&element);
    let mut attempts: u64 = 0;
    while either_divisible_by_any(&element, &dual_element, special_primes_coprime_to) && attempts
        < 0xffff_ffff_ffff_ffffu64
        invariant
            effective_two_torsion.value() >= 2,
            effective_two_torsion.bits() >= 1,
            all_special(special_primes_coprime_to@),
            element.value() < effective_two_torsion.value(),
            element.value() % 2 == 1,
            element.is_canonical(),
            dual_element.value() == effective_two_torsion.value() - element.value(),
            dual_element.is_canonical(),
            tv == effective_two_torsion.value(),
            primes == special_primes_coprime_to@,
            ds.len() == attempts + 1,
            ds.last() == element,
            forall|i: int|
                0 <= i < ds.len() ==> call_ensures(
                    sample_random_unit_mod_power_of_two::<NUM_WORDS_2>,
                    (effective_two_torsion,),
                    #[trigger] ds[i],
                ),
            forall|i: int|
                0 <= i < ds.len() - 1 ==> !good_secret_degree(#[trigger] ds[i].value(), tv, primes),
        decreases 0xffff_ffff_ffff_ffffu64 - attempts,
    {
        let ghost old_ds = ds;
        proof {
            assert(!good_secret_degree(element.value(), tv, primes));
        }
        element = sample_random_unit_mod_power_of_two(effective_two_torsion);
        proof {
            ds = old_ds.push(element);
            assert forall|i: int| 0 <= i < ds.len() - 1 implies !good_secret_degree(
                #[trigger] ds[i].value(),
                tv,
                primes,
            ) by {
                assert(ds[i] == old_ds[i]);
            }
            assert forall|i: int| 0 <= i < ds.len() implies call_ensures(
                sample_random_unit_mod_power_of_two::<NUM_WORDS_2>,
                (effective_two_torsion,),
                #[trigger] ds[i],
            ) by {
                if i < old_ds.len() {
                    assert(ds[i] == old_ds[i]);
                }
            }
        }
        dual_element = effective_two_torsion.sub(&element);
        attempts += 1;
    }
    if either_divisible_by_any(&element, &dual_element, special_primes_coprime_to) {
        let r = find_secret_degree(effective_two_torsion, special_primes_coprime_to);
        proof {
            assert(!good_secret_degree(element.value(), tv, primes));
            assert(secret_degree_draws::<NUM_WORDS_2>(
                effective_two_torsion,
                primes,
                ds,
                r.0.value(),
            ));
        }
        r
    } else {
        proof {
            assert(good_secret_degree(
                element.value(),
                effective_two_torsion.value(),
                special_primes_coprime_to@,
            ));
            assert(secret_degree_draws::<NUM_WORDS_2>(
                effective_two_torsion,
                primes,
                ds,
                element.value(),
            ));
        }
        (element, dual_element)
    }
}


/// The number that the invertibility test of a 2x2 matrix modulo `m` looks at:
/// `m00 * m11 mod m` plus `m - (m01 * m10 mod m)`.
pub open spec fn matrix_test_value(m00: nat, m01: nat, m10: nat, m11: nat, m: nat) -> nat {
    ((m00 * m11) % m + (m - (m01 * m10) % m)) as nat
}

/// Whether `diagonal + cross_term`, with `cross_term = m - (m01 * m10 mod m)` and `diagonal`
/// below `m`, is not divisible by `modulus_base`, computed from the two remainders so that
/// nothing wraps around.
fn passes_matrix_test<const NUM_WORDS_MOD: usize>(
    diagonal: &BigNum<NUM_WORDS_MOD>,
    cross_term: &BigNum<NUM_WORDS_MOD>,
    modulus_base: u8,
) -> (r: bool)
    requires
        modulus_base > 1,
        word_base() % (modulus_base as nat) == 1,
    ensures
        r == ((diagonal.value() + cross_term.value()) % (modulus_base as nat) != 0),
{
    let a = diagonal.residue_mod_special(modulus_base);
    let c = cross_term.residue_mod_special(modulus_base);
    proof {
        lemma_add_mod_noop(diagonal.value() as int, cross_term.value() as int, modulus_base as int);
    }
    (a + c) % (modulus_base as u64) != 0
}

/// The diagonals drawn for a matrix with off-diagonal `m01`, `m10` modulo `modulus`, and
/// the diagonal `(d00, d11)` that rejection sampling makes of them: each entry of each pair
/// is an outcome of `sample_random_element_mod`; every pair but the last fails the
/// invertibility test; the diagonal is the last pair when that passes, and otherwise,
/// after 2^64 pairs, `(0, 1)` or `(1, 1)`.
pub open spec fn diagonal_draws<const NUM_WORDS_MOD: usize>(
    modulus: &BigNum<NUM_WORDS_MOD>,
    base: nat,
    m01: nat,
    m10: nat,
    pairs: Seq<(BigNum<NUM_WORDS_MOD>, BigNum<NUM_WORDS_MOD>)>,
    d00: nat,
    d11: nat,
) -> bool {
    let m = modulus.value();
    let last = pairs.last();
    &&& 1 <= pairs.len() <= 0x1_0000_0000_0000_0000
    &&& forall|i: int|
        0 <= i < pairs.len() ==> call_ensures(
            sample_random_element_mod::<NUM_WORDS_MOD>,
            (modulus,),
            #[trigger] pairs[i].0,
        ) && call_ensures(sample_random_element_mod::<NUM_WORDS_MOD>, (modulus,), pairs[i].1)
    &&& forall|i: int|
        0 <= i < pairs.len() - 1 ==> matrix_test_value(
            #[trigger] pairs[i].0.value(),
            m01,
            m10,
            pairs[i].1.value(),
            m,
        ) % base == 0
    &&& if matrix_test_value(last.0.value(), m01, m10, last.1.value(), m) % base != 0 {
        d00 == last.0.value() && d11 == last.1.value()
    } else {
        pairs.len() == 0x1_0000_0000_0000_0000 && (d00 == 0 || d00 == 1) && d11 == 1
    }
}

/// A random 2x2 matrix of numbers below `modulus` that passes the invertibility test:
/// `m00 * m11 mod m + (m - m01 * m10 mod m)` is not divisible by `modulus_base`, so that
/// when `modulus_base` divides the modulus the determinant is not divisible by it
/// (invertible when `modulus` is a power of the prime `modulus_base`); by rejection
/// sampling of its diagonal. The base must satisfy 2^64 = 1 (mod modulus_base). After
/// 2^64 - 1 rejected draws it takes the diagonal `(0, 1)` or, when that fails the test,
/// `(1, 1)`, with the drawn off-diagonal; one of the two passes.
pub fn sample_random_invertible_matrix_mod_special_prime_power<const NUM_WORDS_MOD: usize>(
    modulus_base: u8,
    modulus: &BigNum<NUM_WORDS_MOD>,
) -> (r: [[BigNum<NUM_WORDS_MOD>; 2]; 2])
    requires
        modulus_base > 1,
        word_base() % (modulus_base as nat) == 1,
        modulus.value() >= 1,
        modulus.bits() >= 1,
        NUM_WORDS_MOD <= usize::MAX / 128,
    ensures
        forall|i: int, j: int|
            0 <= i < 2 && 0 <= j < 2 ==> #[trigger] r[i][j].value() < modulus.value()
                && r[i][j].is_canonical(),
        matrix_test_value(
            r[0][0].value(),
            r[0][1].value(),
            r[1][0].value(),
            r[1][1].value(),
            modulus.value(),
        ) % (modulus_base as nat) != 0,
        modulus.value() % (modulus_base as nat) == 0 ==> (r[0][0].value() * r[1][1].value()
            - r[0][1].value() * r[1][0].value()) % (modulus_base as int) != 0,
        call_ensures(sample_random_element_mod::<NUM_WORDS_MOD>, (modulus,), r[0][1]),
        call_ensures(sample_random_element_mod::<NUM_WORDS_MOD>, (modulus,), r[1][0]),
        exists|pairs: Seq<(BigNum<NUM_WORDS_MOD>, BigNum<NUM_WORDS_MOD>)>|
            #[trigger] diagonal_draws::<NUM_WORDS_MOD>(
                modulus,
                modulus_base as nat,
                r[0][1].value(),
                r[1][0].value(),
                pairs,
                r[0][0].value(),
                r[1][1].value(),
            ),
{
    modulus.well_formed();
    let ghost m = modulus.value();
    let ghost base = modulus_base as nat;
    // Randomly generate the off-diagonal elements
    let m01 = sample_random_element_mod(modulus);
    let m10 = sample_random_element_mod(modulus);
    let off_diagonal = m01.mul_mod(&m10, modulus);
    proof {
        lemma_mod_bound((m01.value() * m10.value()) as int, m as int);
    }
    let cross_term = modulus.sub(&off_diagonal);
    proof {
        lemma_small_mod((m - off_diagonal.value()) as nat, word_weight(NUM_WORDS_MOD as nat));
        assert(cross_term.value() == m - (m01.value() * m10.value()) % m);
    }

    // Select the diagonal elements so that gcd(det(D), modulus) == 1, i.e. so D is
    // invertible modulo modulus
    let mut m00 = sample_random_element_mod(modulus);
    let mut m11 = sample_random_element_mod(modulus);
    let ghost mut pairs = seq![(m00, m11)];
    let ghost a01 = m01.value();
    let ghost a10 = m10.value();
    let mut attempts: u64 = 0;
    while !passes_matrix_test(&m00.mul_mod(&m11, modulus), &cross_term, modulus_base)
        && attempts < 0xffff_ffff_ffff_ffffu64
        invariant
            modulus_base > 1,
            word_base() % (modulus_base as nat) == 1,
            m == modulus.value(),
            base == modulus_base as nat,
            modulus.value() >= 1,
            modulus.bits() >= 1,
            NUM_WORDS_MOD <= usize::MAX / 128,
            m00.value() < modulus.value(),
            m11.value() < modulus.value(),
            m00.is_canonical(),
            m11.is_canonical(),
            cross_term.value() == m - (a01 * a10) % m,
            pairs.len() == attempts + 1,
            pairs.last() == (m00, m11),
            forall|i: int|
                0 <= i < pairs.len() ==> call_ensures(
                    sample_random_element_mod::<NUM_WORDS_MOD>,
                    (modulus,),
                    #[trigger] pairs[i].0,
                ) && call_ensures(
                    sample_random_element_mod::<NUM_WORDS_MOD>,
                    (modulus,),
                    pairs[i].1,
                ),
            forall|i: int|
                0 <= i < pairs.len() - 1 ==> matrix_test_value(
                    #[trigger] pairs[i].0.value(),
                    a01,
                    a10,
                    pairs[i].1.value(),
                    m,
                ) % base == 0,
        decreases 0xffff_ffff_ffff_ffffu64 - attempts,
    {
        let ghost old_pairs = pairs;
        proof {
            assert(matrix_test_value(m00.value(), a01, a10, m11.value(), m) % base == 0);
        }
        m00 = sample_random_element_mod(modulus);
        m11 = sample_random_element_mod(modulus);
        proof {
            pairs = old_pairs.push((m00, m11));
            assert forall|i: int| 0 <= i < pairs.len() - 1 implies matrix_test_value(
                #[trigger] pairs[i].0.value(),
                a01,
                a10,
                pairs[i].1.value(),
                m,
            ) % base == 0 by {
                assert(pairs[i] == old_pairs[i]);
            }
            assert forall|i: int| 0 <= i < pairs.len() implies call_ensures(
                sample_random_element_mod::<NUM_WORDS_MOD>,
                (modulus,),
                #[trigger] pairs[i].0,
            ) && call_ensures(sample_random_element_mod::<NUM_WORDS_MOD>, (modulus,), pairs[i].1)
                by {
                if i < old_pairs.len() {
                    assert(pairs[i] == old_pairs[i]);
                }
            }
        }
        attempts += 1;
    }
    let r = if passes_matrix_test(&m00.mul_mod(&m11, modulus), &cross_term, modulus_base) {
        [[m00, m01], [m10, m11]]
    } else {
        proof {
            lemma_at_least_one_word::<NUM_WORDS_MOD>(m);
        }
        let zero = BigNum::<NUM_WORDS_MOD>::zero();
        let one = BigNum::<NUM_WORDS_MOD>::unit();
        proof {
            lemma_small_mod(0, m);
            assert(0 * 1 == 0nat && 1 * 1 == 1nat);
        }
        if passes_matrix_test(&zero.mul_mod(&one, modulus), &cross_term, modulus_base) {
            [[zero, m01], [m10, one]]
        } else {
            // The test values for the diagonals (0, 1) and (1, 1) are c and c + 1 when the
            // modulus is at least 2, and c = 1 for the modulus 1: one of them passes.
            let ghost c = cross_term.value();
            proof {
                if m >= 2 {
                    lemma_small_mod(1, m);
                    lemma_add_mod_noop(c as int, 1, base as int);
                    lemma_small_mod(1, base);
                } else {
                    lemma_small_mod(0, 1);
                    assert((0 * 0) % 1 == 0nat);
                    lemma_small_mod(1, base);
                }
            }
            let one2 = BigNum::<NUM_WORDS_MOD>::unit();
            let one3 = BigNum::<NUM_WORDS_MOD>::unit();
            [[one2, m01], [m10, one3]]
        }
    };
    proof {
        assert(diagonal_draws::<NUM_WORDS_MOD>(
            modulus,
            base,
            r[0][1].value(),
            r[1][0].value(),
            pairs,
            r[0][0].value(),
            r[1][1].value(),
        ));
        if m % base == 0 {
            lemma_matrix_test_is_determinant(
                r[0][0].value(),
                r[0][1].value(),
                r[1][0].value(),
                r[1][1].value(),
                m,
                base,
            );
        }
    }
    r
}

/// When `modulus_base` divides `m`, the number that the invertibility test looks at is
/// the determinant modulo `modulus_base`, so a matrix that passes the test is invertible
/// modulo every power of a prime base that divides `m`.
pub proof fn lemma_matrix_test_is_determinant(
    m00: nat,
    m01: nat,
    m10: nat,
    m11: nat,
    m: nat,
    modulus_base: nat,
)
    requires
        modulus_base > 0,
        m > 0,
        m % modulus_base == 0,
    ensures
        matrix_test_value(m00, m01, m10, m11, m) % modulus_base == (m00 * m11 - m01 * m10)
            % (modulus_base as int),
{
    let b = modulus_base as int;
    let c = m / modulus_base;
    vstd::arithmetic::div_mod::lemma_fundamental_div_mod(m as int, b);
    assert(m == modulus_base * c);
    assert(c > 0) by (nonlinear_arith)
        requires
            m == modulus_base * c,
            m > 0,
            modulus_base > 0,
    ;
    let x = m00 * m11;
    let y = m01 * m10;
    lemma_mod_bound(x as int, m as int);
    lemma_mod_bound(y as int, m as int);
    // the test value is x % m - y % m + m, and m is a multiple of the base
    lemma_mod_mod(x as int, b, c as int);
    lemma_mod_mod(y as int, b, c as int);
    lemma_sub_mod_noop((x % m) as int, (y % m) as int, b);
    lemma_sub_mod_noop(x as int, y as int, b);
    assert((m as int) % b == 0);
    lemma_add_mod_noop((x % m) as int - (y % m) as int, m as int, b);
    lemma_mod_twice((x % m) as int - (y % m) as int, b);
}

} // verus!
