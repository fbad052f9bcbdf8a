//! Fixed-size and arbitrary-size unsigned big numbers in little-endian 64-bit words.
use crate::limbs::{
    add_words, lemma_word_weight_adds, lemma_word_weight_pos, lemma_word_weight_succ, lemma_words_value_split,
    lemma_words_value_take_succ, lemma_words_value_injective, mul_words, mul_words_by_word, sub_words, word_base,
    bit_length, bytes_value, copy_words, le_bytes_to_le_words, le_words_to_le_bytes, lemma_bit_length_le,
    lemma_word_base, lemma_word_weight_le, lemma_words_value_bound, lemma_words_value_take,
    lemma_words_value_update, lemma_words_value_zero_extend, lemma_words_value_zeros,
    strip_zero_top, word_weight, words_bit_length, words_for_bytes, words_value, zero_words, zeros,
    bytes_for_bits, lemma_trimmed_bytes_len,
};
use vstd::arithmetic::div_mod::*;
use vstd::arithmetic::mul::*;
use vstd::arithmetic::power::*;
use num_bigint::BigUint;
use vstd::prelude::*;

verus! {

/// An unsigned big number of any number of words, with its bit length.
#[derive(Debug)]
pub struct BigNumArb {
    repr: Vec<u64>,
    bitlen: usize,
}

/// An unsigned big number of exactly `NUM_WORDS` little-endian 64-bit words, with its
/// bit length. Arithmetic on it wraps around modulo 2^(64 * NUM_WORDS).
#[derive(Debug)]
pub struct BigNum<const NUM_WORDS: usize> {
    repr: Vec<u64>,
    bitlen: usize,
}

/// The words of `words` cut or zero-extended to exactly `n` words.
pub open spec fn fit_words(words: Seq<u64>, n: nat) -> Seq<u64> {
    if words.len() >= n {
        words.take(n as int)
    } else {
        words + zero_words((n - words.len()) as nat)
    }
}

/// Cutting or zero-extending to `n` words reduces the value modulo 2^(64n).
pub proof fn lemma_fit_words(words: Seq<u64>, n: nat)
    ensures
        fit_words(words, n).len() == n,
        words_value(fit_words(words, n)) == words_value(words) % word_weight(n),
{
    if words.len() >= n {
        lemma_words_value_take(words, n);
    } else {
        lemma_words_value_zero_extend(words, (n - words.len()) as nat);
        lemma_words_value_bound(words);
        lemma_word_weight_le(words.len() as nat, n);
        lemma_small_mod(words_value(words), word_weight(n));
    }
}

/// `p` raised to the `e`, as a natural number.
pub open spec fn nat_pow(p: nat, e: nat) -> nat {
    pow(p as int, e) as nat
}

/// A power of a natural number is a natural number, one factor at a time.
pub proof fn lemma_nat_pow_succ(p: nat, e: nat)
    ensures
        pow(p as int, e) >= 0,
        nat_pow(p, e + 1) == nat_pow(p, e) * p,
        nat_pow(p, 0) == 1,
    decreases e,
{
    lemma_pow0(p as int);
    lemma_pow1(p as int);
    lemma_pow_adds(p as int, e, 1);
    if e > 0 {
        lemma_nat_pow_succ(p, (e - 1) as nat);
        lemma_pow_adds(p as int, (e - 1) as nat, 1);
        assert((e - 1) as nat + 1 == e);
        assert(pow(p as int, (e - 1) as nat) * p >= 0) by (nonlinear_arith)
            requires
                pow(p as int, (e - 1) as nat) >= 0,
        ;
    }
    assert(p * pow(p as int, e) >= 0) by (nonlinear_arith)
        requires
            pow(p as int, e) >= 0,
    ;
}

/// The product of `p^e` over a list of prime factors `(p, e)`.
pub open spec fn factors_product(factors: Seq<(usize, usize)>) -> nat
    decreases factors.len(),
{
    if factors.len() == 0 {
        1
    } else {
        factors_product(factors.drop_last()) * nat_pow(
            factors.last().0 as nat,
            factors.last().1 as nat,
        )
    }
}

/// The character of a decimal digit `d < 10`.
pub open spec fn decimal_digit(d: nat) -> char {
    (48 + d) as char
}

/// The decimal numeral of `v`, without leading zeros ("0" for zero).
pub open spec fn decimal_digits(v: nat) -> Seq<char>
    decreases v,
{
    if v < 10 {
        seq![decimal_digit(v)]
    } else {
        decimal_digits(v / 10).push(decimal_digit(v % 10))
    }
}

/// `BigUint::from_bytes_le(bytes).to_string()` of num-bigint: the decimal numeral of the
/// number with the given little-endian bytes, as its `Display` writes it (most
/// significant digit first, no leading zeros, "0" for zero).
#[verifier::external_body]
fn biguint_to_decimal(bytes: &[u8]) -> (s: String)
    ensures
        s@ == decimal_digits(bytes_value(bytes@)),
{
    BigUint::from_bytes_le(bytes).to_string()
}

impl BigNumArb {
    #[verifier::type_invariant]
    spec fn inv(self) -> bool {
        &&& 64 * self.repr@.len() <= usize::MAX
        &&& self.bitlen == bit_length(words_value(self.repr@))
    }

    /// The words, least significant first.
    pub closed spec fn words(self) -> Seq<u64> {
        self.repr@
    }

    /// The number that the words stand for.
    pub open spec fn value(self) -> nat {
        words_value(self.words())
    }

    /// The recorded bit length.
    pub closed spec fn bits(self) -> nat {
        self.bitlen as nat
    }

    /// A big number with the given words.
    pub fn new(words: &[u64]) -> (r: Self)
        requires
            64 * words@.len() <= usize::MAX,
        ensures
            r.words() == words@,
            r.bits() == bit_length(r.value()),
    {
        let bitlen = words_bit_length(words);
        Self { repr: copy_words(words), bitlen }
    }

    /// The big number with the given little-endian bytes.
    pub fn from_le_bytes(bytes: &[u8]) -> (r: Self)
        requires
            8 * bytes@.len() + 64 <= usize::MAX,
        ensures
            r.value() == bytes_value(bytes@),
            r.words().len() == words_for_bytes(bytes@.len() as nat),
            r.bits() == bit_length(r.value()),
    {
        Self::new(&le_bytes_to_le_words(bytes))
    }

    /// The words, least significant first.
    pub fn as_le_words(&self) -> (r: &[u64])
        ensures
            r@ == self.words(),
    {
        self.repr.as_slice()
    }

    /// The bit length.
    pub fn nbits(&self) -> (r: usize)
        ensures
            r == self.bits(),
            r == bit_length(self.value()),
    {
        proof {
            use_type_invariant(self);
        }
        self.bitlen
    }
}

impl<const NUM_WORDS: usize> BigNum<NUM_WORDS> {
    #[verifier::type_invariant]
    spec fn inv(self) -> bool {
        &&& self.repr@.len() == NUM_WORDS
        &&& 64 * NUM_WORDS <= usize::MAX
        &&& self.bitlen <= 64 * NUM_WORDS
    }

    /// Whether numbers of `NUM_WORDS` words can count their bits in a `usize`.
    pub open spec fn size_ok() -> bool {
        64 * NUM_WORDS <= usize::MAX
    }

    /// The words, least significant first.
    pub closed spec fn words(self) -> Seq<u64> {
        self.repr@
    }

    /// The number that the words stand for.
    pub open spec fn value(self) -> nat {
        words_value(self.words())
    }

    /// The recorded bit length.
    pub closed spec fn bits(self) -> nat {
        self.bitlen as nat
    }

    /// Whether the recorded bit length is the bit length of the value.
    pub open spec fn is_canonical(self) -> bool {
        self.bits() == bit_length(self.value())
    }

    /// What every big number of this size satisfies.
    pub fn well_formed(&self)
        ensures
            self.words().len() == NUM_WORDS,
            Self::size_ok(),
            self.bits() <= 64 * NUM_WORDS,
            self.value() < word_weight(NUM_WORDS as nat),
    {
        proof {
            use_type_invariant(self);
            lemma_words_value_bound(self.words());
        }
    }

    /// The number zero.
    pub fn zero() -> (r: Self)
        requires
            Self::size_ok(),
        ensures
            r.words() == zero_words(NUM_WORDS as nat),
            r.value() == 0,
            r.bits() == 0,
            r.is_canonical(),
    {
        proof {
            lemma_words_value_zeros(NUM_WORDS as nat);
        }
        Self { repr: zeros(NUM_WORDS), bitlen: 0 }
    }

    /// Every word set to 1, with the bit length 1 recorded (the number one, with its bit
    /// length, when there is a single word).
    pub fn one() -> (r: Self)
        requires
            Self::size_ok(),
            NUM_WORDS >= 1,
        ensures
            r.words() == Seq::new(NUM_WORDS as nat, |i: int| 1u64),
            r.bits() == 1,
            NUM_WORDS == 1 ==> r.value() == 1 && r.is_canonical(),
    {
        let mut words: Vec<u64> = Vec::new();
        let mut i: usize = 0;
        while i < NUM_WORDS
            invariant
                i <= NUM_WORDS,
                words@ == Seq::new(i as nat, |j: int| 1u64),
            decreases NUM_WORDS - i,
        {
            words.push(1);
            i += 1;
        }
        proof {
            if NUM_WORDS == 1 {
                lemma_word_base();
                assert(words@ =~= zero_words(1).update(0, 1u64));
                lemma_words_value_zeros(1);
                lemma_words_value_update(zero_words(1), 0, 1u64);
                assert(bit_length(1) == 1 + bit_length(0));
            }
        }
        Self { repr: words, bitlen: 1 }
    }

    /// The number one.
    pub(crate) fn unit() -> (r: Self)
        requires
            Self::size_ok(),
            NUM_WORDS >= 1,
        ensures
            r.words() == zero_words(NUM_WORDS as nat).update(0, 1u64),
            r.value() == 1,
            r.bits() == 1,
            r.is_canonical(),
    {
        let mut words = zeros(NUM_WORDS);
        words.set(0, 1);
        proof {
            lemma_words_value_zeros(NUM_WORDS as nat);
            lemma_words_value_update(zero_words(NUM_WORDS as nat), 0, 1u64);
            lemma_word_base();
            assert(bit_length(1) == 1 + bit_length(0));
        }
        Self { repr: words, bitlen: 1 }
    }

    /// The number with the given words: zero-extended when there are fewer than
    /// `NUM_WORDS`, cut to the lowest `NUM_WORDS` when there are more.
    pub fn new(words: &[u64]) -> (r: Self)
        requires
            Self::size_ok(),
        ensures
            r.words() == fit_words(words@, NUM_WORDS as nat),
            r.value() == words_value(words@) % word_weight(NUM_WORDS as nat),
            r.is_canonical(),
    {
        let n = words.len();
        let mut repr: Vec<u64> = Vec::new();
        let mut i: usize = 0;
        while i < NUM_WORDS
            invariant
                n == words@.len(),
                i <= NUM_WORDS,
                repr@ == fit_words(words@, NUM_WORDS as nat).take(i as int),
            decreases NUM_WORDS - i,
        {
            let x = if i < n {
                words[i]
            } else {
                0
            };
            repr.push(x);
            i += 1;
            proof {
                assert(repr@ =~= fit_words(words@, NUM_WORDS as nat).take(i as int));
            }
        }
        proof {
            lemma_fit_words(words@, NUM_WORDS as nat);
            assert(repr@ =~= fit_words(words@, NUM_WORDS as nat));
        }
        let bitlen = words_bit_length(repr.as_slice());
        proof {
            lemma_words_value_bound(repr@);
            lemma_bit_length_le(words_value(repr@), 64 * NUM_WORDS as nat);
        }
        Self { repr, bitlen }
    }

    /// The number with the given little-endian bytes, cut to `NUM_WORDS` words.
    pub fn from_le_bytes(bytes: &[u8]) -> (r: Self)
        requires
            Self::size_ok(),
        ensures
            r.value() == bytes_value(bytes@) % word_weight(NUM_WORDS as nat),
            r.is_canonical(),
    {
        Self::new(&le_bytes_to_le_words(bytes))
    }

    /// The little-endian bytes of the number, without zero bytes on top.
    pub fn to_le_bytes(&self) -> (r: Vec<u8>)
        ensures
            bytes_value(r@) == self.value(),
            r@ == strip_zero_top(r@),
            NUM_WORDS >= 1 ==> r@.len() >= 1,
            r@.len() > 1 ==> r@.last() != 0,
            r@.len() <= 8 * NUM_WORDS,
            NUM_WORDS >= 1 ==> r@.len() == bytes_for_bits(bit_length(self.value())),
            NUM_WORDS >= 1 && self.is_canonical() ==> r@.len() == bytes_for_bits(self.bits()),
    {
        proof {
            use_type_invariant(self);
        }
        let r = le_words_to_le_bytes(self.repr.as_slice()).0;
        proof {
            if NUM_WORDS >= 1 {
                lemma_trimmed_bytes_len(r@);
            }
        }
        r
    }

    /// The number in decimal, as `Display` shows it.
    pub fn to_decimal_string(&self) -> (s: String)
        ensures
            s@ == decimal_digits(self.value()),
    {
        biguint_to_decimal(self.to_le_bytes().as_slice())
    }

    /// The words, least significant first.
    pub fn as_le_words(&self) -> (r: &[u64])
        ensures
            r@ == self.words(),
            r@.len() == NUM_WORDS,
    {
        proof {
            use_type_invariant(self);
        }
        self.repr.as_slice()
    }

    /// The recorded bit length.
    pub fn nbits(&self) -> (r: usize)
        ensures
            r == self.bits(),
            r <= 64 * NUM_WORDS,
    {
        proof {
            use_type_invariant(self);
        }
        self.bitlen
    }

    /// The number `p`, reduced modulo 2^(64 * NUM_WORDS).
    pub fn from_prime(p: usize) -> (r: Self)
        requires
            Self::size_ok(),
        ensures
            r.value() == (p as nat) % word_weight(NUM_WORDS as nat),
            r.is_canonical(),
    {
        let r = Self::from_prime_power(p, 1);
        proof {
            lemma_nat_pow_succ(p as nat, 0);
        }
        r
    }

    /// The number `p^exp`, reduced modulo 2^(64 * NUM_WORDS).
    pub fn from_prime_power(p: usize, exp: usize) -> (r: Self)
        requires
            Self::size_ok(),
        ensures
            r.value() == nat_pow(p as nat, exp as nat) % word_weight(NUM_WORDS as nat),
            r.is_canonical(),
    {
        let mut r = Self::one_or_zero();
        let mut i: usize = 0;
        proof {
            lemma_nat_pow_succ(p as nat, 0);
        }
        while i < exp
            invariant
                i <= exp,
                r.value() == nat_pow(p as nat, i as nat) % word_weight(NUM_WORDS as nat),
                r.is_canonical(),
            decreases exp - i,
        {
            let ghost before = r.value();
            r = r.mul_u64(p as u64);
            proof {
                lemma_word_weight_pos(NUM_WORDS as nat);
                lemma_nat_pow_succ(p as nat, i as nat);
                lemma_mul_mod_noop_left(
                    nat_pow(p as nat, i as nat) as int,
                    p as int,
                    word_weight(NUM_WORDS as nat) as int,
                );
            }
            i += 1;
        }
        r
    }

    /// The product of `p^e` over the given prime factors `(p, e)`, reduced modulo
    /// 2^(64 * NUM_WORDS).
    pub fn from_prime_factors(prime_factorization: &[(usize, usize)]) -> (r: Self)
        requires
            Self::size_ok(),
        ensures
            r.value() == factors_product(prime_factorization@) % word_weight(NUM_WORDS as nat),
            r.is_canonical(),
    {
        let mut r = Self::one_or_zero();
        let mut k: usize = 0;
        proof {
            assert(prime_factorization@.take(0).len() == 0);
        }
        while k < prime_factorization.len()
            invariant
                k <= prime_factorization@.len(),
                Self::size_ok(),
                r.value() == factors_product(prime_factorization@.take(k as int)) % word_weight(
                    NUM_WORDS as nat,
                ),
                r.is_canonical(),
            decreases prime_factorization@.len() - k,
        {
            let (p, e) = prime_factorization[k];
            let factor: Self = Self::from_prime_power(p, e);
            let ghost before = r.value();
            r = r.mul(&factor);
            proof {
                let w = word_weight(NUM_WORDS as nat) as int;
                lemma_word_weight_pos(NUM_WORDS as nat);
                let pre = factors_product(prime_factorization@.take(k as int)) as int;
                let f = nat_pow(p as nat, e as nat) as int;
                lemma_mul_mod_noop(pre, f, w);
                assert(prime_factorization@.take(k + 1).drop_last() =~= prime_factorization@.take(
                    k as int,
                ));
            }
            k += 1;
        }
        proof {
            assert(prime_factorization@.take(prime_factorization@.len() as int)
                =~= prime_factorization@);
        }
        r
    }

    /// One, or zero when there are no words at all (one reduced modulo 1).
    fn one_or_zero() -> (r: Self)
        requires
            Self::size_ok(),
        ensures
            r.value() == 1nat % word_weight(NUM_WORDS as nat),
            r.is_canonical(),
    {
        proof {
            lemma_word_base();
        }
        if NUM_WORDS == 0 {
            Self::zero()
        } else {
            proof {
                lemma_word_weight_le(1, NUM_WORDS as nat);
                lemma_small_mod(1, word_weight(NUM_WORDS as nat));
            }
            Self::unit()
        }
    }

    /// The product, reduced modulo 2^(64 * NUM_WORDS), as a sum of shifted word products.
    fn mul_by_narrow(&self, rhs: &Self) -> (r: Self)
        ensures
            r.value() == (self.value() * rhs.value()) % word_weight(NUM_WORDS as nat),
            r.is_canonical(),
    {
        proof {
            use_type_invariant(self);
            use_type_invariant(rhs);
        }
        let mut acc = Self::zero();
        let mut i: usize = 0;
        proof {
            assert(words_value(rhs.repr@.take(0)) == 0);
            assert(self.value() * 0 == 0) by (nonlinear_arith);
            lemma_word_weight_pos(NUM_WORDS as nat);
            lemma_small_mod(0, word_weight(NUM_WORDS as nat));
        }
        while i < NUM_WORDS
            invariant
                i <= NUM_WORDS,
                rhs.repr@.len() == NUM_WORDS,
                acc.value() == (self.value() * words_value(rhs.repr@.take(i as int))) % word_weight(
                    NUM_WORDS as nat,
                ),
                acc.is_canonical(),
            decreases NUM_WORDS - i,
        {
            let row = self.mul_u64(rhs.repr[i]).shift_words_up(i);
            acc.add_assign(&row);
            proof {
                let w = word_weight(NUM_WORDS as nat) as int;
                lemma_word_weight_pos(NUM_WORDS as nat);
                lemma_words_value_take_succ(rhs.repr@, i as int);
                let x = self.value() as int;
                let pre = words_value(rhs.repr@.take(i as int)) as int;
                let d = rhs.repr@[i as int] as int;
                let wi = word_weight(i as nat) as int;
                // row == ((x * d) % w) * wi % w == (x * d * wi) % w
                lemma_mul_mod_noop_left(x * d, wi, w);
                lemma_add_mod_noop(x * pre, x * d * wi, w);
                assert(x * (pre + d * wi) == x * pre + x * d * wi) by (nonlinear_arith);
            }
            i += 1;
        }
        proof {
            assert(rhs.repr@.take(NUM_WORDS as int) =~= rhs.repr@);
        }
        acc
    }

    /// The number times 2^(64 k), reduced modulo 2^(64 * NUM_WORDS).
    fn shift_words_up(&self, k: usize) -> (r: Self)
        ensures
            r.value() == (self.value() * word_weight(k as nat)) % word_weight(NUM_WORDS as nat),
            r.is_canonical(),
    {
        proof {
            use_type_invariant(self);
        }
        let shift = if k <= NUM_WORDS {
            k
        } else {
            NUM_WORDS
        };
        let mut words = zeros(shift);
        let mut i: usize = 0;
        while i < NUM_WORDS - shift
            invariant
                shift <= NUM_WORDS,
                self.repr@.len() == NUM_WORDS,
                i <= NUM_WORDS - shift,
                words@ == zero_words(shift as nat) + self.repr@.take(i as int),
            decreases NUM_WORDS - shift - i,
        {
            words.push(self.repr[i]);
            i += 1;
            proof {
                assert(words@ =~= zero_words(shift as nat) + self.repr@.take(i as int));
            }
        }
        proof {
            lemma_shifted_words_value(self.repr@, shift as nat, k as nat);
        }
        Self::new(words.as_slice())
    }

    /// The exact product, in as many words as both factors together.
    pub fn widening_mul<const NUM_WORDS_RHS: usize, const NUM_WORDS_OUT: usize>(
        &self,
        rhs: &BigNum<NUM_WORDS_RHS>,
    ) -> (r: BigNum<NUM_WORDS_OUT>)
        requires
            NUM_WORDS_OUT == NUM_WORDS + NUM_WORDS_RHS,
            BigNum::<NUM_WORDS_OUT>::size_ok(),
        ensures
            r.value() == self.value() * rhs.value(),
            r.is_canonical(),
    {
        proof {
            use_type_invariant(self);
            use_type_invariant(rhs);
        }
        let product = mul_words(self.repr.as_slice(), rhs.repr.as_slice());
        proof {
            lemma_words_value_bound(product@);
            lemma_small_mod(words_value(product@), word_weight(NUM_WORDS_OUT as nat));
        }
        BigNum::new(product.as_slice())
    }

    /// The lowest `NEW_NUM_WORDS` words; the recorded bit length is capped at the new size.
    pub fn truncate<const NEW_NUM_WORDS: usize>(&self) -> (r: BigNum<NEW_NUM_WORDS>)
        requires
            NEW_NUM_WORDS <= NUM_WORDS,
        ensures
            r.words() == self.words().take(NEW_NUM_WORDS as int),
            r.value() == self.value() % word_weight(NEW_NUM_WORDS as nat),
            r.bits() == if self.bits() <= 64 * NEW_NUM_WORDS {
                self.bits()
            } else {
                (64 * NEW_NUM_WORDS) as nat
            },
            self.is_canonical() && self.value() < word_weight(NEW_NUM_WORDS as nat)
                ==> r.is_canonical(),
    {
        proof {
            use_type_invariant(self);
        }
        let new_max_bitlen = NEW_NUM_WORDS * 64;
        let bitlen = if self.bitlen <= new_max_bitlen {
            self.bitlen
        } else {
            new_max_bitlen
        };
        let mut repr: Vec<u64> = Vec::new();
        let mut i: usize = 0;
        while i < NEW_NUM_WORDS
            invariant
                i <= NEW_NUM_WORDS <= NUM_WORDS,
                self.repr@.len() == NUM_WORDS,
                repr@ == self.repr@.take(i as int),
            decreases NEW_NUM_WORDS - i,
        {
            repr.push(self.repr[i]);
            i += 1;
            proof {
                assert(repr@ =~= self.repr@.take(i as int));
            }
        }
        proof {
            lemma_words_value_take(self.repr@, NEW_NUM_WORDS as nat);
            if self.value() < word_weight(NEW_NUM_WORDS as nat) {
                lemma_small_mod(self.value(), word_weight(NEW_NUM_WORDS as nat));
                lemma_bit_length_le(self.value(), 64 * NEW_NUM_WORDS as nat);
            }
        }
        BigNum { repr, bitlen }
    }

    /// The same number in `NEW_NUM_WORDS` words: zero-extended, or cut when smaller.
    pub fn widen<const NEW_NUM_WORDS: usize>(&self) -> (r: BigNum<NEW_NUM_WORDS>)
        requires
            BigNum::<NEW_NUM_WORDS>::size_ok(),
        ensures
            r.value() == self.value() % word_weight(NEW_NUM_WORDS as nat),
            NEW_NUM_WORDS >= NUM_WORDS ==> r.value() == self.value(),
            r.is_canonical(),
    {
        proof {
            use_type_invariant(self);
            lemma_words_value_bound(self.repr@);
            if NEW_NUM_WORDS >= NUM_WORDS {
                lemma_word_weight_le(NUM_WORDS as nat, NEW_NUM_WORDS as nat);
                lemma_small_mod(self.value(), word_weight(NEW_NUM_WORDS as nat));
            }
        }
        BigNum::new(self.repr.as_slice())
    }

    /// The sum, wrapping around modulo 2^(64 * NUM_WORDS).
    pub fn add(&self, rhs: &Self) -> (r: Self)
        ensures
            r.value() == (self.value() + rhs.value()) % word_weight(NUM_WORDS as nat),
            r.is_canonical(),
    {
        proof {
            use_type_invariant(self);
            use_type_invariant(rhs);
        }
        let sum = add_words(self.repr.as_slice(), rhs.repr.as_slice());
        proof {
            lemma_word_weight_pos(NUM_WORDS as nat);
            lemma_mod_twice(
                (self.value() + rhs.value()) as int,
                word_weight(NUM_WORDS as nat) as int,
            );
        }
        BigNum::new(sum.as_slice())
    }

    /// The difference, wrapping around modulo 2^(64 * NUM_WORDS) when `rhs` is larger.
    pub fn sub(&self, rhs: &Self) -> (r: Self)
        ensures
            r.value() == (self.value() - rhs.value()) % (word_weight(NUM_WORDS as nat) as int),
            rhs.value() <= self.value() ==> r.value() == self.value() - rhs.value(),
            r.is_canonical(),
    {
        proof {
            use_type_invariant(self);
            use_type_invariant(rhs);
        }
        let diff = sub_words(self.repr.as_slice(), rhs.repr.as_slice());
        proof {
            lemma_words_value_bound(diff@);
            lemma_small_mod(words_value(diff@), word_weight(NUM_WORDS as nat));
            lemma_words_value_bound(self.repr@);
            if rhs.value() <= self.value() {
                lemma_small_mod(
                    (self.value() - rhs.value()) as nat,
                    word_weight(NUM_WORDS as nat),
                );
            }
        }
        BigNum::new(diff.as_slice())
    }

    /// The product with a single word, wrapping around modulo 2^(64 * NUM_WORDS).
    pub fn mul_u64(&self, rhs: u64) -> (r: Self)
        ensures
            r.value() == (self.value() * (rhs as nat)) % word_weight(NUM_WORDS as nat),
            r.is_canonical(),
    {
        proof {
            use_type_invariant(self);
        }
        let product = mul_words_by_word(self.repr.as_slice(), rhs);
        proof {
            lemma_word_weight_pos(NUM_WORDS as nat);
            lemma_mod_twice((self.value() * (rhs as nat)) as int, word_weight(NUM_WORDS as nat) as int);
        }
        BigNum::new(product.as_slice())
    }

    /// The product, wrapping around modulo 2^(64 * NUM_WORDS).
    pub fn mul(&self, rhs: &Self) -> (r: Self)
        ensures
            r.value() == (self.value() * rhs.value()) % word_weight(NUM_WORDS as nat),
            r.is_canonical(),
    {
        self.mul_by_narrow(rhs)
    }

    /// Adds `rhs` in place, wrapping around modulo 2^(64 * NUM_WORDS).
    pub fn add_assign(&mut self, rhs: &Self)
        ensures
            final(self).value() == (old(self).value() + rhs.value()) % word_weight(
                NUM_WORDS as nat,
            ),
            final(self).is_canonical(),
    {
        let bn = self.add(rhs);
        *self = bn;
    }

    /// Multiplies by `rhs` in place, wrapping around modulo 2^(64 * NUM_WORDS).
    pub fn mul_assign(&mut self, rhs: &Self)
        ensures
            final(self).value() == (old(self).value() * rhs.value()) % word_weight(
                NUM_WORDS as nat,
            ),
            final(self).is_canonical(),
    {
        let bn = self.mul(rhs);
        *self = bn;
    }

    /// Whether the number is at least `other`.
    pub fn ge(&self, other: &Self) -> (r: bool)
        ensures
            r == (self.value() >= other.value()),
    {
        proof {
            use_type_invariant(self);
            use_type_invariant(other);
        }
        let mut i: usize = NUM_WORDS;
        while i > 0 && self.repr[i - 1] == other.repr[i - 1]
            invariant
                i <= NUM_WORDS,
                self.repr@.len() == NUM_WORDS,
                other.repr@.len() == NUM_WORDS,
                self.repr@.skip(i as int) == other.repr@.skip(i as int),
            decreases i,
        {
            proof {
                assert(self.repr@.skip(i - 1) =~= seq![self.repr@[i - 1]] + self.repr@.skip(
                    i as int,
                ));
                assert(other.repr@.skip(i - 1) =~= seq![other.repr@[i - 1]] + other.repr@.skip(
                    i as int,
                ));
            }
            i -= 1;
        }
        if i == 0 {
            proof {
                assert(self.repr@ =~= self.repr@.skip(0));
                assert(other.repr@ =~= other.repr@.skip(0));
            }
            true
        } else if self.repr[i - 1] > other.repr[i - 1] {
            proof {
                lemma_words_value_top_differs(self.repr@, other.repr@, (i - 1) as nat);
            }
            true
        } else {
            proof {
                lemma_words_value_top_differs(other.repr@, self.repr@, (i - 1) as nat);
            }
            false
        }
    }

    /// Whether the number is even.
    pub fn is_divisible_by_two(&self) -> (r: bool)
        ensures
            r == (self.value() % 2 == 0),
    {
        proof {
            use_type_invariant(self);
        }
        if NUM_WORDS == 0 {
            proof {
                assert(self.repr@.len() == 0);
            }
            true
        } else {
            proof {
                lemma_words_value_split(self.repr@, 1);
                let rest = words_value(self.repr@.skip(1));
                lemma_word_base();
                assert(self.repr@.take(1).drop_last().len() == 0);
                assert(words_value(self.repr@.take(1).drop_last()) == 0);
                assert(words_value(self.repr@.take(1)) == self.repr@[0] as nat * word_weight(0));
                let w0 = self.repr@[0] as nat;
                assert(w0 * word_weight(0) == w0) by (nonlinear_arith)
                    requires
                        word_weight(0) == 1,
                ;
                assert(words_value(self.repr@.take(1)) == self.repr@[0] as nat);
                lemma_mod_multiples_vanish(
                    (rest * 0x8000_0000_0000_0000) as int,
                    self.repr@[0] as int,
                    2,
                );
                assert(word_weight(1) * rest == 2 * (rest * 0x8000_0000_0000_0000))
                    by (nonlinear_arith)
                    requires
                        word_weight(1) == 0x1_0000_0000_0000_0000,
                ;
                assert(self.value() == 2 * (rest * 0x8000_0000_0000_0000) + self.repr@[0]);
            }
            self.repr[0] % 2 == 0
        }
    }

    /// The remainder of the number by `p > 1` with 2^64 = 1 (mod p). For such a `p` the
    /// number is congruent to the sum of its words.
    pub fn residue_mod_special(&self, p: u8) -> (r: u64)
        requires
            p > 1,
            word_base() % (p as nat) == 1,
        ensures
            r == self.value() % (p as nat),
    {
        proof {
            use_type_invariant(self);
            assert(words_value(self.repr@.take(0)) == 0);
            lemma_small_mod(0, p as nat);
        }
        let mut acc: u64 = 0;
        let mut i: usize = 0;
        while i < NUM_WORDS
            invariant
                i <= NUM_WORDS,
                self.repr@.len() == NUM_WORDS,
                p > 1,
                word_base() % (p as nat) == 1,
                acc == words_value(self.repr@.take(i as int)) % (p as nat),
            decreases NUM_WORDS - i,
        {
            let w = self.repr[i];
            proof {
                lemma_words_value_take_succ(self.repr@, i as int);
                lemma_word_weight_mod_special(i as nat, p as nat);
                let x = words_value(self.repr@.take(i as int)) as int;
                let pw = word_weight(i as nat) as int;
                lemma_add_mod_noop(x, w * pw, p as int);
                lemma_mul_mod_noop(w as int, pw, p as int);
                lemma_small_mod(1, p as nat);
                lemma_mod_twice(w as int, p as int);
                lemma_add_mod_noop(acc as int, (w % (p as u64)) as int, p as int);
            }
            acc = (acc + w % (p as u64)) % (p as u64);
            i += 1;
        }
        proof {
            assert(self.repr@.take(NUM_WORDS as int) =~= self.repr@);
        }
        acc
    }

    /// Whether the number is divisible by a prime `p` with 2^64 = 1 (mod p).
    pub fn is_divisible_by_special_prime(&self, p: u8) -> (r: bool)
        requires
            p > 1,
            word_base() % (p as nat) == 1,
        ensures
            r == (self.value() % (p as nat) == 0),
    {
        self.residue_mod_special(p) == 0
    }
}

/// Reading back the words of a number built from words gives those words: when `x` is
/// what `BigNumArb::new` makes of `words` and `out` is what `as_le_words` returns for `x`,
/// `out` holds `words`.
pub proof fn lemma_words_roundtrip(words: &[u64], x: BigNumArb, out: &[u64])
    requires
        64 * words@.len() <= usize::MAX,
        call_ensures(BigNumArb::new, (words,), x),
        call_ensures(BigNumArb::as_le_words, (&x,), out),
    ensures
        out@ == words@,
{
}

/// Building a number again from the words of a number read from bytes gives the same
/// number: when `x` is what `BigNumArb::from_le_bytes` makes of `bytes`, `w` its words from
/// `as_le_words`, and `y` what `BigNumArb::new` makes of `w`, then `y` has the words, the
/// value and the bit length of `x`.
pub proof fn lemma_bytes_words_roundtrip(bytes: &[u8], x: BigNumArb, w: &[u64], y: BigNumArb)
    requires
        8 * bytes@.len() + 64 <= usize::MAX,
        call_ensures(BigNumArb::from_le_bytes, (bytes,), x),
        call_ensures(BigNumArb::as_le_words, (&x,), w),
        call_ensures(BigNumArb::new, (w,), y),
    ensures
        y.words() == x.words(),
        y.value() == x.value(),
        y.bits() == x.bits(),
{
}

/// Reading back the bytes of a number gives the number: when `bytes` hold what
/// `to_le_bytes` returns for `x` and `y` is what `BigNum::from_le_bytes` makes of them in
/// the same size, `y` has the words of `x`.
pub proof fn lemma_to_from_le_bytes<const NUM_WORDS: usize>(
    x: BigNum<NUM_WORDS>,
    out: Vec<u8>,
    bytes: &[u8],
    y: BigNum<NUM_WORDS>,
)
    requires
        x.words().len() == NUM_WORDS,
        y.words().len() == NUM_WORDS,
        call_ensures(BigNum::<NUM_WORDS>::to_le_bytes, (&x,), out),
        bytes@ == out@,
        call_ensures(BigNum::<NUM_WORDS>::from_le_bytes, (bytes,), y),
    ensures
        y.words() == x.words(),
{
    lemma_le_bytes_roundtrip(x, bytes@, y);
}

/// Reading back the little-endian bytes of a number gives the same number: when `bytes`
/// hold the value of `x` (as `to_le_bytes` returns them) and `y` is what `from_le_bytes`
/// makes of them in the same size, `y` has the words of `x`.
pub proof fn lemma_le_bytes_roundtrip<const NUM_WORDS: usize>(
    x: BigNum<NUM_WORDS>,
    bytes: Seq<u8>,
    y: BigNum<NUM_WORDS>,
)
    requires
        x.words().len() == NUM_WORDS,
        y.words().len() == NUM_WORDS,
        bytes_value(bytes) == x.value(),
        y.value() == bytes_value(bytes) % word_weight(NUM_WORDS as nat),
    ensures
        y.words() == x.words(),
        y.value() == x.value(),
{
    lemma_words_value_bound(x.words());
    lemma_small_mod(x.value(), word_weight(NUM_WORDS as nat));
    lemma_words_value_injective(y.words(), x.words());
}

/// Subtracting what was added gives the number back: when `sum` is `a + b` and `diff`
/// is `sum - b`, both wrapping around modulo 2^(64 * NUM_WORDS), `diff` is `a`.
pub proof fn lemma_add_then_sub<const NUM_WORDS: usize>(
    a: BigNum<NUM_WORDS>,
    b: BigNum<NUM_WORDS>,
    sum: BigNum<NUM_WORDS>,
    diff: BigNum<NUM_WORDS>,
)
    requires
        a.words().len() == NUM_WORDS,
        b.words().len() == NUM_WORDS,
        sum.value() == (a.value() + b.value()) % word_weight(NUM_WORDS as nat),
        diff.value() == (sum.value() - b.value()) % (word_weight(NUM_WORDS as nat) as int),
    ensures
        diff.value() == a.value(),
{
    let w = word_weight(NUM_WORDS as nat) as int;
    lemma_word_weight_pos(NUM_WORDS as nat);
    lemma_words_value_bound(a.words());
    lemma_words_value_bound(b.words());
    lemma_small_mod(b.value(), w as nat);
    lemma_sub_mod_noop((a.value() + b.value()) as int, b.value() as int, w);
    lemma_small_mod(a.value(), w as nat);
    assert((a.value() + b.value()) - b.value() == a.value());
}

/// Putting `k` zero words below the lowest `n - k` words of `s` multiplies by 2^(64k)
/// modulo 2^(64n).
pub proof fn lemma_shifted_words_value(s: Seq<u64>, shift: nat, k: nat)
    requires
        shift <= s.len(),
        shift == k || (shift == s.len() && k >= s.len()),
    ensures
        words_value(zero_words(shift) + s.take(s.len() - shift)) % word_weight(s.len() as nat)
            == (words_value(s) * word_weight(k)) % word_weight(s.len() as nat),
{
    let n = s.len() as nat;
    let low = s.take(n - shift);
    let t = zero_words(shift) + low;
    assert(t.len() == n);
    lemma_words_value_split(t, shift);
    assert(t.take(shift as int) =~= zero_words(shift));
    assert(t.skip(shift as int) =~= low);
    lemma_words_value_zeros(shift);
    lemma_words_value_take(s, (n - shift) as nat);
    lemma_word_weight_pos(n);
    lemma_word_weight_pos((n - shift) as nat);
    lemma_word_weight_adds(shift, (n - shift) as nat);
    let ws = word_weight(shift) as int;
    let wl = word_weight((n - shift) as nat) as int;
    let v = words_value(s) as int;
    // words_value(t) == ws * (v % wl) and (ws * (v % wl)) % (ws * wl) == (ws * v) % (ws * wl)
    lemma_mul_mod_same_factor(v, ws, wl);
    if k > shift {
        // both sides are 0 modulo 2^(64n)
        lemma_word_weight_adds(n, (k - n) as nat);
        lemma_word_weight_pos((k - n) as nat);
        let wk = word_weight((k - n) as nat) as int;
        let wn = word_weight(n) as int;
        lemma_mod_multiples_basic(v * wk, wn);
        assert(v * (wn * wk) == (v * wk) * wn) by (nonlinear_arith);
        lemma_word_base();
        assert(wl == 1);
        assert(v % 1 == 0);
        assert(ws * 0 == 0) by (nonlinear_arith);
    }
    lemma_small_mod(words_value(t), word_weight(n));
    lemma_words_value_bound(t);
    assert(ws * v == v * ws) by (nonlinear_arith);
}

/// `(a * (x % b)) % (a * b) == (a * x) % (a * b)` for positive `a` and `b`.
pub proof fn lemma_mul_mod_same_factor(x: int, a: int, b: int)
    requires
        a > 0,
        b > 0,
        x >= 0,
    ensures
        (a * (x % b)) % (a * b) == (a * x) % (a * b),
        a * (x % b) < a * b,
{
    lemma_fundamental_div_mod(x, b);
    let q = x / b;
    let r = x % b;
    lemma_mod_bound(x, b);
    assert(a * x == (a * b) * q + a * r) by (nonlinear_arith)
        requires
            x == b * q + r,
    ;
    assert(a * r < a * b) by (nonlinear_arith)
        requires
            0 <= r < b,
            a > 0,
    ;
    assert(a * b > 0) by (nonlinear_arith)
        requires
            a > 0,
            b > 0,
    ;
    lemma_mod_multiples_vanish(q, a * r, a * b);
    assert((a * b) * q == q * (a * b)) by (nonlinear_arith);
}

/// A number whose words agree above position `k` and is larger at `k` is larger.
pub proof fn lemma_words_value_top_differs(a: Seq<u64>, b: Seq<u64>, k: nat)
    requires
        a.len() == b.len(),
        k < a.len(),
        a.skip(k + 1 as int) == b.skip(k + 1 as int),
        a[k as int] > b[k as int],
    ensures
        words_value(a) > words_value(b),
{
    lemma_words_value_split(a, k + 1);
    lemma_words_value_split(b, k + 1);
    lemma_words_value_take_succ(a, k as int);
    lemma_words_value_take_succ(b, k as int);
    lemma_words_value_bound(b.take(k as int));
    let w = word_weight(k) as int;
    let x = a[k as int] as int;
    let y = b[k as int] as int;
    assert(x * w >= (y + 1) * w) by (nonlinear_arith)
        requires
            x >= y + 1,
            w > 0,
    ;
    lemma_word_weight_pos(k);
    assert((y + 1) * w == y * w + w) by (nonlinear_arith);
    assert(words_value(a.skip(k + 1 as int)) == words_value(b.skip(k + 1 as int)));
    assert(words_value(a.take(k + 1 as int)) > words_value(b.take(k + 1 as int)));
}

/// With 2^64 = 1 (mod p), every word weight is 1 modulo p.
pub proof fn lemma_word_weight_mod_special(k: nat, p: nat)
    requires
        p > 1,
        word_base() % p == 1,
    ensures
        word_weight(k) % p == 1,
    decreases k,
{
    if k == 0 {
        lemma_word_base();
        lemma_small_mod(1, p);
    } else {
        lemma_word_weight_mod_special((k - 1) as nat, p);
        lemma_word_weight_succ((k - 1) as nat);
        lemma_mul_mod_noop(word_weight((k - 1) as nat) as int, word_base() as int, p as int);
        lemma_small_mod(1, p);
    }
}

} // verus!
