//! Signed integers of any size, with the truncating division and the non-negative
//! modular power that the number-theoretic routines rely on. The arithmetic on
//! magnitudes is num-bigint's.
use crate::limbs::{
    bytes_value, lemma_bytes_value_concat, lemma_bytes_value_push, lemma_bytes_value_zeros,
    lemma_bytes_value_top_differs,
};
use num_bigint::BigUint;
use vstd::arithmetic::power::pow;
use vstd::arithmetic::power2::pow2;
use vstd::prelude::*;
use vstd::slice::slice_to_vec;

verus! {

/// `BigUint` addition (`+`) of num-bigint, between `from_bytes_le` and `to_bytes_le`:
/// claimed to give the bytes of the sum.
#[verifier::external_body]
pub(crate) fn biguint_add(a: &[u8], b: &[u8]) -> (r: Vec<u8>)
    ensures
        bytes_value(r@) == bytes_value(a@) + bytes_value(b@),
{
    (BigUint::from_bytes_le(a) + BigUint::from_bytes_le(b)).to_bytes_le()
}

/// `BigUint` subtraction (`-`) of num-bigint, between `from_bytes_le` and `to_bytes_le`:
/// claimed to give the bytes of the difference. It panics when the difference would be
/// negative, which `requires` rules out.
#[verifier::external_body]
pub(crate) fn biguint_sub(a: &[u8], b: &[u8]) -> (r: Vec<u8>)
    requires
        bytes_value(a@) >= bytes_value(b@),
    ensures
        bytes_value(r@) == bytes_value(a@) - bytes_value(b@),
{
    (BigUint::from_bytes_le(a) - BigUint::from_bytes_le(b)).to_bytes_le()
}

/// `BigUint` multiplication (`*`) of num-bigint, between `from_bytes_le` and
/// `to_bytes_le`: claimed to give the bytes of the product.
#[verifier::external_body]
pub(crate) fn biguint_mul(a: &[u8], b: &[u8]) -> (r: Vec<u8>)
    ensures
        bytes_value(r@) == bytes_value(a@) * bytes_value(b@),
{
    (BigUint::from_bytes_le(a) * BigUint::from_bytes_le(b)).to_bytes_le()
}

/// `BigUint` division (`/`) of num-bigint, between `from_bytes_le` and `to_bytes_le`:
/// claimed to give the bytes of the quotient rounded down. It panics on a zero divisor,
/// which `requires` rules out.
#[verifier::external_body]
pub(crate) fn biguint_div(a: &[u8], b: &[u8]) -> (r: Vec<u8>)
    requires
        bytes_value(b@) > 0,
    ensures
        bytes_value(r@) == bytes_value(a@) / bytes_value(b@),
{
    (BigUint::from_bytes_le(a) / BigUint::from_bytes_le(b)).to_bytes_le()
}

/// `BigUint` remainder (`%`) of num-bigint, between `from_bytes_le` and `to_bytes_le`:
/// claimed to give the bytes of the remainder. It panics on a zero divisor, which
/// `requires` rules out.
#[verifier::external_body]
pub(crate) fn biguint_rem(a: &[u8], b: &[u8]) -> (r: Vec<u8>)
    requires
        bytes_value(b@) > 0,
    ensures
        bytes_value(r@) == bytes_value(a@) % bytes_value(b@),
{
    (BigUint::from_bytes_le(a) % BigUint::from_bytes_le(b)).to_bytes_le()
}

/// `a` extended with zero bytes to length `n`.
fn zero_extended(a: &[u8], n: usize) -> (r: Vec<u8>)
    requires
        a@.len() <= n,
    ensures
        r@.len() == n,
        bytes_value(r@) == bytes_value(a@),
{
    let mut r = slice_to_vec(a);
    let ghost orig = a@;
    while r.len() < n
        invariant
            orig.len() <= r@.len() <= n,
            r@ == orig + Seq::new((r@.len() - orig.len()) as nat, |i: int| 0u8),
        decreases n - r@.len(),
    {
        let ghost k = (r@.len() - orig.len()) as nat;
        r.push(0);
        proof {
            assert(Seq::new(k, |i: int| 0u8).push(0u8) =~= Seq::new(k + 1, |i: int| 0u8));
            assert(r@ =~= orig + Seq::new(k + 1, |i: int| 0u8));
        }
    }
    proof {
        let z = Seq::new((r@.len() - orig.len()) as nat, |i: int| 0u8);
        lemma_bytes_value_concat(orig, z);
        lemma_bytes_value_zeros(z.len());
        assert(pow2(8 * orig.len()) * 0 == 0) by (nonlinear_arith);
    }
    r
}

/// Whether the number with little-endian bytes `a` is at least that with bytes `b`:
/// compares the bytes from the top, after extending the shorter with zero bytes.
pub fn bytes_ge(a: &[u8], b: &[u8]) -> (r: bool)
    ensures
        r == (bytes_value(a@) >= bytes_value(b@)),
{
    let n = if a.len() >= b.len() {
        a.len()
    } else {
        b.len()
    };
    let x = zero_extended(a, n);
    let y = zero_extended(b, n);
    let mut i: usize = n;
    while i > 0
        invariant
            i <= n,
            x@.len() == n,
            y@.len() == n,
            x@.skip(i as int) == y@.skip(i as int),
            bytes_value(x@) == bytes_value(a@),
            bytes_value(y@) == bytes_value(b@),
        decreases i,
    {
        let xi = x[i - 1];
        let yi = y[i - 1];
        if xi > yi {
            proof {
                lemma_bytes_value_top_differs(x@, y@, (i - 1) as nat);
            }
            return true;
        }
        if xi < yi {
            proof {
                lemma_bytes_value_top_differs(y@, x@, (i - 1) as nat);
            }
            return false;
        }
        proof {
            assert(x@.skip(i - 1) =~= seq![xi] + x@.skip(i as int));
            assert(y@.skip(i - 1) =~= seq![yi] + y@.skip(i as int));
        }
        i -= 1;
    }
    proof {
        assert(x@ =~= x@.skip(0));
        assert(y@ =~= y@.skip(0));
    }
    true
}

/// `BigUint::sqrt` of num-bigint, between `from_bytes_le` and `to_bytes_le`: claimed to
/// give the bytes of the square root rounded down.
#[verifier::external_body]
pub(crate) fn biguint_sqrt(a: &[u8]) -> (r: Vec<u8>)
    ensures
        bytes_value(r@) * bytes_value(r@) <= bytes_value(a@),
        bytes_value(a@) < (bytes_value(r@) + 1) * (bytes_value(r@) + 1),
{
    BigUint::from_bytes_le(a).sqrt().to_bytes_le()
}

/// `BigUint::modpow` of num-bigint, between `from_bytes_le` and `to_bytes_le`: claimed to
/// give the bytes of `(a ^ e) % m`, as its documentation says. It panics on a zero
/// modulus, which `requires` rules out.
#[verifier::external_body]
pub(crate) fn biguint_modpow(a: &[u8], e: &[u8], m: &[u8]) -> (r: Vec<u8>)
    requires
        bytes_value(m@) > 0,
    ensures
        bytes_value(r@) == pow(bytes_value(a@) as int, bytes_value(e@)) % (bytes_value(m@) as int),
{
    BigUint::from_bytes_le(a).modpow(&BigUint::from_bytes_le(e), &BigUint::from_bytes_le(m)).to_bytes_le()
}

/// A signed integer of any size: a sign and the little-endian bytes of the magnitude.
/// Zero may carry either sign.
pub struct Int {
    pub negative: bool,
    pub magnitude: Vec<u8>,
}

/// The absolute value.
pub open spec fn abs(a: int) -> int {
    if a < 0 {
        -a
    } else {
        a
    }
}

/// The exponent of the largest power of two dividing `v` (0 for 0).
pub open spec fn two_adic_valuation(v: nat) -> nat
    decreases v,
{
    if v > 0 && v % 2 == 0 {
        1 + two_adic_valuation(v / 2)
    } else {
        0
    }
}

/// The quotient of division rounded toward zero.
pub open spec fn trunc_div(a: int, b: int) -> int {
    if (a < 0) == (b < 0) {
        abs(a) / abs(b)
    } else {
        -(abs(a) / abs(b))
    }
}

/// The remainder of division rounded toward zero; it takes the sign of `a`.
pub open spec fn trunc_rem(a: int, b: int) -> int {
    a - b * trunc_div(a, b)
}

impl Int {
    /// The integer's value.
    pub open spec fn value(&self) -> int {
        if self.negative {
            -(bytes_value(self.magnitude@) as int)
        } else {
            bytes_value(self.magnitude@) as int
        }
    }

    /// The integer with the given sign and little-endian magnitude.
    pub fn from_le_bytes(negative: bool, magnitude: &[u8]) -> (r: Int)
        ensures
            r.value() == if negative {
                -(bytes_value(magnitude@) as int)
            } else {
                bytes_value(magnitude@) as int
            },
    {
        Int { negative, magnitude: slice_to_vec(magnitude) }
    }

    /// The integer `v`.
    pub fn from_u8(v: u8) -> (r: Int)
        ensures
            r.value() == v as int,
    {
        let mut magnitude: Vec<u8> = Vec::new();
        magnitude.push(v);
        proof {
            lemma_bytes_value_push(Seq::<u8>::empty(), v);
            assert(magnitude@ =~= Seq::<u8>::empty().push(v));
            vstd::arithmetic::power2::lemma2_to64();
            assert(bytes_value(Seq::<u8>::empty()) == 0);
            assert(8 * Seq::<u8>::empty().len() == 0);
            assert((v as nat) * pow2(0) == v as nat);
        }
        Int { negative: false, magnitude }
    }

    /// A copy with the same value.
    pub fn duplicate(&self) -> (r: Int)
        ensures
            r.value() == self.value(),
    {
        Int { negative: self.negative, magnitude: slice_to_vec(self.magnitude.as_slice()) }
    }

    /// Whether the value is negative.
    pub fn is_negative(&self) -> (r: bool)
        ensures
            r == (self.value() < 0),
    {
        let empty: Vec<u8> = Vec::new();
        self.negative && !bytes_ge(empty.as_slice(), self.magnitude.as_slice())
    }

    /// Whether the value is zero.
    pub fn is_zero(&self) -> (r: bool)
        ensures
            r == (self.value() == 0),
    {
        let empty: Vec<u8> = Vec::new();
        bytes_ge(empty.as_slice(), self.magnitude.as_slice())
    }

    /// The little-endian bytes of the absolute value.
    pub fn magnitude_le_bytes(&self) -> (r: Vec<u8>)
        ensures
            bytes_value(r@) == abs(self.value()),
    {
        slice_to_vec(self.magnitude.as_slice())
    }

    /// The negated integer.
    pub fn neg(&self) -> (r: Int)
        ensures
            r.value() == -self.value(),
    {
        Int { negative: !self.negative, magnitude: slice_to_vec(self.magnitude.as_slice()) }
    }

    /// The absolute value.
    pub fn abs(&self) -> (r: Int)
        ensures
            r.value() == abs(self.value()),
    {
        Int { negative: false, magnitude: slice_to_vec(self.magnitude.as_slice()) }
    }
}


/// Division rounded toward zero, read off the division of the magnitudes.
proof fn lemma_trunc_div_rem(a_neg: bool, x: nat, b_neg: bool, y: nat)
    requires
        y > 0,
    ensures
        ({
            let a = if a_neg { -(x as int) } else { x as int };
            let b = if b_neg { -(y as int) } else { y as int };
            &&& trunc_div(a, b) == if a_neg != b_neg { -((x / y) as int) } else { (x / y) as int }
            &&& trunc_rem(a, b) == if a_neg { -((x % y) as int) } else { (x % y) as int }
        }),
{
    let a = if a_neg { -(x as int) } else { x as int };
    let b = if b_neg { -(y as int) } else { y as int };
    vstd::arithmetic::div_mod::lemma_fundamental_div_mod(x as int, y as int);
    let q = (x / y) as int;
    let r = (x % y) as int;
    assert(abs(a) == x);
    assert(abs(b) == y);
    if x == 0 {
        assert(q == 0) by {
            vstd::arithmetic::div_mod::lemma_div_of0(y as int);
        }
        assert(r == 0);
        assert(b * 0 == 0);
        assert(b * -0 == 0);
    } else {
        assert(b * q == if b_neg { -(y * q) } else { y * q }) by (nonlinear_arith)
            requires
                b == if b_neg { -(y as int) } else { y as int },
        ;
        assert(b * -q == -(b * q)) by (nonlinear_arith);
    }
}

/// A power of a negated base is the power of the base, negated for an odd exponent.
proof fn lemma_pow_neg(x: int, e: nat)
    ensures
        pow(-x, e) == if e % 2 == 0 { pow(x, e) } else { -pow(x, e) },
    decreases e,
{
    vstd::arithmetic::power::lemma_pow0(x);
    vstd::arithmetic::power::lemma_pow0(-x);
    if e > 0 {
        lemma_pow_neg(x, (e - 1) as nat);
        vstd::arithmetic::power::lemma_pow_adds(x, (e - 1) as nat, 1);
        vstd::arithmetic::power::lemma_pow_adds(-x, (e - 1) as nat, 1);
        vstd::arithmetic::power::lemma_pow1(x);
        vstd::arithmetic::power::lemma_pow1(-x);
        let p = pow(x, (e - 1) as nat);
        assert((-p) * (-x) == p * x) by (nonlinear_arith);
        assert(p * (-x) == -(p * x)) by (nonlinear_arith);
    }
}

/// The non-negative remainder of a negated number.
proof fn lemma_mod_of_negation(v: int, m: int)
    requires
        m > 0,
    ensures
        (-v) % m == if v % m == 0 { 0 } else { m - v % m },
{
    vstd::arithmetic::div_mod::lemma_fundamental_div_mod(v, m);
    let q = v / m;
    let t = v % m;
    if t == 0 {
        assert(-v == (-q) * m + 0) by (nonlinear_arith)
            requires
                v == m * q,
        ;
        vstd::arithmetic::div_mod::lemma_fundamental_div_mod_converse(-v, m, -q, 0);
    } else {
        assert(-v == (-q - 1) * m + (m - t)) by (nonlinear_arith)
            requires
                v == m * q + t,
        ;
        vstd::arithmetic::div_mod::lemma_fundamental_div_mod_converse(-v, m, -q - 1, m - t);
    }
}

/// The remainder of a division rounded toward zero is smaller than the divisor in size.
pub proof fn lemma_trunc_rem_bound(a: int, b: int)
    requires
        b != 0,
    ensures
        abs(trunc_rem(a, b)) < abs(b),
        a >= 0 ==> trunc_rem(a, b) >= 0,
{
    let x = abs(a) as nat;
    let y = abs(b) as nat;
    lemma_trunc_div_rem(a < 0, x, b < 0, y);
    vstd::arithmetic::div_mod::lemma_mod_bound(x as int, y as int);
}

/// For a non-negative dividend and a positive divisor, division rounded toward zero is
/// the ordinary division.
pub proof fn lemma_trunc_rem_nonneg(a: int, b: int)
    requires
        a >= 0,
        b > 0,
    ensures
        trunc_rem(a, b) == a % b,
        trunc_div(a, b) == a / b,
{
    lemma_trunc_div_rem(false, a as nat, false, b as nat);
}

/// A positive remainder of division rounded toward zero comes from a positive dividend,
/// and is then the ordinary remainder.
pub proof fn lemma_trunc_rem_positive(a: int, b: int)
    requires
        b > 0,
        trunc_rem(a, b) > 0,
    ensures
        a > 0,
        trunc_rem(a, b) == a % b,
{
    lemma_trunc_div_rem(a < 0, abs(a) as nat, false, b as nat);
    if a >= 0 {
        lemma_trunc_rem_nonneg(a, b);
    }
}

/// The remainder of division rounded toward zero is congruent to the dividend modulo a
/// positive divisor.
pub proof fn lemma_trunc_rem_cong_general(a: int, b: int)
    requires
        b > 0,
    ensures
        trunc_rem(a, b) % b == a % b,
{
    let q = trunc_div(a, b);
    assert(trunc_rem(a, b) == a + (-q) * b) by (nonlinear_arith)
        requires
            trunc_rem(a, b) == a - b * q,
    ;
    vstd::arithmetic::div_mod::lemma_mod_multiples_vanish(-q, a, b);
}

/// A non-zero number leaves no remainder when divided by itself.
pub proof fn lemma_trunc_rem_self(a: int)
    requires
        a != 0,
    ensures
        trunc_rem(a, a) == 0,
{
    let x = abs(a) as nat;
    lemma_trunc_div_rem(a < 0, x, a < 0, x);
    vstd::arithmetic::div_mod::lemma_mod_self_0(x as int);
}

impl Int {
    /// The sum.
    pub fn add(&self, other: &Int) -> (r: Int)
        ensures
            r.value() == self.value() + other.value(),
    {
        let x = self.magnitude.as_slice();
        let y = other.magnitude.as_slice();
        if self.negative == other.negative {
            Int { negative: self.negative, magnitude: biguint_add(x, y) }
        } else if bytes_ge(x, y) {
            Int { negative: self.negative, magnitude: biguint_sub(x, y) }
        } else {
            Int { negative: other.negative, magnitude: biguint_sub(y, x) }
        }
    }

    /// The difference.
    pub fn sub(&self, other: &Int) -> (r: Int)
        ensures
            r.value() == self.value() - other.value(),
    {
        self.add(&other.neg())
    }

    /// The product.
    pub fn mul(&self, other: &Int) -> (r: Int)
        ensures
            r.value() == self.value() * other.value(),
    {
        let magnitude = biguint_mul(self.magnitude.as_slice(), other.magnitude.as_slice());
        proof {
            let x = bytes_value(self.magnitude@) as int;
            let y = bytes_value(other.magnitude@) as int;
            assert((-x) * (-y) == x * y) by (nonlinear_arith);
            assert((-x) * y == -(x * y)) by (nonlinear_arith);
            assert(x * (-y) == -(x * y)) by (nonlinear_arith);
        }
        Int { negative: self.negative != other.negative, magnitude }
    }

    /// The square.
    pub fn square(&self) -> (r: Int)
        ensures
            r.value() == self.value() * self.value(),
    {
        self.mul(self)
    }

    /// Quotient and remainder of the division rounded toward zero; the remainder takes
    /// the sign of `self`.
    pub fn div_rem(&self, divisor: &Int) -> (r: (Int, Int))
        requires
            divisor.value() != 0,
        ensures
            r.0.value() == trunc_div(self.value(), divisor.value()),
            r.1.value() == trunc_rem(self.value(), divisor.value()),
    {
        let x = self.magnitude.as_slice();
        let y = divisor.magnitude.as_slice();
        let q = biguint_div(x, y);
        let rm = biguint_rem(x, y);
        proof {
            lemma_trunc_div_rem(
                self.negative,
                bytes_value(self.magnitude@),
                divisor.negative,
                bytes_value(divisor.magnitude@),
            );
        }
        (
            Int { negative: self.negative != divisor.negative, magnitude: q },
            Int { negative: self.negative, magnitude: rm },
        )
    }

    /// The remainder of the division rounded toward zero.
    pub fn rem(&self, divisor: &Int) -> (r: Int)
        requires
            divisor.value() != 0,
        ensures
            r.value() == trunc_rem(self.value(), divisor.value()),
    {
        let (_, r) = self.div_rem(divisor);
        r
    }

    /// Whether the value is at least that of `other`.
    pub fn ge(&self, other: &Int) -> (r: bool)
        ensures
            r == (self.value() >= other.value()),
    {
        let x = self.magnitude.as_slice();
        let y = other.magnitude.as_slice();
        let a_neg = self.is_negative();
        let b_neg = other.is_negative();
        if !a_neg && !b_neg {
            bytes_ge(x, y)
        } else if a_neg && b_neg {
            bytes_ge(y, x)
        } else {
            !a_neg
        }
    }

    /// Whether the values are equal.
    pub fn equals(&self, other: &Int) -> (r: bool)
        ensures
            r == (self.value() == other.value()),
    {
        self.ge(other) && other.ge(self)
    }

    /// The square root of a non-negative integer, rounded down.
    pub fn sqrt(&self) -> (r: Int)
        requires
            self.value() >= 0,
        ensures
            r.value() >= 0,
            r.value() * r.value() <= self.value(),
            self.value() < (r.value() + 1) * (r.value() + 1),
    {
        Int { negative: false, magnitude: biguint_sqrt(self.magnitude.as_slice()) }
    }

    /// `self` raised to `exponent`, reduced into `[0, modulus)`.
    pub fn pow_mod(&self, exponent: &Int, modulus: &Int) -> (r: Int)
        requires
            exponent.value() >= 0,
            modulus.value() > 0,
        ensures
            r.value() == pow(self.value(), exponent.value() as nat) % modulus.value(),
            0 <= r.value() < modulus.value(),
    {
        let x = self.magnitude.as_slice();
        let e = exponent.magnitude.as_slice();
        let m = modulus.magnitude.as_slice();
        let t = biguint_modpow(x, e, m);
        let ghost xv = bytes_value(self.magnitude@) as int;
        let ghost ev = bytes_value(exponent.magnitude@);
        let ghost mv = bytes_value(modulus.magnitude@) as int;
        proof {
            vstd::arithmetic::div_mod::lemma_mod_bound(pow(xv, ev), mv);
        }
        if !self.is_negative() {
            return Int { negative: false, magnitude: t };
        }
        let two = Int::from_u8(2);
        let parity = biguint_rem(e, two.magnitude.as_slice());
        let empty: Vec<u8> = Vec::new();
        let even = bytes_ge(empty.as_slice(), parity.as_slice());
        let t_is_zero = bytes_ge(empty.as_slice(), t.as_slice());
        proof {
            lemma_pow_neg(xv, ev);
            lemma_mod_of_negation(pow(xv, ev), mv);
        }
        if even || t_is_zero {
            Int { negative: false, magnitude: t }
        } else {
            Int { negative: false, magnitude: biguint_sub(m, t.as_slice()) }
        }
    }

    /// The integer 2^`k`.
    pub fn pow2(k: u128) -> (r: Int)
        ensures
            r.value() == pow2(k as nat),
    {
        let mut r = Int::from_u8(1);
        let mut i: u128 = 0;
        proof {
            vstd::arithmetic::power2::lemma2_to64();
        }
        while i < k
            invariant
                i <= k,
                r.value() == pow2(i as nat),
            decreases k - i,
        {
            r = r.add(&r);
            proof {
                vstd::arithmetic::power2::lemma_pow2_unfold((i + 1) as nat);
            }
            i += 1;
        }
        r
    }

    /// A non-negative integer divided by 2^`k`, rounded down.
    pub fn shr(&self, k: u128) -> (r: Int)
        requires
            self.value() >= 0,
        ensures
            r.value() == self.value() / (pow2(k as nat) as int),
    {
        let p = Int::pow2(k);
        proof {
            vstd::arithmetic::power2::lemma_pow2_pos(k as nat);
        }
        let (q, _) = self.div_rem(&p);
        q
    }

    /// The number of zero bits below the lowest set bit of a positive integer.
    pub fn trailing_zeros(&self) -> (r: u128)
        requires
            self.value() > 0,
        ensures
            self.value() % (pow2(r as nat) as int) == 0,
            (self.value() / (pow2(r as nat) as int)) % 2 == 1,
            r == two_adic_valuation(self.value() as nat),
    {
        let two = Int::from_u8(2);
        let mut x = self.abs();
        let mut k: u128 = 0;
        proof {
            vstd::arithmetic::power2::lemma2_to64();
            crate::limbs::lemma_bytes_value_bound(self.magnitude@);
        }
        assert(self.magnitude@.len() == self.magnitude.len());
        while x.rem(&two).is_zero()
            invariant
                two.value() == 2,
                x.value() > 0,
                self.value() == x.value() * pow2(k as nat),
                self.value() < pow2(8 * self.magnitude@.len()),
                k < 8 * self.magnitude@.len(),
                self.magnitude@.len() <= usize::MAX,
                two_adic_valuation(self.value() as nat) == k + two_adic_valuation(x.value() as nat),
            decreases x.value(),
        {
            let ghost old_x = x.value();
            proof {
                lemma_trunc_rem_nonneg(old_x, 2);
            }
            x = x.shr(1);
            proof {
                assert(two_adic_valuation(old_x as nat) == 1 + two_adic_valuation((old_x as nat)
                    / 2));
                vstd::arithmetic::power2::lemma2_to64();
                vstd::arithmetic::div_mod::lemma_fundamental_div_mod(old_x, 2);
                vstd::arithmetic::power2::lemma_pow2_unfold((k + 1) as nat);
                assert(self.value() == x.value() * pow2((k + 1) as nat)) by (nonlinear_arith)
                    requires
                        self.value() == old_x * pow2(k as nat),
                        old_x == 2 * x.value(),
                        pow2((k + 1) as nat) == 2 * pow2(k as nat),
                ;
                assert(x.value() >= 1);
                assert(pow2((k + 1) as nat) <= self.value()) by (nonlinear_arith)
                    requires
                        self.value() == x.value() * pow2((k + 1) as nat),
                        x.value() >= 1,
                ;
                if k + 1 >= 8 * self.magnitude@.len() {
                    crate::limbs::lemma_pow2_le(
                        8 * self.magnitude@.len(),
                        (k + 1) as nat,
                    );
                }
            }
            k += 1;
        }
        proof {
            lemma_trunc_rem_nonneg(x.value(), 2);
            assert(two_adic_valuation(x.value() as nat) == 0);
            let p = pow2(k as nat) as int;
            vstd::arithmetic::power2::lemma_pow2_pos(k as nat);
            vstd::arithmetic::div_mod::lemma_mod_multiples_basic(x.value(), p);
            vstd::arithmetic::div_mod::lemma_div_multiples_vanish(x.value(), p);
            assert(x.value() * p == p * x.value()) by (nonlinear_arith);
        }
        k
    }
}

} // verus!
