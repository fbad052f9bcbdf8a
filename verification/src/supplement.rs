//! Products over ranges of integers, and the second supplement to quadratic reciprocity
//! for primes that are 5 modulo 8: 2 is not a square modulo such a prime.
use crate::endomorphism::{euler_symbol, is_prime, lemma_prime_divides_factor};
use vstd::arithmetic::power::pow;
use vstd::prelude::*;

verus! {

/// The product of `f(k)` for `lo <= k < hi`.
pub open spec fn range_product(f: spec_fn(int) -> int, lo: int, hi: int) -> int
    decreases hi - lo,
{
    if hi <= lo {
        1
    } else {
        range_product(f, lo, hi - 1) * f(hi - 1)
    }
}

/// A product over `[lo, hi)` is the product over `[lo, mid)` times that over `[mid, hi)`.
proof fn lemma_range_product_split(f: spec_fn(int) -> int, lo: int, mid: int, hi: int)
    requires
        lo <= mid <= hi,
    ensures
        range_product(f, lo, hi) == range_product(f, lo, mid) * range_product(f, mid, hi),
    decreases hi - mid,
{
    if hi > mid {
        lemma_range_product_split(f, lo, mid, hi - 1);
        let a = range_product(f, lo, mid);
        let b = range_product(f, mid, hi - 1);
        let c = f(hi - 1);
        assert(a * b * c == a * (b * c)) by (nonlinear_arith);
    }
}

/// Factors that agree modulo `p` give products that agree modulo `p`.
proof fn lemma_range_product_cong(
    f: spec_fn(int) -> int,
    g: spec_fn(int) -> int,
    lo: int,
    hi: int,
    p: int,
)
    requires
        p > 0,
        forall|k: int| lo <= k < hi ==> #[trigger] f(k) % p == g(k) % p,
    ensures
        range_product(f, lo, hi) % p == range_product(g, lo, hi) % p,
    decreases hi - lo,
{
    if hi > lo {
        lemma_range_product_cong(f, g, lo, hi - 1, p);
        let a = range_product(f, lo, hi - 1);
        let b = range_product(g, lo, hi - 1);
        assert(f(hi - 1) % p == g(hi - 1) % p);
        vstd::arithmetic::div_mod::lemma_mul_mod_noop(a, f(hi - 1), p);
        vstd::arithmetic::div_mod::lemma_mul_mod_noop(b, g(hi - 1), p);
    }
}

/// Negating every factor multiplies the product by `-1` once per factor.
proof fn lemma_range_product_neg(f: spec_fn(int) -> int, g: spec_fn(int) -> int, lo: int, hi: int)
    requires
        lo <= hi,
        forall|k: int| lo <= k < hi ==> #[trigger] f(k) == -g(k),
    ensures
        range_product(f, lo, hi) == if (hi - lo) % 2 == 0 {
            range_product(g, lo, hi)
        } else {
            -range_product(g, lo, hi)
        },
    decreases hi - lo,
{
    if hi > lo {
        lemma_range_product_neg(f, g, lo, hi - 1);
        let b = range_product(g, lo, hi - 1);
        let c = g(hi - 1);
        assert(f(hi - 1) == -c);
        assert(b * (-c) == -(b * c)) by (nonlinear_arith);
        assert((-b) * (-c) == b * c) by (nonlinear_arith);
    }
}

/// Reading the factors backwards: the product of `g(c - k)` for `lo <= k < hi` is the
/// product of `g(i)` for `c - hi < i <= c - lo`.
proof fn lemma_range_product_reflect(
    f: spec_fn(int) -> int,
    g: spec_fn(int) -> int,
    c: int,
    lo: int,
    hi: int,
)
    requires
        lo <= hi,
        forall|k: int| lo <= k < hi ==> #[trigger] f(k) == g(c - k),
    ensures
        range_product(f, lo, hi) == range_product(g, c - hi + 1, c - lo + 1),
    decreases hi - lo,
{
    if hi > lo {
        lemma_range_product_reflect(f, g, c, lo, hi - 1);
        lemma_range_product_split(g, c - hi + 1, c - hi + 2, c - lo + 1);
        assert(range_product(g, c - hi + 1, c - hi + 2) == g(c - hi + 1)) by {
            assert(range_product(g, c - hi + 1, c - hi + 1) == 1);
        }
        assert(f(hi - 1) == g(c - hi + 1));
        let a = range_product(g, c - hi + 2, c - lo + 1);
        assert(a * g(c - hi + 1) == g(c - hi + 1) * a) by (nonlinear_arith);
    }
}

/// The product of `2 k` for `1 <= k <= n` is `2^n n!`.
proof fn lemma_doubles_product(dbl: spec_fn(int) -> int, id: spec_fn(int) -> int, n: int)
    requires
        n >= 0,
        forall|k: int| #[trigger] dbl(k) == 2 * k,
        forall|k: int| #[trigger] id(k) == k,
    ensures
        range_product(dbl, 1, n + 1) == pow(2, n as nat) * range_product(id, 1, n + 1),
    decreases n,
{
    vstd::arithmetic::power::lemma_pow0(2);
    if n > 0 {
        lemma_doubles_product(dbl, id, n - 1);
        vstd::arithmetic::power::lemma_pow_adds(2, (n - 1) as nat, 1);
        vstd::arithmetic::power::lemma_pow1(2);
        assert(((n - 1) as nat) + 1 == n as nat);
        let a = pow(2, (n - 1) as nat);
        let b = range_product(id, 1, n);
        assert(a * b * (2 * n) == (a * 2) * (b * n)) by (nonlinear_arith);
        assert(dbl(n) == 2 * n);
        assert(id(n) == n);
    }
}

/// `(2n)!` is the product of the even numbers up to `2n` times that of the odd ones.
proof fn lemma_factorial_evens_odds(
    id: spec_fn(int) -> int,
    even: spec_fn(int) -> int,
    odd: spec_fn(int) -> int,
    n: int,
)
    requires
        n >= 0,
        forall|k: int| #[trigger] id(k) == k,
        forall|k: int| #[trigger] even(k) == 2 * k,
        forall|k: int| #[trigger] odd(k) == 2 * k - 1,
    ensures
        range_product(id, 1, 2 * n + 1) == range_product(even, 1, n + 1) * range_product(
            odd,
            1,
            n + 1,
        ),
    decreases n,
{
    if n > 0 {
        lemma_factorial_evens_odds(id, even, odd, n - 1);
        let a = range_product(even, 1, n);
        let b = range_product(odd, 1, n);
        assert(range_product(id, 1, 2 * n + 1) == range_product(id, 1, 2 * n - 1) * (2 * n - 1)
            * (2 * n)) by {
            assert(id(2 * n - 1) == 2 * n - 1);
            assert(id(2 * n) == 2 * n);
            assert(range_product(id, 1, 2 * n) == range_product(id, 1, 2 * n - 1) * (2 * n - 1));
            assert(range_product(id, 1, 2 * n + 1) == range_product(id, 1, 2 * n) * (2 * n));
        }
        assert(even(n) == 2 * n);
        assert(odd(n) == 2 * n - 1);
        assert(a * b * (2 * n - 1) * (2 * n) == (a * (2 * n)) * (b * (2 * n - 1))) by (
        nonlinear_arith);
    }
}

/// A prime divides no product of numbers between 1 and itself.
proof fn lemma_prime_not_dividing_factorial(p: int, id: spec_fn(int) -> int, n: int)
    requires
        is_prime(p),
        0 <= n < p,
        forall|k: int| #[trigger] id(k) == k,
    ensures
        range_product(id, 1, n + 1) % p != 0,
    decreases n,
{
    if n == 0 {
        vstd::arithmetic::div_mod::lemma_small_mod(1, p as nat);
    } else {
        lemma_prime_not_dividing_factorial(p, id, n - 1);
        let a = range_product(id, 1, n);
        assert(id(n) == n);
        assert(a * n == n * a) by (nonlinear_arith);
        if (n * a) % p == 0 {
            lemma_prime_divides_factor(p, n, a);
        }
    }
}

/// The second supplement for primes `p = 5 (mod 8)`: `2^((p-1)/2) = -1 (mod p)`, so the
/// Euler symbol of 2 is -1 (2 is not a square modulo `p`).
pub proof fn lemma_two_is_non_residue(p: int)
    requires
        is_prime(p),
        p % 8 == 5,
    ensures
        euler_symbol(2, p) == -1,
{
    let m = p / 8;
    let h = 4 * m + 2;
    assert(p == 8 * m + 5);
    assert((p - 1) / 2 == h);
    let id = |k: int| k;
    let dbl = |k: int| 2 * k;
    let odd = |k: int| 2 * k - 1;
    let shifted = |k: int| 2 * k - p;
    let rest = |k: int| p - 2 * k;
    // 2^h h! is the product of the doubles 2, 4, ..., 2h.
    lemma_doubles_product(dbl, id, h);
    lemma_range_product_split(dbl, 1, 2 * m + 2, h + 1);
    let evens = range_product(dbl, 1, 2 * m + 2);
    let upper = range_product(dbl, 2 * m + 2, h + 1);
    // The doubles above h are p minus the odd numbers up to h, so minus them modulo p.
    assert forall|k: int| 2 * m + 2 <= k < h + 1 implies #[trigger] dbl(k) % p == shifted(k)
        % p by {
        vstd::arithmetic::div_mod::lemma_mod_sub_multiples_vanish(2 * k, p);
    }
    lemma_range_product_cong(dbl, shifted, 2 * m + 2, h + 1, p);
    assert forall|k: int| 2 * m + 2 <= k < h + 1 implies #[trigger] shifted(k) == -rest(k) by {}
    lemma_range_product_neg(shifted, rest, 2 * m + 2, h + 1);
    assert((h + 1 - (2 * m + 2)) % 2 == 1);
    assert forall|k: int| 2 * m + 2 <= k < h + 1 implies #[trigger] rest(k) == odd(
        (4 * m + 3) - k,
    ) by {}
    lemma_range_product_reflect(rest, odd, 4 * m + 3, 2 * m + 2, h + 1);
    let odds = range_product(odd, 1, 2 * m + 2);
    assert(range_product(rest, 2 * m + 2, h + 1) == odds);
    // h! is the evens times the odds.
    lemma_factorial_evens_odds(id, dbl, odd, 2 * m + 1);
    let fact = range_product(id, 1, h + 1);
    assert(fact == evens * odds);
    let t = pow(2, h as nat);
    assert(t * fact == evens * upper);
    assert(upper % p == (-odds) % p);
    // So 2^h h! = -h! (mod p), and p does not divide h!.
    vstd::arithmetic::div_mod::lemma_mul_mod_noop_right(evens, upper, p);
    vstd::arithmetic::div_mod::lemma_mul_mod_noop_right(evens, -odds, p);
    assert(evens * (-odds) == -fact) by (nonlinear_arith)
        requires
            fact == evens * odds,
    ;
    assert((t * fact) % p == (-fact) % p);
    lemma_prime_not_dividing_factorial(p, id, h);
    vstd::arithmetic::div_mod::lemma_sub_mod_noop(t * fact, -fact, p);
    assert(t * fact - (-fact) == (t + 1) * fact) by (nonlinear_arith);
    vstd::arithmetic::div_mod::lemma_mod_self_0(p);
    assert(((t + 1) * fact) % p == 0) by {
        vstd::arithmetic::div_mod::lemma_sub_mod_noop(t * fact, -fact, p);
        vstd::arithmetic::div_mod::lemma_mod_bound(t * fact, p);
        vstd::arithmetic::div_mod::lemma_mod_bound(-fact, p);
        vstd::arithmetic::div_mod::lemma_small_mod(0, p as nat);
    }
    let f = fact % p;
    vstd::arithmetic::div_mod::lemma_mod_bound(fact, p);
    vstd::arithmetic::div_mod::lemma_mul_mod_noop_right(t + 1, fact, p);
    assert((t + 1) * fact == fact * (t + 1)) by (nonlinear_arith);
    assert(f * (t + 1) == (t + 1) * f) by (nonlinear_arith);
    lemma_prime_divides_factor(p, f, t + 1);
    // 2^h + 1 = 0 (mod p) means 2^h = p - 1 (mod p).
    vstd::arithmetic::power::lemma_pow_positive(2, h as nat);
    vstd::arithmetic::div_mod::lemma_fundamental_div_mod(t + 1, p);
    vstd::arithmetic::div_mod::lemma_fundamental_div_mod(t, p);
    vstd::arithmetic::div_mod::lemma_mod_bound(t, p);
    let q1 = (t + 1) / p;
    let q0 = t / p;
    let r0 = t % p;
    assert(t + 1 == p * q1);
    assert(t == p * q0 + r0);
    assert(r0 + 1 == p * (q1 - q0)) by (nonlinear_arith)
        requires
            t + 1 == p * q1,
            t == p * q0 + r0,
    ;
    assert(q1 - q0 == 1) by (nonlinear_arith)
        requires
            r0 + 1 == p * (q1 - q0),
            0 <= r0 < p,
            p > 1,
    ;
    assert(r0 == p - 1);
}

} // verus!
