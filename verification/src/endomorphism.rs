//! Integer routines behind the representation of integers as norms of quaternions:
//! Gaussian-integer products and powers, square roots modulo a prime, and Cornacchia's
//! algorithm for `x^2 + n*y^2 = p`.
use crate::bn::BigNum;
use crate::integer::{Int, abs, trunc_div, trunc_rem, two_adic_valuation};
use crate::{FAILURE_RETVAL, SUCCESS_RETVAL};
use vstd::arithmetic::power::pow;
use vstd::arithmetic::power2::pow2;
use vstd::prelude::*;

verus! {

/// The product of the Gaussian integers `a.0 + a.1 i` and `b.0 + b.1 i`, as the pair of
/// its real and imaginary parts.
pub open spec fn gauss_mul(a: (int, int), b: (int, int)) -> (int, int) {
    (a.0 * b.0 - a.1 * b.1, a.0 * b.1 + b.0 * a.1)
}

/// The Gaussian integer `a` raised to the power `e`.
pub open spec fn gauss_pow(a: (int, int), e: nat) -> (int, int)
    decreases e,
{
    if e == 0 {
        (1, 0)
    } else {
        gauss_mul(gauss_pow(a, (e - 1) as nat), a)
    }
}

proof fn lemma_gauss_mul_assoc(a: (int, int), b: (int, int), c: (int, int))
    ensures
        gauss_mul(gauss_mul(a, b), c) == gauss_mul(a, gauss_mul(b, c)),
{
    let (a0, a1) = a;
    let (b0, b1) = b;
    let (c0, c1) = c;
    assert((a0 * b0 - a1 * b1) * c0 == (a0 * b0) * c0 - (a1 * b1) * c0) by (nonlinear_arith);
    assert((a0 * b1 + b0 * a1) * c1 == (a0 * b1) * c1 + (b0 * a1) * c1) by (nonlinear_arith);
    assert(a0 * (b0 * c0 - b1 * c1) == a0 * (b0 * c0) - a0 * (b1 * c1)) by (nonlinear_arith);
    assert(a1 * (b0 * c1 + c0 * b1) == a1 * (b0 * c1) + a1 * (c0 * b1)) by (nonlinear_arith);
    assert((a0 * b1 + b0 * a1) * c0 == (a0 * b1) * c0 + (b0 * a1) * c0) by (nonlinear_arith);
    assert((a0 * b0 - a1 * b1) * c1 == (a0 * b0) * c1 - (a1 * b1) * c1) by (nonlinear_arith);
    assert(a0 * (b0 * c1 + c0 * b1) == a0 * (b0 * c1) + a0 * (c0 * b1)) by (nonlinear_arith);
    assert((b0 * c0 - b1 * c1) * a1 == (b0 * c0) * a1 - (b1 * c1) * a1) by (nonlinear_arith);
    assert((a0 * b0) * c0 == a0 * (b0 * c0)) by (nonlinear_arith);
    assert((a1 * b1) * c0 == a1 * (c0 * b1)) by (nonlinear_arith);
    assert((a0 * b1) * c1 == a0 * (b1 * c1)) by (nonlinear_arith);
    assert((b0 * a1) * c1 == a1 * (b0 * c1)) by (nonlinear_arith);
    assert((a0 * b0) * c1 == a0 * (b0 * c1)) by (nonlinear_arith);
    assert((a1 * b1) * c1 == (b1 * c1) * a1) by (nonlinear_arith);
    assert((a0 * b1) * c0 == a0 * (c0 * b1)) by (nonlinear_arith);
    assert((b0 * a1) * c0 == (b0 * c0) * a1) by (nonlinear_arith);
    assert(c0 * (a0 * b1 + b0 * a1) == (a0 * b1 + b0 * a1) * c0) by (nonlinear_arith);
    let l = gauss_mul(gauss_mul(a, b), c);
    let r = gauss_mul(a, gauss_mul(b, c));
    assert(l.0 == r.0);
    assert(l.1 == r.1);
}

/// Powers of a Gaussian integer multiply by adding their exponents.
pub proof fn lemma_gauss_pow_adds(a: (int, int), m: nat, n: nat)
    ensures
        gauss_pow(a, m + n) == gauss_mul(gauss_pow(a, m), gauss_pow(a, n)),
    decreases n,
{
    if n == 0 {
        let p = gauss_pow(a, m);
        assert(gauss_mul(p, (1, 0)) == p);
        assert(m + n == m);
    } else {
        lemma_gauss_pow_adds(a, m, (n - 1) as nat);
        assert((m + n - 1) as nat == m + (n - 1) as nat);
        lemma_gauss_mul_assoc(gauss_pow(a, m), gauss_pow(a, (n - 1) as nat), a);
    }
}

/// The product of two Gaussian integers given by their real and imaginary parts.
pub fn complex_mul(x: (&Int, &Int), y: (&Int, &Int)) -> (r: (Int, Int))
    ensures
        (r.0.value(), r.1.value()) == gauss_mul(
            (x.0.value(), x.1.value()),
            (y.0.value(), y.1.value()),
        ),
{
    let re = x.0.mul(y.0).sub(&x.1.mul(y.1));
    let im = x.0.mul(y.1).add(&y.0.mul(x.1));
    (re, im)
}

/// `y` raised to the power `exp`, times `x`, in the Gaussian integers, by squaring and
/// multiplying over the 32 bits of `exp`.
pub fn complex_mul_by_complex_power(x: (&Int, &Int), y: (&Int, &Int), exp: u32) -> (r: (Int, Int))
    ensures
        (r.0.value(), r.1.value()) == gauss_mul(
            gauss_pow((y.0.value(), y.1.value()), exp as nat),
            (x.0.value(), x.1.value()),
        ),
{
    let ghost yv = (y.0.value(), y.1.value());
    let mut re = Int::from_u8(1);
    let mut im = Int::from_u8(0);
    let mut i: u32 = 1;
    proof {
        vstd::arithmetic::power2::lemma2_to64();
        vstd::arithmetic::div_mod::lemma_basic_div(exp as int, pow2(32) as int);
        assert((exp as nat) / pow2(32) == 0);
    }
    while i <= 32
        invariant
            1 <= i <= 33,
            yv == (y.0.value(), y.1.value()),
            (re.value(), im.value()) == gauss_pow(yv, (exp as nat) / pow2((33 - i) as nat)),
        decreases 33 - i,
    {
        let ghost k = (exp as nat) / pow2((33 - i) as nat);
        let sq = complex_mul((&re, &im), (&re, &im));
        re = sq.0;
        im = sq.1;
        proof {
            lemma_gauss_pow_adds(yv, k, k);
        }
        let shift: u32 = 32 - i;
        let bit = (exp >> shift) & 1;
        proof {
            vstd::bits::lemma_u32_shr_is_div(exp, shift);
            assert((exp >> shift) & 1 == (exp >> shift) % 2) by (bit_vector);
            vstd::arithmetic::power2::lemma_pow2_unfold((33 - i) as nat);
            vstd::arithmetic::power2::lemma_pow2_pos(shift as nat);
            vstd::arithmetic::div_mod::lemma_div_denominator(
                exp as int,
                pow2(shift as nat) as int,
                2,
            );
            vstd::arithmetic::div_mod::lemma_fundamental_div_mod(
                (exp as nat / pow2(shift as nat)) as int,
                2,
            );
            assert(pow2(shift as nat) * 2 == pow2((33 - i) as nat));
        }
        if bit == 1 {
            let m = complex_mul((&re, &im), y);
            re = m.0;
            im = m.1;
            proof {
                assert(k + k + 1 == (exp as nat) / pow2(shift as nat));
            }
        } else {
            proof {
                assert(k + k == (exp as nat) / pow2(shift as nat));
            }
        }
        i += 1;
    }
    proof {
        assert(pow2(0) == 1);
        assert((exp as nat) / 1 == exp as nat);
    }
    complex_mul((&re, &im), x)
}


/// Euler's criterion: `a^((p-1)/2)` modulo `p`, read as 1 for 1, -1 for `p - 1` and 0
/// otherwise. For an odd prime `p` (where no other value occurs) this is the Legendre
/// symbol of `a` modulo `p`, and also its Jacobi symbol.
pub open spec fn euler_symbol(a: int, p: int) -> int {
    let t = pow(a, ((p - 1) / 2) as nat) % p;
    if t == 1 {
        1
    } else if t == p - 1 {
        -1
    } else {
        0
    }
}

/// The Euler symbol of `a` modulo `p`.
fn legendre_symbol(a: &Int, p: &Int) -> (r: i8)
    requires
        p.value() >= 3,
    ensures
        r as int == euler_symbol(a.value(), p.value()),
{
    let one = Int::from_u8(1);
    let e = p.sub(&one).shr(1);
    proof {
        vstd::arithmetic::power2::lemma2_to64();
    }
    let t = a.pow_mod(&e, p);
    let p_minus_one = p.sub(&one);
    if t.equals(&one) {
        1
    } else if t.equals(&p_minus_one) {
        -1
    } else {
        0
    }
}

/// The exponent of the largest power of two dividing a multiple of eight is at least 3.
proof fn lemma_two_adic_at_least_three(v: int, k: nat)
    requires
        v > 0,
        v % 8 == 0,
        (v / (pow2(k) as int)) % 2 == 1,
    ensures
        k >= 3,
{
    vstd::arithmetic::power2::lemma2_to64();
    if k < 3 {
        let w = v / 8;
        vstd::arithmetic::div_mod::lemma_fundamental_div_mod(v, 8);
        assert(v == 8 * w);
        if k == 0 {
            assert(v / 1 == v);
        } else if k == 1 {
            vstd::arithmetic::div_mod::lemma_div_multiples_vanish(4 * w, 2);
            assert(v / 2 == 4 * w);
        } else {
            vstd::arithmetic::div_mod::lemma_div_multiples_vanish(2 * w, 4);
            assert(v / 4 == 2 * w);
        }
    }
}

/// The least number in `[w, p)` with Euler symbol -1 modulo `p`, or `p` when there is
/// none.
pub open spec fn first_non_residue(p: int, w: int) -> int
    decreases p - w,
{
    if w >= p {
        p
    } else if euler_symbol(w, p) == -1 {
        w
    } else {
        first_non_residue(p, w + 1)
    }
}

/// The last `steps` correction steps of Tonelli-Shanks modulo `p`, from the candidate root
/// `x`, the running value `y`, the power `z` of the non-residue and the exponent `e3`:
/// when `y^e3 = -1 (mod p)`, `x` is multiplied by `z` and `y` by `z^2`, both modulo `p`;
/// `z` is squared and `e3` halved.
pub open spec fn tonelli_steps(x: int, y: int, z: int, e3: int, steps: nat, p: int) -> int
    decreases steps,
{
    if steps == 0 {
        x
    } else {
        let corrects = pow(y, e3 as nat) % p == p - 1;
        tonelli_steps(
            if corrects {
                (x * z) % p
            } else {
                x
            },
            if corrects {
                (y * (z * z)) % p
            } else {
                y
            },
            pow(z, 2) % p,
            e3 / 2,
            (steps - 1) as nat,
            p,
        )
    }
}

/// What Tonelli-Shanks computes for `a` modulo `p = 1 (mod 8)`: with `p - 1 = q * 2^e1`
/// for odd `q` and `g` the first non-residue, the candidate `a^((q+1)/2) mod p` corrected
/// over `e1` steps from `y = a^q`, `z = g^q` and `e3 = 2^(e1-2)`; without a non-residue
/// below `p`, the uncorrected candidate.
pub open spec fn tonelli_shanks_root(a: int, p: int) -> int {
    let e1 = two_adic_valuation((p - 1) as nat);
    let q = (p - 1) / (pow2(e1) as int);
    let g = first_non_residue(p, 2);
    let x0 = pow(a, ((q + 1) / 2) as nat) % p;
    if g >= p {
        x0
    } else {
        tonelli_steps(
            x0,
            pow(a, q as nat) % p,
            pow(g, q as nat) % p,
            pow2((e1 - 2) as nat) as int,
            e1,
            p,
        )
    }
}

/// Tonelli-Shanks step by step for `p = 1 (mod 8)`: finds a quadratic non-residue, then
/// corrects the candidate root `a^((q+1)/2)` over the 2-power part of `p - 1`. When no
/// number in `[2, p)` has Euler symbol -1 (which never happens for a prime `p`), the search
/// stops at `p` and the candidate root is returned uncorrected. For a prime `p`, a found
/// non-residue and `a^((p-1)/2) = 1 (mod p)`, the result is a square root of `a`.
fn tonelli_shanks(a: &Int, p: &Int) -> (x: Int)
    requires
        p.value() > 1,
        p.value() % 8 == 1,
    ensures
        0 <= x.value() < p.value(),
        x.value() == tonelli_shanks_root(a.value(), p.value()),
        is_prime(p.value()) && pow(a.value(), ((p.value() - 1) / 2) as nat) % p.value() == 1
            && first_non_residue(p.value(), 2) < p.value() ==> (x.value() * x.value())
            % p.value() == a.value() % p.value(),
{
    let ghost pv = p.value();
    let ghost root = tonelli_shanks_root(a.value(), pv);
    let one = Int::from_u8(1);
    let two = Int::from_u8(2);
    let p_minus_one = p.sub(&one);
    let exp1 = p_minus_one.trailing_zeros();
    proof {
        lemma_two_adic_at_least_three(pv - 1, exp1 as nat);
        vstd::arithmetic::power2::lemma_pow2_pos(exp1 as nat);
        vstd::arithmetic::div_mod::lemma_fundamental_div_mod(pv - 1, pow2(exp1 as nat) as int);
    }
    let q = p_minus_one.shr(exp1);
    let ghost qv = q.value();
    proof {
        assert(pv - 1 == pow2(exp1 as nat) * qv);
        assert(qv >= 1) by (nonlinear_arith)
            requires
                pv - 1 == pow2(exp1 as nat) * qv,
                pv - 1 > 0,
                pow2(exp1 as nat) > 0,
        ;
        vstd::arithmetic::power2::lemma_pow2_unfold(exp1 as nat);
        assert((pv - 1) / 2 == qv * pow2((exp1 - 1) as nat)) by (nonlinear_arith)
            requires
                pv - 1 == pow2(exp1 as nat) * qv,
                pow2(exp1 as nat) == 2 * pow2((exp1 - 1) as nat),
        ;
    }

    // Find a quadratic non-residue.
    let mut qnr = Int::from_u8(2);
    while !qnr.ge(p) && legendre_symbol(&qnr, p) != -1
        invariant
            pv == p.value(),
            pv > 1,
            one.value() == 1,
            2 <= qnr.value() <= pv,
            first_non_residue(pv, qnr.value()) == first_non_residue(pv, 2),
        decreases pv - qnr.value(),
    {
        qnr = qnr.add(&one);
    }
    proof {
        if qnr.value() < pv {
            assert(euler_symbol(qnr.value(), pv) == -1);
        }
        assert(first_non_residue(pv, qnr.value()) == qnr.value());
        assert(exp1 == two_adic_valuation((pv - 1) as nat));
        vstd::arithmetic::power2::lemma2_to64();
    }
    let exp2 = q.add(&one).shr(1);
    proof {
        vstd::arithmetic::power2::lemma_pow2_pos(1);
        vstd::arithmetic::div_mod::lemma_div_pos_is_pos(qv + 1, pow2(1) as int);
    }
    let mut x = a.pow_mod(&exp2, p);
    if qnr.ge(p) {
        return x;
    }
    let ghost g = qnr.value();

    let mut z = qnr.pow_mod(&q, p);
    let mut y = a.pow_mod(&q, p);
    let mut exp3 = Int::pow2(exp1 - 2);
    let p_minus_one = p.sub(&one);
    let ghost av = a.value();
    let ghost law = is_prime(pv) && pow(av, ((pv - 1) / 2) as nat) % pv == 1;
    let mut i: u128 = 0;
    proof {
        vstd::arithmetic::power2::lemma2_to64();
        assert(g == first_non_residue(pv, 2));
        assert(tonelli_steps(x.value(), y.value(), z.value(), exp3.value(), exp1 as nat, pv)
            == root);
        lemma_tonelli_start(av, pv, qv, exp1 as nat, g);
    }
    while i < exp1
        invariant
            tonelli_steps(x.value(), y.value(), z.value(), exp3.value(), (exp1 - i) as nat, pv)
                == root,
            pv == p.value(),
            pv >= 9,
            p_minus_one.value() == pv - 1,
            two.value() == 2,
            i <= exp1,
            exp1 >= 3,
            av == a.value(),
            law == (is_prime(pv) && pow(av, ((pv - 1) / 2) as nat) % pv == 1),
            0 <= x.value() < pv,
            0 <= y.value() < pv,
            0 <= z.value() < pv,
            i + 2 <= exp1 ==> exp3.value() == pow2((exp1 - 2 - i) as nat),
            i + 2 > exp1 ==> exp3.value() == 0,
            (x.value() * x.value()) % pv == (av * y.value()) % pv,
            law ==> pow(y.value(), pow2(tonelli_level(exp1 as nat, i as nat))) % pv == 1,
            law && i < exp1 ==> pow(z.value(), pow2(tonelli_level(exp1 as nat, i as nat))) % pv
                == pv - 1,
        decreases exp1 - i,
    {
        let ghost (x0, y0, z0, e30) = (x.value(), y.value(), z.value(), exp3.value());
        let b = y.pow_mod(&exp3, p);
        let corrects = b.equals(&p_minus_one);
        if corrects {
            x = x.mul(&z);
            proof {
                crate::integer::lemma_trunc_rem_nonneg(x.value(), pv);
                vstd::arithmetic::div_mod::lemma_mod_bound(x.value(), pv);
            }
            x = x.rem(p);
            y = y.mul(&z.square());
            proof {
                crate::integer::lemma_trunc_rem_nonneg(y.value(), pv);
                vstd::arithmetic::div_mod::lemma_mod_bound(y.value(), pv);
            }
            y = y.rem(p);
        }
        z = z.pow_mod(&two, p);
        exp3 = exp3.shr(1);
        proof {
            vstd::arithmetic::power2::lemma2_to64();
            assert(exp3.value() == e30 / 2);
            if i + 2 <= exp1 {
                if i + 3 <= exp1 {
                    vstd::arithmetic::power2::lemma_pow2_unfold((exp1 - 2 - i) as nat);
                    assert(((exp1 - 2 - i) - 1) as nat == (exp1 - 2 - (i + 1)) as nat);
                } else {
                    assert(e30 == pow2(0));
                }
            }
            assert(tonelli_steps(x0, y0, z0, e30, (exp1 - i) as nat, pv) == tonelli_steps(
                x.value(),
                y.value(),
                z.value(),
                exp3.value(),
                (exp1 - (i + 1)) as nat,
                pv,
            ));
            lemma_tonelli_step(av, pv, x0, y0, z0, e30, exp1 as nat, i as nat, law);
        }
        i += 1;
    }
    proof {
        if law {
            assert(tonelli_level(exp1 as nat, exp1 as nat) == 0);
            lemma_tonelli_end(av, pv, x.value(), y.value());
        }
    }
    x
}

/// The level of the Tonelli-Shanks loop before step `i` of `e1`: `e1 - 1 - i`, and 0 once
/// the steps are done.
pub open spec fn tonelli_level(e1: nat, i: nat) -> nat {
    if i < e1 {
        (e1 - 1 - i) as nat
    } else {
        0
    }
}

/// Whether `p` is a prime.
pub open spec fn is_prime(p: int) -> bool {
    p > 1 && forall|d: int| 1 < d < p ==> #[trigger] (p % d) != 0
}

/// Euclid's lemma: a prime that divides `m * n` with `0 < m < p` divides `n`.
pub proof fn lemma_prime_divides_factor(p: int, m: int, n: int)
    requires
        is_prime(p),
        0 < m < p,
        (m * n) % p == 0,
    ensures
        n % p == 0,
    decreases m,
{
    if m == 1 {
        assert(m * n == n) by (nonlinear_arith)
            requires
                m == 1,
        ;
    } else {
        vstd::arithmetic::div_mod::lemma_fundamental_div_mod(p, m);
        vstd::arithmetic::div_mod::lemma_fundamental_div_mod(m * n, p);
        let q = p / m;
        let r = p % m;
        let k = (m * n) / p;
        if r == 0 {
            assert(p % m != 0);
        }
        assert(r * n == p * (n - q * k)) by (nonlinear_arith)
            requires
                p == m * q + r,
                m * n == p * k + 0,
        ;
        vstd::arithmetic::div_mod::lemma_mod_multiples_basic(n - q * k, p);
        assert((n - q * k) * p == p * (n - q * k)) by (nonlinear_arith);
        vstd::arithmetic::div_mod::lemma_mod_bound(p, m);
        lemma_prime_divides_factor(p, r, n);
    }
}

/// Modulo a prime, the only square roots of 1 are 1 and -1.
pub proof fn lemma_square_root_of_one(p: int, b: int)
    requires
        is_prime(p),
        0 <= b < p,
        (b * b) % p == 1,
    ensures
        b == 1 || b == p - 1,
{
    if b == 0 {
        assert(0int * 0 == 0);
        vstd::arithmetic::div_mod::lemma_small_mod(0, p as nat);
    } else if b != 1 {
        vstd::arithmetic::div_mod::lemma_fundamental_div_mod(b * b, p);
        let k = (b * b) / p;
        assert((b - 1) * (b + 1) == p * k) by (nonlinear_arith)
            requires
                b * b == p * k + 1,
        ;
        vstd::arithmetic::div_mod::lemma_mod_multiples_basic(k, p);
        assert(k * p == p * k) by (nonlinear_arith);
        lemma_prime_divides_factor(p, b - 1, b + 1);
        if b + 1 < p {
            vstd::arithmetic::div_mod::lemma_small_mod((b + 1) as nat, p as nat);
        }
    }
}

/// Congruences survive multiplication by the same factor.
proof fn lemma_mul_cong(u: int, v: int, w: int, p: int)
    requires
        p > 0,
        u % p == v % p,
    ensures
        (u * w) % p == (v * w) % p,
{
    vstd::arithmetic::div_mod::lemma_mul_mod_noop_left(u, w, p);
    vstd::arithmetic::div_mod::lemma_mul_mod_noop_left(v, w, p);
}

/// `(u % p)^k = u^k (mod p)`, and `(u^j)^2 = u^(2j)`, as used by the loop.
proof fn lemma_pow_square(u: int, j: nat)
    ensures
        pow(u, j) * pow(u, j) == pow(u, 2 * j),
        pow(pow(u, 2), j) == pow(u, 2 * j),
        pow(u, 2) == u * u,
{
    vstd::arithmetic::power::lemma_pow_adds(u, j, j);
    assert(j + j == 2 * j);
    vstd::arithmetic::power::lemma_pow_multiplies(u, 2, j);
    assert(2 * j == j * 2) by (nonlinear_arith);
    vstd::arithmetic::power::lemma_pow_adds(u, 1, 1);
    vstd::arithmetic::power::lemma_pow1(u);
}

/// The Tonelli-Shanks invariants hold before the first step.
proof fn lemma_tonelli_start(a: int, p: int, q: int, e1: nat, g: int)
    requires
        p >= 9,
        e1 >= 3,
        q >= 1,
        q % 2 == 1,
        (p - 1) / 2 == q * pow2((e1 - 1) as nat),
        euler_symbol(g, p) == -1,
    ensures
        ({
            let x = pow(a, ((q + 1) / 2) as nat) % p;
            let y = pow(a, q as nat) % p;
            let z = pow(g, q as nat) % p;
            &&& (x * x) % p == (a * y) % p
            &&& pow(a, ((p - 1) / 2) as nat) % p == 1 ==> pow(y, pow2(tonelli_level(e1, 0))) % p
                == 1
            &&& pow(z, pow2(tonelli_level(e1, 0))) % p == p - 1
        }),
{
    let h = ((q + 1) / 2) as nat;
    let xx = pow(a, h);
    let yy = pow(a, q as nat);
    let k = pow2((e1 - 1) as nat);
    assert(tonelli_level(e1, 0) == (e1 - 1) as nat);
    // x^2 = a^(q+1) = a * a^q
    vstd::arithmetic::div_mod::lemma_mul_mod_noop(xx, xx, p);
    lemma_pow_square(a, h);
    assert(2 * h == (q + 1) as nat);
    vstd::arithmetic::power::lemma_pow_adds(a, q as nat, 1);
    vstd::arithmetic::power::lemma_pow1(a);
    vstd::arithmetic::div_mod::lemma_mul_mod_noop_right(a, yy, p);
    assert(yy * a == a * yy) by (nonlinear_arith);
    // y^(2^(e1-1)) = a^((p-1)/2)
    vstd::arithmetic::power::lemma_pow_mod_noop(yy, k, p);
    vstd::arithmetic::power::lemma_pow_multiplies(a, q as nat, k);
    assert((q as nat) * k == ((p - 1) / 2) as nat);
    // z^(2^(e1-1)) = g^((p-1)/2)
    let zz = pow(g, q as nat);
    vstd::arithmetic::power::lemma_pow_mod_noop(zz, k, p);
    vstd::arithmetic::power::lemma_pow_multiplies(g, q as nat, k);
}

/// One step of the Tonelli-Shanks loop keeps its invariants.
proof fn lemma_tonelli_step(
    a: int,
    p: int,
    x: int,
    y: int,
    z: int,
    e3: int,
    e1: nat,
    i: nat,
    law: bool,
)
    requires
        p >= 9,
        i < e1,
        e1 >= 3,
        0 <= x < p,
        0 <= y < p,
        0 <= z < p,
        i + 2 <= e1 ==> e3 == pow2((e1 - 2 - i) as nat),
        i + 2 > e1 ==> e3 == 0,
        (x * x) % p == (a * y) % p,
        law ==> is_prime(p),
        law ==> pow(y, pow2(tonelli_level(e1, i))) % p == 1,
        law ==> pow(z, pow2(tonelli_level(e1, i))) % p == p - 1,
    ensures
        ({
            let corrects = pow(y, e3 as nat) % p == p - 1;
            let x2 = if corrects {
                (x * z) % p
            } else {
                x
            };
            let y2 = if corrects {
                (y * (z * z)) % p
            } else {
                y
            };
            let z2 = pow(z, 2) % p;
            &&& (x2 * x2) % p == (a * y2) % p
            &&& law ==> pow(y2, pow2(tonelli_level(e1, i + 1))) % p == 1
            &&& law && i + 1 < e1 ==> pow(z2, pow2(tonelli_level(e1, i + 1))) % p == p - 1
        }),
{
    let corrects = pow(y, e3 as nat) % p == p - 1;
    vstd::arithmetic::power2::lemma2_to64();
    lemma_pow_square(z, 1);
    if corrects {
        // x^2 z^2 = a y z^2
        let zz = z * z;
        vstd::arithmetic::div_mod::lemma_mul_mod_noop(x * z, x * z, p);
        assert((x * z) * (x * z) == (x * x) * zz) by (nonlinear_arith)
            requires
                zz == z * z,
        ;
        lemma_mul_cong(x * x, a * y, zz, p);
        vstd::arithmetic::div_mod::lemma_mul_mod_noop_right(a, y * zz, p);
        assert((a * y) * zz == a * (y * zz)) by (nonlinear_arith);
    }
    if i + 1 == e1 {
        // The last step: e3 = 0, so nothing is corrected.
        vstd::arithmetic::power::lemma_pow0(y);
        vstd::arithmetic::div_mod::lemma_small_mod(1, p as nat);
        assert(tonelli_level(e1, i) == 0 && tonelli_level(e1, i + 1) == 0);
    } else if law {
        let j = tonelli_level(e1, i);
        assert(j == (e1 - 1 - i) as nat && j >= 1);
        let kk = pow2((j - 1) as nat);
        assert(e3 == kk);
        vstd::arithmetic::power2::lemma_pow2_unfold(j);
        assert(pow2(j) == 2 * kk);
        assert(tonelli_level(e1, i + 1) == (j - 1) as nat);
        // b = y^kk satisfies b^2 = 1, so b = 1 or b = -1.
        let yk = pow(y, kk);
        let b = yk % p;
        lemma_pow_square(y, kk);
        vstd::arithmetic::div_mod::lemma_mul_mod_noop(yk, yk, p);
        vstd::arithmetic::div_mod::lemma_mod_bound(yk, p);
        lemma_square_root_of_one(p, b);
        // z2^kk = z^(2 kk) = -1
        let z2 = pow(z, 2) % p;
        vstd::arithmetic::power::lemma_pow_mod_noop(pow(z, 2), kk, p);
        lemma_pow_square(z, kk);
        if corrects {
            let zz = z * z;
            let y2 = (y * zz) % p;
            vstd::arithmetic::power::lemma_pow_mod_noop(y * zz, kk, p);
            vstd::arithmetic::power::lemma_pow_distributes(y, zz, kk);
            let zk = pow(zz, kk);
            vstd::arithmetic::div_mod::lemma_mul_mod_noop(yk, zk, p);
            assert(((p - 1) * (p - 1)) % p == 1) by {
                assert((p - 1) * (p - 1) == (p - 2) * p + 1) by (nonlinear_arith);
                vstd::arithmetic::div_mod::lemma_fundamental_div_mod_converse(
                    (p - 1) * (p - 1),
                    p,
                    p - 2,
                    1,
                );
            }
        }
    }
}

/// At the end of the loop `y = 1`, so `x` is a square root of `a`.
proof fn lemma_tonelli_end(a: int, p: int, x: int, y: int)
    requires
        p > 1,
        (x * x) % p == (a * y) % p,
        pow(y, pow2(0)) % p == 1,
    ensures
        (x * x) % p == a % p,
{
    vstd::arithmetic::power2::lemma2_to64();
    vstd::arithmetic::power::lemma_pow1(y);
    vstd::arithmetic::div_mod::lemma_mul_mod_noop_right(a, y, p);
    assert(a * 1 == a);
}

/// When `a^(2h-1)` is 1 modulo `m`, `a^h` is a square root of `a` modulo `m`.
proof fn lemma_root_from_power(a: int, h: nat, m: int)
    requires
        m > 0,
        h >= 1,
        pow(a, (2 * h - 1) as nat) % m == 1,
    ensures
        ((pow(a, h) % m) * (pow(a, h) % m)) % m == a % m,
{
    let x = pow(a, h);
    vstd::arithmetic::div_mod::lemma_mul_mod_noop(x, x, m);
    vstd::arithmetic::power::lemma_pow_adds(a, h, h);
    vstd::arithmetic::power::lemma_pow_adds(a, (2 * h - 1) as nat, 1);
    vstd::arithmetic::power::lemma_pow1(a);
    assert(h + h == ((2 * h - 1) as nat) + 1);
    let y = pow(a, (2 * h - 1) as nat);
    vstd::arithmetic::div_mod::lemma_mul_mod_noop_left(y, a, m);
    assert(1 * a == a);
}

/// The square root that `sqrt_mod_p` computes for `a` modulo the odd number `p`, with
/// `ra` the remainder of `a` in division rounded toward zero.
pub open spec fn sqrt_mod_p_root(a: int, p: int) -> int {
    let ra = trunc_rem(a, p);
    if p % 4 == 3 {
        pow(ra, ((p + 1) / 4) as nat) % p
    } else if p % 8 == 5 {
        if pow(ra, ((p - 1) / 4) as nat) % p == 1 {
            pow(ra, ((p + 3) / 8) as nat) % p
        } else {
            trunc_rem(2 * ra * (pow(4 * ra, ((p - 5) / 8) as nat) % p), p)
        }
    } else {
        tonelli_shanks_root(a, p)
    }
}

/// A square root of `a` modulo the odd prime `p`: by `a^((p+1)/4)` for `p = 3 (mod 4)`, by
/// the formula for `p = 5 (mod 8)`, and by Tonelli-Shanks otherwise, all on `a` reduced
/// modulo `p` with the remainder of division rounded toward zero (Tonelli-Shanks on `a`
/// itself). The flag is `SUCCESS_RETVAL` when the reduced `a` has Euler symbol 1 modulo
/// `p`, and `FAILURE_RETVAL` otherwise. For a prime `p` and success, the root squares to
/// `a` modulo `p` (for `p = 1 (mod 8)` as soon as some number below `p` has Euler
/// symbol -1).
fn sqrt_mod_p(a: &Int, p: &Int) -> (r: (Int, u32))
    requires
        p.value() >= 3,
        p.value() % 2 == 1,
    ensures
        ({
            let pv = p.value();
            let ra = trunc_rem(a.value(), pv);
            &&& r.1 == if euler_symbol(ra, pv) == 1 {
                SUCCESS_RETVAL
            } else {
                FAILURE_RETVAL
            }
            &&& pv % 4 == 3 ==> r.0.value() == pow(ra, ((pv + 1) / 4) as nat) % pv
            &&& pv % 8 == 5 ==> r.0.value() == if pow(ra, ((pv - 1) / 4) as nat) % pv == 1 {
                pow(ra, ((pv + 3) / 8) as nat) % pv
            } else {
                trunc_rem(2 * ra * (pow(4 * ra, ((pv - 5) / 8) as nat) % pv), pv)
            }
            &&& pv % 8 == 1 ==> 0 <= r.0.value() < pv
            &&& r.0.value() == sqrt_mod_p_root(a.value(), pv)
            &&& pv % 4 == 3 && r.1 == SUCCESS_RETVAL ==> (r.0.value() * r.0.value()) % pv == ra
                % pv
            &&& pv % 8 == 5 && pow(ra, ((pv - 1) / 4) as nat) % pv == 1 ==> (r.0.value()
                * r.0.value()) % pv == ra % pv
            &&& is_prime(pv) && r.1 == SUCCESS_RETVAL && (pv % 8 == 1 ==> first_non_residue(pv, 2)
                < pv) ==> (r.0.value() * r.0.value()) % pv == a.value() % pv
        }),
{
    let ghost pv = p.value();
    let one = Int::from_u8(1);
    let two = Int::from_u8(2);
    let three = Int::from_u8(3);
    let four = Int::from_u8(4);
    let five = Int::from_u8(5);
    let eight = Int::from_u8(8);
    let reduced_a = a.rem(p);
    let retval = if legendre_symbol(&reduced_a, p) != 1 {
        FAILURE_RETVAL
    } else {
        SUCCESS_RETVAL
    };
    let p_mod_4 = p.rem(&four);
    let p_mod_8 = p.rem(&eight);
    proof {
        vstd::arithmetic::power2::lemma2_to64();
        crate::integer::lemma_trunc_rem_nonneg(pv, 4);
        crate::integer::lemma_trunc_rem_nonneg(pv, 8);
    }
    let result = if p_mod_4.equals(&three) {
        let exp = p.add(&one).shr(2);
        reduced_a.pow_mod(&exp, p)
    } else if p_mod_8.equals(&five) {
        let exp = p.sub(&one).shr(2);
        let tmp = reduced_a.pow_mod(&exp, p);
        if tmp.equals(&one) {
            let exp = p.add(&three).shr(3);
            reduced_a.pow_mod(&exp, p)
        } else {
            let exp = p.sub(&five).shr(3);
            let tmp = four.mul(&reduced_a);
            let tmp = tmp.pow_mod(&exp, p);
            let tmp = two.mul(&reduced_a).mul(&tmp);
            tmp.rem(p)
        }
    } else {
        assert(pv % 8 == 1);
        tonelli_shanks(a, p)
    };
    proof {
        let ra = reduced_a.value();
        if pv % 4 == 3 && retval == SUCCESS_RETVAL {
            let h = ((pv + 1) / 4) as nat;
            assert(2 * h - 1 == (pv - 1) / 2);
            lemma_root_from_power(ra, h, pv);
        }
        if pv % 8 == 5 && pow(ra, ((pv - 1) / 4) as nat) % pv == 1 {
            let h = ((pv + 3) / 8) as nat;
            assert(2 * h - 1 == (pv - 1) / 4);
            lemma_root_from_power(ra, h, pv);
        }
        let av = a.value();
        lemma_trunc_rem_cong(av, pv);
        if is_prime(pv) && retval == SUCCESS_RETVAL {
            let e = ((pv - 1) / 2) as nat;
            vstd::arithmetic::power::lemma_pow_mod_noop(ra, e, pv);
            vstd::arithmetic::power::lemma_pow_mod_noop(av, e, pv);
            if pv % 8 == 5 && pow(ra, ((pv - 1) / 4) as nat) % pv != 1 {
                crate::supplement::lemma_two_is_non_residue(pv);
                lemma_sqrt_five_mod_eight(ra, pv);
                let t = pow(4 * ra, ((pv - 5) / 8) as nat) % pv;
                crate::integer::lemma_trunc_rem_cong_general(2 * ra * t, pv);
                vstd::arithmetic::div_mod::lemma_mul_mod_noop(
                    trunc_rem(2 * ra * t, pv),
                    trunc_rem(2 * ra * t, pv),
                    pv,
                );
                vstd::arithmetic::div_mod::lemma_mul_mod_noop(2 * ra * t, 2 * ra * t, pv);
            }
        }
    }
    (result, retval)
}

/// The remainder of division rounded toward zero is congruent to the dividend.
proof fn lemma_trunc_rem_cong(a: int, p: int)
    requires
        p > 0,
    ensures
        trunc_rem(a, p) % p == a % p,
{
    crate::integer::lemma_trunc_rem_cong_general(a, p);
}

/// The square root formula for `p = 5 (mod 8)` when `a^((p-1)/4) = -1`: with
/// `t = (4a)^((p-5)/8) mod p`, `(2 a t)^2 = a (mod p)`, given that 2 is a non-residue.
proof fn lemma_sqrt_five_mod_eight(a: int, p: int)
    requires
        is_prime(p),
        p % 8 == 5,
        pow(a, ((p - 1) / 2) as nat) % p == 1,
        pow(a, ((p - 1) / 4) as nat) % p != 1,
        euler_symbol(2, p) == -1,
    ensures
        ((2 * a * (pow(4 * a, ((p - 5) / 8) as nat) % p)) * (2 * a * (pow(4 * a, ((p - 5)
            / 8) as nat) % p))) % p == a % p,
{
    let e = ((p - 5) / 8) as nat;
    let f = ((p - 1) / 4) as nat;
    assert(f == 2 * e + 1);
    assert(((p - 1) / 2) as nat == 2 * f);
    let w = pow(4 * a, e);
    let t = w % p;
    let r = 2 * a * t;
    let u = 2 * a * w;
    // r = u (mod p)
    vstd::arithmetic::div_mod::lemma_mul_mod_noop_right(2 * a, w, p);
    vstd::arithmetic::div_mod::lemma_mul_mod_noop(r, r, p);
    vstd::arithmetic::div_mod::lemma_mul_mod_noop(u, u, p);
    // u^2 = a * (4a)^(2e+1) = a * 4^f * a^f
    lemma_pow_square(4 * a, e);
    vstd::arithmetic::power::lemma_pow_adds(4 * a, 2 * e, 1);
    vstd::arithmetic::power::lemma_pow1(4 * a);
    let w2 = pow(4 * a, 2 * e);
    assert(u * u == a * (w2 * (4 * a))) by (nonlinear_arith)
        requires
            u == 2 * a * w,
            w * w == w2,
    ;
    vstd::arithmetic::power::lemma_pow_distributes(4, a, f);
    // 4^f = 2^(2f) = 2^((p-1)/2) = -1
    vstd::arithmetic::power::lemma_pow_multiplies(2, 2, f);
    vstd::arithmetic::power::lemma_pow_adds(2, 1, 1);
    vstd::arithmetic::power::lemma_pow1(2);
    assert(pow(4, f) == pow(2, 2 * f));
    // a^f = -1: its square is 1 and it is not 1
    let af = pow(a, f);
    let b = af % p;
    lemma_pow_square(a, f);
    vstd::arithmetic::div_mod::lemma_mul_mod_noop(af, af, p);
    vstd::arithmetic::div_mod::lemma_mod_bound(af, p);
    lemma_square_root_of_one(p, b);
    // (4a)^f = 4^f a^f = (-1)(-1) = 1
    let ff = pow(4, f);
    vstd::arithmetic::div_mod::lemma_mul_mod_noop(ff, af, p);
    assert(((p - 1) * (p - 1)) % p == 1) by {
        assert((p - 1) * (p - 1) == (p - 2) * p + 1) by (nonlinear_arith);
        vstd::arithmetic::div_mod::lemma_fundamental_div_mod_converse((p - 1) * (p - 1), p, p
            - 2, 1);
    }
    // u^2 = a * (4a)^f = a (mod p)
    vstd::arithmetic::div_mod::lemma_mul_mod_noop_right(a, ff * af, p);
    assert(a * 1 == a);
}

/// Whether `r` is the square root of `v` rounded down.
pub open spec fn is_floor_sqrt(v: int, r: int) -> bool {
    r >= 0 && r * r <= v && v < (r + 1) * (r + 1)
}

/// The square root of `v` rounded down (for `v >= 0`).
pub open spec fn floor_sqrt(v: int) -> int {
    choose|r: int| #[trigger] is_floor_sqrt(v, r)
}

/// A non-negative number whose square is at most `v` and the square of whose successor
/// exceeds `v` is the square root of `v` rounded down.
proof fn lemma_floor_sqrt_unique(v: int, r: int)
    requires
        r >= 0,
        r * r <= v < (r + 1) * (r + 1),
    ensures
        floor_sqrt(v) == r,
{
    assert(is_floor_sqrt(v, r));
    let s = floor_sqrt(v);
    assert(s >= 0 && s * s <= v && v < (s + 1) * (s + 1));
    if s < r {
        assert((s + 1) * (s + 1) <= r * r) by (nonlinear_arith)
            requires
                0 <= s + 1 <= r,
        ;
    } else if r < s {
        assert((r + 1) * (r + 1) <= s * s) by (nonlinear_arith)
            requires
                0 <= r + 1 <= s,
        ;
    }
}

/// The Euclidean steps of Cornacchia's algorithm on remainders of division rounded toward
/// zero: while `product >= p` (and the divisor `r1` is not zero), `r0` becomes the
/// remainder of `r2` by `r1`, the pair moves down, and `product` becomes `r0^2`; the
/// result is the last `r0`.
pub open spec fn cornacchia_euclid(r2: int, r1: int, r0: int, product: int, p: int) -> int
    decreases abs(r1),
{
    if product >= p && r1 != 0 {
        let rem = trunc_rem(r2, r1);
        proof {
            crate::integer::lemma_trunc_rem_bound(r2, r1);
        }
        cornacchia_euclid(r1, rem, rem, rem * rem, p)
    } else {
        r0
    }
}

/// What `cornacchia` returns for `n` and `p`.
pub open spec fn cornacchia_solution(n: int, p: int) -> (int, int, u32) {
    if p == 2 {
        if n == 1 {
            (1, 1, SUCCESS_RETVAL)
        } else {
            (0, 0, FAILURE_RETVAL)
        }
    } else if trunc_rem(n, p) == 0 {
        (0, 0, FAILURE_RETVAL)
    } else {
        let flag = if euler_symbol(trunc_rem(-n, p), p) == 1 {
            SUCCESS_RETVAL
        } else {
            FAILURE_RETVAL
        };
        cornacchia_check(n, p, cornacchia_euclid(sqrt_mod_p_root(-n, p), p, 0, p, p), flag)
    }
}

/// The last step of Cornacchia's algorithm from the remainder `r0`: with
/// `y = floor(sqrt((p - r0^2) / n))`, the solution `(|r0|, y)` with the flag when
/// `n` divides `p - r0^2` and `r0^2 + n y^2 = p`, and zero with `FAILURE_RETVAL` otherwise.
pub open spec fn cornacchia_check(n: int, p: int, r0: int, flag: u32) -> (int, int, u32) {
    let rest = p - r0 * r0;
    let y = floor_sqrt(trunc_div(rest, n));
    if trunc_rem(rest, n) == 0 && r0 * r0 + y * y * n == p {
        (abs(r0), y, flag)
    } else {
        (0, 0, FAILURE_RETVAL)
    }
}

/// The Euclidean algorithm on `(a, b)` after `k` steps, with remainders of division
/// rounded toward zero: `(a, b)`, then `(b, a rem b)`, and so on, standing still once the
/// second number is 0.
pub open spec fn euclid_pair(a: int, b: int, k: nat) -> (int, int)
    decreases k,
{
    if k == 0 {
        (a, b)
    } else {
        let (u, v) = euclid_pair(a, b, (k - 1) as nat);
        if v == 0 {
            (u, v)
        } else {
            (v, trunc_rem(u, v))
        }
    }
}

/// Whether `r` is the first number of the sequence `b, a rem b, b rem (a rem b), ...` (the
/// second numbers of `euclid_pair(a, b, k)`) whose square is below `p`.
pub open spec fn is_first_small_remainder(a: int, b: int, p: int, r: int) -> bool {
    exists|k: nat|
        #![trigger euclid_pair(a, b, k)]
        {
            &&& euclid_pair(a, b, k).1 * euclid_pair(a, b, k).1 < p
            &&& forall|j: nat| j < k ==> #[trigger] euclid_pair(a, b, j).1 * euclid_pair(a, b, j).1 >= p
            &&& r == euclid_pair(a, b, k).1
        }
}

/// The Euclidean step of Cornacchia's algorithm stops at the first remainder below
/// `sqrt(p)`: for `p > 0`, the remainder that `cornacchia_euclid` leaves for the root `a`
/// is the first number of the Euclidean remainder sequence of `(a, p)` whose square is
/// below `p`.
pub proof fn lemma_cornacchia_euclid_first_small(a: int, p: int)
    requires
        p > 0,
    ensures
        is_first_small_remainder(a, p, p, cornacchia_euclid(a, p, 0, p, p)),
{
    assert(p * p >= p) by (nonlinear_arith)
        requires
            p > 0,
    ;
    lemma_cornacchia_euclid_from(a, p, p, 0);
}

/// From step `k` of the Euclidean algorithm on `(a, p)`, with all earlier remainders at
/// least `sqrt(p)`, `cornacchia_euclid` ends at the first remainder below `sqrt(p)`.
proof fn lemma_cornacchia_euclid_from(a: int, p: int, b: int, k: nat)
    requires
        p > 0,
        euclid_pair(a, b, 0) == (a, b),
        forall|j: nat| j < k ==> #[trigger] euclid_pair(a, b, j).1 * euclid_pair(a, b, j).1 >= p,
        k == 0 ==> b == p,
    ensures
        ({
            let (r2, r1) = euclid_pair(a, b, k);
            let product = if k == 0 {
                p
            } else {
                r1 * r1
            };
            let r0 = if k == 0 {
                0
            } else {
                r1
            };
            is_first_small_remainder(a, b, p, cornacchia_euclid(r2, r1, r0, product, p))
        }),
    decreases abs(euclid_pair(a, b, k).1),
{
    let (r2, r1) = euclid_pair(a, b, k);
    let product = if k == 0 {
        p
    } else {
        r1 * r1
    };
    let r0 = if k == 0 {
        0
    } else {
        r1
    };
    if product >= p && r1 != 0 {
        let rem = trunc_rem(r2, r1);
        crate::integer::lemma_trunc_rem_bound(r2, r1);
        assert(euclid_pair(a, b, k + 1) == (r1, rem));
        assert(euclid_pair(a, b, k).1 * euclid_pair(a, b, k).1 >= p) by {
            if k == 0 {
                assert(p * p >= p) by (nonlinear_arith)
                    requires
                        p > 0,
                ;
            }
        }
        assert forall|j: nat| j < k + 1 implies #[trigger] euclid_pair(a, b, j).1 * euclid_pair(
            a,
            b,
            j,
        ).1 >= p by {
            if j < k {
            }
        }
        lemma_cornacchia_euclid_from(a, p, b, k + 1);
        assert(cornacchia_euclid(r2, r1, r0, product, p) == cornacchia_euclid(
            r1,
            rem,
            rem,
            rem * rem,
            p,
        ));
    } else {
        assert(cornacchia_euclid(r2, r1, r0, product, p) == r0);
        if r1 == 0 {
            assert(k != 0);
            assert(r1 * r1 == 0);
        }
        assert(r0 == r1);
        assert(r1 * r1 < p);
        assert(euclid_pair(a, b, k).1 * euclid_pair(a, b, k).1 < p);
    }
}

/// Compute `x` and `y` such that `x^2 + n*y^2 = p` where `p` is prime, from a square
/// root of `-n` modulo `p` and the Euclidean algorithm (on remainders of division
/// rounded toward zero). The flag is `SUCCESS_RETVAL` only when a solution was found and
/// `-n` is a square modulo `p` (Euler symbol 1); without a solution both numbers are 0.
#[verifier::spinoff_prover]
pub fn cornacchia(n: &Int, p: &Int) -> (r: (Int, Int, u32))
    requires
        n.value() >= 0,
        p.value() > 0,
        p.value() == 2 || p.value() % 2 == 1,
    ensures
        ({
            let nv = n.value();
            let pv = p.value();
            let (x, y, ok) = (r.0.value(), r.1.value(), r.2);
            &&& (x, y, ok) == cornacchia_solution(nv, pv)
            &&& x >= 0 && y >= 0
            &&& (x != 0 || y != 0) ==> x * x + nv * (y * y) == pv
            &&& pv == 2 && nv == 1 ==> x == 1 && y == 1 && ok == SUCCESS_RETVAL
            &&& pv == 2 && nv != 1 ==> x == 0 && y == 0 && ok == FAILURE_RETVAL
            &&& pv != 2 && nv % pv == 0 ==> x == 0 && y == 0 && ok == FAILURE_RETVAL
            &&& pv != 2 && nv % pv != 0 ==> exists|r0: int|
                #[trigger] is_first_small_remainder(sqrt_mod_p_root(-nv, pv), pv, pv, r0) && (
                x,
                y,
                ok,
                ) == cornacchia_check(
                    nv,
                    pv,
                    r0,
                    if euler_symbol(trunc_rem(-nv, pv), pv) == 1 {
                        SUCCESS_RETVAL
                    } else {
                        FAILURE_RETVAL
                    },
                )
            &&& pv != 2 && nv % pv != 0 ==> if x == 0 && y == 0 {
                ok == FAILURE_RETVAL
            } else {
                ok == if euler_symbol(trunc_rem(-nv, pv), pv) == 1 {
                    SUCCESS_RETVAL
                } else {
                    FAILURE_RETVAL
                }
            }
        }),
{
    let ghost nv = n.value();
    let ghost pv = p.value();
    let two = Int::from_u8(2);
    let one = Int::from_u8(1);
    if p.equals(&two) {
        if n.equals(&one) {
            return (Int::from_u8(1), Int::from_u8(1), SUCCESS_RETVAL);
        } else {
            return (Int::from_u8(0), Int::from_u8(0), FAILURE_RETVAL);
        }
    }
    proof {
        crate::integer::lemma_trunc_rem_nonneg(nv, pv);
    }
    if n.rem(p).is_zero() {
        return (Int::from_u8(0), Int::from_u8(0), FAILURE_RETVAL);
    }
    proof {
        vstd::arithmetic::div_mod::lemma_small_mod(0, pv as nat);
        if pv == 1 {
            vstd::arithmetic::div_mod::lemma_small_mod(0, 1);
            vstd::arithmetic::div_mod::lemma_fundamental_div_mod(nv, 1);
            vstd::arithmetic::div_mod::lemma_mod_bound(nv, 1);
        }
    }
    let (root, retval) = sqrt_mod_p(&n.neg(), p);
    let ghost flag = if euler_symbol(trunc_rem(-nv, pv), pv) == 1 {
        SUCCESS_RETVAL
    } else {
        FAILURE_RETVAL
    };
    assert(retval == flag);
    assert(pv != 2 && nv % pv != 0);

    let ghost last = cornacchia_euclid(root.value(), pv, 0, pv, pv);
    proof {
        lemma_cornacchia_euclid_first_small(root.value(), pv);
    }
    let mut r2 = root;
    let mut r0 = Int::from_u8(0);
    let mut r1 = p.duplicate();
    let mut product = p.duplicate();
    while product.ge(p)
        invariant
            pv == p.value(),
            pv > 0,
            cornacchia_euclid(r2.value(), r1.value(), r0.value(), product.value(), pv) == last,
            r1.value() == 0 ==> product.value() == 0,
            product.value() == r0.value() * r0.value() || product.value() == pv,
        decreases abs(r1.value()),
    {
        let (_, rem) = r2.div_rem(&r1);
        proof {
            crate::integer::lemma_trunc_rem_bound(r2.value(), r1.value());
        }
        r0 = rem;
        r2 = r1;
        r1 = r0.duplicate();
        product = r0.square();
    }

    // Test whether the result is a solution.
    let remaining = p.sub(&product);
    let (a, rem2) = remaining.div_rem(n);
    proof {
        crate::integer::lemma_trunc_rem_nonneg(pv - product.value(), nv);
        vstd::arithmetic::div_mod::lemma_div_pos_is_pos(pv - product.value(), nv);
        assert(r0.value() == last);
        assert(product.value() == last * last);
    }
    let y = a.sqrt();
    proof {
        lemma_floor_sqrt_unique(a.value(), y.value());
    }
    if rem2.is_zero() {
        let x = r0.duplicate();
        let a = y.square().mul(n);
        let total = product.add(&a);
        if total.equals(p) {
            let x = x.abs();
            let y = y.abs();
            proof {
                let rv = r0.value();
                let yv = y.value();
                assert(abs(rv) * abs(rv) == rv * rv) by (nonlinear_arith);
                assert((yv * yv) * nv == nv * (yv * yv)) by (nonlinear_arith);
                assert(x.value() * x.value() + nv * (y.value() * y.value()) == pv);
                assert(x.value() != 0 || y.value() != 0) by (nonlinear_arith)
                    requires
                        x.value() * x.value() + nv * (y.value() * y.value()) == pv,
                        pv > 0,
                ;
                assert(retval == flag);
            }
            return (x, y, retval);
        }
    }
    (Int::from_u8(0), Int::from_u8(0), FAILURE_RETVAL)
}

/// What `cornacchia_extended_prime_loop` returns: with `(re, im, ok)` what `cornacchia`
/// returns for 1 and `p`, `c * (re + im i)^v` with `ok` when both parts are non-zero,
/// zero with `FAILURE_RETVAL` otherwise.
pub open spec fn prime_loop_result(c: (int, int), p: int, v: nat) -> (int, int, u32) {
    let (re, im, ok) = cornacchia_solution(1, p);
    if re != 0 && im != 0 {
        let g = gauss_mul(gauss_pow((re, im), v), c);
        (g.0, g.1, ok)
    } else {
        (0, 0, FAILURE_RETVAL)
    }
}

/// For a prime `p` dividing a number `valuation_of_p` times, multiplies the Gaussian
/// integer `c` by the `valuation_of_p`-th power of `re + im i`, where `re^2 + im^2 = p` comes
/// from Cornacchia's algorithm. When that gives no solution with both parts non-zero,
/// the result is zero with `FAILURE_RETVAL`; otherwise the flag is Cornacchia's.
pub fn cornacchia_extended_prime_loop(c: (&Int, &Int), p: &Int, valuation_of_p: u32) -> (r: (
    Int,
    Int,
    u32,
))
    requires
        p.value() > 0,
        p.value() == 2 || p.value() % 2 == 1,
    ensures
        (r.0.value(), r.1.value(), r.2) == prime_loop_result(
            (c.0.value(), c.1.value()),
            p.value(),
            valuation_of_p as nat,
        ),
        r.2 == SUCCESS_RETVAL || r.2 == FAILURE_RETVAL,
        (r.0.value() == 0 && r.1.value() == 0 && r.2 == FAILURE_RETVAL) || exists|re: int, im: int|
            #![trigger gauss_pow((re, im), valuation_of_p as nat)]
            re > 0 && im > 0 && re * re + im * im == p.value() && (r.0.value(), r.1.value())
                == gauss_mul(
                gauss_pow((re, im), valuation_of_p as nat),
                (c.0.value(), c.1.value()),
            ),
{
    let one = Int::from_u8(1);
    let (re, im, retval) = cornacchia(&one, p);
    if !re.is_zero() && !im.is_zero() {
        let (x, y) = complex_mul_by_complex_power(c, (&re, &im), valuation_of_p);
        proof {
            let rv = re.value();
            let iv = im.value();
            assert(rv * rv + 1 * (iv * iv) == p.value());
            let _ = gauss_pow((rv, iv), valuation_of_p as nat);
        }
        (x, y, retval)
    } else {
        (Int::from_u8(0), Int::from_u8(0), FAILURE_RETVAL)
    }
}


/// The norm `a.0^2 + a.1^2` of a Gaussian integer.
pub open spec fn gauss_norm(a: (int, int)) -> int {
    a.0 * a.0 + a.1 * a.1
}

/// The norm is multiplicative.
pub proof fn lemma_gauss_norm_mul(a: (int, int), b: (int, int))
    ensures
        gauss_norm(gauss_mul(a, b)) == gauss_norm(a) * gauss_norm(b),
{
    let (a0, a1) = a;
    let (b0, b1) = b;
    let u = a0 * b0;
    let v = a1 * b1;
    let s = a0 * b1;
    let t = b0 * a1;
    assert((u - v) * (u - v) == u * u - 2 * (u * v) + v * v) by (nonlinear_arith);
    assert((s + t) * (s + t) == s * s + 2 * (s * t) + t * t) by (nonlinear_arith);
    assert(u * v == s * t) by (nonlinear_arith)
        requires
            u == a0 * b0,
            v == a1 * b1,
            s == a0 * b1,
            t == b0 * a1,
    ;
    assert(u * u == (a0 * a0) * (b0 * b0)) by (nonlinear_arith)
        requires
            u == a0 * b0,
    ;
    assert(v * v == (a1 * a1) * (b1 * b1)) by (nonlinear_arith)
        requires
            v == a1 * b1,
    ;
    assert(s * s == (a0 * a0) * (b1 * b1)) by (nonlinear_arith)
        requires
            s == a0 * b1,
    ;
    assert(t * t == (a1 * a1) * (b0 * b0)) by (nonlinear_arith)
        requires
            t == b0 * a1,
    ;
    assert((a0 * a0 + a1 * a1) * (b0 * b0 + b1 * b1) == (a0 * a0) * (b0 * b0) + (a0 * a0) * (b1
        * b1) + (a1 * a1) * (b0 * b0) + (a1 * a1) * (b1 * b1)) by (nonlinear_arith);
}

/// The norm of a power is the power of the norm.
pub proof fn lemma_gauss_norm_pow(a: (int, int), e: nat)
    ensures
        gauss_norm(gauss_pow(a, e)) == pow(gauss_norm(a), e),
    decreases e,
{
    vstd::arithmetic::power::lemma_pow0(gauss_norm(a));
    if e > 0 {
        lemma_gauss_norm_pow(a, (e - 1) as nat);
        lemma_gauss_norm_mul(gauss_pow(a, (e - 1) as nat), a);
        vstd::arithmetic::power::lemma_pow_adds(gauss_norm(a), (e - 1) as nat, 1);
        assert(((e - 1) as nat) + 1 == e);
        vstd::arithmetic::power::lemma_pow1(gauss_norm(a));
        assert(gauss_pow(a, e) == gauss_mul(gauss_pow(a, (e - 1) as nat), a));
        assert(pow(gauss_norm(a), e) == pow(gauss_norm(a), (e - 1) as nat) * gauss_norm(a));
    } else {
        assert(gauss_norm((1, 0)) == 1);
    }
}

/// The product of `primes[j]^valuations[j]` over `j < k`.
pub open spec fn valuation_product(primes: Seq<Int>, valuations: Seq<u32>, k: nat) -> int
    decreases k,
{
    if k == 0 {
        1
    } else {
        valuation_product(primes, valuations, (k - 1) as nat) * pow(
            primes[k - 1].value(),
            valuations[k - 1] as nat,
        )
    }
}

/// Exact division by `p >= 2` makes a non-zero number smaller in size.
pub proof fn lemma_exact_division_shrinks(rest: int, p: int)
    requires
        p >= 2,
        rest != 0,
        trunc_rem(rest, p) == 0,
    ensures
        abs(trunc_div(rest, p)) < abs(rest),
{
    let q = trunc_div(rest, p);
    assert(rest == p * q);
    assert(q != 0) by (nonlinear_arith)
        requires
            rest == p * q,
            rest != 0,
    ;
    assert(abs(q) < abs(rest)) by (nonlinear_arith)
        requires
            rest == p * q,
            q != 0,
            p >= 2,
    ;
}

/// What `remove_factor` computes from the cofactor `rest` after `count` factors `p`
/// were removed: it keeps dividing while `p >= 2` divides a non-zero `rest` and fewer than
/// `u32::MAX` factors were removed.
pub open spec fn remove_factor_result(rest: int, p: int, count: nat) -> (int, nat)
    decreases abs(rest),
{
    if p >= 2 && rest != 0 && count < 0xffff_ffff && trunc_rem(rest, p) == 0 {
        proof {
            lemma_exact_division_shrinks(rest, p);
        }
        remove_factor_result(trunc_div(rest, p), p, count + 1)
    } else {
        (rest, count)
    }
}

/// Removing a factor removes all of it: for `p >= 2` and `m != 0`, the cofactor `r` and
/// the count `c` that `remove_factor_result` gives satisfy `m = r * p^c`, and unless the
/// count reached `u32::MAX`, `p` does not divide `r`.
pub proof fn lemma_remove_factor_complete(m: int, p: int)
    requires
        p >= 2,
        m != 0,
    ensures
        ({
            let (r, c) = remove_factor_result(m, p, 0);
            &&& m == r * pow(p, c)
            &&& c < 0xffff_ffff ==> trunc_rem(r, p) != 0
        }),
{
    lemma_remove_factor_steps(m, p, 0);
    vstd::arithmetic::power::lemma_pow0(p);
}

/// From a cofactor `rest` after `count` removals: the final count is at least `count`,
/// `rest = r * p^(c - count)`, and `p` does not divide `r` unless the count reached
/// `u32::MAX`.
proof fn lemma_remove_factor_steps(rest: int, p: int, count: nat)
    requires
        p >= 2,
        rest != 0,
    ensures
        ({
            let (r, c) = remove_factor_result(rest, p, count);
            &&& c >= count
            &&& rest == r * pow(p, (c - count) as nat)
            &&& c < 0xffff_ffff ==> trunc_rem(r, p) != 0
        }),
    decreases abs(rest),
{
    let (r, c) = remove_factor_result(rest, p, count);
    if count < 0xffff_ffff && trunc_rem(rest, p) == 0 {
        lemma_exact_division_shrinks(rest, p);
        let q = trunc_div(rest, p);
        assert(rest == p * q);
        assert(q != 0) by (nonlinear_arith)
            requires
                rest == p * q,
                rest != 0,
        ;
        lemma_remove_factor_steps(q, p, count + 1);
        let e = (c - (count + 1)) as nat;
        vstd::arithmetic::power::lemma_pow_adds(p, 1, e);
        vstd::arithmetic::power::lemma_pow1(p);
        assert((c - count) as nat == 1 + e);
        let pe = pow(p, e);
        assert(rest == r * pow(p, (c - count) as nat)) by (nonlinear_arith)
            requires
                rest == p * q,
                q == r * pe,
                pow(p, (c - count) as nat) == p * pe,
        ;
    } else {
        vstd::arithmetic::power::lemma_pow0(p);
        assert(rest * 1 == rest);
    }
}

/// Divides `m` by `p` as long as the division leaves no remainder: the cofactor and the
/// number of factors removed (none from zero, and at most `u32::MAX`).
fn remove_factor(m: &Int, p: &Int) -> (r: (Int, u32))
    requires
        p.value() >= 2,
    ensures
        m.value() == r.0.value() * pow(p.value(), r.1 as nat),
        (r.0.value(), r.1 as nat) == remove_factor_result(m.value(), p.value(), 0),
        m.value() != 0 && r.1 < 0xffff_ffffu32 ==> trunc_rem(r.0.value(), p.value()) != 0,
{
    let mut rest = m.duplicate();
    let mut count: u32 = 0;
    proof {
        vstd::arithmetic::power::lemma_pow0(p.value());
    }
    if m.is_zero() {
        return (rest, 0);
    }
    while count < 0xffff_ffffu32 && rest.rem(p).is_zero()
        invariant
            p.value() >= 2,
            rest.value() != 0,
            m.value() == rest.value() * pow(p.value(), count as nat),
            remove_factor_result(rest.value(), p.value(), count as nat) == remove_factor_result(
                m.value(),
                p.value(),
                0,
            ),
        decreases abs(rest.value()),
    {
        let ghost old_rest = rest.value();
        let ghost old_count = count as nat;
        let (q, _) = rest.div_rem(p);
        proof {
            assert(remove_factor_result(old_rest, p.value(), old_count) == remove_factor_result(
                q.value(),
                p.value(),
                old_count + 1,
            ));
        }
        proof {
            let qv = q.value();
            let pv = p.value();
            assert(old_rest == pv * qv);
            assert(qv != 0) by (nonlinear_arith)
                requires
                    old_rest == pv * qv,
                    old_rest != 0,
            ;
            assert(abs(qv) < abs(old_rest)) by (nonlinear_arith)
                requires
                    old_rest == pv * qv,
                    qv != 0,
                    pv >= 2,
            ;
            vstd::arithmetic::power::lemma_pow_adds(pv, count as nat, 1);
            vstd::arithmetic::power::lemma_pow1(pv);
            let pc = pow(pv, count as nat);
            assert(m.value() == qv * pow(pv, (count + 1) as nat)) by (nonlinear_arith)
                requires
                    m.value() == old_rest * pc,
                    old_rest == pv * qv,
                    pow(pv, (count + 1) as nat) == pc * pv,
            ;
        }
        rest = q;
        count += 1;
    }
    (rest, count)
}

proof fn lemma_retval_and(a: u32, b: u32)
    requires
        a == SUCCESS_RETVAL || a == FAILURE_RETVAL,
        b == SUCCESS_RETVAL || b == FAILURE_RETVAL,
    ensures
        (a & b) == if a == SUCCESS_RETVAL && b == SUCCESS_RETVAL {
            SUCCESS_RETVAL
        } else {
            FAILURE_RETVAL
        },
{
    assert(0xffff_ffffu32 & 0xffff_ffffu32 == 0xffff_ffffu32) by (bit_vector);
    assert(0xffff_ffffu32 & 0u32 == 0u32) by (bit_vector);
    assert(0u32 & 0xffff_ffffu32 == 0u32) by (bit_vector);
    assert(0u32 & 0u32 == 0u32) by (bit_vector);
}

/// The cofactor of `n` and the valuations after the first `k` of `primes`: the factor
/// `primes[i]` is removed (by `remove_factor`) when `primes[i] = 1 (mod 4)` or `i = 0`,
/// and its valuation is 0 otherwise.
pub open spec fn strip_factors(n: int, primes: Seq<Int>, k: nat) -> (int, Seq<u32>)
    decreases k,
{
    if k == 0 {
        (n, Seq::empty())
    } else {
        let (m, vals) = strip_factors(n, primes, (k - 1) as nat);
        let p = primes[k - 1].value();
        if trunc_rem(p, 4) == 1 || k - 1 == 0 {
            let (rest, v) = remove_factor_result(m, p, 0);
            (rest, vals.push(v as u32))
        } else {
            (m, vals.push(0u32))
        }
    }
}

/// Multiplies the solution `c`, with flag `ok`, by a solution for each `primes[j]`, `j >= i`,
/// with a non-zero valuation, as `cornacchia_extended_prime_loop` gives them, and-ing the
/// flags.
pub open spec fn fold_prime_solutions(
    c: (int, int),
    ok: u32,
    primes: Seq<Int>,
    vals: Seq<u32>,
    i: nat,
) -> (int, int, u32)
    decreases primes.len() - i,
{
    if i >= primes.len() {
        (c.0, c.1, ok)
    } else if vals[i as int] != 0 {
        let (x, y, ok2) = prime_loop_result(c, primes[i as int].value(), vals[i as int] as nat);
        fold_prime_solutions((x, y), ok & ok2, primes, vals, i + 1)
    } else {
        fold_prime_solutions(c, ok, primes, vals, i + 1)
    }
}

/// What `cornacchia_extended` returns for `n` when the cofactor left after removing the
/// listed primes is 1 or is taken to be prime: Cornacchia's solution for the cofactor (or
/// `(1, 0)` for 1), multiplied by the solutions for the removed primes; zero with
/// `FAILURE_RETVAL` when the cofactor has none.
pub open spec fn extended_solution(n: int, primes: Seq<Int>) -> (int, int, u32) {
    let (m, vals) = strip_factors(n, primes, primes.len());
    let (x0, y0, ok0) = if m == 1 {
        (1int, 0int, SUCCESS_RETVAL)
    } else {
        let (x, y, ok) = cornacchia_solution(1, m);
        (x, y, SUCCESS_RETVAL & ok)
    };
    if x0 == 0 && y0 == 0 {
        (0, 0, FAILURE_RETVAL)
    } else {
        fold_prime_solutions((x0, y0), ok0, primes, vals, 0)
    }
}

/// What `cornacchia_extended` can return for `n`, whatever its primality test answers:
/// failure when a bad prime divides `n` or the cofactor left after removing the listed
/// primes is not `1 (mod 4)`; `extended_solution` when that cofactor is 1; otherwise either
/// failure or `extended_solution`.
pub open spec fn extended_outcome(
    n: int,
    primes: Seq<Int>,
    bad_primes: Seq<Int>,
    res: (int, int, u32),
) -> bool {
    let m = strip_factors(n, primes, primes.len()).0;
    let fail = (0int, 0int, FAILURE_RETVAL);
    if exists|i: int|
        0 <= i < bad_primes.len() && #[trigger] trunc_rem(n, bad_primes[i].value()) == 0 {
        res == fail
    } else if trunc_rem(m, 4) != 1 {
        res == fail
    } else if m == 1 {
        res == extended_solution(n, primes)
    } else {
        res == fail || res == extended_solution(n, primes)
    }
}

/// Writes `n` as `x^2 + y^2`: fails when one of `bad_primes` divides `n`; removes the
/// factors `primes[i]` with `primes[i] = 1 (mod 4)` and `primes[0]`, recording how often
/// each divides; asks `is_probably_prime` about the cofactor when it is `1 (mod 4)`, solves
/// for a prime cofactor (or 1) with Cornacchia's algorithm, and multiplies in a solution
/// for each removed prime. Remainders are those of division rounded toward zero. Without
/// a solution both numbers are 0 and the flag is `FAILURE_RETVAL`.
pub fn cornacchia_extended<F: Fn(&Int) -> bool>(
    n: &Int,
    primes: &[Int],
    bad_primes: &[Int],
    is_probably_prime: F,
) -> (r: (Int, Int, u32))
    requires
        forall|i: int|
            0 <= i < primes@.len() ==> #[trigger] primes@[i].value() >= 2 && (primes@[i].value()
                == 2 || primes@[i].value() % 2 == 1),
        forall|i: int| 0 <= i < bad_primes@.len() ==> #[trigger] bad_primes@[i].value() != 0,
        forall|m: &Int| is_probably_prime.requires((m,)),
    ensures
        r.2 == SUCCESS_RETVAL || r.2 == FAILURE_RETVAL,
        extended_outcome(n.value(), primes@, bad_primes@, (r.0.value(), r.1.value(), r.2)),
        (r.0.value() == 0 && r.1.value() == 0 && r.2 == FAILURE_RETVAL) || r.0.value() * r.0.value()
            + r.1.value() * r.1.value() == n.value(),
        (exists|i: int|
            0 <= i < bad_primes@.len() && #[trigger] trunc_rem(n.value(), bad_primes@[i].value())
                == 0) ==> r.0.value() == 0 && r.1.value() == 0 && r.2 == FAILURE_RETVAL,
        ({
            let m = strip_factors(n.value(), primes@, primes@.len()).0;
            let res = (r.0.value(), r.1.value(), r.2);
            let fail = (0int, 0int, FAILURE_RETVAL);
            (forall|i: int|
                0 <= i < bad_primes@.len() ==> #[trigger] trunc_rem(
                    n.value(),
                    bad_primes@[i].value(),
                ) != 0) ==> {
                &&& trunc_rem(m, 4) != 1 ==> res == fail
                &&& trunc_rem(m, 4) == 1 && m == 1 ==> res == extended_solution(n.value(), primes@)
                &&& trunc_rem(m, 4) == 1 ==> res == fail || res == extended_solution(
                    n.value(),
                    primes@,
                )
                &&& trunc_rem(m, 4) == 1 && (forall|x: &Int, b: bool|
                    x.value() == m && #[trigger] is_probably_prime.ensures((x,), b) ==> b) ==> res
                    == extended_solution(n.value(), primes@)
                &&& trunc_rem(m, 4) == 1 && m != 1 && (forall|x: &Int, b: bool|
                    x.value() == m && #[trigger] is_probably_prime.ensures((x,), b) ==> !b) ==> res
                    == fail
            }
        }),
{
    let mut i: usize = 0;
    while i < bad_primes.len()
        invariant
            i <= bad_primes@.len(),
            forall|j: int| 0 <= j < bad_primes@.len() ==> #[trigger] bad_primes@[j].value() != 0,
            forall|j: int| 0 <= j < i ==> #[trigger] trunc_rem(n.value(), bad_primes@[j].value()) != 0,
        decreases bad_primes@.len() - i,
    {
        if n.rem(&bad_primes[i]).is_zero() {
            return (Int::from_u8(0), Int::from_u8(0), FAILURE_RETVAL);
        }
        i += 1;
    }

    let one = Int::from_u8(1);
    let four = Int::from_u8(4);
    let mut m = n.duplicate();
    let mut valuations: Vec<u32> = Vec::new();
    let mut i: usize = 0;
    while i < primes.len()
        invariant
            i <= primes@.len(),
            valuations@.len() == i,
            one.value() == 1,
            four.value() == 4,
            forall|j: int|
                0 <= j < primes@.len() ==> #[trigger] primes@[j].value() >= 2 && (primes@[j].value()
                    == 2 || primes@[j].value() % 2 == 1),
            n.value() == m.value() * valuation_product(primes@, valuations@, i as nat),
            (m.value(), valuations@) == strip_factors(n.value(), primes@, i as nat),
        decreases primes@.len() - i,
    {
        let p = &primes[i];
        let ghost before = m.value();
        let ghost old_vals = valuations@;
        let v = if p.rem(&four).equals(&one) || i == 0 {
            let (rest, v) = remove_factor(&m, p);
            m = rest;
            v
        } else {
            proof {
                vstd::arithmetic::power::lemma_pow0(p.value());
            }
            0
        };
        valuations.push(v);
        proof {
            let vals = valuations@;
            assert(vals.drop_last() =~= old_vals);
            assert(vals.drop_last().take(i as int) =~= vals.take(i as int));
            assert(valuation_product(primes@, vals, i as nat) == valuation_product(
                primes@,
                vals.drop_last(),
                i as nat,
            )) by {
                lemma_valuation_product_prefix(primes@, vals, vals.drop_last(), i as nat);
            }
            let pw = pow(p.value(), v as nat);
            let vp = valuation_product(primes@, vals.drop_last(), i as nat);
            assert(n.value() == m.value() * (vp * pw)) by (nonlinear_arith)
                requires
                    n.value() == before * vp,
                    before == m.value() * pw,
            ;
            assert(strip_factors(n.value(), primes@, (i + 1) as nat).1 =~= vals);
        }
        i += 1;
    }
    let ghost target = extended_solution(n.value(), primes@);

    let m_is_one = m.equals(&one);
    if m.rem(&four).equals(&one) && (is_probably_prime(&m) || m_is_one) {
        proof {
            crate::integer::lemma_trunc_rem_positive(m.value(), 4);
            assert(m.value() % 2 == 1);
        }
        let mut retval = SUCCESS_RETVAL;
        let (mut x, mut y) = if m_is_one {
            (Int::from_u8(1), Int::from_u8(0))
        } else {
            let (x, y, ok) = cornacchia(&one, &m);
            proof {
                lemma_retval_and(retval, ok);
            }
            retval = retval & ok;
            (x, y)
        };
        proof {
            assert(valuations@ == strip_factors(n.value(), primes@, primes@.len()).1);
        }
        if !(x.is_zero() && y.is_zero()) {
            let mut i: usize = 0;
            while i < primes.len()
                invariant
                    i <= primes@.len(),
                    valuations@.len() == primes@.len(),
                    retval == SUCCESS_RETVAL || retval == FAILURE_RETVAL,
                    forall|j: int|
                        0 <= j < primes@.len() ==> #[trigger] primes@[j].value() >= 2 && (
                        primes@[j].value() == 2 || primes@[j].value() % 2 == 1),
                    (x.value() == 0 && y.value() == 0 && retval == FAILURE_RETVAL) || gauss_norm(
                        (x.value(), y.value()),
                    ) == m.value() * valuation_product(primes@, valuations@, i as nat),
                    fold_prime_solutions((x.value(), y.value()), retval, primes@, valuations@, i as nat)
                        == target,
                decreases primes@.len() - i,
            {
                let v = valuations[i];
                let ghost c = (x.value(), y.value());
                if v != 0 {
                    let (x2, y2, ok) = cornacchia_extended_prime_loop((&x, &y), &primes[i], v);
                    proof {
                        lemma_retval_and(retval, ok);
                        if !(x2.value() == 0 && y2.value() == 0 && ok == FAILURE_RETVAL) {
                            let (re, im) = choose|re: int, im: int|
                                #![trigger gauss_pow((re, im), v as nat)]
                                re > 0 && im > 0 && re * re + im * im == primes@[i as int].value()
                                    && (x2.value(), y2.value()) == gauss_mul(
                                    gauss_pow((re, im), v as nat),
                                    c,
                                );
                            lemma_gauss_norm_mul(gauss_pow((re, im), v as nat), c);
                            lemma_gauss_norm_pow((re, im), v as nat);
                            if !(c.0 == 0 && c.1 == 0 && retval == FAILURE_RETVAL) {
                                let vp = valuation_product(primes@, valuations@, i as nat);
                                let pw = pow(primes@[i as int].value(), v as nat);
                                assert(pw * (m.value() * vp) == m.value() * (vp * pw))
                                    by (nonlinear_arith);
                            } else {
                                assert(c.0 * c.0 + c.1 * c.1 == 0) by (nonlinear_arith)
                                    requires
                                        c.0 == 0,
                                        c.1 == 0,
                                ;
                                assert(gauss_norm(c) == 0);
                                assert(pow(primes@[i as int].value(), v as nat) * 0 == 0);
                            }
                        }
                    }
                    x = x2;
                    y = y2;
                    retval = retval & ok;
                } else {
                    proof {
                        vstd::arithmetic::power::lemma_pow0(primes@[i as int].value());
                    }
                }
                i += 1;
            }
            proof {
                assert(valuation_product(primes@, valuations@, primes@.len()) == valuation_product(
                    primes@,
                    valuations@,
                    primes@.len(),
                ));
            }
            return (x, y, retval);
        }
    }
    (Int::from_u8(0), Int::from_u8(0), FAILURE_RETVAL)
}

/// The product over a prefix only reads that prefix of the valuations.
proof fn lemma_valuation_product_prefix(primes: Seq<Int>, a: Seq<u32>, b: Seq<u32>, k: nat)
    requires
        k <= a.len(),
        k <= b.len(),
        a.take(k as int) == b.take(k as int),
    ensures
        valuation_product(primes, a, k) == valuation_product(primes, b, k),
    decreases k,
{
    if k > 0 {
        assert(a.take(k - 1) =~= a.take(k as int).take(k - 1));
        assert(b.take(k - 1) =~= b.take(k as int).take(k - 1));
        assert(a[k - 1] == a.take(k as int)[k - 1]);
        assert(b[k - 1] == b.take(k as int)[k - 1]);
        lemma_valuation_product_prefix(primes, a, b, (k - 1) as nat);
    }
}


/// An integer with its sign as a flag: `SUCCESS_RETVAL` when negative, `FAILURE_RETVAL`
/// otherwise.
pub struct SignedInteger {
    pub n: Int,
    pub is_negative: u32,
}

impl SignedInteger {
    /// Zero, flagged non-negative.
    pub fn zero() -> (r: SignedInteger)
        ensures
            r.n.value() == 0,
            r.is_negative == FAILURE_RETVAL,
    {
        SignedInteger { n: Int::from_u8(0), is_negative: FAILURE_RETVAL }
    }

    /// `n` with its sign flag.
    pub fn new(n: Int) -> (r: SignedInteger)
        ensures
            r.n.value() == n.value(),
            r.is_negative == if n.value() < 0 {
                SUCCESS_RETVAL
            } else {
                FAILURE_RETVAL
            },
    {
        let is_negative = if n.is_negative() {
            SUCCESS_RETVAL
        } else {
            FAILURE_RETVAL
        };
        SignedInteger { n, is_negative }
    }
}

/// The quaternion `x + y*i + z*j + t*k` over the basis `(1, i, j, ij)`.
pub struct Quaternion {
    pub x: SignedInteger,
    pub y: SignedInteger,
    pub z: SignedInteger,
    pub t: SignedInteger,
}

impl Quaternion {
    /// The zero quaternion.
    pub fn zero() -> (r: Quaternion)
        ensures
            r.x.n.value() == 0 && r.y.n.value() == 0 && r.z.n.value() == 0 && r.t.n.value() == 0,
            r.x.is_negative == FAILURE_RETVAL && r.y.is_negative == FAILURE_RETVAL
                && r.z.is_negative == FAILURE_RETVAL && r.t.is_negative == FAILURE_RETVAL,
    {
        Quaternion {
            x: SignedInteger::zero(),
            y: SignedInteger::zero(),
            z: SignedInteger::zero(),
            t: SignedInteger::zero(),
        }
    }

    /// The reduced norm `x^2 + y^2 + p*(z^2 + t^2)` of the quaternion in the maximal order
    /// `O_0` of the quaternion algebra ramified at `p` and infinity.
    pub open spec fn norm(&self, p: int) -> int {
        let (x, y, z, t) = (self.x.n.value(), self.y.n.value(), self.z.n.value(), self.t.n.value());
        x * x + y * y + p * (z * z + t * t)
    }
}

/// The primes up to 101 that are 2 or 1 (mod 4), in increasing order.
pub open spec fn small_prime_values() -> Seq<u8> {
    seq![2u8, 5, 13, 17, 29, 37, 41, 53, 61, 73, 89, 97, 101]
}

/// The primes up to 83 that are 3 (mod 4), in increasing order.
pub open spec fn small_bad_prime_values() -> Seq<u8> {
    seq![3u8, 7, 11, 19, 23, 31, 43, 47, 59, 67, 71, 79, 83]
}

/// The primes up to 101 that are 2 or 1 (mod 4).
fn small_primes() -> (r: Vec<Int>)
    ensures
        r@.len() == small_prime_values().len(),
        forall|i: int| 0 <= i < r@.len() ==> #[trigger] r@[i].value() == small_prime_values()[i] as int,
        forall|i: int|
            0 <= i < r@.len() ==> #[trigger] r@[i].value() >= 2 && (r@[i].value() == 2
                || r@[i].value() % 2 == 1),
{
    let values: [u8; 13] = [2, 5, 13, 17, 29, 37, 41, 53, 61, 73, 89, 97, 101];
    let mut r: Vec<Int> = Vec::new();
    let mut i: usize = 0;
    while i < 13
        invariant
            i <= 13,
            r@.len() == i,
            values@ == small_prime_values(),
            forall|j: int| 0 <= j < r@.len() ==> #[trigger] r@[j].value() == values@[j] as int,
            forall|j: int|
                0 <= j < r@.len() ==> #[trigger] r@[j].value() >= 2 && (r@[j].value() == 2
                    || r@[j].value() % 2 == 1),
        decreases 13 - i,
    {
        let v = values[i];
        assert(v >= 2 && (v == 2 || v % 2 == 1));
        r.push(Int::from_u8(v));
        i += 1;
    }
    r
}

/// The primes up to 83 that are 3 (mod 4).
fn small_bad_primes() -> (r: Vec<Int>)
    ensures
        r@.len() == small_bad_prime_values().len(),
        forall|i: int| 0 <= i < r@.len() ==> #[trigger] r@[i].value() == small_bad_prime_values()[i] as int,
        forall|i: int| 0 <= i < r@.len() ==> #[trigger] r@[i].value() != 0,
{
    let values: [u8; 13] = [3, 7, 11, 19, 23, 31, 43, 47, 59, 67, 71, 79, 83];
    let mut r: Vec<Int> = Vec::new();
    let mut i: usize = 0;
    while i < 13
        invariant
            i <= 13,
            r@.len() == i,
            values@ == small_bad_prime_values(),
            forall|j: int| 0 <= j < r@.len() ==> #[trigger] r@[j].value() == values@[j] as int,
            forall|j: int| 0 <= j < r@.len() ==> #[trigger] r@[j].value() != 0,
        decreases 13 - i,
    {
        let v = values[i];
        assert(v != 0);
        r.push(Int::from_u8(v));
        i += 1;
    }
    r
}

/// The bound `m' = floor(sqrt(n / p))` on `|z|` in the search for a quaternion of norm `n`.
pub open spec fn z_bound(n: int, p: int) -> int {
    floor_sqrt(trunc_div(n, p))
}

/// The bound `m'' = floor(sqrt(n / p - z^2))` on `|t|` once `z` is drawn.
pub open spec fn t_bound(n: int, p: int, z: int) -> int {
    floor_sqrt(trunc_div(n, p) - z * z)
}

/// Whether the integers of `s` have the values `v`.
pub open spec fn int_values_are(s: Seq<Int>, v: Seq<u8>) -> bool {
    s.len() == v.len() && forall|i: int| 0 <= i < s.len() ==> #[trigger] s[i].value() == v[i] as int
}

/// Whether each part of the quaternion carries the sign flag of its value.
pub open spec fn sign_flags_match(q: Quaternion) -> bool {
    &&& q.x.is_negative == if q.x.n.value() < 0 { SUCCESS_RETVAL } else { FAILURE_RETVAL }
    &&& q.y.is_negative == if q.y.n.value() < 0 { SUCCESS_RETVAL } else { FAILURE_RETVAL }
    &&& q.z.is_negative == if q.z.n.value() < 0 { SUCCESS_RETVAL } else { FAILURE_RETVAL }
    &&& q.t.is_negative == if q.t.n.value() < 0 { SUCCESS_RETVAL } else { FAILURE_RETVAL }
}

/// What one try of the search gives for the target norm `nv`, the characteristic `pv` and
/// the draws `zd` and `td`: `z = zd - m'` with `m' = floor(sqrt(nv / pv))`, `t = td - m''`
/// with `m'' = floor(sqrt(nv / pv - z^2))`, each part flagged with its sign, and `x`, `y`
/// with the flag what `cornacchia_extended` gives for `nv - pv (z^2 + t^2)` with the primes
/// of `small_prime_values` and the bad primes of `small_bad_prime_values`; on success the
/// quaternion has norm `nv`.
pub open spec fn attempt_outcome(nv: int, pv: int, zd: int, td: int, r: (Quaternion, u32)) -> bool {
    let z = zd - z_bound(nv, pv);
    let t = td - t_bound(nv, pv, z);
    let q = r.0;
    &&& q.z.n.value() == z
    &&& q.t.n.value() == t
    &&& sign_flags_match(q)
    &&& exists|primes: Seq<Int>, bad: Seq<Int>|
        #![trigger extended_outcome(nv - pv * (z * z + t * t), primes, bad, (q.x.n.value(), q.y.n.value(), r.1))]
        int_values_are(primes, small_prime_values()) && int_values_are(bad, small_bad_prime_values())
            && extended_outcome(
            nv - pv * (z * z + t * t),
            primes,
            bad,
            (q.x.n.value(), q.y.n.value(), r.1),
        )
    &&& r.1 == SUCCESS_RETVAL || r.1 == FAILURE_RETVAL
    &&& r.1 == SUCCESS_RETVAL ==> q.norm(pv) == nv
}

/// How one try uses the primality test `is_probably_prime`: for the norm
/// `nv - pv (z^2 + t^2)` left for `x^2 + y^2` (with `z`, `t` as `attempt_outcome` gives
/// them), when no bad prime of `small_bad_prime_values` divides it and the cofactor left
/// after removing the primes of `small_prime_values` is 1 (mod 4) and called prime by the
/// test, the try gives `extended_solution` of that norm: the cofactor is solved with
/// Cornacchia's algorithm, not refused.
pub open spec fn attempt_follows_test<F: Fn(&Int) -> bool>(
    is_probably_prime: F,
    nv: int,
    pv: int,
    zd: int,
    td: int,
    r: (Quaternion, u32),
) -> bool {
    let z = zd - z_bound(nv, pv);
    let t = td - t_bound(nv, pv, z);
    let norm = nv - pv * (z * z + t * t);
    exists|primes: Seq<Int>|
        #![trigger strip_factors(norm, primes, primes.len())]
        int_values_are(primes, small_prime_values()) && ({
            let m = strip_factors(norm, primes, primes.len()).0;
            ((forall|i: int|
                0 <= i < small_bad_prime_values().len() ==> trunc_rem(
                    norm,
                    #[trigger] small_bad_prime_values()[i] as int,
                ) != 0) && trunc_rem(m, 4) == 1 && (forall|x: &Int, b: bool|
                x.value() == m && #[trigger] is_probably_prime.ensures((x,), b) ==> b)) ==> (
            r.0.x.n.value(),
            r.0.y.n.value(),
            r.1,
            ) == extended_solution(norm, primes)
        })
}

/// One try of `represent_integer` for the draws `z_draw` (in `[0, 2 m' + 1)`) and `t_draw`,
/// as `attempt_outcome` says, passing the primality test on to `cornacchia_extended` as
/// `attempt_follows_test` says.
pub fn represent_integer_attempt<
    const NUM_WORDS: usize,
    const NUM_WORDS_P: usize,
    F: Fn(&Int) -> bool,
>(
    target_norm: &BigNum<NUM_WORDS>,
    p: &BigNum<NUM_WORDS_P>,
    z_draw: &Int,
    t_draw: &Int,
    is_probably_prime: F,
) -> (r: (Quaternion, u32))
    requires
        p.value() > 0,
        0 <= z_draw.value() < 2 * z_bound(target_norm.value() as int, p.value() as int) + 1,
        forall|m: &Int| #[trigger] is_probably_prime.requires((m,)),
    ensures
        attempt_outcome(
            target_norm.value() as int,
            p.value() as int,
            z_draw.value(),
            t_draw.value(),
            r,
        ),
        attempt_follows_test(
            is_probably_prime,
            target_norm.value() as int,
            p.value() as int,
            z_draw.value(),
            t_draw.value(),
            r,
        ),
{
    let primes = small_primes();
    let bad_primes = small_bad_primes();
    let target = Int::from_le_bytes(false, target_norm.to_le_bytes().as_slice());
    let pi = Int::from_le_bytes(false, p.to_le_bytes().as_slice());
    let ghost tv = target.value();
    let ghost pv = pi.value();
    let (target_over_p, _) = target.div_rem(&pi);
    proof {
        crate::integer::lemma_trunc_rem_nonneg(tv, pv);
        vstd::arithmetic::div_mod::lemma_div_pos_is_pos(tv, pv);
    }
    let m_prime = target_over_p.sqrt();
    proof {
        lemma_floor_sqrt_unique(target_over_p.value(), m_prime.value());
    }
    let z = z_draw.sub(&m_prime);
    let ghost zv = z.value();
    let ghost mv = m_prime.value();
    proof {
        assert(zv * zv <= mv * mv) by (nonlinear_arith)
            requires
                -mv <= zv <= mv,
        ;
    }
    let m_dblprime = target_over_p.sub(&z.square()).sqrt();
    proof {
        lemma_floor_sqrt_unique(target_over_p.value() - zv * zv, m_dblprime.value());
    }
    let t = t_draw.sub(&m_dblprime);
    let norm = target.sub(&pi.mul(&z.square().add(&t.square())));
    let result = cornacchia_extended(
        &norm,
        primes.as_slice(),
        bad_primes.as_slice(),
        is_probably_prime,
    );
    let ghost (xv, yv, ok) = (result.0.value(), result.1.value(), result.2);
    let ghost tt = t.value();
    let flag = result.2;
    let q = Quaternion {
        x: SignedInteger::new(result.0),
        y: SignedInteger::new(result.1),
        z: SignedInteger::new(z),
        t: SignedInteger::new(t),
    };
    proof {
        assert(int_values_are(primes@, small_prime_values()));
        assert(int_values_are(bad_primes@, small_bad_prime_values()));
        assert(extended_outcome(
            tv - pv * (zv * zv + tt * tt),
            primes@,
            bad_primes@,
            (q.x.n.value(), q.y.n.value(), flag),
        ));
        assert(tv == target_norm.value() as int);
        assert(pv == p.value() as int);
        assert(flag == SUCCESS_RETVAL ==> q.norm(pv) == tv);
        let zz = z_draw.value() - z_bound(tv, pv);
        let t2 = t_draw.value() - t_bound(tv, pv, zz);
        assert(zz == zv && t2 == tt);
        assert(exists|ps: Seq<Int>, bs: Seq<Int>|
            #![trigger extended_outcome(tv - pv * (zz * zz + t2 * t2), ps, bs, (q.x.n.value(), q.y.n.value(), flag))]
            int_values_are(ps, small_prime_values()) && int_values_are(bs, small_bad_prime_values())
                && extended_outcome(
                tv - pv * (zz * zz + t2 * t2),
                ps,
                bs,
                (q.x.n.value(), q.y.n.value(), flag),
            ));
        assert(attempt_outcome(tv, pv, z_draw.value(), t_draw.value(), (q, flag)));
        let norm_v = tv - pv * (zz * zz + t2 * t2);
        let mm = strip_factors(norm_v, primes@, primes@.len()).0;
        if (forall|i: int|
            0 <= i < small_bad_prime_values().len() ==> trunc_rem(
                norm_v,
                #[trigger] small_bad_prime_values()[i] as int,
            ) != 0) {
            assert forall|i: int| 0 <= i < bad_primes@.len() implies #[trigger] trunc_rem(
                norm_v,
                bad_primes@[i].value(),
            ) != 0 by {
                assert(bad_primes@[i].value() == small_bad_prime_values()[i] as int);
            }
        }
        assert(attempt_follows_test(
            is_probably_prime,
            tv,
            pv,
            z_draw.value(),
            t_draw.value(),
            (q, flag),
        ));
    }
    (q, flag)
}

/// One try of the search with `random_below`: the draw `zd` below `b1 = 2 m' + 1`, the draw
/// `td` below `b2 = 2 m'' + 1` (`m'` and `m''` as `attempt_outcome` gives them), and the
/// try on those draws gives `r`.
pub open spec fn search_try<R: Fn(&Int) -> Int>(
    random_below: R,
    nv: int,
    pv: int,
    d: (Int, Int, Int, Int),
    r: (Quaternion, u32),
) -> bool {
    let (b1, zd, b2, td) = d;
    let z = zd.value() - z_bound(nv, pv);
    &&& b1.value() == 2 * z_bound(nv, pv) + 1
    &&& random_below.ensures((&b1,), zd)
    &&& b2.value() == 2 * t_bound(nv, pv, z) + 1
    &&& random_below.ensures((&b2,), td)
    &&& attempt_outcome(nv, pv, zd.value(), td.value(), r)
}

/// One try of the search as `search_try` says, which also passes the primality test
/// `is_probably_prime` on as `attempt_follows_test` says.
pub open spec fn tested_try<R: Fn(&Int) -> Int, F: Fn(&Int) -> bool>(
    random_below: R,
    is_probably_prime: F,
    nv: int,
    pv: int,
    d: (Int, Int, Int, Int),
    r: (Quaternion, u32),
) -> bool {
    &&& search_try(random_below, nv, pv, d, r)
    &&& attempt_follows_test(is_probably_prime, nv, pv, d.1.value(), d.3.value(), r)
}

/// Finds a quaternion of norm `target_norm` in `O_0`: draws `z` below `2 m' + 1` and `t`
/// below `2 m'' + 1` with `random_below` (so `|z| <= m'` and `|t| <= m''`, which keeps
/// `p*(z^2 + t^2)` at most `target_norm`), and tries `represent_integer_attempt` on the
/// draws, for at most a million tries. `is_probably_prime` is the primality test. The first
/// quaternion found is returned with `SUCCESS_RETVAL`; when no try finds one, the result
/// is the zero quaternion with `FAILURE_RETVAL`.
pub fn represent_integer<
    const NUM_WORDS: usize,
    const NUM_WORDS_P: usize,
    R: Fn(&Int) -> Int,
    F: Fn(&Int) -> bool,
>(
    target_norm: &BigNum<NUM_WORDS>,
    p: &BigNum<NUM_WORDS_P>,
    random_below: R,
    is_probably_prime: F,
) -> (r: (Quaternion, u32))
    requires
        p.value() > 0,
        forall|b: &Int| b.value() > 0 ==> #[trigger] random_below.requires((b,)),
        forall|b: &Int, v: Int|
            b.value() > 0 && #[trigger] random_below.ensures((b,), v) ==> 0 <= v.value()
                < b.value(),
        forall|m: &Int| #[trigger] is_probably_prime.requires((m,)),
    ensures
        r.1 == SUCCESS_RETVAL || r.1 == FAILURE_RETVAL,
        r.1 == SUCCESS_RETVAL ==> r.0.norm(p.value() as int) == target_norm.value(),
        r.1 == SUCCESS_RETVAL ==> exists|d: (Int, Int, Int, Int)|
            #[trigger] tested_try(
                random_below,
                &is_probably_prime,
                target_norm.value() as int,
                p.value() as int,
                d,
                r,
            ),
        r.1 == FAILURE_RETVAL ==> exists|tries: Seq<((Int, Int, Int, Int), Quaternion)>|
            tries.len() == 1_000_000 && forall|i: int|
                0 <= i < tries.len() ==> #[trigger] tested_try(
                    random_below,
                    &is_probably_prime,
                    target_norm.value() as int,
                    p.value() as int,
                    tries[i].0,
                    (tries[i].1, FAILURE_RETVAL),
                ),
        r.1 == FAILURE_RETVAL ==> r.0.x.n.value() == 0 && r.0.y.n.value() == 0
            && r.0.z.n.value() == 0 && r.0.t.n.value() == 0,
        r.1 == FAILURE_RETVAL ==> r.0.x.is_negative == FAILURE_RETVAL && r.0.y.is_negative
            == FAILURE_RETVAL && r.0.z.is_negative == FAILURE_RETVAL && r.0.t.is_negative
            == FAILURE_RETVAL,
{
    let ghost nv = target_norm.value() as int;
    let ghost pv = p.value() as int;
    let one = Int::from_u8(1);
    let two = Int::from_u8(2);
    let target = Int::from_le_bytes(false, target_norm.to_le_bytes().as_slice());
    let pi = Int::from_le_bytes(false, p.to_le_bytes().as_slice());
    let (target_over_p, _) = target.div_rem(&pi);
    proof {
        crate::integer::lemma_trunc_rem_nonneg(nv, pv);
        vstd::arithmetic::div_mod::lemma_div_pos_is_pos(nv, pv);
    }
    let m_prime = target_over_p.sqrt();
    proof {
        lemma_floor_sqrt_unique(target_over_p.value(), m_prime.value());
    }
    let m_prime_range = two.mul(&m_prime).add(&one);

    let mut quaternion = Quaternion::zero();
    let mut counter: u32 = 1_000_000;
    let mut found_solution = FAILURE_RETVAL;
    let ghost mut found: (Int, Int, Int, Int) = (one, one, one, one);
    let ghost mut tries: Seq<((Int, Int, Int, Int), Quaternion)> = Seq::empty();
    while counter > 0 && found_solution == FAILURE_RETVAL
        invariant
            nv == target_norm.value(),
            pv == p.value(),
            pv > 0,
            counter <= 1_000_000,
            one.value() == 1,
            two.value() == 2,
            target_over_p.value() == trunc_div(nv, pv),
            target_over_p.value() >= 0,
            m_prime.value() == z_bound(nv, pv),
            m_prime.value() >= 0,
            m_prime.value() * m_prime.value() <= target_over_p.value(),
            m_prime_range.value() == 2 * m_prime.value() + 1,
            forall|b: &Int| b.value() > 0 ==> #[trigger] random_below.requires((b,)),
            forall|b: &Int, v: Int|
                b.value() > 0 && #[trigger] random_below.ensures((b,), v) ==> 0 <= v.value()
                    < b.value(),
            forall|m: &Int| #[trigger] is_probably_prime.requires((m,)),
            found_solution == SUCCESS_RETVAL || found_solution == FAILURE_RETVAL,
            found_solution == SUCCESS_RETVAL ==> tested_try(
                random_below,
                &is_probably_prime,
                nv,
                pv,
                found,
                (quaternion, SUCCESS_RETVAL),
            ),
            found_solution == FAILURE_RETVAL ==> tries.len() == 1_000_000 - counter,
            found_solution == FAILURE_RETVAL ==> forall|i: int|
                0 <= i < tries.len() ==> #[trigger] tested_try(
                    random_below,
                    &is_probably_prime,
                    nv,
                    pv,
                    tries[i].0,
                    (tries[i].1, FAILURE_RETVAL),
                ),
            found_solution == FAILURE_RETVAL ==> quaternion.x.n.value() == 0
                && quaternion.y.n.value() == 0 && quaternion.z.n.value() == 0
                && quaternion.t.n.value() == 0,
            found_solution == FAILURE_RETVAL ==> quaternion.x.is_negative == FAILURE_RETVAL
                && quaternion.y.is_negative == FAILURE_RETVAL && quaternion.z.is_negative
                == FAILURE_RETVAL && quaternion.t.is_negative == FAILURE_RETVAL,
        decreases counter,
    {
        let z_draw = random_below(&m_prime_range);
        let z = z_draw.sub(&m_prime);
        let ghost zv = z.value();
        let ghost mv = m_prime.value();
        proof {
            assert(zv * zv <= mv * mv) by (nonlinear_arith)
                requires
                    -mv <= zv <= mv,
            ;
        }
        let m_dblprime = target_over_p.sub(&z.square()).sqrt();
        proof {
            lemma_floor_sqrt_unique(target_over_p.value() - zv * zv, m_dblprime.value());
        }
        let m_dblprime_range = two.mul(&m_dblprime).add(&one);
        let t_draw = random_below(&m_dblprime_range);
        let (q, ok) = represent_integer_attempt(
            target_norm,
            p,
            &z_draw,
            &t_draw,
            &is_probably_prime,
        );
        let ghost d = (m_prime_range, z_draw, m_dblprime_range, t_draw);
        proof {
            assert(search_try(random_below, nv, pv, d, (q, ok)));
            assert(tested_try(random_below, &is_probably_prime, nv, pv, d, (q, ok)));
        }
        if ok == SUCCESS_RETVAL {
            proof {
                found = d;
            }
            quaternion = q;
            found_solution = SUCCESS_RETVAL;
        } else {
            proof {
                let old_tries = tries;
                tries = tries.push((d, q));
                assert forall|i: int| 0 <= i < tries.len() implies #[trigger] tested_try(
                    random_below,
                    &is_probably_prime,
                    nv,
                    pv,
                    tries[i].0,
                    (tries[i].1, FAILURE_RETVAL),
                ) by {
                    if i < old_tries.len() {
                        assert(tries[i] == old_tries[i]);
                    }
                }
            }
        }
        counter -= 1;
    }
    if found_solution == FAILURE_RETVAL {
        return (quaternion, FAILURE_RETVAL);
    }
    proof {
        assert(tested_try(random_below, &is_probably_prime, nv, pv, found, (quaternion, SUCCESS_RETVAL)));
    }
    (quaternion, SUCCESS_RETVAL)
}

} // verus!
