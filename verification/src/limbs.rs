//! Little-endian multi-word integers: their value, and the word-level
//! arithmetic that `BigNum` is built on.
use vstd::arithmetic::div_mod::*;
use vstd::arithmetic::mul::*;
use vstd::arithmetic::power2::*;
use vstd::prelude::*;

verus! {

/// The radix of a word, 2^64.
pub open spec fn word_base() -> nat {
    pow2(64)
}

/// The weight of the word at position `k`, i.e. 2^(64k).
pub open spec fn word_weight(k: nat) -> nat {
    pow2(64 * k)
}

/// The value of a little-endian sequence of 64-bit words.
pub open spec fn words_value(s: Seq<u64>) -> nat
    decreases s.len(),
{
    if s.len() == 0 {
        0
    } else {
        words_value(s.drop_last()) + (s.last() as nat) * word_weight((s.len() - 1) as nat)
    }
}

/// The value of a little-endian sequence of bytes.
pub open spec fn bytes_value(s: Seq<u8>) -> nat
    decreases s.len(),
{
    if s.len() == 0 {
        0
    } else {
        bytes_value(s.drop_last()) + (s.last() as nat) * pow2(8 * (s.len() - 1) as nat)
    }
}

/// A sequence of `n` zero words.
pub open spec fn zero_words(n: nat) -> Seq<u64> {
    Seq::new(n, |i: int| 0u64)
}

/// The number of bits needed to write `v` in binary (0 for 0).
pub open spec fn bit_length(v: nat) -> nat
    decreases v,
{
    if v == 0 {
        0
    } else {
        1 + bit_length(v / 2)
    }
}

pub proof fn lemma_word_base()
    ensures
        word_base() == 0x1_0000_0000_0000_0000,
        word_weight(0) == 1,
        word_weight(1) == word_base(),
{
    lemma2_to64();
}

pub proof fn lemma_word_weight_succ(k: nat)
    ensures
        word_weight(k + 1) == word_weight(k) * word_base(),
        word_weight(k) > 0,
{
    lemma_pow2_adds(64 * k, 64);
    assert(64 * (k + 1) == 64 * k + 64);
    lemma_pow2_pos(64 * k);
}

pub proof fn lemma_word_weight_adds(a: nat, b: nat)
    ensures
        word_weight(a + b) == word_weight(a) * word_weight(b),
{
    lemma_pow2_adds(64 * a, 64 * b);
    assert(64 * (a + b) == 64 * a + 64 * b);
}

pub proof fn lemma_word_weight_pos(k: nat)
    ensures
        word_weight(k) > 0,
{
    lemma_pow2_pos(64 * k);
}

pub proof fn lemma_word_weight_le(a: nat, b: nat)
    requires
        a <= b,
    ensures
        word_weight(a) <= word_weight(b),
{
    if a < b {
        lemma_pow2_strictly_increases(64 * a, 64 * b);
    }
}

/// Appending a word adds it at the next weight.
pub proof fn lemma_words_value_push(s: Seq<u64>, x: u64)
    ensures
        words_value(s.push(x)) == words_value(s) + (x as nat) * word_weight(s.len()),
{
    assert(s.push(x).drop_last() =~= s);
}

/// The value of `n` words is less than 2^(64n).
pub proof fn lemma_words_value_bound(s: Seq<u64>)
    ensures
        words_value(s) < word_weight(s.len()),
    decreases s.len(),
{
    if s.len() == 0 {
        lemma_word_base();
    } else {
        let n = (s.len() - 1) as nat;
        lemma_words_value_bound(s.drop_last());
        lemma_word_weight_succ(n);
        lemma_word_base();
        let w = word_weight(n);
        let l = s.last() as nat;
        assert(l <= word_base() - 1);
        lemma_mul_inequality(l as int, word_base() - 1, w as int);
        assert(l * w <= (word_base() - 1) * w);
        lemma_mul_is_distributive_sub_other_way(w as int, word_base() as int, 1);
        assert((word_base() - 1) * w == word_base() * w - w) by (nonlinear_arith);
        assert(word_base() * w == w * word_base()) by (nonlinear_arith);
    }
}

/// The value of a prefix plus the weighted value of the rest.
pub proof fn lemma_words_value_split(s: Seq<u64>, k: nat)
    requires
        k <= s.len(),
    ensures
        words_value(s) == words_value(s.take(k as int)) + word_weight(k) * words_value(
            s.skip(k as int),
        ),
    decreases s.len(),
{
    if k == s.len() {
        assert(s.take(k as int) =~= s);
        assert(s.skip(k as int).len() == 0);
        assert(words_value(s.skip(k as int)) == 0);
        assert(word_weight(k) * 0 == 0) by (nonlinear_arith);
    } else {
        let n = (s.len() - 1) as nat;
        let t = s.drop_last();
        lemma_words_value_split(t, k);
        assert(t.take(k as int) =~= s.take(k as int));
        let rest = s.skip(k as int);
        assert(rest.drop_last() =~= t.skip(k as int));
        assert(rest.last() == s.last());
        lemma_word_weight_adds(k, (n - k) as nat);
        assert(k + (n - k) == n);
        // words_value(rest) == words_value(t.skip(k)) + last * weight(n - k)
        let vt = words_value(t.skip(k as int));
        let l = s.last() as nat;
        assert(rest.len() == n - k + 1);
        assert(words_value(rest) == vt + l * word_weight((n - k) as nat));
        assert(word_weight(k) * (vt + l * word_weight((n - k) as nat)) == word_weight(k) * vt + l
            * (word_weight(k) * word_weight((n - k) as nat))) by (nonlinear_arith);
    }
}

/// The value of the first `k` words is the value reduced modulo 2^(64k).
pub proof fn lemma_words_value_take(s: Seq<u64>, k: nat)
    requires
        k <= s.len(),
    ensures
        words_value(s.take(k as int)) == words_value(s) % word_weight(k),
        words_value(s) / word_weight(k) == words_value(s.skip(k as int)),
{
    lemma_words_value_split(s, k);
    lemma_words_value_bound(s.take(k as int));
    assert(s.take(k as int).len() == k);
    lemma_word_weight_pos(k);
    let w = word_weight(k) as int;
    let q = words_value(s.skip(k as int)) as int;
    let r = words_value(s.take(k as int)) as int;
    assert(words_value(s) == q * w + r) by (nonlinear_arith)
        requires
            words_value(s) == r + w * q,
    ;
    lemma_fundamental_div_mod_converse(words_value(s) as int, w, q, r);
}

/// Zero words on top change nothing.
pub proof fn lemma_words_value_zero_extend(s: Seq<u64>, n: nat)
    ensures
        words_value(s + zero_words(n)) == words_value(s),
    decreases n,
{
    if n == 0 {
        assert(s + zero_words(0) =~= s);
    } else {
        let m = (n - 1) as nat;
        lemma_words_value_zero_extend(s, m);
        assert((s + zero_words(n)) =~= (s + zero_words(m)).push(0u64));
        lemma_words_value_push(s + zero_words(m), 0u64);
    }
}

/// Words that are all zero have value zero.
pub proof fn lemma_words_value_zeros(n: nat)
    ensures
        words_value(zero_words(n)) == 0,
{
    lemma_words_value_zero_extend(Seq::empty(), n);
    assert(Seq::<u64>::empty() + zero_words(n) =~= zero_words(n));
}

/// Overwriting the word at position `k` changes the value by the weighted difference.
pub proof fn lemma_words_value_update(s: Seq<u64>, k: int, x: u64)
    requires
        0 <= k < s.len(),
    ensures
        words_value(s.update(k, x)) + (s[k] as nat) * word_weight(k as nat) == words_value(s)
            + (x as nat) * word_weight(k as nat),
    decreases s.len(),
{
    let n = s.len() - 1;
    if k == n {
        assert(s.update(k, x).drop_last() =~= s.drop_last());
    } else {
        lemma_words_value_update(s.drop_last(), k, x);
        assert(s.update(k, x).drop_last() =~= s.drop_last().update(k, x));
    }
}

/// Two word sequences of the same length with the same value are equal.
pub proof fn lemma_words_value_injective(s: Seq<u64>, t: Seq<u64>)
    requires
        s.len() == t.len(),
        words_value(s) == words_value(t),
    ensures
        s == t,
    decreases s.len(),
{
    if s.len() == 0 {
        assert(s =~= t);
    } else {
        let n = (s.len() - 1) as nat;
        lemma_words_value_bound(s.drop_last());
        lemma_words_value_bound(t.drop_last());
        lemma_word_weight_pos(n);
        let w = word_weight(n) as int;
        lemma_fundamental_div_mod_converse(
            words_value(s) as int,
            w,
            s.last() as int,
            words_value(s.drop_last()) as int,
        );
        lemma_fundamental_div_mod_converse(
            words_value(t) as int,
            w,
            t.last() as int,
            words_value(t.drop_last()) as int,
        );
        lemma_words_value_injective(s.drop_last(), t.drop_last());
        assert(s =~= s.drop_last().push(s.last()));
        assert(t =~= t.drop_last().push(t.last()));
    }
}


/// The value of a prefix grows by the next word at its weight.
pub proof fn lemma_words_value_take_succ(s: Seq<u64>, i: int)
    requires
        0 <= i < s.len(),
    ensures
        words_value(s.take(i + 1)) == words_value(s.take(i)) + (s[i] as nat) * word_weight(
            i as nat,
        ),
{
    assert(s.take(i + 1) =~= s.take(i).push(s[i]));
    lemma_words_value_push(s.take(i), s[i]);
}

/// One step of a carry chain: writing the low word `w` at weight `p` and carrying `c2`
/// accounts for the incoming `x + c`.
proof fn lemma_carry_step(v: int, c: int, w: int, c2: int, x: int, p: int, b: int)
    requires
        w + c2 * b == x + c,
    ensures
        (v + w * p) + c2 * (p * b) == (v + c * p) + x * p,
{
    assert(w * p + c2 * (p * b) == (w + c2 * b) * p) by (nonlinear_arith);
    assert((x + c) * p == x * p + c * p) by (nonlinear_arith);
}

/// From `v + c * m == t` with `v < m`, `v` is `t` reduced modulo `m`.
proof fn lemma_value_is_mod(v: int, c: int, t: int, m: int)
    requires
        0 <= v < m,
        0 <= c,
        v + c * m == t,
    ensures
        v == t % m,
{
    lemma_fundamental_div_mod_converse(t, m, c, v);
}

/// The sum of two equal-length word strings, reduced modulo 2^(64n): the final carry is dropped.
pub fn add_words(a: &[u64], b: &[u64]) -> (r: Vec<u64>)
    requires
        a@.len() == b@.len(),
    ensures
        r@.len() == a@.len(),
        words_value(r@) == (words_value(a@) + words_value(b@)) % word_weight(a@.len()),
{
    let n = a.len();
    let mut r: Vec<u64> = Vec::new();
    let mut carry: u64 = 0;
    let mut i: usize = 0;
    proof {
        lemma_word_base();
    }
    while i < n
        invariant
            n == a@.len(),
            n == b@.len(),
            i <= n,
            r@.len() == i,
            carry <= 1,
            word_base() == 0x1_0000_0000_0000_0000,
            words_value(r@) + (carry as nat) * word_weight(i as nat) == words_value(
                a@.take(i as int),
            ) + words_value(b@.take(i as int)),
        decreases n - i,
    {
        let t: u128 = a[i] as u128 + b[i] as u128 + carry as u128;
        let w: u64 = (t % 0x1_0000_0000_0000_0000u128) as u64;
        let c: u64 = (t / 0x1_0000_0000_0000_0000u128) as u64;
        proof {
            lemma_words_value_take_succ(a@, i as int);
            lemma_words_value_take_succ(b@, i as int);
            lemma_words_value_push(r@, w);
            lemma_word_weight_succ(i as nat);
            let p = word_weight(i as nat) as int;
            lemma_carry_step(
                words_value(r@) as int,
                carry as int,
                w as int,
                c as int,
                a[i as int] + b[i as int],
                p,
                word_base() as int,
            );
            assert((a[i as int] + b[i as int]) * p == a[i as int] * p + b[i as int] * p)
                by (nonlinear_arith);
        }
        r.push(w);
        carry = c;
        i += 1;
    }
    proof {
        assert(a@.take(n as int) =~= a@);
        assert(b@.take(n as int) =~= b@);
        lemma_words_value_bound(r@);
        lemma_value_is_mod(
            words_value(r@) as int,
            carry as int,
            (words_value(a@) + words_value(b@)) as int,
            word_weight(n as nat) as int,
        );
    }
    r
}

/// The difference of two equal-length word strings, reduced modulo 2^(64n): the final
/// borrow is dropped, so a negative difference wraps around.
pub fn sub_words(a: &[u64], b: &[u64]) -> (r: Vec<u64>)
    requires
        a@.len() == b@.len(),
    ensures
        r@.len() == a@.len(),
        words_value(r@) == (words_value(a@) - words_value(b@)) % (word_weight(a@.len()) as int),
{
    let n = a.len();
    let mut r: Vec<u64> = Vec::new();
    let mut borrow: u64 = 0;
    let mut i: usize = 0;
    proof {
        lemma_word_base();
    }
    while i < n
        invariant
            n == a@.len(),
            n == b@.len(),
            i <= n,
            r@.len() == i,
            borrow <= 1,
            word_base() == 0x1_0000_0000_0000_0000,
            words_value(r@) - (borrow as nat) * word_weight(i as nat) == words_value(
                a@.take(i as int),
            ) - words_value(b@.take(i as int)),
        decreases n - i,
    {
        let t: u128 = (a[i] as u128 + 0x1_0000_0000_0000_0000u128) - b[i] as u128 - borrow as u128;
        let w: u64 = (t % 0x1_0000_0000_0000_0000u128) as u64;
        let nb: u64 = 1 - (t / 0x1_0000_0000_0000_0000u128) as u64;
        proof {
            lemma_words_value_take_succ(a@, i as int);
            lemma_words_value_take_succ(b@, i as int);
            lemma_words_value_push(r@, w);
            lemma_word_weight_succ(i as nat);
            let p = word_weight(i as nat) as int;
            let bb = word_base() as int;
            assert(w - nb * bb == a[i as int] - b[i as int] - borrow);
            assert((w - nb * bb) * p == w * p - nb * (p * bb)) by (nonlinear_arith);
            assert((a[i as int] - b[i as int] - borrow) * p == a[i as int] * p - b[i as int] * p
                - borrow * p) by (nonlinear_arith);
        }
        r.push(w);
        borrow = nb;
        i += 1;
    }
    proof {
        assert(a@.take(n as int) =~= a@);
        assert(b@.take(n as int) =~= b@);
        lemma_words_value_bound(r@);
        let ww = word_weight(n as nat) as int;
        assert(-(borrow as int) * ww == -(borrow as int * ww)) by (nonlinear_arith);
        lemma_fundamental_div_mod_converse(
            words_value(a@) - words_value(b@),
            word_weight(n as nat) as int,
            -(borrow as int),
            words_value(r@) as int,
        );
    }
    r
}

/// The product of a word string and a single word, reduced modulo 2^(64n).
pub fn mul_words_by_word(a: &[u64], k: u64) -> (r: Vec<u64>)
    ensures
        r@.len() == a@.len(),
        words_value(r@) == (words_value(a@) * (k as nat)) % word_weight(a@.len()),
{
    let n = a.len();
    let mut r: Vec<u64> = Vec::new();
    let mut carry: u64 = 0;
    let mut i: usize = 0;
    proof {
        lemma_word_base();
        assert(words_value(a@.take(0)) == 0);
        assert(0 * (k as nat) == 0) by (nonlinear_arith);
    }
    while i < n
        invariant
            n == a@.len(),
            i <= n,
            r@.len() == i,
            word_base() == 0x1_0000_0000_0000_0000,
            words_value(r@) + (carry as nat) * word_weight(i as nat) == words_value(
                a@.take(i as int),
            ) * (k as nat),
        decreases n - i,
    {
        proof {
            let x = a[i as int] as int;
            assert(x * k <= 0xffff_ffff_ffff_ffff * 0xffff_ffff_ffff_ffff) by (nonlinear_arith)
                requires
                    0 <= x <= 0xffff_ffff_ffff_ffff,
                    0 <= k <= 0xffff_ffff_ffff_ffff,
            ;
        }
        let t: u128 = (a[i] as u128) * (k as u128) + carry as u128;
        let w: u64 = (t % 0x1_0000_0000_0000_0000u128) as u64;
        let c: u64 = (t / 0x1_0000_0000_0000_0000u128) as u64;
        proof {
            lemma_words_value_take_succ(a@, i as int);
            lemma_words_value_push(r@, w);
            lemma_word_weight_succ(i as nat);
            let p = word_weight(i as nat) as int;
            lemma_carry_step(
                words_value(r@) as int,
                carry as int,
                w as int,
                c as int,
                a[i as int] * k,
                p,
                word_base() as int,
            );
            let pre = words_value(a@.take(i as int)) as int;
            assert((pre + a[i as int] * p) * k == pre * k + (a[i as int] * k) * p)
                by (nonlinear_arith);
        }
        r.push(w);
        carry = c;
        i += 1;
    }
    proof {
        assert(a@.take(n as int) =~= a@);
        lemma_words_value_bound(r@);
        lemma_value_is_mod(
            words_value(r@) as int,
            carry as int,
            (words_value(a@) * (k as nat)) as int,
            word_weight(n as nat) as int,
        );
    }
    r
}


/// A vector holding the same words as `a`.
pub fn copy_words(a: &[u64]) -> (r: Vec<u64>)
    ensures
        r@ == a@,
{
    let mut r: Vec<u64> = Vec::new();
    let mut i: usize = 0;
    while i < a.len()
        invariant
            i <= a@.len(),
            r@ == a@.take(i as int),
        decreases a@.len() - i,
    {
        r.push(a[i]);
        i += 1;
        proof {
            assert(r@ =~= a@.take(i as int));
        }
    }
    proof {
        assert(a@.take(a@.len() as int) =~= a@);
    }
    r
}

/// A vector of `n` zero words.
pub fn zeros(n: usize) -> (r: Vec<u64>)
    ensures
        r@ == zero_words(n as nat),
{
    let mut r: Vec<u64> = Vec::new();
    let mut k: usize = 0;
    while k < n
        invariant
            k <= n,
            r@ == zero_words(k as nat),
        decreases n - k,
    {
        r.push(0);
        k += 1;
        proof {
            assert(r@ =~= zero_words(k as nat));
        }
    }
    r
}

/// The algebra of one step of schoolbook multiplication.
proof fn lemma_mul_step(
    v: int,
    old_k: int,
    w: int,
    c: int,
    c2: int,
    ai: int,
    bj: int,
    pre: int,
    wi: int,
    wj: int,
    bb: int,
)
    requires
        w + c2 * bb == old_k + ai * bj + c,
    ensures
        (v - old_k * (wi * wj) + w * (wi * wj)) + c2 * ((wi * wj) * bb) == (v + c * (wi * wj))
            + ai * (pre + bj * wj) * wi - ai * pre * wi,
{
    let p = wi * wj;
    assert(w * p + c2 * (p * bb) == (w + c2 * bb) * p) by (nonlinear_arith);
    assert((old_k + ai * bj + c) * p == old_k * p + ai * bj * p + c * p) by (nonlinear_arith);
    assert(ai * (pre + bj * wj) * wi - ai * pre * wi == ai * bj * p) by (nonlinear_arith)
        requires
            p == wi * wj,
    ;
}

/// The exact product of two word strings, in as many words as both together.
pub fn mul_words(a: &[u64], b: &[u64]) -> (r: Vec<u64>)
    requires
        a@.len() + b@.len() <= usize::MAX,
    ensures
        r@.len() == a@.len() + b@.len(),
        words_value(r@) == words_value(a@) * words_value(b@),
{
    let na = a.len();
    let nb = b.len();
    let mut r = zeros(na + nb);
    let ghost bv = words_value(b@);
    proof {
        lemma_word_base();
        lemma_words_value_zeros((na + nb) as nat);
        assert(words_value(a@.take(0)) == 0);
        assert(0 * bv == 0) by (nonlinear_arith);
    }
    let mut i: usize = 0;
    while i < na
        invariant
            na == a@.len(),
            nb == b@.len(),
            na + nb <= usize::MAX,
            bv == words_value(b@),
            i <= na,
            r@.len() == na + nb,
            word_base() == 0x1_0000_0000_0000_0000,
            words_value(r@) == words_value(a@.take(i as int)) * bv,
            forall|k: int| i + nb <= k < na + nb ==> r@[k] == 0,
        decreases na - i,
    {
        let ai = a[i];
        let mut carry: u64 = 0;
        let mut j: usize = 0;
        let ghost pre = words_value(a@.take(i as int)) * bv;
        proof {
            assert(words_value(b@.take(0)) == 0);
            assert(ai * 0 * word_weight(i as nat) == 0) by (nonlinear_arith);
        }
        while j < nb
            invariant
                na == a@.len(),
                nb == b@.len(),
                na + nb <= usize::MAX,
                i < na,
                j <= nb,
                ai == a@[i as int],
                r@.len() == na + nb,
                word_base() == 0x1_0000_0000_0000_0000,
                words_value(r@) + (carry as nat) * word_weight((i + j) as nat) == pre + ai
                    * words_value(b@.take(j as int)) * word_weight(i as nat),
                forall|k: int| i + nb <= k < na + nb ==> r@[k] == 0,
            decreases nb - j,
        {
            let old_k = r[i + j];
            proof {
                let x = ai as int;
                let y = b[j as int] as int;
                assert(x * y <= 0xffff_ffff_ffff_ffff * 0xffff_ffff_ffff_ffff) by (nonlinear_arith)
                    requires
                        0 <= x <= 0xffff_ffff_ffff_ffff,
                        0 <= y <= 0xffff_ffff_ffff_ffff,
                ;
            }
            let t: u128 = old_k as u128 + (ai as u128) * (b[j] as u128) + carry as u128;
            let w: u64 = (t % 0x1_0000_0000_0000_0000u128) as u64;
            let c: u64 = (t / 0x1_0000_0000_0000_0000u128) as u64;
            let ghost before = r@;
            r.set(i + j, w);
            proof {
                lemma_words_value_update(before, (i + j) as int, w);
                lemma_words_value_take_succ(b@, j as int);
                lemma_word_weight_adds(i as nat, j as nat);
                lemma_word_weight_succ((i + j) as nat);
                lemma_mul_step(
                    words_value(before) as int,
                    old_k as int,
                    w as int,
                    carry as int,
                    c as int,
                    ai as int,
                    b[j as int] as int,
                    words_value(b@.take(j as int)) as int,
                    word_weight(i as nat) as int,
                    word_weight(j as nat) as int,
                    word_base() as int,
                );
            }
            carry = c;
            j += 1;
        }
        let ghost before = r@;
        r.set(i + nb, carry);
        proof {
            lemma_words_value_update(before, (i + nb) as int, carry);
            assert(b@.take(nb as int) =~= b@);
            lemma_words_value_take_succ(a@, i as int);
            let wi = word_weight(i as nat) as int;
            let apre = words_value(a@.take(i as int)) as int;
            assert((apre + ai * wi) * bv == apre * bv + ai * bv * wi) by (nonlinear_arith);
        }
        i += 1;
    }
    proof {
        assert(a@.take(na as int) =~= a@);
    }
    r
}


/// `bit_length(v)` is the unique `n` with 2^(n-1) <= v < 2^n (or 0 for 0).
pub proof fn lemma_bit_length_bounds(v: nat)
    ensures
        v < pow2(bit_length(v)),
        v > 0 ==> pow2((bit_length(v) - 1) as nat) <= v,
        v > 0 ==> bit_length(v) >= 1,
    decreases v,
{
    lemma2_to64();
    if v > 0 {
        let h = v / 2;
        lemma_bit_length_bounds(h);
        lemma_pow2_unfold(bit_length(v));
        if h > 0 {
            lemma_pow2_unfold(bit_length(h));
        }
    }
}

pub proof fn lemma_bit_length_unique(v: nat, n: nat)
    requires
        n >= 1,
        pow2((n - 1) as nat) <= v < pow2(n),
    ensures
        bit_length(v) == n,
    decreases n,
{
    lemma2_to64();
    lemma_pow2_unfold(n);
    if n == 1 {
        assert(v == 1);
        assert(bit_length(0) == 0);
    } else {
        lemma_pow2_unfold((n - 1) as nat);
        lemma_bit_length_unique(v / 2, (n - 1) as nat);
    }
}

/// A value below 2^n needs at most n bits.
pub proof fn lemma_bit_length_le(v: nat, n: nat)
    requires
        v < pow2(n),
    ensures
        bit_length(v) <= n,
{
    lemma_bit_length_bounds(v);
    if bit_length(v) > n {
        lemma_pow2_strictly_increases(n, (bit_length(v) - 1) as nat);
        if bit_length(v) - 1 == n {
        }
    }
}

/// The bit length of a word string is fixed by its highest non-zero word.
pub proof fn lemma_bit_length_top_word(x: nat, y: nat, j: nat)
    requires
        x < word_weight(j),
        y > 0,
    ensures
        bit_length(x + y * word_weight(j)) == 64 * j + bit_length(y),
{
    let m = bit_length(y);
    lemma_bit_length_bounds(y);
    let w = word_weight(j);
    lemma_pow2_adds((m - 1) as nat, 64 * j);
    lemma_pow2_adds(m, 64 * j);
    let lo = pow2((m - 1) as nat);
    let hi = pow2(m);
    assert(lo * w <= y * w) by (nonlinear_arith)
        requires
            lo <= y,
    ;
    assert((y + 1) * w <= hi * w) by (nonlinear_arith)
        requires
            y + 1 <= hi,
    ;
    assert(x + y * w < (y + 1) * w) by (nonlinear_arith)
        requires
            x < w,
    ;
    assert((m - 1) as nat + 64 * j == (64 * j + m - 1) as nat);
    lemma_bit_length_unique(x + y * w, 64 * j + m);
}

/// The number of bits of a word: the position of its highest set bit.
pub fn word_bit_length(x: u64) -> (r: u32)
    ensures
        r == bit_length(x as nat),
        r <= 64,
{
    let mut y = x;
    let mut count: u32 = 0;
    proof {
        lemma2_to64();
        lemma_bit_length_le(x as nat, 64);
    }
    while y > 0
        invariant
            count + bit_length(y as nat) == bit_length(x as nat),
            bit_length(x as nat) <= 64,
        decreases y,
    {
        y = y / 2;
        count += 1;
    }
    count
}

/// Words that are all zero from position `i` on do not count.
pub proof fn lemma_words_value_zero_top(s: Seq<u64>, i: nat)
    requires
        i <= s.len(),
        forall|k: int| i <= k < s.len() ==> s[k] == 0,
    ensures
        words_value(s) == words_value(s.take(i as int)),
{
    lemma_words_value_split(s, i);
    assert(s.skip(i as int) =~= zero_words((s.len() - i) as nat));
    lemma_words_value_zeros((s.len() - i) as nat);
    assert(word_weight(i) * 0 == 0) by (nonlinear_arith);
}

/// The number of bits of the value of a word string.
pub fn words_bit_length(a: &[u64]) -> (r: usize)
    requires
        64 * a@.len() <= usize::MAX,
    ensures
        r == bit_length(words_value(a@)),
        r <= 64 * a@.len(),
{
    let mut i = a.len();
    while i > 0 && a[i - 1] == 0
        invariant
            i <= a@.len(),
            forall|k: int| i <= k < a@.len() ==> a@[k] == 0,
        decreases i,
    {
        i -= 1;
    }
    proof {
        lemma_words_value_zero_top(a@, i as nat);
    }
    if i == 0 {
        proof {
            assert(a@.take(0).len() == 0);
        }
        0
    } else {
        let top = word_bit_length(a[i - 1]);
        proof {
            let t = a@.take(i as int);
            assert(t.drop_last() =~= a@.take(i - 1));
            lemma_words_value_bound(a@.take(i - 1));
            lemma_bit_length_top_word(
                words_value(a@.take(i - 1)),
                a[i - 1] as nat,
                (i - 1) as nat,
            );
        }
        64 * (i - 1) + top as usize
    }
}


/// Appending a byte adds it at the next weight.
pub proof fn lemma_bytes_value_push(s: Seq<u8>, x: u8)
    ensures
        bytes_value(s.push(x)) == bytes_value(s) + (x as nat) * pow2(8 * s.len()),
{
    assert(s.push(x).drop_last() =~= s);
}

/// Zero bytes are worth zero.
pub proof fn lemma_bytes_value_zeros(n: nat)
    ensures
        bytes_value(Seq::new(n, |i: int| 0u8)) == 0,
    decreases n,
{
    if n > 0 {
        lemma_bytes_value_zeros((n - 1) as nat);
        assert(Seq::new(n, |i: int| 0u8).drop_last() =~= Seq::new((n - 1) as nat, |i: int| 0u8));
    }
}

/// Of two byte strings of the same length that agree above position `k`, the one with the
/// larger byte at `k` is the larger number.
pub proof fn lemma_bytes_value_top_differs(a: Seq<u8>, b: Seq<u8>, k: nat)
    requires
        a.len() == b.len(),
        k < a.len(),
        a.skip(k + 1 as int) == b.skip(k + 1 as int),
        a[k as int] > b[k as int],
    ensures
        bytes_value(a) > bytes_value(b),
{
    let ka = k + 1;
    assert(a.take(ka as int) + a.skip(ka as int) =~= a);
    assert(b.take(ka as int) + b.skip(ka as int) =~= b);
    lemma_bytes_value_concat(a.take(ka as int), a.skip(ka as int));
    lemma_bytes_value_concat(b.take(ka as int), b.skip(ka as int));
    assert(a.take(ka as int) =~= a.take(k as int).push(a[k as int]));
    assert(b.take(ka as int) =~= b.take(k as int).push(b[k as int]));
    lemma_bytes_value_push(a.take(k as int), a[k as int]);
    lemma_bytes_value_push(b.take(k as int), b[k as int]);
    lemma_bytes_value_bound(b.take(k as int));
    lemma_pow2_pos(8 * k);
    let w = pow2(8 * k) as int;
    let x = a[k as int] as int;
    let y = b[k as int] as int;
    assert(x * w >= (y + 1) * w) by (nonlinear_arith)
        requires
            x >= y + 1,
            w > 0,
    ;
    assert((y + 1) * w == y * w + w) by (nonlinear_arith);
}

/// The number of bytes that `n` bits take, at least one: `n / 8` rounded up, or 1 for 0.
pub open spec fn bytes_for_bits(n: nat) -> nat {
    if n == 0 {
        1
    } else {
        ((n + 7) / 8) as nat
    }
}

/// A byte string of at least one byte with no zero byte on top (but a single one) is as
/// long as the bits of its value take in bytes.
pub proof fn lemma_trimmed_bytes_len(s: Seq<u8>)
    requires
        s.len() >= 1,
        s.len() > 1 ==> s.last() != 0,
    ensures
        s.len() == bytes_for_bits(bit_length(bytes_value(s))),
{
    let v = bytes_value(s);
    let l = s.len();
    lemma_bytes_value_bound(s);
    lemma_bit_length_le(v, 8 * l);
    lemma_bit_length_bounds(v);
    let n = bit_length(v);
    if l > 1 {
        lemma_bytes_value_top_nonzero(s);
        let k = (8 * (l - 1)) as nat;
        if n < k {
            lemma_pow2_strictly_increases(n, k);
        }
        assert(n > k);
    }
}

/// The value of `n` bytes is less than 2^(8n).
pub proof fn lemma_bytes_value_bound(s: Seq<u8>)
    ensures
        bytes_value(s) < pow2(8 * s.len()),
    decreases s.len(),
{
    lemma2_to64();
    if s.len() > 0 {
        let n = (s.len() - 1) as nat;
        lemma_bytes_value_bound(s.drop_last());
        lemma_pow2_adds(8 * n, 8);
        assert(8 * s.len() == 8 * n + 8);
        let w = pow2(8 * n);
        let l = s.last() as nat;
        assert(l * w <= 255 * w) by (nonlinear_arith)
            requires
                l <= 255,
        ;
    }
}

/// The value of a concatenation of byte strings.
pub proof fn lemma_bytes_value_concat(x: Seq<u8>, y: Seq<u8>)
    ensures
        bytes_value(x + y) == bytes_value(x) + pow2(8 * x.len()) * bytes_value(y),
    decreases y.len(),
{
    if y.len() == 0 {
        assert(x + y =~= x);
        assert(pow2(8 * x.len()) * 0 == 0) by (nonlinear_arith);
    } else {
        let y0 = y.drop_last();
        let c = y.last();
        lemma_bytes_value_concat(x, y0);
        assert(x + y =~= (x + y0).push(c));
        lemma_bytes_value_push(x + y0, c);
        lemma_bytes_value_push(y0, c);
        assert(y0.push(c) =~= y);
        lemma_pow2_adds(8 * x.len(), 8 * y0.len());
        assert(8 * (x + y0).len() == 8 * x.len() + 8 * y0.len());
        let p = pow2(8 * x.len());
        let q = pow2(8 * y0.len());
        let v = bytes_value(y0);
        assert(p * (v + c * q) == p * v + c * (p * q)) by (nonlinear_arith);
    }
}

/// The number of words that `n` bytes fill.
pub open spec fn words_for_bytes(n: nat) -> nat {
    (n + 7) / 8
}

pub proof fn lemma_pow2_le(a: nat, b: nat)
    requires
        a <= b,
    ensures
        pow2(a) <= pow2(b),
{
    if a < b {
        lemma_pow2_strictly_increases(a, b);
    }
}

/// The word whose little-endian bytes are `bytes[start..end]`.
fn word_from_bytes(bytes: &[u8], start: usize, end: usize) -> (w: u64)
    requires
        start <= end <= bytes@.len(),
        end - start <= 8,
    ensures
        w as nat == bytes_value(bytes@.subrange(start as int, end as int)),
{
    let mut acc: u128 = 0;
    let mut mult: u128 = 1;
    let mut t: usize = start;
    proof {
        lemma2_to64();
        assert(bytes@.subrange(start as int, start as int).len() == 0);
        assert(8 * ((t - start) as nat) == 0);
    }
    while t < end
        invariant
            start <= t <= end <= bytes@.len(),
            end - start <= 8,
            mult == pow2(8 * ((t - start) as nat)),
            acc == bytes_value(bytes@.subrange(start as int, t as int)),
            acc < mult,
        decreases end - t,
    {
        let ghost prev = bytes@.subrange(start as int, t as int);
        let ghost k: nat = (t - start) as nat;
        proof {
            lemma2_to64();
            lemma_pow2_adds(8 * k, 8);
            assert(8 * ((t + 1 - start) as nat) == 8 * k + 8);
            lemma_pow2_le(8 * k + 8, 64);
            assert(bytes@.subrange(start as int, t + 1) =~= prev.push(bytes@[t as int]));
            lemma_bytes_value_push(prev, bytes@[t as int]);
            assert(prev.len() == k);
            let b = bytes@[t as int] as int;
            assert(acc + b * mult < mult * 256) by (nonlinear_arith)
                requires
                    acc < mult,
                    b <= 255,
            ;
        }
        acc = acc + (bytes[t] as u128) * mult;
        mult = mult * 256;
        t += 1;
    }
    proof {
        lemma2_to64();
        lemma_pow2_le(8 * ((end - start) as nat), 64);
    }
    acc as u64
}

/// The little-endian words of a little-endian byte string; a last partial word is
/// padded with zero bytes.
pub fn le_bytes_to_le_words(bytes: &[u8]) -> (words: Vec<u64>)
    ensures
        words@.len() == words_for_bytes(bytes@.len() as nat),
        words_value(words@) == bytes_value(bytes@),
{
    let n = bytes.len();
    let mut words: Vec<u64> = Vec::new();
    let mut start: usize = 0;
    proof {
        assert(bytes@.subrange(0, 0).len() == 0);
    }
    while start < n
        invariant
            n == bytes@.len(),
            start <= n,
            start % 8 == 0 || start == n,
            words@.len() == words_for_bytes(start as nat),
            words_value(words@) == bytes_value(bytes@.subrange(0, start as int)),
        decreases n - start,
    {
        let end = if n - start >= 8 {
            start + 8
        } else {
            n
        };
        let w = word_from_bytes(bytes, start, end);
        proof {
            let pre = bytes@.subrange(0, start as int);
            let chunk = bytes@.subrange(start as int, end as int);
            assert(bytes@.subrange(0, end as int) =~= pre + chunk);
            lemma_bytes_value_concat(pre, chunk);
            lemma_words_value_push(words@, w);
            assert(words@.len() == start / 8);
            assert(8 * pre.len() == 64 * (start / 8));
            assert(words_for_bytes(end as nat) == start / 8 + 1);
            assert(pow2(8 * pre.len()) == word_weight(words@.len() as nat));
            let ww = word_weight(words@.len() as nat);
            assert((w as nat) * ww == ww * bytes_value(chunk)) by (nonlinear_arith)
                requires
                    w as nat == bytes_value(chunk),
            ;
            assert(words_value(words@.push(w)) == bytes_value(bytes@.subrange(0, end as int)));
        }
        words.push(w);
        start = end;
    }
    proof {
        assert(bytes@.subrange(0, n as int) =~= bytes@);
    }
    words
}

/// The eight little-endian bytes of a word.
fn word_to_bytes(w: u64) -> (bytes: Vec<u8>)
    ensures
        bytes@.len() == 8,
        bytes_value(bytes@) == w as nat,
{
    let mut bytes: Vec<u8> = Vec::new();
    let mut y: u64 = w;
    let mut t: usize = 0;
    proof {
        lemma2_to64();
        assert(bytes_value(bytes@) == 0);
        assert(8 * (t as nat) == 0);
    }
    while t < 8
        invariant
            t <= 8,
            bytes@.len() == t,
            bytes_value(bytes@) + (y as nat) * pow2(8 * (t as nat)) == w as nat,
            (y as nat) < pow2((64 - 8 * t) as nat),
        decreases 8 - t,
    {
        let b: u8 = (y % 256) as u8;
        let ghost prev = bytes@;
        let ghost y0 = y as nat;
        y = y / 256;
        bytes.push(b);
        proof {
            lemma2_to64();
            lemma_bytes_value_push(prev, b);
            lemma_pow2_adds(8 * (t as nat), 8);
            assert(8 * ((t + 1) as nat) == 8 * (t as nat) + 8);
            let p = pow2(8 * (t as nat));
            assert(b + (y as nat) * 256 == y0);
            assert(b * p + (y as nat) * (p * 256) == y0 * p) by (nonlinear_arith)
                requires
                    b + (y as nat) * 256 == y0,
            ;
            lemma_pow2_adds((64 - 8 * (t + 1)) as nat, 8);
            assert((64 - 8 * (t + 1)) + 8 == 64 - 8 * t);
        }
        t += 1;
    }
    proof {
        lemma2_to64();
        assert(y == 0);
    }
    bytes
}

/// Drops zero bytes from the top, keeping at least one byte.
pub open spec fn strip_zero_top(s: Seq<u8>) -> Seq<u8>
    decreases s.len(),
{
    if s.len() > 1 && s.last() == 0 {
        strip_zero_top(s.drop_last())
    } else {
        s
    }
}

pub proof fn lemma_strip_zero_top(s: Seq<u8>)
    ensures
        bytes_value(strip_zero_top(s)) == bytes_value(s),
        strip_zero_top(s).len() <= s.len(),
        s.len() >= 1 ==> strip_zero_top(s).len() >= 1,
        strip_zero_top(s).len() > 1 ==> strip_zero_top(s).last() != 0,
        strip_zero_top(s) == s.take(strip_zero_top(s).len() as int),
    decreases s.len(),
{
    if s.len() > 1 && s.last() == 0 {
        lemma_strip_zero_top(s.drop_last());
        lemma_bytes_value_push(s.drop_last(), 0u8);
        assert(s.drop_last().push(0u8) =~= s);
        let t = strip_zero_top(s.drop_last());
        assert(s.drop_last().take(t.len() as int) =~= s.take(t.len() as int));
    } else {
        assert(s.take(s.len() as int) =~= s);
    }
}

/// Two byte strings of the same length with the same value are equal.
pub proof fn lemma_bytes_value_injective(s: Seq<u8>, t: Seq<u8>)
    requires
        s.len() == t.len(),
        bytes_value(s) == bytes_value(t),
    ensures
        s == t,
    decreases s.len(),
{
    if s.len() == 0 {
        assert(s =~= t);
    } else {
        let n = (s.len() - 1) as nat;
        lemma_bytes_value_bound(s.drop_last());
        lemma_bytes_value_bound(t.drop_last());
        lemma_pow2_pos(8 * n);
        let w = pow2(8 * n) as int;
        lemma_fundamental_div_mod_converse(
            bytes_value(s) as int,
            w,
            s.last() as int,
            bytes_value(s.drop_last()) as int,
        );
        lemma_fundamental_div_mod_converse(
            bytes_value(t) as int,
            w,
            t.last() as int,
            bytes_value(t.drop_last()) as int,
        );
        lemma_bytes_value_injective(s.drop_last(), t.drop_last());
        assert(s =~= s.drop_last().push(s.last()));
        assert(t =~= t.drop_last().push(t.last()));
    }
}

/// A byte string whose top byte is not zero is worth at least the weight of that byte.
proof fn lemma_bytes_value_top_nonzero(s: Seq<u8>)
    requires
        s.len() >= 1,
        s.last() != 0,
    ensures
        bytes_value(s) >= pow2(8 * (s.len() - 1) as nat),
{
    let w = pow2(8 * (s.len() - 1) as nat);
    assert((s.last() as nat) * w >= w) by (nonlinear_arith)
        requires
            s.last() as nat >= 1,
    ;
}

/// Byte strings without zero bytes on top (but at least one byte) with the same value are
/// equal.
proof fn lemma_stripped_bytes_unique(s: Seq<u8>, t: Seq<u8>)
    requires
        s.len() >= 1,
        t.len() >= 1,
        s.len() > 1 ==> s.last() != 0,
        t.len() > 1 ==> t.last() != 0,
        bytes_value(s) == bytes_value(t),
    ensures
        s == t,
{
    if s.len() < t.len() {
        lemma_bytes_value_bound(s);
        lemma_bytes_value_top_nonzero(t);
        lemma_pow2_le(8 * s.len(), 8 * (t.len() - 1) as nat);
    } else if t.len() < s.len() {
        lemma_bytes_value_bound(t);
        lemma_bytes_value_top_nonzero(s);
        lemma_pow2_le(8 * t.len(), 8 * (s.len() - 1) as nat);
    } else {
        lemma_bytes_value_injective(s, t);
    }
}

/// Bytes to words and back: when `words` is what `le_bytes_to_le_words` makes of `bytes`
/// and `back` is what `le_words_to_le_bytes` makes of `words`, `back` is `bytes` without
/// its zero bytes on top (keeping one byte).
pub proof fn lemma_bytes_words_roundtrip(bytes: Seq<u8>, words: Seq<u64>, back: Seq<u8>)
    requires
        bytes.len() >= 1,
        words.len() == words_for_bytes(bytes.len()),
        words_value(words) == bytes_value(bytes),
        bytes_value(back) == words_value(words),
        back.len() >= 1,
        back.len() > 1 ==> back.last() != 0,
    ensures
        back == strip_zero_top(bytes),
{
    lemma_strip_zero_top(bytes);
    lemma_stripped_bytes_unique(back, strip_zero_top(bytes));
}

/// The little-endian bytes of a word string, without zero bytes on top (but at least
/// one byte when there is at least one word), and the number of bits of its value.
pub fn le_words_to_le_bytes(le_words: &[u64]) -> (r: (Vec<u8>, usize))
    requires
        64 * le_words@.len() <= usize::MAX,
    ensures
        bytes_value(r.0@) == words_value(le_words@),
        r.0@ == strip_zero_top(r.0@),
        r.0@.len() <= 8 * le_words@.len(),
        le_words@.len() >= 1 ==> r.0@.len() >= 1,
        r.0@.len() > 1 ==> r.0@.last() != 0,
        r.1 == bit_length(words_value(le_words@)),
{
    let n = le_words.len();
    let mut le_bytes: Vec<u8> = Vec::new();
    let mut i: usize = 0;
    while i < n
        invariant
            n == le_words@.len(),
            64 * n <= usize::MAX,
            i <= n,
            le_bytes@.len() == 8 * i,
            bytes_value(le_bytes@) == words_value(le_words@.take(i as int)),
        decreases n - i,
    {
        let wb = word_to_bytes(le_words[i]);
        let mut t: usize = 0;
        let ghost prev = le_bytes@;
        while t < 8
            invariant
                t <= 8,
                wb@.len() == 8,
                le_bytes@ == prev + wb@.take(t as int),
            decreases 8 - t,
        {
            le_bytes.push(wb[t]);
            t += 1;
            proof {
                assert(le_bytes@ =~= prev + wb@.take(t as int));
            }
        }
        proof {
            assert(wb@.take(8) =~= wb@);
            lemma_bytes_value_concat(prev, wb@);
            lemma_words_value_take_succ(le_words@, i as int);
            assert(8 * prev.len() == 64 * i);
            let ww = word_weight(i as nat);
            assert(pow2(8 * prev.len()) == ww);
            assert((le_words@[i as int] as nat) * ww == ww * bytes_value(wb@)) by (nonlinear_arith)
                requires
                    le_words@[i as int] as nat == bytes_value(wb@),
            ;
        }
        i += 1;
    }
    proof {
        assert(le_words@.take(n as int) =~= le_words@);
    }
    let ghost full = le_bytes@;
    while le_bytes.len() > 1 && le_bytes[le_bytes.len() - 1] == 0
        invariant
            strip_zero_top(le_bytes@) == strip_zero_top(full),
        decreases le_bytes@.len(),
    {
        le_bytes.pop();
    }
    proof {
        lemma_strip_zero_top(full);
    }
    let bitlen = words_bit_length(le_words);
    (le_bytes, bitlen)
}

} // verus!
