//! The constant-time bookkeeping of discrete logarithms in small groups: given, for
//! every candidate exponent in turn, whether the candidate power matched the value,
//! pick out the logarithm without branching on which one matched.
use crate::{FAILURE_RETVAL, SUCCESS_RETVAL};
use vstd::prelude::*;

verus! {

/// Whether every entry is `SUCCESS_RETVAL` or `FAILURE_RETVAL`.
pub open spec fn all_flags(matches: Seq<u32>) -> bool {
    forall|i: int| 0 <= i < matches.len() ==> #[trigger] matches[i] == SUCCESS_RETVAL
        || matches[i] == FAILURE_RETVAL
}

/// Whether some entry before `k` is `SUCCESS_RETVAL`.
pub open spec fn some_match(matches: Seq<u32>, k: int) -> bool {
    exists|i: int| 0 <= i < k && #[trigger] matches[i] == SUCCESS_RETVAL
}

/// The bitwise or of the indices (as bytes) of the entries before `k` that are
/// `SUCCESS_RETVAL`.
pub open spec fn matched_indices_or(matches: Seq<u32>, k: nat) -> u8
    decreases k,
{
    if k == 0 {
        0
    } else if matches[k - 1] == SUCCESS_RETVAL {
        matched_indices_or(matches, (k - 1) as nat) | ((k - 1) as u8)
    } else {
        matched_indices_or(matches, (k - 1) as nat)
    }
}

/// The flag as a byte mask.
proof fn lemma_flag_as_byte(f: u32)
    requires
        f == SUCCESS_RETVAL || f == FAILURE_RETVAL,
    ensures
        f == SUCCESS_RETVAL ==> (f as u8) == 0xffu8,
        f == FAILURE_RETVAL ==> (f as u8) == 0u8,
        forall|x: u8| #[trigger] (x & 0xffu8) == x,
        forall|x: u8| #[trigger] (x & 0u8) == 0u8,
        forall|x: u8| #[trigger] (x | 0u8) == x,
        forall|x: u8| #[trigger] (0u8 | x) == x,
{
    assert(0xffff_ffffu32 as u8 == 0xffu8) by (bit_vector);
    assert(0u32 as u8 == 0u8) by (bit_vector);
    assert forall|x: u8| #[trigger] (x & 0xffu8) == x by {
        assert(x & 0xffu8 == x) by (bit_vector);
    }
    assert forall|x: u8| #[trigger] (x & 0u8) == 0u8 by {
        assert(x & 0u8 == 0u8) by (bit_vector);
    }
    assert forall|x: u8| #[trigger] (x | 0u8) == x by {
        assert(x | 0u8 == x) by (bit_vector);
    }
    assert forall|x: u8| #[trigger] (0u8 | x) == x by {
        assert(0u8 | x == x) by (bit_vector);
    }
}

/// Bitwise operations on the two flag values.
proof fn lemma_flag_ops(a: u32, b: u32)
    requires
        a == SUCCESS_RETVAL || a == FAILURE_RETVAL,
        b == SUCCESS_RETVAL || b == FAILURE_RETVAL,
    ensures
        (!a & b) == if a == FAILURE_RETVAL && b == SUCCESS_RETVAL {
            SUCCESS_RETVAL
        } else {
            FAILURE_RETVAL
        },
        (a | b) == if a == SUCCESS_RETVAL || b == SUCCESS_RETVAL {
            SUCCESS_RETVAL
        } else {
            FAILURE_RETVAL
        },
{
    assert(!0u32 & 0xffff_ffffu32 == 0xffff_ffffu32) by (bit_vector);
    assert(!0u32 & 0u32 == 0u32) by (bit_vector);
    assert(!0xffff_ffffu32 & 0xffff_ffffu32 == 0u32) by (bit_vector);
    assert(!0xffff_ffffu32 & 0u32 == 0u32) by (bit_vector);
    assert(0u32 | 0u32 == 0u32) by (bit_vector);
    assert(0u32 | 0xffff_ffffu32 == 0xffff_ffffu32) by (bit_vector);
    assert(0xffff_ffffu32 | 0u32 == 0xffff_ffffu32) by (bit_vector);
    assert(0xffff_ffffu32 | 0xffff_ffffu32 == 0xffff_ffffu32) by (bit_vector);
}

/// The logarithm in a group of small prime order, from whether each power `g^i` of the
/// generator, `i = 0, 1, ...`, equals the value: the first `i` that matched with
/// `SUCCESS_RETVAL`, or 0 with `FAILURE_RETVAL` when none did. Every entry is looked at,
/// and only masks depend on which one matched.
pub fn select_first_match(matches: &[u32]) -> (r: (u8, u32))
    requires
        matches@.len() <= 256,
        all_flags(matches@),
    ensures
        r.1 == if some_match(matches@, matches@.len() as int) {
            SUCCESS_RETVAL
        } else {
            FAILURE_RETVAL
        },
        some_match(matches@, matches@.len() as int) ==> matches@[r.0 as int] == SUCCESS_RETVAL
            && !some_match(matches@, r.0 as int),
        !some_match(matches@, matches@.len() as int) ==> r.0 == 0,
{
    let mut retval = FAILURE_RETVAL;
    let mut result: u8 = 0;
    let mut i: usize = 0;
    while i < matches.len()
        invariant
            i <= matches@.len() <= 256,
            all_flags(matches@),
            retval == if some_match(matches@, i as int) {
                SUCCESS_RETVAL
            } else {
                FAILURE_RETVAL
            },
            some_match(matches@, i as int) ==> result < i && matches@[result as int]
                == SUCCESS_RETVAL && !some_match(matches@, result as int),
            !some_match(matches@, i as int) ==> result == 0,
        decreases matches@.len() - i,
    {
        let flag = matches[i];
        // Only set this if we have not already found the log
        let found_log = !retval & flag;
        proof {
            lemma_flag_ops(retval, flag);
            lemma_flag_as_byte(found_log);
            assert((i as u8) as int == i);
        }
        result = result | ((i as u8) & (found_log as u8));
        proof {
            lemma_flag_ops(retval, found_log);
            if some_match(matches@, i as int) {
                assert(some_match(matches@, i + 1));
            } else if flag == SUCCESS_RETVAL {
                assert(some_match(matches@, i + 1));
            } else {
                assert forall|j: int| 0 <= j < i + 1 implies #[trigger] matches@[j]
                    != SUCCESS_RETVAL by {
                    if j < i {
                        assert(!(0 <= j < i && matches@[j] == SUCCESS_RETVAL));
                    }
                }
            }
        }
        retval = retval | found_log;
        i += 1;
    }
    (result, retval)
}

/// The logarithm in a group of order 5 (or of any small order), from whether each
/// candidate power matched the value: the bitwise or of the indices that matched, with
/// `SUCCESS_RETVAL` when any did and `FAILURE_RETVAL` otherwise. Every entry is looked at.
pub fn combine_matches(matches: &[u32]) -> (r: (u8, u32))
    requires
        matches@.len() <= 256,
        all_flags(matches@),
    ensures
        r.0 == matched_indices_or(matches@, matches@.len()),
        r.1 == if some_match(matches@, matches@.len() as int) {
            SUCCESS_RETVAL
        } else {
            FAILURE_RETVAL
        },
{
    let mut retval = FAILURE_RETVAL;
    let mut result: u8 = 0;
    let mut i: usize = 0;
    while i < matches.len()
        invariant
            i <= matches@.len() <= 256,
            all_flags(matches@),
            result == matched_indices_or(matches@, i as nat),
            retval == if some_match(matches@, i as int) {
                SUCCESS_RETVAL
            } else {
                FAILURE_RETVAL
            },
        decreases matches@.len() - i,
    {
        let found_log = matches[i];
        proof {
            lemma_flag_ops(retval, found_log);
            lemma_flag_as_byte(found_log);
            assert(((i + 1) as nat - 1) as u8 == i as u8);
            if found_log == SUCCESS_RETVAL {
                assert(some_match(matches@, i + 1));
            } else if !some_match(matches@, i as int) {
                assert forall|j: int| 0 <= j < i + 1 implies #[trigger] matches@[j]
                    != SUCCESS_RETVAL by {
                    if j < i {
                        assert(!(0 <= j < i && matches@[j] == SUCCESS_RETVAL));
                    }
                }
            } else {
                assert(some_match(matches@, i + 1));
            }
        }
        result = result | ((i as u8) & (found_log as u8));
        retval = retval | found_log;
        i += 1;
    }
    (result, retval)
}

/// With exactly one match, combining the matches gives its index.
pub proof fn lemma_combine_single_match(matches: Seq<u32>, k: int)
    requires
        matches.len() <= 256,
        0 <= k < matches.len(),
        matches[k] == SUCCESS_RETVAL,
        forall|j: int| 0 <= j < matches.len() && j != k ==> #[trigger] matches[j] != SUCCESS_RETVAL,
    ensures
        matched_indices_or(matches, matches.len()) == k as u8,
{
    lemma_matched_indices_or_single(matches, k, matches.len());
}

proof fn lemma_matched_indices_or_single(matches: Seq<u32>, k: int, n: nat)
    requires
        n <= matches.len(),
        0 <= k < matches.len(),
        matches[k] == SUCCESS_RETVAL,
        forall|j: int| 0 <= j < matches.len() && j != k ==> #[trigger] matches[j] != SUCCESS_RETVAL,
    ensures
        matched_indices_or(matches, n) == if k < n {
            k as u8
        } else {
            0u8
        },
    decreases n,
{
    lemma_flag_as_byte(SUCCESS_RETVAL);
    if n > 0 {
        lemma_matched_indices_or_single(matches, k, (n - 1) as nat);
        if n - 1 != k {
            assert(matches[n - 1] != SUCCESS_RETVAL);
        }
    }
}

} // verus!
