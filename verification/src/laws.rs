//! Laws that hold across several operations, stated and proved over the
//! model: what the operation contracts jointly guarantee about sequences of
//! calls.
use vstd::multiset::Multiset;
use vstd::prelude::*;
use vstd::seq_lib::{to_multiset_contains, to_multiset_len, to_multiset_remove};

use crate::model::{extracts_max, sorted_asc};

verus! {

/// Extracting a maximum is deterministic at the level of contents: two
/// outcomes that both extract a maximum of the same multiset agree on the
/// value returned and on the remainder.
pub proof fn lemma_extract_max_unique(
    m: Multiset<i64>,
    r1: i64,
    a1: Multiset<i64>,
    r2: i64,
    a2: Multiset<i64>,
)
    requires
        extracts_max(m, r1, a1),
        extracts_max(m, r2, a2),
    ensures
        r1 == r2,
        a1 == a2,
{
    assert(r1 <= r2);
    assert(r2 <= r1);
}

/// `pushpop` is observably a `push` followed immediately by a `pop`: both
/// contracts extract a maximum of the contents grown by the new element, so
/// the returned value and the remaining contents coincide, whichever side
/// of the current maximum the new element falls on.
pub proof fn lemma_pushpop_equivalence(
    start: Multiset<i64>,
    x: i64,
    r_pushpop: i64,
    after_pushpop: Multiset<i64>,
    r_push_then_pop: i64,
    after_push_then_pop: Multiset<i64>,
)
    requires
        extracts_max(start.insert(x), r_pushpop, after_pushpop),
        extracts_max(start.insert(x), r_push_then_pop, after_push_then_pop),
    ensures
        r_pushpop == r_push_then_pop,
        after_pushpop == after_push_then_pop,
{
    lemma_extract_max_unique(
        start.insert(x),
        r_pushpop,
        after_pushpop,
        r_push_then_pop,
        after_push_then_pop,
    );
}

/// Popping twice in a row yields values in non-increasing order, and each
/// extraction shrinks the number of stored values by exactly one.
pub proof fn lemma_pop_sequence(
    m0: Multiset<i64>,
    r1: i64,
    m1: Multiset<i64>,
    r2: i64,
    m2: Multiset<i64>,
)
    requires
        extracts_max(m0, r1, m1),
        extracts_max(m1, r2, m2),
    ensures
        r2 <= r1,
        m1.len() + 1 == m0.len(),
        m2.len() + 2 == m0.len(),
{
    broadcast use vstd::multiset::group_multiset_axioms;

    assert(m1.count(r2) > 0);
    assert(m0.count(r2) > 0);
    lemma_extract_len(m0, r1, m1);
    lemma_extract_len(m1, r2, m2);
}

/// Removing one occurrence of a contained value shrinks a multiset by one.
proof fn lemma_extract_len(m: Multiset<i64>, r: i64, a: Multiset<i64>)
    requires
        extracts_max(m, r, a),
    ensures
        a.len() + 1 == m.len(),
{
    broadcast use vstd::multiset::group_multiset_axioms;

    assert(Multiset::singleton(r).subset_of(m));
}

/// A multiset of values has exactly one non-decreasing arrangement: two
/// sorted sequences with the same multiset are equal.  In particular the
/// sorted extraction of a heap is the unique sorted permutation of its
/// contents.
pub proof fn lemma_sorted_unique(s1: Seq<i64>, s2: Seq<i64>)
    requires
        sorted_asc(s1),
        sorted_asc(s2),
        s1.to_multiset() == s2.to_multiset(),
    ensures
        s1 == s2,
    decreases s1.len(),
{
    to_multiset_len(s1);
    to_multiset_len(s2);
    if s1.len() == 0 {
        assert(s1 =~= s2);
    } else {
        // The heads agree: each sequence contains the other's head, and a
        // sorted sequence starts with a least element.
        to_multiset_contains(s1, s1[0]);
        to_multiset_contains(s2, s1[0]);
        let j2 = choose|j: int| 0 <= j < s2.len() && s2[j] == s1[0];
        assert(s2[0] <= s1[0]);
        to_multiset_contains(s2, s2[0]);
        to_multiset_contains(s1, s2[0]);
        let j1 = choose|j: int| 0 <= j < s1.len() && s1[j] == s2[0];
        assert(s1[0] <= s2[0]);
        assert(s1[0] == s2[0]);
        // The tails have equal multisets and are sorted.
        let t1 = s1.remove(0);
        let t2 = s2.remove(0);
        to_multiset_remove(s1, 0);
        to_multiset_remove(s2, 0);
        assert(sorted_asc(t1)) by {
            assert forall|i: int, j: int| 0 <= i <= j < t1.len() implies #[trigger] t1[i]
                <= #[trigger] t1[j] by {
                assert(t1[i] == s1[i + 1]);
                assert(t1[j] == s1[j + 1]);
            }
        }
        assert(sorted_asc(t2)) by {
            assert forall|i: int, j: int| 0 <= i <= j < t2.len() implies #[trigger] t2[i]
                <= #[trigger] t2[j] by {
                assert(t2[i] == s2[i + 1]);
                assert(t2[j] == s2[j + 1]);
            }
        }
        lemma_sorted_unique(t1, t2);
        assert forall|k: int| 0 <= k < s1.len() implies #[trigger] s1[k] == s2[k] by {
            if k > 0 {
                assert(s1[k] == t1[k - 1]);
                assert(s2[k] == t2[k - 1]);
            }
        }
        assert(s1 =~= s2);
    }
}

} // verus!
