//! Small facts about sequences and their multisets: swapping two entries,
//! and transporting a pointwise bound across a permutation.
use vstd::prelude::*;
use vstd::seq_lib::{
    group_to_multiset_ensures, lemma_multiset_commutative, to_multiset_contains, to_multiset_update,
};

verus! {

/// Exchanging the entries at two positions leaves the multiset unchanged.
pub proof fn lemma_swap_multiset(s: Seq<i64>, i: int, j: int)
    requires
        0 <= i < s.len(),
        0 <= j < s.len(),
    ensures
        s.update(i, s[j]).update(j, s[i]).to_multiset() == s.to_multiset(),
{
    if i == j {
        assert(s.update(i, s[j]).update(j, s[i]) =~= s);
    } else {
        let s1 = s.update(i, s[j]);
        to_multiset_update(s, i, s[j]);
        to_multiset_update(s1, j, s[i]);
        assert(s1[j] == s[j]);
        broadcast use group_to_multiset_ensures;

        to_multiset_contains(s, s[i]);
        assert(s.contains(s[i]));
        to_multiset_contains(s, s[j]);
        assert(s.contains(s[j]));
        assert(s1.update(j, s[i]).to_multiset() =~= s.to_multiset());
    }
}

/// A sequence with the same multiset as a pointwise-bounded one is itself
/// pointwise bounded.
pub proof fn lemma_perm_preserves_upper(s1: Seq<i64>, s2: Seq<i64>, ub: i64)
    requires
        s1.to_multiset() == s2.to_multiset(),
        forall|k: int| 0 <= k < s1.len() ==> #[trigger] s1[k] <= ub,
    ensures
        forall|k: int| 0 <= k < s2.len() ==> #[trigger] s2[k] <= ub,
{
    assert forall|k: int| 0 <= k < s2.len() implies s2[k] <= ub by {
        to_multiset_contains(s2, s2[k]);
        assert(s2.contains(s2[k]));
        to_multiset_contains(s1, s2[k]);
        assert(s1.contains(s2[k]));
        let m = choose|m: int| 0 <= m < s1.len() && s1[m] == s2[k];
        assert(s1[m] <= ub);
    }
}

/// Splitting a sequence at `end`: the whole multiset is the two parts'
/// multisets put together.
pub proof fn lemma_split_multiset(s: Seq<i64>, end: int)
    requires
        0 <= end <= s.len(),
    ensures
        s.to_multiset() == s.subrange(0, end).to_multiset().add(
            s.subrange(end, s.len() as int).to_multiset(),
        ),
{
    assert(s =~= s.subrange(0, end) + s.subrange(end, s.len() as int));
    lemma_multiset_commutative(s.subrange(0, end), s.subrange(end, s.len() as int));
}

} // verus!
