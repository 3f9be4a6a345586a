//! The mathematical model of a weak heap: the distinguished-ancestor relation
//! that the reverse bits encode, the ordering invariant built on it, and the
//! predicates that the public contracts speak of.
use vstd::multiset::Multiset;
use vstd::prelude::*;

verus! {

/// The numeric value of a reverse bit: `true` counts as 1, `false` as 0.
pub open spec fn bit_val(b: bool) -> int {
    if b {
        1
    } else {
        0
    }
}

/// The distinguished ancestor of node `i`: climb from `i` toward the root,
/// moving up one level whenever the current node is the distinguished child
/// of its parent (that is, the parent's reverse bit selects it), and stop at
/// the first parent that does not select the current node.  The root of the
/// climb is index 0.
pub open spec fn dist_anc(bits: Seq<bool>, i: int) -> int
    recommends
        1 <= i,
    decreases i,
{
    let p = i / 2;
    if p <= 0 {
        0
    } else if i % 2 == bit_val(bits[p]) {
        dist_anc(bits, p)
    } else {
        p
    }
}

/// `a` is `i` itself or one of its ancestors in the implicit binary tree,
/// i.e. `a` arises from `i` by repeated halving.
pub open spec fn anc_or_self(a: int, i: int) -> bool
    decreases i,
{
    i == a || (i > a && i >= 1 && anc_or_self(a, i / 2))
}

/// Weak-heap order restricted to the window `[0, end)`: every node of the
/// window below the root is bounded by the value at its distinguished
/// ancestor.
pub open spec fn heap_ordered_to(data: Seq<i64>, bits: Seq<bool>, end: int) -> bool {
    forall|i: int|
        #![trigger dist_anc(bits, i)]
        1 <= i < end ==> data[i] <= data[dist_anc(bits, i)]
}

/// Weak-heap order on the whole sequence.
pub open spec fn heap_ordered(data: Seq<i64>, bits: Seq<bool>) -> bool {
    heap_ordered_to(data, bits, data.len() as int)
}

/// Weak-heap order on the suffix starting at `from`: the shape that bulk
/// construction establishes index by index, from the leaves upward.
pub open spec fn heap_ordered_from(data: Seq<i64>, bits: Seq<bool>, from: int) -> bool {
    forall|i: int|
        #![trigger dist_anc(bits, i)]
        from <= i < data.len() && i >= 1 ==> data[i] <= data[dist_anc(bits, i)]
}

/// Weak-heap order on the window `[0, end)` except that nodes whose
/// distinguished ancestor is the root are unconstrained.  This is the state
/// of a heap whose root slot was just replaced.
pub open spec fn heap_ordered_except_root(data: Seq<i64>, bits: Seq<bool>, end: int) -> bool {
    forall|i: int|
        #![trigger dist_anc(bits, i)]
        1 <= i < end && dist_anc(bits, i) != 0 ==> data[i] <= data[dist_anc(bits, i)]
}

/// `v` occurs in `m` and bounds every element of `m`.
pub open spec fn is_max_of(m: Multiset<i64>, v: i64) -> bool {
    &&& m.count(v) > 0
    &&& forall|x: i64| #[trigger] m.count(x) > 0 ==> x <= v
}

/// Removing a maximum: `v` is a greatest element of `before`, and `after` is
/// `before` with one occurrence of `v` taken out.
pub open spec fn extracts_max(before: Multiset<i64>, v: i64, after: Multiset<i64>) -> bool {
    &&& is_max_of(before, v)
    &&& after == before.remove(v)
}

/// The sequence is sorted in non-decreasing order.
pub open spec fn sorted_asc(s: Seq<i64>) -> bool {
    forall|i: int, j: int| #![trigger s[i], s[j]] 0 <= i <= j < s.len() ==> s[i] <= s[j]
}

} // verus!
