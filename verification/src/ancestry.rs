//! Facts about the distinguished-ancestor walk: its range, which bits it
//! depends on, how a single bit flip redirects it, the structure of the
//! root chain it induces, and the bound it places on every entry.
use vstd::prelude::*;

use crate::model::{anc_or_self, bit_val, dist_anc, heap_ordered, heap_ordered_to, is_max_of};
use vstd::seq_lib::to_multiset_contains;

verus! {

/// An ancestor index never exceeds the index it is reached from.
pub proof fn lemma_anc_le(a: int, i: int)
    requires
        anc_or_self(a, i),
    ensures
        a <= i,
{
}

/// The ancestor relation is transitive.
pub proof fn lemma_anc_trans(a: int, b: int, c: int)
    requires
        anc_or_self(a, b),
        anc_or_self(b, c),
    ensures
        anc_or_self(a, c),
    decreases c,
{
    if b != c {
        lemma_anc_trans(a, b, c / 2);
        lemma_anc_le(a, b);
    }
}

/// The distinguished ancestor of `i` lies strictly below `i` and is an
/// ancestor of `i` (index 0 included).
pub proof fn lemma_dist_anc_range(bits: Seq<bool>, i: int)
    requires
        i >= 1,
    ensures
        0 <= dist_anc(bits, i) < i,
        anc_or_self(dist_anc(bits, i), i),
    decreases i,
{
    let p = i / 2;
    if p <= 0 {
        assert(anc_or_self(0, i)) by {
            if i > 1 {
                assert(false);
            }
        }
    } else if i % 2 == bit_val(bits[p]) {
        lemma_dist_anc_range(bits, p);
        assert(anc_or_self(dist_anc(bits, p), p));
    } else {
        assert(anc_or_self(p, p));
    }
}

/// The distinguished ancestor of `i` reads only the bits at the strict
/// ancestors of `i`: two bit sequences that agree there agree on it.
pub proof fn lemma_dist_anc_frame(b1: Seq<bool>, b2: Seq<bool>, i: int)
    requires
        i >= 1,
        forall|a: int| 1 <= a && #[trigger] anc_or_self(a, i) && a != i ==> b1[a] == b2[a],
    ensures
        dist_anc(b1, i) == dist_anc(b2, i),
    decreases i,
{
    let p = i / 2;
    if p >= 1 {
        assert(anc_or_self(p, p));
        assert(anc_or_self(p, i));
        assert forall|a: int| 1 <= a && #[trigger] anc_or_self(a, p) && a != p implies b1[a]
            == b2[a] by {
            assert(anc_or_self(a, i));
            lemma_anc_le(a, p);
        }
        lemma_dist_anc_frame(b1, b2, p);
    }
}

/// How flipping the reverse bit of node `v` moves distinguished ancestors.
/// Nodes outside the subtree of `v` are unaffected.  For a strict descendant
/// `i` of `v`: a walk that used to stop inside the subtree still does; one
/// that used to stop at `v` now passes through it; one that used to pass
/// through `v` now stops there.
pub proof fn lemma_dist_anc_flip(b: Seq<bool>, v: int, i: int)
    requires
        1 <= v < b.len(),
        1 <= i <= b.len(),
    ensures
        ({
            let b2 = b.update(v, !b[v]);
            &&& !(anc_or_self(v, i) && v != i) ==> dist_anc(b2, i) == dist_anc(b, i)
            &&& (anc_or_self(v, i) && v != i && dist_anc(b, i) > v) ==> dist_anc(b2, i)
                == dist_anc(b, i)
            &&& (anc_or_self(v, i) && v != i && dist_anc(b, i) == v) ==> dist_anc(b2, i)
                == dist_anc(b, v)
            &&& (anc_or_self(v, i) && v != i && dist_anc(b, i) < v) ==> dist_anc(b2, i) == v
                && dist_anc(b, i) == dist_anc(b, v)
        }),
    decreases i,
{
    let b2 = b.update(v, !b[v]);
    let p = i / 2;
    if p <= 0 {
        // i == 1 has no strict ancestors at all, and dist_anc is 0 either way.
        assert(!(anc_or_self(v, i) && v != i));
    } else if v == p {
        // The flipped bit is the one the first step of the walk reads.
        assert(anc_or_self(p, p));
        assert(anc_or_self(v, i) && v != i);
        if i % 2 == bit_val(b[p]) {
            // The walk from `i` used to continue through `v`.
            assert(dist_anc(b, i) == dist_anc(b, p));
            lemma_dist_anc_range(b, p);
            assert(dist_anc(b, i) < v);
            assert(i % 2 != bit_val(b2[p]));
            assert(dist_anc(b2, i) == p);
        } else {
            // The walk from `i` used to stop at `v`; now it continues.
            assert(dist_anc(b, i) == v);
            assert(i % 2 == bit_val(b2[p]));
            assert(dist_anc(b2, i) == dist_anc(b2, p));
            assert forall|a: int| 1 <= a && #[trigger] anc_or_self(a, p) && a != p implies b2[a]
                == b[a] by {
                lemma_anc_le(a, p);
            }
            lemma_dist_anc_frame(b2, b, p);
        }
    } else {
        // The first step reads an unchanged bit; recurse on the parent.
        assert(b2[p] == b[p]);
        lemma_dist_anc_flip(b, v, p);
        if anc_or_self(v, i) && v != i {
            // `v` is a strict ancestor of `p` as well.
            assert(anc_or_self(v, p));
            if i % 2 == bit_val(b[p]) {
                assert(dist_anc(b, i) == dist_anc(b, p));
                assert(dist_anc(b2, i) == dist_anc(b2, p));
                lemma_dist_anc_range(b, p);
            } else {
                // Both walks stop at `p`, which lies strictly above `v`.
                assert(dist_anc(b, i) == p);
                assert(dist_anc(b2, i) == p);
                lemma_anc_le(v, p);
                assert(p > v);
            }
        } else {
            // `v` is not a strict ancestor of `p` either.
            assert forall|a: int| 1 <= a && #[trigger] anc_or_self(a, p) && a != p implies b2[a]
                == b[a] by {
                if a == v {
                    assert(anc_or_self(v, i));
                }
            }
            lemma_dist_anc_frame(b2, b, p);
        }
    }
}

/// A chain node (one whose distinguished ancestor is the root) other than
/// node 1 is the distinguished child of its parent, and the parent is a
/// chain node too.
pub proof fn lemma_chain_step(b: Seq<bool>, j: int)
    requires
        j >= 2,
        dist_anc(b, j) == 0,
    ensures
        dist_anc(b, j / 2) == 0,
        j == 2 * (j / 2) + bit_val(b[j / 2]),
{
    let p = j / 2;
    assert(p >= 1);
    if j % 2 != bit_val(b[p]) {
        assert(dist_anc(b, j) == p);
    }
}

/// The chain below a chain node `q` continues through its distinguished
/// child: any chain node strictly below `q` descends from that child.
pub proof fn lemma_chain_desc(b: Seq<bool>, q: int, p: int)
    requires
        1 <= q,
        dist_anc(b, q) == 0,
        dist_anc(b, p) == 0,
        anc_or_self(q, p),
        q != p,
    ensures
        anc_or_self(2 * q + bit_val(b[q]), p),
    decreases p,
{
    lemma_anc_le(q, p);
    lemma_chain_step(b, p);
    if q == p / 2 {
        assert(p == 2 * q + bit_val(b[q]));
        assert(anc_or_self(p, p));
    } else {
        assert(anc_or_self(q, p / 2));
        lemma_chain_desc(b, q, p / 2);
        let c = 2 * q + bit_val(b[q]);
        lemma_anc_le(c, p / 2);
        assert(anc_or_self(c, p));
    }
}

/// Any two chain nodes are comparable in the ancestor order: the chain is a
/// single path from node 1 downward.
pub proof fn lemma_chain_total(b: Seq<bool>, i: int, j: int)
    requires
        1 <= i,
        1 <= j,
        dist_anc(b, i) == 0,
        dist_anc(b, j) == 0,
    ensures
        anc_or_self(i, j) || anc_or_self(j, i),
    decreases i + j,
{
    if i == j {
        assert(anc_or_self(i, j));
    } else if i < j {
        lemma_chain_step(b, j);
        lemma_chain_total(b, i, j / 2);
        if anc_or_self(i, j / 2) {
            assert(anc_or_self(i, j));
        } else {
            assert(anc_or_self(j / 2, i));
            if j / 2 == i {
                assert(anc_or_self(i, j));
            } else {
                lemma_chain_desc(b, j / 2, i);
                assert(anc_or_self(j, i));
            }
        }
    } else {
        // j < i: the mirror image of the previous case.
        lemma_chain_step(b, i);
        lemma_chain_total(b, j, i / 2);
        if anc_or_self(j, i / 2) {
            assert(anc_or_self(j, i));
        } else {
            assert(anc_or_self(i / 2, j));
            if i / 2 == j {
                assert(anc_or_self(j, i));
            } else {
                lemma_chain_desc(b, i / 2, j);
                assert(anc_or_self(i, j));
            }
        }
    }
}

/// The deepest chain node of a window covers the whole chain: every chain
/// node of the window is an ancestor of it (or the node itself).
pub proof fn lemma_chain_bottom_covers(b: Seq<bool>, end: int, bot: int)
    requires
        1 <= bot < end,
        dist_anc(b, bot) == 0,
        2 * bot + bit_val(b[bot]) >= end,
    ensures
        forall|i: int|
            #![trigger dist_anc(b, i)]
            1 <= i < end && dist_anc(b, i) == 0 ==> anc_or_self(i, bot),
{
    assert forall|i: int| 1 <= i < end && #[trigger] dist_anc(b, i) == 0 implies anc_or_self(
        i,
        bot,
    ) by {
        lemma_chain_total(b, i, bot);
        if !anc_or_self(i, bot) {
            lemma_chain_desc(b, bot, i);
            lemma_anc_le(2 * bot + bit_val(b[bot]), i);
            assert(false);
        }
    }
}

/// One step of the ascent of a sift-down at a chain node `v` whose value
/// already bounds the root value: nothing moves, and the two ascent
/// invariants carry over to the parent of `v`.  The first invariant states
/// weak-heap order away from the root; the second bounds by the root value
/// every chain node that the ascent has already passed.
pub proof fn lemma_ascent_step_keep(d1: Seq<i64>, b1: Seq<bool>, end: int, v: int)
    requires
        b1.len() == d1.len(),
        1 <= v < end <= d1.len(),
        dist_anc(b1, v) == 0,
        d1[v] <= d1[0],
        forall|i: int|
            #![trigger dist_anc(b1, i)]
            1 <= i < end && dist_anc(b1, i) == 0 && !anc_or_self(i, v) ==> d1[i] <= d1[0],
    ensures
        dist_anc(b1, v / 2) == 0,
        forall|i: int|
            #![trigger dist_anc(b1, i)]
            1 <= i < end && dist_anc(b1, i) == 0 && !anc_or_self(i, v / 2) ==> d1[i] <= d1[0],
{
    let u = v / 2;
    if v >= 2 {
        lemma_chain_step(b1, v);
    }
    assert forall|i: int|
        1 <= i < end && #[trigger] dist_anc(b1, i) == 0 && !anc_or_self(i, u) implies d1[i]
        <= d1[0] by {
        if i != v && anc_or_self(i, v) {
            assert(anc_or_self(i, u));
        }
    }
}

/// One swapping step of the ascent of a sift-down: at chain node `v` the
/// root value is smaller, so the two values are exchanged and the reverse
/// bit of `v` is flipped.  The flip re-hangs the two subtrees of `v`: the
/// old distinguished subtree now stops its walks at `v`, which holds the old
/// root value that bounded it, and the other subtree now walks through to
/// the root, which holds the old value of `v` that bounded it.  Both ascent
/// invariants carry over to the parent of `v`.
pub proof fn lemma_ascent_step_swap(
    d1: Seq<i64>,
    b1: Seq<bool>,
    d2: Seq<i64>,
    b2: Seq<bool>,
    end: int,
    v: int,
)
    requires
        b1.len() == d1.len(),
        1 <= v < end <= d1.len(),
        dist_anc(b1, v) == 0,
        d1[0] < d1[v],
        b2 == b1.update(v, !b1[v]),
        d2 == d1.update(0, d1[v]).update(v, d1[0]),
        forall|i: int|
            #![trigger dist_anc(b1, i)]
            1 <= i < end && dist_anc(b1, i) != 0 ==> d1[i] <= d1[dist_anc(b1, i)],
        forall|i: int|
            #![trigger dist_anc(b1, i)]
            1 <= i < end && dist_anc(b1, i) == 0 && !anc_or_self(i, v) ==> d1[i] <= d1[0],
    ensures
        dist_anc(b2, v / 2) == 0,
        forall|i: int|
            #![trigger dist_anc(b2, i)]
            1 <= i < end && dist_anc(b2, i) != 0 ==> d2[i] <= d2[dist_anc(b2, i)],
        forall|i: int|
            #![trigger dist_anc(b2, i)]
            1 <= i < end && dist_anc(b2, i) == 0 && !anc_or_self(i, v / 2) ==> d2[i] <= d2[0],
{
    let u = v / 2;
    assert(d2[0] == d1[v]);
    assert(d2[v] == d1[0]);
    if v >= 2 {
        lemma_chain_step(b1, v);
        lemma_dist_anc_flip(b1, v, u);
        if anc_or_self(v, u) && v != u {
            lemma_anc_le(v, u);
            assert(false);
        }
        assert(dist_anc(b2, u) == 0);
    }
    assert forall|i: int| 1 <= i < end && #[trigger] dist_anc(b2, i) != 0 implies d2[i]
        <= d2[dist_anc(b2, i)] by {
        lemma_dist_anc_flip(b1, v, i);
        lemma_dist_anc_range(b1, i);
        let m2 = dist_anc(b2, i);
        if anc_or_self(v, i) && v != i {
            lemma_anc_le(v, i);
            if dist_anc(b1, i) > v {
                // Walk stays inside the subtree of `v`; nothing it reads moved.
                assert(d2[i] == d1[i]);
                assert(d2[m2] == d1[m2]);
            } else if dist_anc(b1, i) == v {
                // Now walks through `v` to the root: contradicts m2 != 0.
                assert(false);
            } else {
                // Used to walk through `v` (so i was a passed chain node,
                // bounded by the old root value); now stops at `v`, which
                // holds exactly that value.
                assert(m2 == v);
                assert(dist_anc(b1, i) == 0);
                if anc_or_self(i, v) {
                    lemma_anc_le(i, v);
                    assert(false);
                }
                assert(d1[i] <= d1[0]);
                assert(d2[i] == d1[i]);
            }
        } else {
            assert(m2 == dist_anc(b1, i));
            if m2 == v {
                assert(false);
            }
            if i == v {
                assert(false);
            }
            assert(d2[i] == d1[i]);
            assert(d2[m2] == d1[m2]);
        }
    }
    assert forall|i: int|
        1 <= i < end && #[trigger] dist_anc(b2, i) == 0 && !anc_or_self(i, u) implies d2[i]
        <= d2[0] by {
        lemma_dist_anc_flip(b1, v, i);
        if i == v {
            // The old root value moved here, and it is below the new one.
        } else if anc_or_self(v, i) {
            // The walk of `i` used to stop at `v`: its value is bounded by
            // the old value of `v`, which is the new root value.
            if dist_anc(b1, i) > v {
                assert(false);
            }
            if dist_anc(b1, i) < v {
                assert(false);
            }
            assert(dist_anc(b1, i) == v);
            assert(d1[i] <= d1[v]);
            assert(d2[i] == d1[i]);
        } else {
            assert(dist_anc(b1, i) == 0);
            if anc_or_self(i, v) {
                assert(anc_or_self(i, u));
                assert(false);
            }
            assert(d1[i] <= d1[0]);
            assert(d2[i] == d1[i]);
        }
    }
}

/// Under the weak-heap order on a window, every entry of the window is
/// bounded by the root entry.
pub proof fn lemma_le_root(data: Seq<i64>, b: Seq<bool>, end: int, i: int)
    requires
        heap_ordered_to(data, b, end),
        0 <= i < end,
    ensures
        data[i] <= data[0],
    decreases i,
{
    if i >= 1 {
        lemma_dist_anc_range(b, i);
        lemma_le_root(data, b, end, dist_anc(b, i));
    }
}

/// Under the weak-heap order, the root entry is a maximum of the stored
/// multiset.
pub proof fn lemma_root_is_max(data: Seq<i64>, b: Seq<bool>)
    requires
        heap_ordered(data, b),
        data.len() > 0,
    ensures
        is_max_of(data.to_multiset(), data[0]),
{
    to_multiset_contains(data, data[0]);
    assert(data.contains(data[0]));
    assert forall|x: i64| #[trigger] data.to_multiset().count(x) > 0 implies x <= data[0] by {
        to_multiset_contains(data, x);
        let k = choose|k: int| 0 <= k < data.len() && data[k] == x;
        lemma_le_root(data, b, data.len() as int, k);
    }
}

} // verus!
