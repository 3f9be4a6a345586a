//! A priority queue implemented with a weak heap.
//!
//! A weak heap is a binary-tree-shaped array with one extra "reverse" bit per
//! node.  The bit records which of a node's two children is its heap-ordered
//! descendant, which lets every sift step compare the moving element against a
//! single candidate instead of two.  The structure therefore needs fewer
//! element comparisons than a conventional binary heap, which pays off when
//! comparisons are expensive.
//!
//! The ordering invariant, the sift algorithms and the conversions are
//! verified: every public operation carries a contract over the multiset of
//! stored values, and the weak-heap order itself is the well-formedness
//! predicate that all of them preserve.
use vstd::prelude::*;

mod ancestry;
pub mod laws;
pub mod model;
mod seqfacts;

use crate::ancestry::{
    lemma_anc_le, lemma_anc_trans, lemma_ascent_step_keep, lemma_ascent_step_swap, lemma_chain_bottom_covers,
    lemma_dist_anc_flip, lemma_dist_anc_frame, lemma_dist_anc_range, lemma_le_root,
    lemma_root_is_max,
};
use crate::model::{
    anc_or_self, bit_val, dist_anc, extracts_max, heap_ordered, heap_ordered_except_root,
    heap_ordered_from, heap_ordered_to, is_max_of, sorted_asc,
};
use crate::seqfacts::{lemma_perm_preserves_upper, lemma_split_multiset, lemma_swap_multiset};

verus! {

/// A max-priority queue backed by a weak heap: a value array and a parallel
/// array of reverse bits.
#[derive(Clone, Debug)]
pub struct WeakHeap {
    data: Vec<i64>,
    bit: Vec<bool>,
}

impl Default for WeakHeap {
    /// Creates an empty `WeakHeap`.
    fn default() -> (h: WeakHeap)
        ensures
            h@ == Seq::<i64>::empty(),
            h.wf(),
    {
        WeakHeap::new()
    }
}

impl View for WeakHeap {
    type V = Seq<i64>;

    /// The stored values in storage order.
    closed spec fn view(&self) -> Seq<i64> {
        self.data@
    }
}

impl WeakHeap {
    /// The reverse bits in storage order.
    pub closed spec fn bits(&self) -> Seq<bool> {
        self.bit@
    }

    /// Well-formedness: one bit per value, and the weak-heap order holds.
    pub closed spec fn wf(&self) -> bool {
        &&& self.bit@.len() == self.data@.len()
        &&& heap_ordered(self.data@, self.bit@)
    }

    /// Creates an empty `WeakHeap`.
    pub fn new() -> (h: WeakHeap)
        ensures
            h@ == Seq::<i64>::empty(),
            h.wf(),
    {
        WeakHeap { data: Vec::new(), bit: Vec::new() }
    }

    /// Returns the number of elements in the weak heap.
    pub fn len(&self) -> (n: usize)
        ensures
            n == self@.len(),
    {
        self.data.len()
    }

    /// Checks if the weak heap is empty.
    pub fn is_empty(&self) -> (b: bool)
        ensures
            b == (self@.len() == 0),
    {
        self.data.len() == 0
    }

    /// Walks down the chain of distinguished children from node 1 as far as
    /// the window `[0, end)` allows.  This descent needs no comparison at
    /// all, which is what makes the weak-heap sift-down cheap.
    fn chain_bottom(&self, end: usize) -> (bot: usize)
        requires
            self.bit@.len() == self.data@.len(),
            2 <= end <= self.data@.len(),
        ensures
            1 <= bot < end,
            dist_anc(self.bit@, bot as int) == 0,
            2 * (bot as int) + bit_val(self.bit@[bot as int]) >= end,
    {
        let mut pos: usize = 1;
        loop
            invariant
                1 <= pos < end,
                2 <= end <= self.data@.len(),
                self.bit@.len() == self.data@.len(),
                dist_anc(self.bit@, pos as int) == 0,
            ensures
                1 <= pos < end,
                dist_anc(self.bit@, pos as int) == 0,
                2 * (pos as int) + bit_val(self.bit@[pos as int]) >= end,
            decreases end - pos,
        {
            if pos > (end - 1) / 2 {
                // Even the smaller child of `pos` lies outside the window.
                break;
            }
            let bv: usize = if self.bit[pos] {
                1
            } else {
                0
            };
            let next: usize = 2 * pos + bv;
            if next >= end {
                break;
            }
            proof {
                assert(next as int / 2 == pos as int);
                assert(next as int % 2 == bit_val(self.bit@[pos as int]));
                assert(dist_anc(self.bit@, next as int) == dist_anc(self.bit@, pos as int));
            }
            pos = next;
        }
        pos
    }

    /// Restores the weak-heap order on the window `[0, end)` after the root
    /// entry was replaced: descend the chain of distinguished children to
    /// its bottom, then climb back toward the root, exchanging the root
    /// value with every chain value that beats it and flipping the bit of
    /// each node swapped with.  One comparison per climbed level.
    fn sift_down_range(&mut self, end: usize)
        requires
            old(self).bit@.len() == old(self).data@.len(),
            1 <= end <= old(self).data@.len(),
            heap_ordered_except_root(old(self).data@, old(self).bit@, end as int),
        ensures
            final(self).bit@.len() == final(self).data@.len(),
            final(self).data@.len() == old(self).data@.len(),
            final(self).data@.to_multiset() == old(self).data@.to_multiset(),
            forall|j: int|
                end <= j < old(self).data@.len() ==> final(self).data@[j] == old(self).data@[j]
                    && final(self).bit@[j] == old(self).bit@[j],
            heap_ordered_to(final(self).data@, final(self).bit@, end as int),
            end == 1 ==> *final(self) == *old(self),
    {
        if end == 1 {
            return ;
        }
        let mut pos: usize = self.chain_bottom(end);
        proof {
            lemma_chain_bottom_covers(self.bit@, end as int, pos as int);
        }
        while pos > 0
            invariant
                self.bit@.len() == self.data@.len(),
                self.data@.len() == old(self).data@.len(),
                2 <= end <= self.data@.len(),
                pos < end,
                dist_anc(self.bit@, pos as int) == 0,
                self.data@.to_multiset() == old(self).data@.to_multiset(),
                forall|j: int|
                    end <= j < self.data@.len() ==> self.data@[j] == old(self).data@[j]
                        && self.bit@[j] == old(self).bit@[j],
                forall|i: int|
                    #![trigger dist_anc(self.bit@, i)]
                    1 <= i < end && dist_anc(self.bit@, i) != 0 ==> self.data@[i]
                        <= self.data@[dist_anc(self.bit@, i)],
                forall|i: int|
                    #![trigger dist_anc(self.bit@, i)]
                    1 <= i < end && dist_anc(self.bit@, i) == 0 && !anc_or_self(i, pos as int)
                        ==> self.data@[i] <= self.data@[0],
            decreases pos,
        {
            let ghost d1 = self.data@;
            let ghost b1 = self.bit@;
            let v: usize = pos;
            if self.data[0] < self.data[v] {
                let bv: bool = self.bit[v];
                self.bit.set(v, !bv);
                let t0: i64 = self.data[0];
                let tv: i64 = self.data[v];
                self.data.set(0, tv);
                self.data.set(v, t0);
                proof {
                    assert(self.bit@ == b1.update(v as int, !b1[v as int]));
                    assert(self.data@ == d1.update(0, d1[v as int]).update(v as int, d1[0]));
                    lemma_ascent_step_swap(d1, b1, self.data@, self.bit@, end as int, v as int);
                    lemma_swap_multiset(d1, 0, v as int);
                }
            } else {
                proof {
                    lemma_ascent_step_keep(d1, b1, end as int, v as int);
                }
            }
            pos = v / 2;
        }
        proof {
            assert forall|i: int| 1 <= i < end implies self.data@[i] <= self.data@[#[trigger] dist_anc(
                self.bit@,
                i,
            )] by {
                if dist_anc(self.bit@, i) == 0 {
                    assert(!anc_or_self(i, 0));
                }
            }
        }
    }

    /// Returns the greatest item in the weak heap, or `None` if it is empty.
    pub fn peek(&self) -> (r: Option<i64>)
        requires
            self.wf(),
        ensures
            self@.len() == 0 ==> r is None,
            self@.len() > 0 ==> r == Some(self@[0]) && is_max_of(self@.to_multiset(), self@[0]),
    {
        if self.data.len() == 0 {
            None
        } else {
            proof {
                lemma_root_is_max(self.data@, self.bit@);
            }
            Some(self.data[0])
        }
    }

    /// Removes the root entry, whatever value it holds: drop the last bit,
    /// move the last entry into the root slot, and sift it down.  The order
    /// away from the root is all it needs.
    fn remove_root(&mut self) -> (r: i64)
        requires
            old(self).bit@.len() == old(self).data@.len(),
            old(self).data@.len() > 0,
            heap_ordered_except_root(
                old(self).data@,
                old(self).bit@,
                old(self).data@.len() as int,
            ),
        ensures
            final(self).wf(),
            r == old(self).data@[0],
            final(self).data@.to_multiset() == old(self).data@.to_multiset().remove(r),
            final(self).data@.len() == old(self).data@.len() - 1,
    {
        broadcast use vstd::seq_lib::group_to_multiset_ensures;

        let ghost d0 = self.data@;
        let ghost b0 = self.bit@;
        let _ = self.bit.pop();
        let last: i64 = self.data.pop().unwrap();
        proof {
            assert(d0.remove(d0.len() - 1) =~= self.data@);
            assert(self.data@.to_multiset() == d0.to_multiset().remove(last));
        }
        if self.data.len() > 0 {
            let m: i64 = self.data[0];
            self.data.set(0, last);
            proof {
                let d1 = d0.subrange(0, d0.len() - 1);
                vstd::seq_lib::to_multiset_update(d1, 0, last);
                assert(d0.to_multiset().count(last) > 0);
                assert(self.data@.to_multiset() =~= d0.to_multiset().remove(m));
                assert forall|i: int|
                    1 <= i < self.data@.len() && #[trigger] dist_anc(self.bit@, i)
                        != 0 implies self.data@[i] <= self.data@[dist_anc(self.bit@, i)] by {
                    lemma_dist_anc_frame(self.bit@, b0, i);
                    lemma_dist_anc_range(b0, i);
                }
            }
            let n: usize = self.data.len();
            self.sift_down_range(n);
            m
        } else {
            last
        }
    }

    /// Removes the greatest item from the weak heap and returns it, or
    /// `None` if it is empty.  The last entry moves into the freed root slot
    /// and one sift-down restores the order.
    pub fn pop(&mut self) -> (r: Option<i64>)
        requires
            old(self).wf(),
        ensures
            final(self).wf(),
            old(self)@.len() == 0 ==> r is None && *final(self) == *old(self),
            old(self)@.len() > 0 ==> (r matches Some(v) && extracts_max(
                old(self)@.to_multiset(),
                v,
                final(self)@.to_multiset(),
            ) && final(self)@.len() == old(self)@.len() - 1),
    {
        if self.data.len() == 0 {
            return None;
        }
        proof {
            lemma_root_is_max(self.data@, self.bit@);
        }
        Some(self.remove_root())
    }

    /// The effective equivalent of a `push` immediately followed by a
    /// `pop`: returns the greatest of the stored values and the argument,
    /// without ever growing the array.  When the argument is not smaller
    /// than the current maximum it comes straight back and the heap is left
    /// entirely untouched.
    pub fn pushpop(&mut self, item: i64) -> (r: i64)
        requires
            old(self).wf(),
        ensures
            final(self).wf(),
            final(self)@.len() == old(self)@.len(),
            extracts_max(old(self)@.to_multiset().insert(item), r, final(self)@.to_multiset()),
            old(self)@.len() == 0 ==> r == item && *final(self) == *old(self),
            old(self)@.len() > 0 && old(self)@[0] <= item ==> r == item && *final(self) == *old(
                self,
            ),
    {
        broadcast use vstd::seq_lib::group_to_multiset_ensures;
        broadcast use vstd::multiset::group_multiset_axioms;

        let ghost m0 = self.data@.to_multiset();
        if self.data.len() == 0 {
            proof {
                assert(m0.len() == 0);
                assert(m0.insert(item).remove(item) =~= m0);
            }
            return item;
        }
        proof {
            lemma_root_is_max(self.data@, self.bit@);
        }
        if self.data[0] <= item {
            proof {
                assert(m0.insert(item).remove(item) =~= m0);
            }
            item
        } else {
            let m: i64 = self.data[0];
            let ghost d0 = self.data@;
            let ghost b0 = self.bit@;
            self.data.set(0, item);
            proof {
                vstd::seq_lib::to_multiset_update(d0, 0, item);
                assert(self.data@.to_multiset() =~= m0.insert(item).remove(m));
                assert forall|i: int|
                    1 <= i < self.data@.len() && #[trigger] dist_anc(self.bit@, i)
                        != 0 implies self.data@[i] <= self.data@[dist_anc(self.bit@, i)] by {
                    lemma_dist_anc_range(b0, i);
                }
            }
            let n: usize = self.data.len();
            self.sift_down_range(n);
            m
        }
    }

    /// The single conditional exchange of bulk construction: find the
    /// distinguished ancestor of `pos` and, if its value is smaller, flip
    /// the bit of `pos` (only when `pos` still has a child slot inside the
    /// array) and swap the two values.
    fn sift_up(&mut self, pos: usize)
        requires
            old(self).bit@.len() == old(self).data@.len(),
            1 <= pos < old(self).data@.len(),
            heap_ordered_from(old(self).data@, old(self).bit@, pos + 1),
        ensures
            final(self).bit@.len() == final(self).data@.len(),
            final(self).data@.len() == old(self).data@.len(),
            final(self).data@.to_multiset() == old(self).data@.to_multiset(),
            heap_ordered_from(final(self).data@, final(self).bit@, pos as int),
            ({
                let a = dist_anc(old(self).bit@, pos as int);
                let d0 = old(self).data@;
                let b0 = old(self).bit@;
                &&& (d0[a] >= d0[pos as int] ==> *final(self) == *old(self))
                &&& (d0[a] < d0[pos as int] ==> final(self).data@ == d0.update(
                    a,
                    d0[pos as int],
                ).update(pos as int, d0[a]) && final(self).bit@ == (if 2 * (pos as int) - 1
                    < d0.len() {
                    b0.update(pos as int, !b0[pos as int])
                } else {
                    b0
                }))
            }),
    {
        let len: usize = self.data.len();
        let mut cur: usize = pos;
        let mut ancestor: usize = cur / 2;
        while ancestor > 0 && ((cur % 2 == 1) == self.bit[ancestor])
            invariant
                self == old(self),
                self.bit@.len() == self.data@.len(),
                pos < self.data@.len(),
                ancestor == cur / 2,
                1 <= cur <= pos,
                dist_anc(self.bit@, pos as int) == dist_anc(self.bit@, cur as int),
            decreases cur,
        {
            cur = cur / 2;
            ancestor = ancestor / 2;
        }
        proof {
            assert(ancestor as int == dist_anc(self.bit@, pos as int));
            lemma_dist_anc_range(self.bit@, pos as int);
        }
        if self.data[ancestor] < self.data[pos] {
            let ghost d1 = self.data@;
            let ghost b1 = self.bit@;
            proof {
                assert((pos <= len / 2) == (2 * (pos as int) - 1 < d1.len()));
            }
            if pos <= len / 2 {
                let bv: bool = self.bit[pos];
                self.bit.set(pos, !bv);
            }
            let ta: i64 = self.data[ancestor];
            let tp: i64 = self.data[pos];
            self.data.set(ancestor, tp);
            self.data.set(pos, ta);
            proof {
                let a = ancestor as int;
                let p = pos as int;
                let b2 = self.bit@;
                let d2 = self.data@;
                lemma_swap_multiset(d1, a, p);
                assert forall|i: int| p <= i < d2.len() implies d2[i] <= d2[#[trigger] dist_anc(
                    b2,
                    i,
                )] by {
                    if i == p {
                        lemma_dist_anc_frame(b2, b1, p);
                        assert(dist_anc(b2, p) == a);
                    } else {
                        lemma_dist_anc_range(b1, i);
                        if pos <= len / 2 {
                            lemma_dist_anc_flip(b1, p, i);
                        }
                        if anc_or_self(p, i) && p != i {
                            // A strict descendant exists, so `pos` had a
                            // child slot and the flip happened.
                            lemma_anc_le(p, i / 2);
                            assert(2 * p <= i);
                            assert(pos <= len / 2);
                            if dist_anc(b1, i) == p {
                                assert(dist_anc(b2, i) == a);
                            } else if dist_anc(b1, i) < p {
                                assert(dist_anc(b2, i) == p);
                                assert(dist_anc(b1, i) == a);
                            } else {
                                assert(dist_anc(b2, i) == dist_anc(b1, i));
                            }
                        } else {
                            assert(dist_anc(b2, i) == dist_anc(b1, i));
                            if dist_anc(b1, i) == p {
                                assert(false);
                            }
                        }
                    }
                }
            }
        }
    }

    /// Restores the weak-heap order after the entry at `pos` was appended,
    /// the order holding up to `pos`.  The value is carried as a hole that
    /// climbs from distinguished ancestor to distinguished ancestor until
    /// one bounds it, moving each passed value one step down; every exit
    /// path fills the hole from the carried value.  Returns the resting
    /// index of the carried value.
    fn sift_up_push(&mut self, pos: usize) -> (r: usize)
        requires
            old(self).bit@.len() == old(self).data@.len(),
            pos < old(self).data@.len(),
            heap_ordered_to(old(self).data@, old(self).bit@, pos as int),
        ensures
            final(self).bit@.len() == final(self).data@.len(),
            final(self).data@.len() == old(self).data@.len(),
            final(self).data@.to_multiset() == old(self).data@.to_multiset(),
            forall|j: int|
                pos < j < old(self).data@.len() ==> final(self).data@[j] == old(self).data@[j],
            forall|j: int|
                0 <= j < old(self).bit@.len() && j != pos ==> final(self).bit@[j] == old(
                    self,
                ).bit@[j],
            heap_ordered_to(final(self).data@, final(self).bit@, pos + 1),
            r <= pos,
            final(self).data@[r as int] == old(self).data@[pos as int],
            forall|j: int|
                #![trigger anc_or_self(j, pos as int)]
                0 <= j < old(self).data@.len() && !anc_or_self(j, pos as int)
                    ==> final(self).data@[j] == old(self).data@[j],
    {
        let ghost d0 = old(self).data@;
        let ghost b0 = old(self).bit@;
        let len: usize = self.data.len();
        let e: i64 = self.data[pos];
        let mut h: usize = pos;
        let ghost mut path: Seq<int> = seq![pos as int];
        proof {
            assert(self.data@.update(h as int, e) =~= d0);
            assert(anc_or_self(pos as int, pos as int));
        }
        loop
            invariant
                self.bit@.len() == self.data@.len(),
                self.data@.len() == d0.len(),
                b0.len() == d0.len(),
                len == d0.len(),
                pos < d0.len(),
                e == d0[pos as int],
                heap_ordered_to(d0, b0, pos as int),
                forall|j: int| 0 <= j < b0.len() && j != pos ==> self.bit@[j] == b0[j],
                path.len() >= 1,
                path[0] == pos as int,
                path.last() == h as int,
                h <= pos,
                forall|k: int|
                    0 <= k < path.len() ==> h as int <= #[trigger] path[k] <= pos as int,
                forall|k: int| 0 <= k < path.len() ==> anc_or_self(#[trigger] path[k], pos as int),
                forall|k: int|
                    0 <= k < path.len() - 1 ==> #[trigger] path[k] > h as int && path[k] >= 1,
                forall|k: int|
                    0 <= k < path.len() - 1 ==> #[trigger] path[k + 1] == dist_anc(b0, path[k])
                        && d0[path[k + 1]] < e,
                forall|k: int|
                    0 <= k < path.len() - 1 ==> #[trigger] self.data@[path[k]] == d0[path[k + 1]],
                forall|j: int|
                    0 <= j < d0.len() && !path.take(path.len() - 1).contains(j)
                        ==> #[trigger] self.data@[j] == d0[j],
                self.data@.update(h as int, e).to_multiset() == d0.to_multiset(),
            ensures
                h as int == path.last(),
                h == 0 || d0[dist_anc(b0, h as int)] >= e,
            decreases h,
        {
            if h == 0 {
                break ;
            }
            let mut cur: usize = h;
            let mut ancestor: usize = cur / 2;
            while ancestor > 0 && ((cur % 2 == 1) == self.bit[ancestor])
                invariant
                    self.bit@.len() == self.data@.len(),
                    ancestor == cur / 2,
                    1 <= cur <= h,
                    h < self.data@.len(),
                    dist_anc(self.bit@, h as int) == dist_anc(self.bit@, cur as int),
                decreases cur,
            {
                cur = cur / 2;
                ancestor = ancestor / 2;
            }
            proof {
                assert(ancestor as int == dist_anc(self.bit@, h as int));
                lemma_dist_anc_frame(self.bit@, b0, h as int);
                lemma_dist_anc_range(b0, h as int);
            }
            if self.data[ancestor] < e {
                if pos <= len / 2 {
                    let bv: bool = self.bit[pos];
                    self.bit.set(pos, !bv);
                }
                let ghost dprev = self.data@;
                let va: i64 = self.data[ancestor];
                self.data.set(h, va);
                proof {
                    let a = ancestor as int;
                    let v_old = dprev.update(h as int, e);
                    let v_new = self.data@.update(a, e);
                    assert(!path.take(path.len() - 1).contains(a));
                    assert(va == d0[a]);
                    assert(v_new =~= v_old.update(h as int, v_old[a]).update(a, v_old[h as int]));
                    lemma_swap_multiset(v_old, h as int, a);
                    let p_old = path;
                    path = p_old.push(a);
                    assert(path.take(path.len() - 1) =~= p_old);
                    assert(p_old[p_old.len() - 1] == h as int);
                    assert(anc_or_self(h as int, pos as int));
                    lemma_anc_trans(a, h as int, pos as int);
                    assert forall|j: int|
                        0 <= j < d0.len() && !path.take(path.len() - 1).contains(
                            j,
                        ) implies self.data@[j] == d0[j] by {
                        assert(!p_old.contains(j));
                        if p_old.take(p_old.len() - 1).contains(j) {
                            let k = choose|k: int|
                                0 <= k < p_old.len() - 1 && #[trigger] p_old.take(
                                    p_old.len() - 1,
                                )[k] == j;
                            assert(p_old[k] == j);
                            assert(false);
                        }
                        assert(p_old[p_old.len() - 1] == h as int);
                        assert(j != h as int);
                        assert(dprev[j] == d0[j]);
                    }
                }
                h = ancestor;
            } else {
                proof {
                    assert(!path.take(path.len() - 1).contains(h as int));
                    assert(self.data@[h as int] == d0[h as int]);
                    assert(self.data@[ancestor as int] == d0[ancestor as int]);
                }
                break ;
            }
        }
        let ghost dcur = self.data@;
        self.data.set(h, e);
        proof {
            let df = self.data@;
            let bf = self.bit@;
            assert(df == dcur.update(h as int, e));
            assert(df.to_multiset() == d0.to_multiset());
            assert(df[h as int] == e);
            assert forall|j: int|
                0 <= j < d0.len() && !(#[trigger] anc_or_self(j, pos as int)) implies df[j]
                == d0[j] by {
                if path.contains(j) {
                    let k = choose|k: int| 0 <= k < path.len() && path[k] == j;
                    assert(anc_or_self(path[k], pos as int));
                    assert(false);
                }
                if path.take(path.len() - 1).contains(j) {
                    let k = choose|k: int|
                        0 <= k < path.len() - 1 && #[trigger] path.take(path.len() - 1)[k] == j;
                    assert(path[k] == j);
                    assert(false);
                }
                assert(path[path.len() - 1] == h as int);
                assert(j != h as int);
            }
            assert forall|j: int| pos < j < d0.len() implies df[j] == d0[j] by {
                assert(!path.take(path.len() - 1).contains(j));
            }
            assert forall|i: int| 1 <= i < pos + 1 implies df[i] <= df[#[trigger] dist_anc(
                bf,
                i,
            )] by {
                lemma_dist_anc_frame(bf, b0, i);
                let m = dist_anc(b0, i);
                lemma_dist_anc_range(b0, i);
                if path.contains(i) {
                    let k = choose|k: int| 0 <= k < path.len() && path[k] == i;
                    if k < path.len() - 1 {
                        // A passed node: it now holds the value that came
                        // down from its own distinguished ancestor.
                        assert(df[i] == d0[path[k + 1]]);
                        assert(m == path[k + 1]);
                        if k + 1 < path.len() - 1 {
                            lemma_dist_anc_range(b0, path[k + 1]);
                            assert(df[m] == d0[path[k + 2]]);
                            assert(d0[path[k + 1]] <= d0[dist_anc(b0, path[k + 1])]);
                        } else {
                            assert(m == h as int);
                            assert(df[m] == e);
                        }
                    } else {
                        // The resting place of the carried value.
                        assert(i == h as int);
                        assert(df[i] == e);
                        assert(m < h as int);
                        assert(!path.take(path.len() - 1).contains(m));
                        assert(df[m] == d0[m]);
                        assert(d0[m] >= e);
                    }
                } else {
                    // Untouched node: its value is unchanged, and the value
                    // at its distinguished ancestor can only have grown.
                    assert(!path.take(path.len() - 1).contains(i));
                    assert(i != h as int);
                    assert(df[i] == d0[i]);
                    assert(i < pos);
                    assert(d0[i] <= d0[m]);
                    if path.contains(m) {
                        let km = choose|km: int| 0 <= km < path.len() && path[km] == m;
                        if km < path.len() - 1 {
                            assert(df[m] == d0[path[km + 1]]);
                            assert(path[km + 1] == dist_anc(b0, m));
                            assert(m >= 1);
                            assert(m < pos);
                            assert(d0[m] <= d0[dist_anc(b0, m)]);
                        } else {
                            assert(m == h as int);
                            assert(path.len() >= 2);
                            let kk = path.len() - 2;
                            assert(d0[path[kk + 1]] < e);
                            assert(df[m] == e);
                        }
                    } else {
                        assert(m != h as int);
                        assert(df[m] == d0[m]);
                    }
                }
            }
        }
        h
    }

    /// Pushes an item onto the weak heap: append it with a false reverse
    /// bit, then sift the new entry up.  Expected constant time over random
    /// insertion orders, logarithmic in the worst case.
    pub fn push(&mut self, item: i64)
        requires
            old(self).wf(),
        ensures
            final(self).wf(),
            final(self)@.to_multiset() == old(self)@.to_multiset().insert(item),
            final(self)@.len() == old(self)@.len() + 1,
    {
        broadcast use vstd::seq_lib::group_to_multiset_ensures;

        let ghost b0 = self.bit@;
        let old_len: usize = self.data.len();
        self.data.push(item);
        self.bit.push(false);
        if old_len != 0 {
            proof {
                assert forall|i: int| 1 <= i < old_len implies self.data@[i]
                    <= self.data@[#[trigger] dist_anc(self.bit@, i)] by {
                    lemma_dist_anc_frame(self.bit@, b0, i);
                    lemma_dist_anc_range(b0, i);
                }
            }
            self.sift_up_push(old_len);
        }
    }

    /// Re-establishes the weak-heap order when the entries from `start` on
    /// are new, the prefix before `start` being ordered already: one
    /// sift-up per appended entry.
    fn rebuild_tail(&mut self, start: usize)
        requires
            old(self).bit@.len() == old(self).data@.len(),
            start <= old(self).data@.len(),
            heap_ordered_to(old(self).data@, old(self).bit@, start as int),
        ensures
            final(self).bit@.len() == final(self).data@.len(),
            final(self).data@.len() == old(self).data@.len(),
            final(self).data@.to_multiset() == old(self).data@.to_multiset(),
            heap_ordered(final(self).data@, final(self).bit@),
            start == old(self).data@.len() ==> *final(self) == *old(self),
    {
        let mut i: usize = start;
        while i < self.data.len()
            invariant
                self.bit@.len() == self.data@.len(),
                self.data@.len() == old(self).data@.len(),
                self.data@.to_multiset() == old(self).data@.to_multiset(),
                start <= i <= self.data@.len(),
                heap_ordered_to(self.data@, self.bit@, i as int),
                start == old(self).data@.len() ==> *self == *old(self),
            decreases self.data@.len() - i,
        {
            self.sift_up_push(i);
            i += 1;
        }
    }

    /// Moves all elements of `other` into `self`, leaving `other` empty.
    /// The larger side keeps its structure, and the smaller side's entries
    /// are re-inserted one by one, which bounds the rebuilding cost by the
    /// smaller size.
    pub fn append(&mut self, other: &mut WeakHeap)
        requires
            old(self).wf(),
            old(other).wf(),
        ensures
            final(self).wf(),
            final(other).wf(),
            final(other)@.len() == 0,
            final(self)@.to_multiset() == old(self)@.to_multiset().add(old(other)@.to_multiset()),
            final(self)@.len() == old(self)@.len() + old(other)@.len(),
    {
        broadcast use vstd::multiset::group_multiset_axioms;

        if self.data.len() < other.data.len() {
            core::mem::swap(self, other);
        }
        let ghost ds = self.data@;
        let ghost bs = self.bit@;
        let ghost dot = other.data@;
        let start: usize = self.data.len();
        self.data.append(&mut other.data);
        self.bit.append(&mut other.bit);
        proof {
            vstd::seq_lib::lemma_multiset_commutative(ds, dot);
            assert forall|i: int| 1 <= i < start implies self.data@[i]
                <= self.data@[#[trigger] dist_anc(self.bit@, i)] by {
                lemma_dist_anc_frame(self.bit@, bs, i);
                lemma_dist_anc_range(bs, i);
            }
        }
        self.rebuild_tail(start);
        proof {
            assert(ds.to_multiset().add(dot.to_multiset()) =~= old(self)@.to_multiset().add(
                old(other)@.to_multiset(),
            ));
        }
    }

    /// Moves all elements of vector `other` into `self`, leaving the vector
    /// empty: false bits for the new region, then one sift-up per new
    /// entry.
    pub fn append_vec(&mut self, other: &mut Vec<i64>)
        requires
            old(self).wf(),
        ensures
            final(self).wf(),
            final(other)@.len() == 0,
            final(self)@.to_multiset() == old(self)@.to_multiset().add(old(other)@.to_multiset()),
            final(self)@.len() == old(self)@.len() + old(other)@.len(),
    {
        let start: usize = self.data.len();
        let ghost ds = self.data@;
        let ghost bs = self.bit@;
        let ghost dot = other@;
        let n: usize = other.len();
        let mut pad: Vec<bool> = vec![false; n];
        self.bit.append(&mut pad);
        self.data.append(other);
        proof {
            vstd::seq_lib::lemma_multiset_commutative(ds, dot);
            assert forall|i: int| 1 <= i < start implies self.data@[i]
                <= self.data@[#[trigger] dist_anc(self.bit@, i)] by {
                lemma_dist_anc_frame(self.bit@, bs, i);
                lemma_dist_anc_range(bs, i);
            }
        }
        self.rebuild_tail(start);
    }

    /// Pushes every element of `items` onto the heap, in order.
    pub fn extend(&mut self, items: &Vec<i64>)
        requires
            old(self).wf(),
        ensures
            final(self).wf(),
            final(self)@.to_multiset() == old(self)@.to_multiset().add(items@.to_multiset()),
            final(self)@.len() == old(self)@.len() + items@.len(),
    {
        broadcast use vstd::multiset::group_multiset_axioms;
        broadcast use vstd::seq_lib::group_to_multiset_ensures;

        proof {
            assert(items@.subrange(0, 0) =~= Seq::<i64>::empty());
            assert(self@.to_multiset() =~= old(self)@.to_multiset().add(
                items@.subrange(0, 0).to_multiset(),
            ));
        }
        let mut idx: usize = 0;
        while idx < items.len()
            invariant
                self.wf(),
                idx <= items@.len(),
                self@.to_multiset() == old(self)@.to_multiset().add(
                    items@.subrange(0, idx as int).to_multiset(),
                ),
                self@.len() == old(self)@.len() + idx,
            decreases items@.len() - idx,
        {
            let x: i64 = items[idx];
            self.push(x);
            proof {
                let sub = items@.subrange(0, idx as int);
                assert(items@.subrange(0, idx + 1) =~= sub.push(x));
                vstd::seq_lib::to_multiset_build(sub, x);
                assert(sub.push(x).to_multiset() == sub.to_multiset().insert(x));
                assert(old(self)@.to_multiset().add(sub.to_multiset().insert(x))
                    =~= old(self)@.to_multiset().add(sub.to_multiset()).insert(x));
                assert(self@.to_multiset() =~= old(self)@.to_multiset().add(
                    items@.subrange(0, idx + 1).to_multiset(),
                ));
            }
            idx += 1;
        }
        proof {
            assert(items@.subrange(0, items@.len() as int) =~= items@);
        }
    }

    /// Establishes the weak-heap order from scratch: one conditional
    /// exchange per node, from the last index down to 1.  Linear in the
    /// number of elements.
    fn rebuild(&mut self)
        requires
            old(self).bit@.len() == old(self).data@.len(),
        ensures
            final(self).bit@.len() == final(self).data@.len(),
            final(self).data@.len() == old(self).data@.len(),
            final(self).data@.to_multiset() == old(self).data@.to_multiset(),
            heap_ordered(final(self).data@, final(self).bit@),
    {
        let mut n: usize = self.data.len();
        while n > 1
            invariant
                self.bit@.len() == self.data@.len(),
                self.data@.len() == old(self).data@.len(),
                self.data@.to_multiset() == old(self).data@.to_multiset(),
                n <= self.data@.len(),
                heap_ordered_from(self.data@, self.bit@, n as int),
            decreases n,
        {
            n -= 1;
            self.sift_up(n);
        }
    }

    /// Builds a weak heap from a vector of values, taking the vector over
    /// in place: all reverse bits start out false and one bottom-up pass
    /// establishes the order.
    pub fn from_vec(v: Vec<i64>) -> (h: WeakHeap)
        ensures
            h.wf(),
            h@.to_multiset() == v@.to_multiset(),
            h@.len() == v@.len(),
    {
        let n: usize = v.len();
        let bits: Vec<bool> = vec![false; n];
        let mut h = WeakHeap { data: v, bit: bits };
        h.rebuild();
        h
    }

    /// Consumes the weak heap and returns the underlying vector, in storage
    /// order.
    pub fn into_vec(self) -> (r: Vec<i64>)
        ensures
            r@ == self@,
    {
        self.data
    }

    /// Consumes the weak heap and returns a vector sorted in ascending
    /// order: repeatedly swap the maximum behind a shrinking window and
    /// sift the displaced value down inside it.  A heapsort with the
    /// cheaper weak-heap sift-down.
    pub fn into_sorted_vec(self) -> (r: Vec<i64>)
        requires
            self.wf(),
        ensures
            sorted_asc(r@),
            r@.to_multiset() == self@.to_multiset(),
            r@.len() == self@.len(),
    {
        let mut this = self;
        broadcast use vstd::multiset::group_multiset_axioms;

        let ghost orig = self@;
        let mut end: usize = this.data.len();
        while end > 1
            invariant
                this.bit@.len() == this.data@.len(),
                this.data@.len() == orig.len(),
                1 <= end <= this.data@.len() || (end == 0 && this.data@.len() == 0),
                this.data@.to_multiset() == orig.to_multiset(),
                heap_ordered_to(this.data@, this.bit@, end as int),
                forall|k1: int, k2: int|
                    #![trigger this.data@[k1], this.data@[k2]]
                    end <= k1 <= k2 < this.data@.len() ==> this.data@[k1] <= this.data@[k2],
                end < this.data@.len() ==> forall|k: int|
                    0 <= k < end ==> #[trigger] this.data@[k] <= this.data@[end as int],
            decreases end,
        {
            end -= 1;
            let t0: i64 = this.data[0];
            let te: i64 = this.data[end];
            let ghost d1 = this.data@;
            this.data.set(0, te);
            this.data.set(end, t0);
            proof {
                lemma_swap_multiset(d1, 0, end as int);
                assert forall|k: int| 0 <= k < end + 1 implies #[trigger] d1[k] <= d1[0] by {
                    lemma_le_root(d1, this.bit@, end + 1, k);
                }
                assert forall|i: int|
                    1 <= i < end && #[trigger] dist_anc(this.bit@, i) != 0 implies this.data@[i]
                    <= this.data@[dist_anc(this.bit@, i)] by {
                    lemma_dist_anc_range(this.bit@, i);
                }
            }
            let ghost d2 = this.data@;
            this.sift_down_range(end);
            proof {
                let d3 = this.data@;
                let e = end as int;
                let n = d3.len() as int;
                lemma_split_multiset(d2, e);
                lemma_split_multiset(d3, e);
                assert(d2.subrange(e, n) =~= d3.subrange(e, n));
                assert forall|x: i64|
                    d2.subrange(0, e).to_multiset().count(x) == d3.subrange(
                        0,
                        e,
                    ).to_multiset().count(x) by {
                    let w2 = d2.subrange(0, e).to_multiset();
                    let s2 = d2.subrange(e, n).to_multiset();
                    let w3 = d3.subrange(0, e).to_multiset();
                    let s3 = d3.subrange(e, n).to_multiset();
                    assert(w2.add(s2).count(x) == w2.count(x) + s2.count(x));
                    assert(w3.add(s3).count(x) == w3.count(x) + s3.count(x));
                    assert(s2 == s3);
                    assert(w2.add(s2) == w3.add(s3));
                }
                assert(d2.subrange(0, e).to_multiset() =~= d3.subrange(0, e).to_multiset());
                assert forall|k: int| 0 <= k < e implies #[trigger] d2.subrange(0, e)[k]
                    <= t0 by {}
                lemma_perm_preserves_upper(d2.subrange(0, e), d3.subrange(0, e), t0);
                assert forall|k: int| 0 <= k < end implies #[trigger] d3[k] <= d3[e] by {
                    assert(d3[k] == d3.subrange(0, e)[k]);
                    assert(d3[e] == d2[e]);
                }
            }
        }
        proof {
            assert forall|k1: int, k2: int| 0 <= k1 <= k2 < this.data@.len() implies #[trigger] this.data@[k1]
                <= #[trigger] this.data@[k2] by {
                if k1 == 0 && k2 >= 1 {
                    assert(this.data@[0] <= this.data@[1]);
                    assert(this.data@[1] <= this.data@[k2]);
                }
            }
        }
        this.into_vec()
    }

    /// Creates an empty `WeakHeap` with room for at least `capacity`
    /// elements before reallocation.
    pub fn with_capacity(capacity: usize) -> (h: WeakHeap)
        ensures
            h@ == Seq::<i64>::empty(),
            h.wf(),
    {
        WeakHeap { data: Vec::with_capacity(capacity), bit: Vec::with_capacity(capacity) }
    }

    /// Returns the number of elements the weak heap can hold without
    /// reallocating.
    pub fn capacity(&self) -> (c: usize)
        ensures
            c >= self@.len(),
    {
        vec_capacity(&self.data)
    }

    /// Reserves capacity for at least `additional` more elements.  The
    /// stored values are untouched.  A request beyond the addressable range
    /// aborts, as the underlying array documents.
    pub fn reserve(&mut self, additional: usize)
        ensures
            final(self)@ == old(self)@,
            final(self).bits() == old(self).bits(),
            final(self).wf() == old(self).wf(),
    {
        self.data.reserve(additional);
        self.bit.reserve(additional);
    }

    /// Reserves the minimum capacity for exactly `additional` more
    /// elements.  The stored values are untouched.  A request beyond the
    /// addressable range aborts, as the underlying array documents.
    pub fn reserve_exact(&mut self, additional: usize)
        ensures
            final(self)@ == old(self)@,
            final(self).bits() == old(self).bits(),
            final(self).wf() == old(self).wf(),
    {
        vec_reserve_exact(&mut self.data, additional);
        vec_reserve_exact(&mut self.bit, additional);
    }

    /// Discards as much spare capacity as possible.  The stored values are
    /// untouched.
    pub fn shrink_to_fit(&mut self)
        ensures
            final(self)@ == old(self)@,
            final(self).bits() == old(self).bits(),
            final(self).wf() == old(self).wf(),
    {
        vec_shrink_to_fit(&mut self.data);
        vec_shrink_to_fit(&mut self.bit);
    }

    /// Discards spare capacity down to the given lower bound.  The stored
    /// values are untouched.
    pub fn shrink_to(&mut self, min_capacity: usize)
        ensures
            final(self)@ == old(self)@,
            final(self).bits() == old(self).bits(),
            final(self).wf() == old(self).wf(),
    {
        vec_shrink_to(&mut self.data, min_capacity);
        vec_shrink_to(&mut self.bit, min_capacity);
    }

    /// Returns the stored values in storage order, for read-only
    /// inspection.
    pub fn iter(&self) -> (r: Iter)
        ensures
            r@ == self@,
    {
        Iter(self.to_plain_vec())
    }

    /// Consumes the weak heap into an owning traversal of its values, in
    /// storage order.
    pub fn into_iter(self) -> (r: IntoIter)
        ensures
            r@ == self@,
    {
        IntoIter(self.data)
    }

    /// Clears the weak heap, returning the removed values in storage order.
    pub fn drain(&mut self) -> (r: Drain)
        ensures
            r@ == old(self)@,
            final(self)@.len() == 0,
            final(self).wf(),
    {
        self.bit.clear();
        let mut taken: Vec<i64> = Vec::new();
        core::mem::swap(&mut self.data, &mut taken);
        Drain(taken)
    }

    /// Drops all values from the weak heap.
    pub fn clear(&mut self)
        ensures
            final(self)@.len() == 0,
            final(self).wf(),
    {
        let _ = self.drain();
    }

    /// Takes a scoped handle to the greatest item, or `None` if the heap is
    /// empty.  The heap's contents move into the handle and come back at
    /// `WeakHeapPeekMut::release`.
    pub fn peek_mut(&mut self) -> (r: Option<WeakHeapPeekMut>)
        requires
            old(self).wf(),
        ensures
            final(self).wf(),
            old(self)@.len() == 0 ==> r is None && *final(self) == *old(self),
            old(self)@.len() > 0 ==> (r matches Some(pm) && pm.wf() && !pm.touched()
                && pm.contents() == old(self)@ && final(self)@.len() == 0),
    {
        if self.data.len() == 0 {
            return None;
        }
        let mut taken = WeakHeap::new();
        core::mem::swap(self, &mut taken);
        Some(WeakHeapPeekMut { heap: taken, sift: false })
    }

    /// Copies the stored values into a plain vector, in storage order.
    fn to_plain_vec(&self) -> (r: Vec<i64>)
        ensures
            r@ == self@,
    {
        let mut r: Vec<i64> = Vec::new();
        let mut i: usize = 0;
        while i < self.data.len()
            invariant
                i <= self.data@.len(),
                r@ == self.data@.subrange(0, i as int),
            decreases self.data@.len() - i,
        {
            r.push(self.data[i]);
            proof {
                assert(self.data@.subrange(0, i + 1) =~= self.data@.subrange(0, i as int).push(
                    self.data@[i as int],
                ));
            }
            i += 1;
        }
        proof {
            assert(self.data@.subrange(0, self.data@.len() as int) =~= self.data@);
        }
        r
    }
}

/// Relies on `Vec::capacity`: the capacity of a vector is at least its
/// length.
#[verifier::external_body]
fn vec_capacity<T>(v: &Vec<T>) -> (c: usize)
    ensures
        c >= v@.len(),
{
    v.capacity()
}

/// Relies on `Vec::reserve_exact`: reserving capacity leaves the contents
/// unchanged.
#[verifier::external_body]
fn vec_reserve_exact<T>(v: &mut Vec<T>, additional: usize)
    ensures
        final(v)@ == old(v)@,
{
    v.reserve_exact(additional);
}

/// Relies on `Vec::shrink_to_fit`: shrinking capacity leaves the contents
/// unchanged.
#[verifier::external_body]
fn vec_shrink_to_fit<T>(v: &mut Vec<T>)
    ensures
        final(v)@ == old(v)@,
{
    v.shrink_to_fit();
}

/// Relies on `Vec::shrink_to`: shrinking capacity leaves the contents
/// unchanged.
#[verifier::external_body]
fn vec_shrink_to<T>(v: &mut Vec<T>, min_capacity: usize)
    ensures
        final(v)@ == old(v)@,
{
    v.shrink_to(min_capacity);
}

/// A scoped handle to the greatest item of a non-empty `WeakHeap`.
///
/// `WeakHeap::peek_mut` moves the heap's contents into the handle;
/// `release` gives them back, re-sifting exactly when the top value was
/// overwritten; `pop` removes the peeked value without the extra sift.
pub struct WeakHeapPeekMut {
    heap: WeakHeap,
    sift: bool,
}

impl WeakHeapPeekMut {
    /// The values held by the handle, in storage order.
    pub closed spec fn contents(&self) -> Seq<i64> {
        self.heap.data@
    }

    /// The reverse bits held by the handle, in storage order.
    pub closed spec fn bits(&self) -> Seq<bool> {
        self.heap.bit@
    }

    /// Whether the top value was overwritten since the handle was taken.
    pub closed spec fn touched(&self) -> bool {
        self.sift
    }

    /// Well-formedness: non-empty, weak-heap order away from the root, and
    /// full order as long as the top value was not overwritten.
    pub closed spec fn wf(&self) -> bool {
        &&& self.heap.bit@.len() == self.heap.data@.len()
        &&& self.heap.data@.len() > 0
        &&& heap_ordered_except_root(
            self.heap.data@,
            self.heap.bit@,
            self.heap.data@.len() as int,
        )
        &&& (!self.sift ==> heap_ordered(self.heap.data@, self.heap.bit@))
    }

    /// Reads the value in the top slot.
    pub fn get(&self) -> (r: i64)
        requires
            self.wf(),
        ensures
            r == self.contents()[0],
            !self.touched() ==> is_max_of(self.contents().to_multiset(), r),
    {
        proof {
            if !self.sift {
                lemma_root_is_max(self.heap.data@, self.heap.bit@);
            }
        }
        self.heap.data[0]
    }

    /// Overwrites the value in the top slot; the order is restored when the
    /// handle is released.
    pub fn set(&mut self, value: i64)
        requires
            old(self).wf(),
        ensures
            final(self).wf(),
            final(self).touched(),
            final(self).contents() == old(self).contents().update(0, value),
    {
        self.sift = true;
        self.heap.data.set(0, value);
        proof {
            let d = self.heap.data@;
            let b = self.heap.bit@;
            assert forall|i: int| 1 <= i < d.len() && #[trigger] dist_anc(b, i) != 0 implies d[i]
                <= d[dist_anc(b, i)] by {
                lemma_dist_anc_range(b, i);
            }
        }
    }

    /// Removes the peeked value from the heap and returns it together with
    /// the remaining heap; no sift is spent on a value that leaves anyway.
    pub fn pop(this: WeakHeapPeekMut) -> (r: (i64, WeakHeap))
        requires
            this.wf(),
        ensures
            r.1.wf(),
            r.0 == this.contents()[0],
            r.1@.to_multiset() == this.contents().to_multiset().remove(this.contents()[0]),
            r.1@.len() == this.contents().len() - 1,
            !this.touched() ==> is_max_of(this.contents().to_multiset(), r.0),
    {
        proof {
            if !this.sift {
                lemma_root_is_max(this.heap.data@, this.heap.bit@);
            }
        }
        let mut heap = this.heap;
        let v: i64 = heap.remove_root();
        (v, heap)
    }

    /// Releases the handle: if the top value was overwritten, one sift-down
    /// restores the order; a handle that was only read gives the heap back
    /// exactly as it was taken.  Returns the heap.
    pub fn release(this: WeakHeapPeekMut) -> (h: WeakHeap)
        requires
            this.wf(),
        ensures
            h.wf(),
            h@.to_multiset() == this.contents().to_multiset(),
            h@.len() == this.contents().len(),
            !this.touched() ==> h@ == this.contents() && h.bits() == this.bits(),
    {
        let sift: bool = this.sift;
        let mut heap = this.heap;
        if sift {
            let n: usize = heap.data.len();
            heap.sift_down_range(n);
        }
        heap
    }
}

/// A read-only traversal over the values of a `WeakHeap`, in storage
/// order, created by `WeakHeap::iter`.
#[derive(Clone, Debug)]
pub struct Iter(pub Vec<i64>);

impl View for Iter {
    type V = Seq<i64>;

    /// The values not yet yielded.
    closed spec fn view(&self) -> Seq<i64> {
        self.0@
    }
}

impl Iter {
    /// Yields the next value from the front, or `None` when exhausted.
    pub fn next(&mut self) -> (r: Option<i64>)
        ensures
            old(self)@.len() == 0 ==> r is None && final(self)@ == old(self)@,
            old(self)@.len() > 0 ==> r == Some(old(self)@[0]) && final(self)@ == old(
                self,
            )@.subrange(1, old(self)@.len() as int),
    {
        if self.0.len() == 0 {
            None
        } else {
            let x: i64 = self.0.remove(0);
            proof {
                assert(old(self)@.remove(0) =~= old(self)@.subrange(1, old(self)@.len() as int));
            }
            Some(x)
        }
    }

    /// Yields the next value from the back, or `None` when exhausted.
    pub fn next_back(&mut self) -> (r: Option<i64>)
        ensures
            old(self)@.len() == 0 ==> r is None && final(self)@ == old(self)@,
            old(self)@.len() > 0 ==> r == Some(old(self)@.last()) && final(self)@ == old(
                self,
            )@.drop_last(),
    {
        let r = self.0.pop();
        proof {
            if old(self)@.len() > 0 {
                assert(old(self)@.subrange(0, old(self)@.len() - 1) =~= old(self)@.drop_last());
            }
        }
        r
    }

    /// The number of values left, as a lower and an upper bound.
    pub fn size_hint(&self) -> (r: (usize, Option<usize>))
        ensures
            r.0 == self@.len(),
            r.1 == Some(self@.len() as usize),
    {
        (self.0.len(), Some(self.0.len()))
    }

    /// Consumes the traversal and returns its last value, if any.
    pub fn last(self) -> (r: Option<i64>)
        ensures
            self@.len() == 0 ==> r is None,
            self@.len() > 0 ==> r == Some(self@.last()),
    {
        let mut v = self.0;
        v.pop()
    }
}

/// An owning traversal over the values of a `WeakHeap`, in storage order,
/// created by `WeakHeap::into_iter`.
#[derive(Clone, Debug)]
pub struct IntoIter(pub Vec<i64>);

impl View for IntoIter {
    type V = Seq<i64>;

    /// The values not yet yielded.
    closed spec fn view(&self) -> Seq<i64> {
        self.0@
    }
}

impl IntoIter {
    /// Yields the next value from the front, or `None` when exhausted.
    pub fn next(&mut self) -> (r: Option<i64>)
        ensures
            old(self)@.len() == 0 ==> r is None && final(self)@ == old(self)@,
            old(self)@.len() > 0 ==> r == Some(old(self)@[0]) && final(self)@ == old(
                self,
            )@.subrange(1, old(self)@.len() as int),
    {
        if self.0.len() == 0 {
            None
        } else {
            let x: i64 = self.0.remove(0);
            proof {
                assert(old(self)@.remove(0) =~= old(self)@.subrange(1, old(self)@.len() as int));
            }
            Some(x)
        }
    }

    /// Yields the next value from the back, or `None` when exhausted.
    pub fn next_back(&mut self) -> (r: Option<i64>)
        ensures
            old(self)@.len() == 0 ==> r is None && final(self)@ == old(self)@,
            old(self)@.len() > 0 ==> r == Some(old(self)@.last()) && final(self)@ == old(
                self,
            )@.drop_last(),
    {
        let r = self.0.pop();
        proof {
            if old(self)@.len() > 0 {
                assert(old(self)@.subrange(0, old(self)@.len() - 1) =~= old(self)@.drop_last());
            }
        }
        r
    }
}

/// The values removed by `WeakHeap::drain`, in storage order.
#[derive(Clone, Debug)]
pub struct Drain(pub Vec<i64>);

impl View for Drain {
    type V = Seq<i64>;

    /// The values not yet yielded.
    closed spec fn view(&self) -> Seq<i64> {
        self.0@
    }
}

impl Drain {
    /// Yields the next value from the front, or `None` when exhausted.
    pub fn next(&mut self) -> (r: Option<i64>)
        ensures
            old(self)@.len() == 0 ==> r is None && final(self)@ == old(self)@,
            old(self)@.len() > 0 ==> r == Some(old(self)@[0]) && final(self)@ == old(
                self,
            )@.subrange(1, old(self)@.len() as int),
    {
        if self.0.len() == 0 {
            None
        } else {
            let x: i64 = self.0.remove(0);
            proof {
                assert(old(self)@.remove(0) =~= old(self)@.subrange(1, old(self)@.len() as int));
            }
            Some(x)
        }
    }

    /// Yields the next value from the back, or `None` when exhausted.
    pub fn next_back(&mut self) -> (r: Option<i64>)
        ensures
            old(self)@.len() == 0 ==> r is None && final(self)@ == old(self)@,
            old(self)@.len() > 0 ==> r == Some(old(self)@.last()) && final(self)@ == old(
                self,
            )@.drop_last(),
    {
        let r = self.0.pop();
        proof {
            if old(self)@.len() > 0 {
                assert(old(self)@.subrange(0, old(self)@.len() - 1) =~= old(self)@.drop_last());
            }
        }
        r
    }

    /// The number of values left, as a lower and an upper bound.
    pub fn size_hint(&self) -> (r: (usize, Option<usize>))
        ensures
            r.0 == self@.len(),
            r.1 == Some(self@.len() as usize),
    {
        (self.0.len(), Some(self.0.len()))
    }
}

/// Well-formedness is exactly the weak-heap order: for every non-root
/// index the value is bounded by the value at its distinguished ancestor,
/// with one reverse bit per value.  This is the invariant that every
/// operation of the library preserves.
pub proof fn lemma_wf_heap_order(h: &WeakHeap)
    requires
        h.wf(),
    ensures
        h.bits().len() == h@.len(),
        heap_ordered(h@, h.bits()),
{
}

/// In a well-formed non-empty heap the root entry is a maximum of the
/// stored values: what `peek` returns is the greatest element.
pub proof fn lemma_wf_root_max(h: &WeakHeap)
    requires
        h.wf(),
        h@.len() > 0,
    ensures
        is_max_of(h@.to_multiset(), h@[0]),
{
    lemma_root_is_max(h.data@, h.bit@);
}

} // verus!
