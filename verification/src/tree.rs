//! The tree engine: a flat, 1-indexed array of optional node values over a
//! fixed number of leaves, with recursive build, point update and range
//! query. All value combination is delegated to the node capability traits.

use vstd::prelude::*;
use vstd::arithmetic::power2::lemma2_to64;
use vstd::arithmetic::power2::lemma_pow2_adds;
use vstd::arithmetic::power2::lemma_pow2_pos;
use vstd::arithmetic::power2::lemma_pow2_strictly_increases;
use vstd::arithmetic::power2::pow2;
use crate::node::lemma_merge_seq_append;
use crate::node::merge_seq;
use crate::node::NodeMerge;
use crate::node::NodeUpdate;
use crate::node::SegNode;
use crate::node::UpdateWithOf;

verus! {

broadcast use vstd::std_specs::vec::group_vec_axioms;

/// The aggregate of the 1-indexed element range `[l, r]`: the left-to-right
/// merge of `elems[l-1 .. r]`.
pub open spec fn seg_val<T: SegNode>(elems: Seq<T>, l: int, r: int) -> T
    recommends
        1 <= l <= r <= elems.len(),
{
    merge_seq::<T, <T as SegNode>::Merge>(elems.subrange(l - 1, r))
}

/// The array positions that the recursion over the range `[l, r]`, anchored
/// at position `p`, visits: `p` itself and, when the range splits, the
/// positions of the two half-range recursions at `2p` and `2p + 1`.
pub open spec fn reachable(l: int, r: int, p: int, q: int) -> bool
    decreases r - l,
{
    q == p || (l < r && {
        let mid = l + (r - l) / 2;
        ||| reachable(l, mid, 2 * p, q)
        ||| reachable(mid + 1, r, 2 * p + 1, q)
    })
}

/// Heap ancestry: position `p` stands on the parent chain `q`, `q / 2`,
/// `q / 4`, ... of position `q`.
spec fn is_ancestor(p: int, q: int) -> bool
    decreases q,
{
    q == p || (q > p && q >= 2 && is_ancestor(p, q / 2))
}

/// The build-merge invariant for the subtree anchored at position `p` over
/// the 1-indexed element range `[l, r]`: every position of the recursion
/// stores exactly the merge, in range order, of the elements its range
/// covers.
pub open spec fn subtree_ok<T: SegNode>(
    tree: Seq<Option<T>>,
    elems: Seq<T>,
    p: int,
    l: int,
    r: int,
) -> bool
    decreases r - l,
{
    &&& 1 <= l <= r <= elems.len()
    &&& 1 <= p < tree.len()
    &&& tree[p] == Some(seg_val::<T>(elems, l, r))
    &&& (l < r ==> {
        let mid = l + (r - l) / 2;
        &&& subtree_ok::<T>(tree, elems, 2 * p, l, mid)
        &&& subtree_ok::<T>(tree, elems, 2 * p + 1, mid + 1, r)
    })
}

/// What the query recursion contributes at a node covering the 1-indexed
/// range `[l, r]` for the 1-indexed target range `[lq, rq]`: the aggregate
/// of the intersection, or absent when the two ranges do not overlap.
spec fn clipped_val<T: SegNode>(elems: Seq<T>, l: int, r: int, lq: int, rq: int) -> Option<T> {
    let a = if lq > l {
        lq
    } else {
        l
    };
    let b = if rq < r {
        rq
    } else {
        r
    };
    if a <= b {
        Some(seg_val::<T>(elems, a, b))
    } else {
        None
    }
}

/// How an operation on a [`SegmentTree`] fails.
#[derive(Clone, Copy, Debug, PartialEq, Eq, Structural)]
pub enum SegTreeError {
    /// An update was asked for an index at or past the leaf count.
    IndexOutOfBounds,
    /// A query range covers no element at all.
    EmptyRange,
}

/// A segment tree over `leaf_count` elements: a flat array of optional node
/// values, 1-indexed, sized at four times the leaf count; position 1 is the
/// root and position `p` has children `2p` and `2p + 1`.
pub struct SegmentTree<T: SegNode> {
    tree: Vec<Option<T>>,
    leaf_count: usize,
    elems: Ghost<Seq<T>>,
}

impl<T: SegNode> SegmentTree<T> {
    /// The current value of every element, in order: what `build` was given,
    /// as since modified by `update`.
    pub closed spec fn elems(self) -> Seq<T> {
        self.elems@
    }

    /// The number of elements the tree was built over; fixed for the tree's
    /// lifetime.
    pub closed spec fn spec_leaf_count(self) -> int {
        self.leaf_count as int
    }

    /// The stored node array, root at position 1.
    pub closed spec fn nodes(self) -> Seq<Option<T>> {
        self.tree@
    }

    /// Well-formedness: the array is sized at four times the leaf count,
    /// every position the recursion reaches stores the aggregate of its
    /// range, and every other position is absent.
    pub closed spec fn wf(self) -> bool {
        &&& self.elems@.len() == self.leaf_count
        &&& self.tree@.len() == 4 * self.leaf_count
        &&& (self.leaf_count > 0 ==> subtree_ok::<T>(
            self.tree@,
            self.elems@,
            1,
            1,
            self.leaf_count as int,
        ))
        &&& (forall|q: int|
            0 <= q < self.tree@.len() && !(self.leaf_count > 0 && reachable(
                1,
                self.leaf_count as int,
                1,
                q,
            )) ==> self.tree@[q] is None)
    }

    /// What a query over the zero-based inclusive range `[lq, rq]` yields:
    /// the aggregate of the elements in the range, the right end clipped to
    /// the last element; absent when the range covers no element.
    pub open spec fn spec_query(self, lq: int, rq: int) -> Option<T> {
        if 0 <= lq <= rq && lq < self.spec_leaf_count() {
            let hi = if rq + 1 < self.spec_leaf_count() {
                rq + 1
            } else {
                self.spec_leaf_count()
            };
            Some(seg_val::<T>(self.elems(), lq + 1, hi))
        } else {
            None
        }
    }

    /// The build-merge invariant, as every well-formed tree satisfies it:
    /// each array position the recursion reaches stores exactly the merge,
    /// in left-to-right order, of the elements its range covers, and each
    /// position covering no element is absent.
    pub proof fn lemma_node_invariant(self)
        requires
            self.wf(),
        ensures
            self.elems().len() == self.spec_leaf_count(),
            self.nodes().len() == 4 * self.spec_leaf_count(),
            self.spec_leaf_count() > 0 ==> subtree_ok::<T>(
                self.nodes(),
                self.elems(),
                1,
                1,
                self.spec_leaf_count(),
            ),
            forall|q: int|
                0 <= q < self.nodes().len() && !(self.spec_leaf_count() > 0 && reachable(
                    1,
                    self.spec_leaf_count(),
                    1,
                    q,
                )) ==> self.nodes()[q] is None,
    {
    }
}

/// A child's subtree positions are subtree positions of the parent.
proof fn lemma_ancestor_child(p: int, q: int)
    requires
        1 <= p,
        is_ancestor(2 * p, q) || is_ancestor(2 * p + 1, q),
    ensures
        is_ancestor(p, q),
    decreases q,
{
    if q == 2 * p || q == 2 * p + 1 {
        assert(q / 2 == p);
        assert(is_ancestor(p, p));
    } else {
        lemma_ancestor_child(p, q / 2);
    }
    assert(is_ancestor(p, q / 2));
}

/// The two children of a position have disjoint subtrees.
proof fn lemma_ancestor_sibling_disjoint(p: int, q: int)
    requires
        1 <= p,
    ensures
        !(is_ancestor(2 * p, q) && is_ancestor(2 * p + 1, q)),
    decreases q,
{
    if is_ancestor(2 * p, q) && is_ancestor(2 * p + 1, q) {
        if q == 2 * p {
            assert(!is_ancestor(2 * p + 1, q));
        } else if q == 2 * p + 1 {
            assert((2 * p + 1) / 2 == p);
            assert(!is_ancestor(2 * p, p));
        } else {
            lemma_ancestor_sibling_disjoint(p, q / 2);
        }
    }
}

/// Every position the range recursion reaches lies in the heap subtree of
/// its anchor.
proof fn lemma_reachable_ancestor(l: int, r: int, p: int, q: int)
    requires
        1 <= p,
        reachable(l, r, p, q),
    ensures
        is_ancestor(p, q),
    decreases r - l,
{
    if q != p {
        let mid = l + (r - l) / 2;
        if reachable(l, mid, 2 * p, q) {
            lemma_reachable_ancestor(l, mid, 2 * p, q);
        } else {
            lemma_reachable_ancestor(mid + 1, r, 2 * p + 1, q);
        }
        lemma_ancestor_child(p, q);
    }
}

/// The build-merge invariant of a subtree depends only on the positions the
/// recursion reaches: an array that agrees there satisfies it too.
proof fn lemma_subtree_frame<T: SegNode>(
    t1: Seq<Option<T>>,
    t2: Seq<Option<T>>,
    elems: Seq<T>,
    p: int,
    l: int,
    r: int,
)
    requires
        subtree_ok::<T>(t1, elems, p, l, r),
        t2.len() == t1.len(),
        forall|q: int| 0 <= q < t1.len() && reachable(l, r, p, q) ==> t2[q] == t1[q],
    ensures
        subtree_ok::<T>(t2, elems, p, l, r),
    decreases r - l,
{
    assert(reachable(l, r, p, p));
    if l < r {
        let mid = l + (r - l) / 2;
        assert forall|q: int| 0 <= q < t1.len() && reachable(l, mid, 2 * p, q) implies t2[q]
            == t1[q] by {
            assert(reachable(l, r, p, q));
        }
        assert forall|q: int| 0 <= q < t1.len() && reachable(mid + 1, r, 2 * p + 1, q) implies t2[q]
            == t1[q] by {
            assert(reachable(l, r, p, q));
        }
        lemma_subtree_frame::<T>(t1, t2, elems, 2 * p, l, mid);
        lemma_subtree_frame::<T>(t1, t2, elems, 2 * p + 1, mid + 1, r);
    }
}

/// The build-merge invariant of a subtree depends only on the elements of
/// its range: element sequences that agree there are interchangeable.
proof fn lemma_subtree_elems_frame<T: SegNode>(
    tree: Seq<Option<T>>,
    e1: Seq<T>,
    e2: Seq<T>,
    p: int,
    l: int,
    r: int,
)
    requires
        subtree_ok::<T>(tree, e1, p, l, r),
        e2.len() == e1.len(),
        forall|j: int| l - 1 <= j < r ==> e2[j] == e1[j],
    ensures
        subtree_ok::<T>(tree, e2, p, l, r),
    decreases r - l,
{
    assert(e2.subrange(l - 1, r) =~= e1.subrange(l - 1, r));
    if l < r {
        let mid = l + (r - l) / 2;
        lemma_subtree_elems_frame::<T>(tree, e1, e2, p * 2, l, mid);
        lemma_subtree_elems_frame::<T>(tree, e1, e2, p * 2 + 1, mid + 1, r);
        assert(subtree_ok::<T>(tree, e2, 2 * p, l, mid));
        assert(subtree_ok::<T>(tree, e2, 2 * p + 1, mid + 1, r));
    }
}

/// Splitting a range at any interior point: the aggregate of the whole
/// range is the merge of the two halves' aggregates.
pub proof fn lemma_seg_val_split<T: SegNode>(elems: Seq<T>, l: int, mid: int, r: int)
    requires
        1 <= l <= mid < r <= elems.len(),
    ensures
        seg_val::<T>(elems, l, r) == <<T as SegNode>::Merge as NodeMerge<T>>::spec_merge(
            seg_val::<T>(elems, l, mid),
            seg_val::<T>(elems, mid + 1, r),
        ),
{
    assert(elems.subrange(l - 1, mid) + elems.subrange(mid, r) =~= elems.subrange(l - 1, r));
    lemma_merge_seq_append::<T, <T as SegNode>::Merge>(
        elems.subrange(l - 1, mid),
        elems.subrange(mid, r),
    );
}

/// The query recursion's split step: what a node contributes for a target
/// range is the absent-aware merge of what its two children contribute.
proof fn lemma_clipped_split<T: SegNode>(elems: Seq<T>, l: int, r: int, lq: int, rq: int)
    requires
        1 <= l < r <= elems.len(),
    ensures
        ({
            let mid = l + (r - l) / 2;
            clipped_val::<T>(elems, l, r, lq, rq) == <crate::node::OptionNodeMerge as NodeMerge<
                Option<T>,
            >>::spec_merge(
                clipped_val::<T>(elems, l, mid, lq, rq),
                clipped_val::<T>(elems, mid + 1, r, lq, rq),
            )
        }),
{
    let mid = l + (r - l) / 2;
    let a = if lq > l {
        lq
    } else {
        l
    };
    let b = if rq < r {
        rq
    } else {
        r
    };
    if a <= mid && mid < b {
        lemma_seg_val_split::<T>(elems, a, mid, b);
    }
}

/// For every `n >= 1` some power of two lies in `[n, 2n)`.
proof fn lemma_pow2_cover(n: nat)
    requires
        n >= 1,
    ensures
        exists|k: nat| n <= #[trigger] pow2(k) && pow2(k) < 2 * n,
    decreases n,
{
    lemma2_to64();
    if n == 1 {
        assert(n <= pow2(0) && pow2(0) < 2 * n);
    } else {
        lemma_pow2_cover((n - 1) as nat);
        let k = choose|k: nat| (n - 1) as nat <= #[trigger] pow2(k) && pow2(k) < 2 * ((n - 1) as nat);
        if pow2(k) >= n {
            assert(n <= pow2(k) && pow2(k) < 2 * n);
        } else {
            lemma_pow2_adds(1, k);
            assert(pow2(k + 1) == 2 * pow2(k));
            assert(n <= pow2(k + 1) && pow2(k + 1) < 2 * n);
        }
    }
}

impl<T: SegNode> SegmentTree<T> {
    /// Merge two node values through `T2`'s merge capability.
    pub fn node_merge<T2: SegNode>(n1: &T2, n2: &T2) -> (r: T2)
        ensures
            r == <<T2 as SegNode>::Merge as NodeMerge<T2>>::spec_merge(*n1, *n2),
    {
        <<T2 as SegNode>::Merge as NodeMerge<T2>>::merge(n1, n2)
    }

    /// Update a node value in place through `T2`'s update capability.
    pub fn node_update<T2: SegNode>(node_mut: &mut T2, val: &UpdateWithOf<T2>)
        ensures
            *final(node_mut) == <<T2 as SegNode>::Update as NodeUpdate<T2>>::spec_update(
                *old(node_mut),
                *val,
            ),
    {
        <<T2 as SegNode>::Update as NodeUpdate<T2>>::update(node_mut, val)
    }

    /// Build a tree over the given elements, in order. Never fails; an empty
    /// input yields a tree with leaf count zero, on which every query fails.
    pub fn build(data: Vec<T>) -> (t: Self)
        requires
            4 * data@.len() <= usize::MAX,
        ensures
            t.wf(),
            t.elems() == data@,
            t.spec_leaf_count() == data@.len(),
    {
        let leaf_count = data.len();
        let size = 4 * leaf_count;
        let mut tree: Vec<Option<T>> = Vec::new();
        while tree.len() < size
            invariant
                tree@.len() <= size,
                size == 4 * data@.len(),
                forall|q: int| 0 <= q < tree@.len() ==> tree@[q] is None,
            decreases size - tree@.len(),
        {
            tree.push(None);
        }
        let mut t = SegmentTree { tree, leaf_count, elems: Ghost(data@) };
        if leaf_count > 0 {
            proof {
                lemma_pow2_cover(leaf_count as nat);
                lemma2_to64();
            }
            let ghost k0 = choose|k: nat|
                leaf_count as nat <= #[trigger] pow2(k) && pow2(k) < 2 * (leaf_count as nat);
            t.build_internal(&data, 1, 1, leaf_count, Ghost(1), Ghost(k0));
        }
        t
    }

    /// Fill the subtree anchored at `ind` over the 1-indexed range `[l, r]`.
    /// The ghost exponents bound the position (`ind < 2^m`) and the range
    /// length (`r - l + 1 <= 2^k`) so that every position the recursion
    /// writes stays under four times the leaf count.
    fn build_internal(
        &mut self,
        data: &Vec<T>,
        ind: usize,
        l: usize,
        r: usize,
        Ghost(m): Ghost<nat>,
        Ghost(k): Ghost<nat>,
    )
        requires
            old(self).leaf_count == data@.len(),
            old(self).tree@.len() == 4 * data@.len(),
            4 * data@.len() <= usize::MAX,
            1 <= l <= r <= data@.len(),
            1 <= ind,
            (ind as int) < pow2(m),
            r - l + 1 <= pow2(k),
            pow2(m) * pow2(k) < 4 * data@.len(),
        ensures
            final(self).leaf_count == old(self).leaf_count,
            final(self).elems == old(self).elems,
            final(self).tree@.len() == old(self).tree@.len(),
            subtree_ok::<T>(final(self).tree@, data@, ind as int, l as int, r as int),
            forall|q: int|
                0 <= q < old(self).tree@.len() && !reachable(l as int, r as int, ind as int, q)
                    ==> final(self).tree@[q] == old(self).tree@[q],
        decreases r - l,
    {
        proof {
            lemma_pow2_pos(k);
            lemma_pow2_pos(m);
            lemma_pow2_adds(m, k);
            if k > 0 {
                lemma_pow2_strictly_increases(m, m + k);
            }
            assert((ind as int) < 4 * data@.len());
        }
        if l == r {
            let node = Some(data[l - 1].dup());
            self.tree[ind] = node;
            proof {
                assert(data@.subrange(l - 1, l as int) =~= seq![data@[l - 1]]);
                assert(subtree_ok::<T>(self.tree@, data@, ind as int, l as int, r as int));
            }
        } else {
            let mid = l + (r - l) / 2;
            proof {
                lemma2_to64();
                if k == 0 {
                    assert(pow2(0) == 1);
                }
                lemma_pow2_adds(1, (k - 1) as nat);
                lemma_pow2_adds(m + 1, (k - 1) as nat);
                lemma_pow2_adds(1, m);
                lemma_pow2_pos((k - 1) as nat);
                assert(k >= 1);
                if k > 1 {
                    lemma_pow2_strictly_increases(m + 1, m + k);
                }
                assert(pow2(m + 1) <= pow2(m) * pow2(k));
                assert(2 * (ind as int) + 1 < 4 * data@.len());
            }
            let ghost tree0 = self.tree@;
            self.build_internal(data, 2 * ind, l, mid, Ghost(m + 1), Ghost((k - 1) as nat));
            let ghost tree1 = self.tree@;
            self.build_internal(data, 2 * ind + 1, mid + 1, r, Ghost(m + 1), Ghost((k - 1) as nat));
            proof {
                assert forall|q: int|
                    0 <= q < tree1.len() && reachable(
                        l as int,
                        mid as int,
                        2 * (ind as int),
                        q,
                    ) implies self.tree@[q] == tree1[q] by {
                    lemma_reachable_ancestor(l as int, mid as int, 2 * (ind as int), q);
                    if reachable(mid + 1 as int, r as int, 2 * (ind as int) + 1, q) {
                        lemma_reachable_ancestor(mid + 1 as int, r as int, 2 * (ind as int) + 1, q);
                        lemma_ancestor_sibling_disjoint(ind as int, q);
                    }
                }
                lemma_subtree_frame::<T>(tree1, self.tree@, data@, 2 * (ind as int), l as int, mid as int);
            }
            let ghost tree2 = self.tree@;
            let merged = Self::node_merge(&self.tree[2 * ind], &self.tree[2 * ind + 1]);
            self.tree[ind] = merged;
            proof {
                assert forall|q: int|
                    0 <= q < tree2.len() && reachable(
                        l as int,
                        mid as int,
                        2 * (ind as int),
                        q,
                    ) implies self.tree@[q] == tree2[q] by {
                    lemma_reachable_ancestor(l as int, mid as int, 2 * (ind as int), q);
                }
                assert forall|q: int|
                    0 <= q < tree2.len() && reachable(
                        mid + 1 as int,
                        r as int,
                        2 * (ind as int) + 1,
                        q,
                    ) implies self.tree@[q] == tree2[q] by {
                    lemma_reachable_ancestor(mid + 1 as int, r as int, 2 * (ind as int) + 1, q);
                }
                lemma_subtree_frame::<T>(tree2, self.tree@, data@, 2 * (ind as int), l as int, mid as int);
                lemma_subtree_frame::<T>(
                    tree2,
                    self.tree@,
                    data@,
                    2 * (ind as int) + 1,
                    mid + 1 as int,
                    r as int,
                );
                lemma_seg_val_split::<T>(data@, l as int, mid as int, r as int);
                assert(subtree_ok::<T>(self.tree@, data@, ind as int, l as int, r as int));
                assert forall|q: int|
                    0 <= q < tree0.len() && !reachable(l as int, r as int, ind as int, q) implies self.tree@[q]
                    == tree0[q] by {
                    assert(!reachable(l as int, mid as int, 2 * (ind as int), q));
                    assert(!reachable(mid + 1 as int, r as int, 2 * (ind as int) + 1, q));
                    assert(q != ind as int);
                }
            }
        }
    }

    /// Apply the update payload to the element at zero-based index `ind` and
    /// restore the aggregate of every position on the path to it. Fails, and
    /// changes nothing, when `ind` is at or past the leaf count.
    pub fn update(&mut self, ind: usize, val: &UpdateWithOf<T>) -> (res: Result<(), SegTreeError>)
        requires
            old(self).wf(),
        ensures
            final(self).wf(),
            final(self).spec_leaf_count() == old(self).spec_leaf_count(),
            match res {
                Ok(()) => ind < old(self).spec_leaf_count() && final(self).elems() == old(
                    self,
                ).elems().update(
                    ind as int,
                    <<T as SegNode>::Update as NodeUpdate<T>>::spec_update(
                        old(self).elems()[ind as int],
                        *val,
                    ),
                ),
                Err(e) => ind >= old(self).spec_leaf_count() && e
                    == SegTreeError::IndexOutOfBounds && *final(self) == *old(self),
            },
    {
        if ind >= self.leaf_count {
            return Err(SegTreeError::IndexOutOfBounds);
        }
        let n = self.leaf_count;
        self.update_internal(1, 1, n, ind + 1, val);
        let ghost e1 = self.elems@.update(
            ind as int,
            <<T as SegNode>::Update as NodeUpdate<T>>::spec_update(self.elems@[ind as int], *val),
        );
        proof {
            self.elems@ = e1;
        }
        Ok(())
    }

    /// Descend to the leaf holding the 1-indexed target `ind_upd`, update it
    /// in place, and recompute every position on the way back up as the
    /// merge of its children.
    fn update_internal(&mut self, ind: usize, l: usize, r: usize, ind_upd: usize, val: &UpdateWithOf<T>)
        requires
            subtree_ok::<T>(old(self).tree@, old(self).elems@, ind as int, l as int, r as int),
            l <= ind_upd <= r,
        ensures
            final(self).leaf_count == old(self).leaf_count,
            final(self).elems == old(self).elems,
            final(self).tree@.len() == old(self).tree@.len(),
            subtree_ok::<T>(
                final(self).tree@,
                old(self).elems@.update(
                    ind_upd - 1,
                    <<T as SegNode>::Update as NodeUpdate<T>>::spec_update(
                        old(self).elems@[ind_upd - 1],
                        *val,
                    ),
                ),
                ind as int,
                l as int,
                r as int,
            ),
            forall|q: int|
                0 <= q < old(self).tree@.len() && !reachable(l as int, r as int, ind as int, q)
                    ==> final(self).tree@[q] == old(self).tree@[q],
        decreases r - l,
    {
        let ghost e0 = self.elems@;
        let ghost e1 = e0.update(
            ind_upd - 1,
            <<T as SegNode>::Update as NodeUpdate<T>>::spec_update(e0[ind_upd - 1], *val),
        );
        if l == r {
            let mut node = self.tree[ind].dup();
            Self::node_update::<Option<T>>(&mut node, val);
            self.tree[ind] = node;
            proof {
                assert(e0.subrange(l - 1, l as int) =~= seq![e0[l - 1]]);
                assert(e1.subrange(l - 1, l as int) =~= seq![e1[l - 1]]);
                assert(subtree_ok::<T>(self.tree@, e1, ind as int, l as int, r as int));
            }
        } else {
            let mid = l + (r - l) / 2;
            proof {
                assert(subtree_ok::<T>(self.tree@, self.elems@, 2 * (ind as int), l as int, mid as int));
                assert(subtree_ok::<T>(
                    self.tree@,
                    self.elems@,
                    2 * (ind as int) + 1,
                    mid + 1 as int,
                    r as int,
                ));
                assert(self.tree.len() == self.tree@.len());
                assert(2 * (ind as int) + 1 < self.tree@.len());
            }
            let ghost tree0 = self.tree@;
            if ind_upd <= mid {
                self.update_internal(2 * ind, l, mid, ind_upd, val);
                proof {
                    assert forall|q: int|
                        0 <= q < tree0.len() && reachable(
                            mid + 1 as int,
                            r as int,
                            2 * (ind as int) + 1,
                            q,
                        ) implies self.tree@[q] == tree0[q] by {
                        lemma_reachable_ancestor(mid + 1 as int, r as int, 2 * (ind as int) + 1, q);
                        if reachable(l as int, mid as int, 2 * (ind as int), q) {
                            lemma_reachable_ancestor(l as int, mid as int, 2 * (ind as int), q);
                            lemma_ancestor_sibling_disjoint(ind as int, q);
                        }
                    }
                    lemma_subtree_frame::<T>(
                        tree0,
                        self.tree@,
                        e0,
                        2 * (ind as int) + 1,
                        mid + 1 as int,
                        r as int,
                    );
                    lemma_subtree_elems_frame::<T>(
                        self.tree@,
                        e0,
                        e1,
                        2 * (ind as int) + 1,
                        mid + 1 as int,
                        r as int,
                    );
                }
            } else {
                self.update_internal(2 * ind + 1, mid + 1, r, ind_upd, val);
                proof {
                    assert forall|q: int|
                        0 <= q < tree0.len() && reachable(
                            l as int,
                            mid as int,
                            2 * (ind as int),
                            q,
                        ) implies self.tree@[q] == tree0[q] by {
                        lemma_reachable_ancestor(l as int, mid as int, 2 * (ind as int), q);
                        if reachable(mid + 1 as int, r as int, 2 * (ind as int) + 1, q) {
                            lemma_reachable_ancestor(
                                mid + 1 as int,
                                r as int,
                                2 * (ind as int) + 1,
                                q,
                            );
                            lemma_ancestor_sibling_disjoint(ind as int, q);
                        }
                    }
                    lemma_subtree_frame::<T>(
                        tree0,
                        self.tree@,
                        e0,
                        2 * (ind as int),
                        l as int,
                        mid as int,
                    );
                    lemma_subtree_elems_frame::<T>(
                        self.tree@,
                        e0,
                        e1,
                        2 * (ind as int),
                        l as int,
                        mid as int,
                    );
                }
            }
            let ghost tree1 = self.tree@;
            let merged = Self::node_merge(&self.tree[2 * ind], &self.tree[2 * ind + 1]);
            self.tree[ind] = merged;
            proof {
                assert forall|q: int|
                    0 <= q < tree1.len() && reachable(
                        l as int,
                        mid as int,
                        2 * (ind as int),
                        q,
                    ) implies self.tree@[q] == tree1[q] by {
                    lemma_reachable_ancestor(l as int, mid as int, 2 * (ind as int), q);
                }
                assert forall|q: int|
                    0 <= q < tree1.len() && reachable(
                        mid + 1 as int,
                        r as int,
                        2 * (ind as int) + 1,
                        q,
                    ) implies self.tree@[q] == tree1[q] by {
                    lemma_reachable_ancestor(mid + 1 as int, r as int, 2 * (ind as int) + 1, q);
                }
                lemma_subtree_frame::<T>(tree1, self.tree@, e1, 2 * (ind as int), l as int, mid as int);
                lemma_subtree_frame::<T>(
                    tree1,
                    self.tree@,
                    e1,
                    2 * (ind as int) + 1,
                    mid + 1 as int,
                    r as int,
                );
                lemma_seg_val_split::<T>(e1, l as int, mid as int, r as int);
                assert(subtree_ok::<T>(self.tree@, e1, ind as int, l as int, r as int));
                assert forall|q: int|
                    0 <= q < tree0.len() && !reachable(l as int, r as int, ind as int, q) implies self.tree@[q]
                    == tree0[q] by {
                    assert(!reachable(l as int, mid as int, 2 * (ind as int), q));
                    assert(!reachable(mid + 1 as int, r as int, 2 * (ind as int) + 1, q));
                    assert(q != ind as int);
                }
            }
        }
    }

    /// The aggregate of the zero-based inclusive element range `[low, high]`,
    /// the right end clipped to the last element. Fails when the range covers
    /// no element: when `low > high`, when `low` is at or past the leaf
    /// count, and in particular on every query against an empty tree.
    pub fn query(&self, low: usize, high: usize) -> (res: Result<T, SegTreeError>)
        requires
            self.wf(),
        ensures
            match res {
                Ok(v) => self.spec_query(low as int, high as int) == Some(v),
                Err(e) => self.spec_query(low as int, high as int) is None && e
                    == SegTreeError::EmptyRange,
            },
    {
        if low > high || low >= self.leaf_count {
            return Err(SegTreeError::EmptyRange);
        }
        let n = self.leaf_count;
        let hi = if high >= n - 1 {
            n
        } else {
            high + 1
        };
        match self.query_internal(1, 1, n, low + 1, hi) {
            Some(v) => Ok(v),
            None => {
                proof {
                    assert(false);
                }
                Err(SegTreeError::EmptyRange)
            },
        }
    }

    /// What the subtree anchored at `ind` over `[l, r]` contributes to the
    /// 1-indexed target range `[lq, rq]`: absent on no overlap, the stored
    /// aggregate on containment, and the merge of the children's
    /// contributions otherwise.
    fn query_internal(&self, ind: usize, l: usize, r: usize, lq: usize, rq: usize) -> (res: Option<
        T,
    >)
        requires
            subtree_ok::<T>(self.tree@, self.elems@, ind as int, l as int, r as int),
            1 <= lq <= rq,
        ensures
            res == clipped_val::<T>(self.elems@, l as int, r as int, lq as int, rq as int),
        decreases r - l,
    {
        if rq < l || r < lq {
            return None;
        }
        if lq <= l && r <= rq {
            return self.tree[ind].dup();
        }
        let mid = l + (r - l) / 2;
        proof {
            assert(subtree_ok::<T>(self.tree@, self.elems@, 2 * (ind as int), l as int, mid as int));
            assert(subtree_ok::<T>(
                self.tree@,
                self.elems@,
                2 * (ind as int) + 1,
                mid + 1 as int,
                r as int,
            ));
            assert(self.tree.len() == self.tree@.len());
        }
        let lval = self.query_internal(2 * ind, l, mid, lq, rq);
        let rval = self.query_internal(2 * ind + 1, mid + 1, r, lq, rq);
        let res = Self::node_merge(&lval, &rval);
        proof {
            lemma_clipped_split::<T>(self.elems@, l as int, r as int, lq as int, rq as int);
        }
        res
    }
}

} // verus!
