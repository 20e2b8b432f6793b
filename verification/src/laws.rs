//! Laws that relate the tree's operations to one another: point/range
//! correspondence, query splitting, update locality, and the full-range
//! boundary. Each is stated over the spec-level views that the operations'
//! contracts use, so callers can chain them with the contracts of `build`,
//! `update` and `query`.

use vstd::prelude::*;
use crate::node::merge_seq;
use crate::node::NodeMerge;
use crate::node::OptionNodeMerge;
use crate::node::SegNode;
use crate::tree::lemma_seg_val_split;
use crate::tree::SegmentTree;

verus! {

/// The absent-aware merge, as the option adapter defines it.
pub open spec fn opt_merge<T: SegNode>(a: Option<T>, b: Option<T>) -> Option<T> {
    <OptionNodeMerge as NodeMerge<Option<T>>>::spec_merge(a, b)
}

/// Range/point correspondence: the query over `[i, i]` yields exactly the
/// current value of element `i`, as last set by `build` or `update`.
pub proof fn lemma_point_query<T: SegNode>(t: SegmentTree<T>, i: int)
    requires
        t.wf(),
        0 <= i < t.spec_leaf_count(),
    ensures
        t.spec_query(i, i) == Some(t.elems()[i]),
{
    t.lemma_node_invariant();
    assert(t.elems().subrange(i, i + 1) =~= seq![t.elems()[i]]);
}

/// Splitting a query at any point: the result over `[lq, rq]` is the
/// absent-aware merge of the results over `[lq, m]` and `[m + 1, rq]`, also
/// when the right part reaches past the last element.
pub proof fn lemma_query_split_clipped<T: SegNode>(t: SegmentTree<T>, lq: int, m: int, rq: int)
    requires
        t.wf(),
        0 <= lq <= m < rq,
        lq < t.spec_leaf_count(),
    ensures
        t.spec_query(lq, rq) == opt_merge::<T>(t.spec_query(lq, m), t.spec_query(m + 1, rq)),
{
    t.lemma_node_invariant();
    let n = t.spec_leaf_count();
    if m + 1 < n {
        let hi = if rq + 1 < n {
            rq + 1
        } else {
            n
        };
        lemma_seg_val_split::<T>(t.elems(), lq + 1, m + 1, hi);
    }
}

/// Associativity transparency: for any split point `l <= m < r` inside the
/// element range, the query over `[l, r]` is the merge of the queries over
/// `[l, m]` and `[m + 1, r]`, in that order.
pub proof fn lemma_query_split<T: SegNode>(t: SegmentTree<T>, lq: int, m: int, rq: int)
    requires
        t.wf(),
        0 <= lq <= m < rq,
        rq < t.spec_leaf_count(),
    ensures
        t.spec_query(lq, m) is Some,
        t.spec_query(m + 1, rq) is Some,
        t.spec_query(lq, rq) == Some(
            <<T as SegNode>::Merge as NodeMerge<T>>::spec_merge(
                t.spec_query(lq, m).unwrap(),
                t.spec_query(m + 1, rq).unwrap(),
            ),
        ),
{
    lemma_query_split_clipped::<T>(t, lq, m, rq);
}

/// Update locality, outside: changing element `i` leaves the query result
/// of every range that excludes `i` unchanged.
pub proof fn lemma_update_outside_range<T: SegNode>(
    pre: SegmentTree<T>,
    post: SegmentTree<T>,
    i: int,
    v: T,
    lq: int,
    rq: int,
)
    requires
        pre.wf(),
        0 <= i < pre.spec_leaf_count(),
        post.spec_leaf_count() == pre.spec_leaf_count(),
        post.elems() == pre.elems().update(i, v),
        i < lq || rq < i,
    ensures
        post.spec_query(lq, rq) == pre.spec_query(lq, rq),
{
    pre.lemma_node_invariant();
    let n = pre.spec_leaf_count();
    if 0 <= lq <= rq && lq < n {
        let hi = if rq + 1 < n {
            rq + 1
        } else {
            n
        };
        assert(post.elems().subrange(lq, hi) =~= pre.elems().subrange(lq, hi));
    }
}

/// Decompose a query around one of its elements: the result over a range
/// containing `i` is the merge of the part left of `i`, element `i` itself,
/// and the part right of `i`.
proof fn lemma_query_point_decompose<T: SegNode>(t: SegmentTree<T>, i: int, lq: int, rq: int)
    requires
        t.wf(),
        0 <= lq <= i <= rq,
        i < t.spec_leaf_count(),
    ensures
        t.spec_query(lq, rq) == opt_merge::<T>(
            opt_merge::<T>(t.spec_query(lq, i - 1), Some(t.elems()[i])),
            t.spec_query(i + 1, rq),
        ),
{
    lemma_point_query::<T>(t, i);
    if lq < i && i < rq {
        lemma_query_split_clipped::<T>(t, lq, i - 1, rq);
        lemma_query_split_clipped::<T>(t, i, i, rq);
        <OptionNodeMerge as NodeMerge<Option<T>>>::lemma_merge_associative(
            t.spec_query(lq, i - 1),
            t.spec_query(i, i),
            t.spec_query(i + 1, rq),
        );
    } else if lq == i && i < rq {
        lemma_query_split_clipped::<T>(t, i, i, rq);
    } else if lq < i && i == rq {
        lemma_query_split_clipped::<T>(t, lq, i - 1, rq);
    }
}

/// Update locality, inside: for a range containing the updated index, the
/// query result changes exactly by replacing that element's contribution,
/// and the contributions on either side of it stay what they were.
pub proof fn lemma_update_inside_range<T: SegNode>(
    pre: SegmentTree<T>,
    post: SegmentTree<T>,
    i: int,
    v: T,
    lq: int,
    rq: int,
)
    requires
        pre.wf(),
        post.wf(),
        0 <= lq <= i <= rq,
        i < pre.spec_leaf_count(),
        post.spec_leaf_count() == pre.spec_leaf_count(),
        post.elems() == pre.elems().update(i, v),
    ensures
        pre.spec_query(lq, rq) == opt_merge::<T>(
            opt_merge::<T>(pre.spec_query(lq, i - 1), Some(pre.elems()[i])),
            pre.spec_query(i + 1, rq),
        ),
        post.spec_query(lq, rq) == opt_merge::<T>(
            opt_merge::<T>(pre.spec_query(lq, i - 1), Some(v)),
            pre.spec_query(i + 1, rq),
        ),
{
    pre.lemma_node_invariant();
    post.lemma_node_invariant();
    lemma_query_point_decompose::<T>(pre, i, lq, rq);
    lemma_query_point_decompose::<T>(post, i, lq, rq);
    assert(post.elems()[i] == v);
    lemma_update_outside_range::<T>(pre, post, i, v, lq, i - 1);
    lemma_update_outside_range::<T>(pre, post, i, v, i + 1, rq);
}

/// Boundary: on a tree with at least one element, the query over the full
/// range `[0, leaf_count - 1]` yields the left-to-right merge of all
/// current element values.
pub proof fn lemma_full_range_query<T: SegNode>(t: SegmentTree<T>)
    requires
        t.wf(),
        t.spec_leaf_count() >= 1,
    ensures
        t.spec_query(0, t.spec_leaf_count() - 1) == Some(
            merge_seq::<T, <T as SegNode>::Merge>(t.elems()),
        ),
{
    t.lemma_node_invariant();
    assert(t.elems().subrange(0, t.spec_leaf_count()) =~= t.elems());
}

/// Boundary: on an empty tree every query fails.
pub proof fn lemma_empty_tree_query<T: SegNode>(t: SegmentTree<T>, lq: int, rq: int)
    requires
        t.spec_leaf_count() == 0,
    ensures
        t.spec_query(lq, rq) is None,
{
}

} // verus!
