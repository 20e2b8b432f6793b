//! The node capability contract: what a value type must provide so that the
//! tree engine can combine and mutate it, plus the absent-node adapter that
//! extends any such type to `Option` of it.

use vstd::prelude::*;

verus! {

/// A value that can live at one position of a segment tree.
///
/// A node type names its merge capability and its update capability, and it
/// must be able to produce an exact duplicate of itself: the engine stores
/// copies of the input elements and hands out copies of stored aggregates.
pub trait SegNode: Sized {
    type Merge: NodeMerge<Self>;

    type Update: NodeUpdate<Self>;

    /// An exact duplicate of this node value.
    fn dup(&self) -> (r: Self)
        ensures
            r == *self,
    ;
}

/// The merge capability of a node type: an associative binary combination
/// of the aggregates of two adjacent sub-ranges, in left-to-right order.
pub trait NodeMerge<T> {
    /// What merging means, at the specification level.
    spec fn spec_merge(a: T, b: T) -> T;

    /// Merge is associative. Every implementation must prove this; the
    /// engine's range/query laws rest on it.
    proof fn lemma_merge_associative(a: T, b: T, c: T)
        ensures
            Self::spec_merge(Self::spec_merge(a, b), c) == Self::spec_merge(
                a,
                Self::spec_merge(b, c),
            ),
    ;

    /// Combine the aggregate of a left sub-range with that of the adjacent
    /// right sub-range.
    fn merge(n1: &T, n2: &T) -> (r: T)
        ensures
            r == Self::spec_merge(*n1, *n2),
    ;
}

/// The update capability of a node type: an in-place mutation driven by a
/// payload whose type the node type chooses itself.
pub trait NodeUpdate<T> {
    type UpdateWith;

    /// What applying a payload to a node value means, at the specification
    /// level.
    spec fn spec_update(node: T, val: Self::UpdateWith) -> T;

    /// Mutate `node_mut` in place to reflect application of `val`.
    fn update(node_mut: &mut T, val: &Self::UpdateWith)
        ensures
            *final(node_mut) == Self::spec_update(*old(node_mut), *val),
    ;
}

/// The update payload type that a node type's update capability chooses.
pub(crate) type UpdateWithOf<T> = <<T as SegNode>::Update as NodeUpdate<T>>::UpdateWith;

/// The left-to-right merge of a non-empty sequence of node values:
/// `merge(merge(...merge(s[0], s[1])..., s[n-2]), s[n-1])`.
pub open spec fn merge_seq<T, M: NodeMerge<T>>(s: Seq<T>) -> T
    recommends
        s.len() >= 1,
    decreases s.len(),
{
    if s.len() <= 1 {
        s[0]
    } else {
        M::spec_merge(merge_seq::<T, M>(s.drop_last()), s.last())
    }
}

/// Merging the fold of one range with the fold of the adjacent range gives
/// the fold of the concatenation. This is where associativity does its work.
pub proof fn lemma_merge_seq_append<T, M: NodeMerge<T>>(s1: Seq<T>, s2: Seq<T>)
    requires
        s1.len() >= 1,
        s2.len() >= 1,
    ensures
        merge_seq::<T, M>(s1 + s2) == M::spec_merge(merge_seq::<T, M>(s1), merge_seq::<T, M>(s2)),
    decreases s2.len(),
{
    if s2.len() == 1 {
        assert((s1 + s2).drop_last() =~= s1);
        assert((s1 + s2).last() == s2[0]);
    } else {
        assert((s1 + s2).drop_last() =~= s1 + s2.drop_last());
        lemma_merge_seq_append::<T, M>(s1, s2.drop_last());
        M::lemma_merge_associative(
            merge_seq::<T, M>(s1),
            merge_seq::<T, M>(s2.drop_last()),
            s2.last(),
        );
    }
}

impl<T: SegNode> SegNode for Option<T> {
    type Merge = OptionNodeMerge;

    type Update = OptionNodeUpdate;

    fn dup(&self) -> (r: Self) {
        match self {
            Some(v) => Some(v.dup()),
            None => None,
        }
    }
}

/// The absent-aware merge adapter: a present value absorbs an absent one,
/// two present values merge through the underlying capability, and two
/// absent values stay absent.
pub struct OptionNodeMerge;

impl<T: SegNode> NodeMerge<Option<T>> for OptionNodeMerge {
    open spec fn spec_merge(a: Option<T>, b: Option<T>) -> Option<T> {
        match (a, b) {
            (Some(x), Some(y)) => Some(<<T as SegNode>::Merge as NodeMerge<T>>::spec_merge(x, y)),
            (Some(x), None) => Some(x),
            (None, Some(y)) => Some(y),
            (None, None) => None,
        }
    }

    proof fn lemma_merge_associative(a: Option<T>, b: Option<T>, c: Option<T>) {
        match (a, b, c) {
            (Some(x), Some(y), Some(z)) => {
                <<T as SegNode>::Merge as NodeMerge<T>>::lemma_merge_associative(x, y, z);
            },
            _ => {},
        }
    }

    fn merge(n1: &Option<T>, n2: &Option<T>) -> (r: Option<T>) {
        match (n1, n2) {
            (Some(x), Some(y)) => Some(<<T as SegNode>::Merge as NodeMerge<T>>::merge(x, y)),
            (Some(x), None) => Some(x.dup()),
            (None, Some(y)) => Some(y.dup()),
            (None, None) => None,
        }
    }
}

/// The absent-aware update adapter: updating an absent node is a no-op, and
/// a present node is updated through the underlying capability.
pub struct OptionNodeUpdate;

impl<T: SegNode> NodeUpdate<Option<T>> for OptionNodeUpdate {
    type UpdateWith = UpdateWithOf<T>;

    open spec fn spec_update(node: Option<T>, val: UpdateWithOf<T>) -> Option<T> {
        match node {
            Some(x) => Some(<<T as SegNode>::Update as NodeUpdate<T>>::spec_update(x, val)),
            None => None,
        }
    }

    fn update(node_mut: &mut Option<T>, val: &UpdateWithOf<T>) {
        match node_mut {
            Some(x) => {
                <<T as SegNode>::Update as NodeUpdate<T>>::update(x, val);
            },
            None => {},
        }
    }
}

} // verus!
