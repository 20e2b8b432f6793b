//! A generic segment tree: range-aggregate queries and point updates in
//! logarithmic time over a user-supplied associative merge operation.
//!
//! The tree is a flat, 1-indexed array of optional node values. Element
//! types plug in through the [`SegNode`] capability traits; the engine
//! itself knows nothing about concrete aggregates (sums, minima, ordered
//! concatenation, ...). Merge must be associative; that obligation is a
//! proof member of [`NodeMerge`], so every verified implementation carries
//! its own proof.

mod laws;
mod node;
mod tree;

pub use laws::lemma_empty_tree_query;
pub use laws::lemma_full_range_query;
pub use laws::lemma_point_query;
pub use laws::lemma_query_split;
pub use laws::lemma_query_split_clipped;
pub use laws::lemma_update_inside_range;
pub use laws::lemma_update_outside_range;
pub use laws::opt_merge;
pub use node::lemma_merge_seq_append;
pub use node::merge_seq;
pub use node::NodeMerge;
pub use node::NodeUpdate;
pub use node::OptionNodeMerge;
pub use node::OptionNodeUpdate;
pub use node::SegNode;
pub use tree::lemma_seg_val_split;
pub use tree::reachable;
pub use tree::seg_val;
pub use tree::subtree_ok;
pub use tree::SegTreeError;
pub use tree::SegmentTree;
