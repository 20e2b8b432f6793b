use segment_tree::NodeMerge;
use segment_tree::NodeUpdate;
use segment_tree::SegNode;
use segment_tree::SegTreeError;
use segment_tree::SegmentTree;

// A sum aggregate over u64 with an additive update payload. The `spec_*`
// and `lemma_*` members are the capability contract's ghost obligations;
// compiled for tests they are ordinary functions that nothing calls.

#[derive(Clone, Copy, Debug, PartialEq)]
pub struct SumNode(pub u64);

impl SegNode for SumNode {
    type Merge = AddU64;
    type Update = AddAssignU64;

    fn dup(&self) -> SumNode {
        *self
    }
}

#[derive(Debug)]
pub struct AddU64;

impl NodeMerge<SumNode> for AddU64 {
    fn spec_merge(a: SumNode, b: SumNode) -> SumNode {
        SumNode(a.0 + b.0)
    }

    fn lemma_merge_associative(_a: SumNode, _b: SumNode, _c: SumNode) {}

    fn merge(n1: &SumNode, n2: &SumNode) -> SumNode {
        SumNode(n1.0 + n2.0)
    }
}

pub struct AddAssignU64;

impl NodeUpdate<SumNode> for AddAssignU64 {
    type UpdateWith = u64;

    fn spec_update(node: SumNode, val: u64) -> SumNode {
        SumNode(node.0 + val)
    }

    fn update(node_mut: &mut SumNode, val: &u64) {
        node_mut.0 = node_mut.0 + *val;
    }
}

// A minimum aggregate with an assigning update payload.

#[derive(Clone, Copy, Debug, PartialEq)]
pub struct MinNode(pub u64);

impl SegNode for MinNode {
    type Merge = MinMerge;
    type Update = AssignMin;

    fn dup(&self) -> MinNode {
        *self
    }
}

pub struct MinMerge;

impl NodeMerge<MinNode> for MinMerge {
    fn spec_merge(a: MinNode, b: MinNode) -> MinNode {
        MinNode(if a.0 <= b.0 { a.0 } else { b.0 })
    }

    fn lemma_merge_associative(_a: MinNode, _b: MinNode, _c: MinNode) {}

    fn merge(n1: &MinNode, n2: &MinNode) -> MinNode {
        MinNode(if n1.0 <= n2.0 { n1.0 } else { n2.0 })
    }
}

pub struct AssignMin;

impl NodeUpdate<MinNode> for AssignMin {
    type UpdateWith = u64;

    fn spec_update(_node: MinNode, val: u64) -> MinNode {
        MinNode(val)
    }

    fn update(node_mut: &mut MinNode, val: &u64) {
        node_mut.0 = *val;
    }
}

// An ordered-concatenation aggregate: merge is associative but not
// commutative, so these tests observe the left-to-right merge order.

#[derive(Clone, Debug, PartialEq)]
pub struct Text(pub String);

impl SegNode for Text {
    type Merge = ConcatText;
    type Update = AppendText;

    fn dup(&self) -> Text {
        Text(self.0.clone())
    }
}

pub struct ConcatText;

impl NodeMerge<Text> for ConcatText {
    fn spec_merge(a: Text, b: Text) -> Text {
        let mut s = a.0;
        s.push_str(&b.0);
        Text(s)
    }

    fn lemma_merge_associative(_a: Text, _b: Text, _c: Text) {}

    fn merge(n1: &Text, n2: &Text) -> Text {
        let mut s = n1.0.clone();
        s.push_str(&n2.0);
        Text(s)
    }
}

pub struct AppendText;

impl NodeUpdate<Text> for AppendText {
    type UpdateWith = String;

    fn spec_update(node: Text, val: String) -> Text {
        let mut s = node.0;
        s.push_str(&val);
        Text(s)
    }

    fn update(node_mut: &mut Text, val: &String) {
        node_mut.0.push_str(val);
    }
}

fn sum_nodes(values: &[u64]) -> Vec<SumNode> {
    values.iter().map(|&x| SumNode(x)).collect()
}

#[test]
fn it_works() {
    let data = sum_nodes(&[41, 67, 6, 30, 85, 43, 39]);
    let seg_tree = SegmentTree::build(data);

    let q0_2 = seg_tree.query(0, 2).unwrap();
    println!("q0_2: {}", q0_2.0);

    let q0_2 = seg_tree.query(0, 2).unwrap();
    println!("q0_2: {}", q0_2.0);

    for i in 5..10 {
        println!("0..{}: {}", i, seg_tree.query(5, i).unwrap().0);
    }
}

#[test]
fn sum_scenario() {
    let data = sum_nodes(&[41, 67, 6, 30, 85, 43, 39]);
    let mut t = SegmentTree::build(data);
    assert_eq!(t.query(0, 2), Ok(SumNode(114)));
    assert_eq!(t.update(1, &10), Ok(()));
    assert_eq!(t.query(0, 2), Ok(SumNode(124)));
    assert_eq!(t.query(5, 6), Ok(SumNode(82)));
    // A range reaching past the last element is clipped to it.
    assert_eq!(t.query(5, 9), Ok(SumNode(82)));
}

#[test]
fn point_queries_match_elements() {
    let values = [41u64, 67, 6, 30, 85, 43, 39];
    let mut t = SegmentTree::build(sum_nodes(&values));
    for i in 0..values.len() {
        assert_eq!(t.query(i, i), Ok(SumNode(values[i])));
    }
    assert_eq!(t.update(2, &4), Ok(()));
    assert_eq!(t.query(2, 2), Ok(SumNode(10)));
}

#[test]
fn full_range_is_total_sum() {
    let values = [41u64, 67, 6, 30, 85, 43, 39];
    let t = SegmentTree::build(sum_nodes(&values));
    let total: u64 = values.iter().sum();
    assert_eq!(t.query(0, values.len() - 1), Ok(SumNode(total)));
}

#[test]
fn split_queries_merge() {
    let t = SegmentTree::build(sum_nodes(&[41, 67, 6, 30, 85, 43, 39]));
    for m in 0..6 {
        let whole = t.query(0, 6).unwrap();
        let left = t.query(0, m).unwrap();
        let right = t.query(m + 1, 6).unwrap();
        assert_eq!(whole, AddU64::merge(&left, &right));
    }
}

#[test]
fn update_changes_only_containing_ranges() {
    let mut t = SegmentTree::build(sum_nodes(&[5, 1, 4, 2, 8, 6]));
    let before_left = t.query(0, 2).unwrap();
    let before_right = t.query(4, 5).unwrap();
    let before_containing = t.query(2, 4).unwrap();
    assert_eq!(t.update(3, &7), Ok(()));
    assert_eq!(t.query(0, 2), Ok(before_left));
    assert_eq!(t.query(4, 5), Ok(before_right));
    assert_eq!(t.query(2, 4), Ok(SumNode(before_containing.0 + 7)));
}

#[test]
fn all_ranges_match_naive_sums() {
    let values: Vec<u64> = (0..100u64).map(|i| (i * 37 + 11) % 101).collect();
    let t = SegmentTree::build(sum_nodes(&values));
    for l in 0..values.len() {
        for r in l..values.len() {
            let expected: u64 = values[l..=r].iter().sum();
            assert_eq!(t.query(l, r), Ok(SumNode(expected)));
        }
    }
}

#[test]
fn query_empty_range_fails() {
    let t = SegmentTree::build(sum_nodes(&[1, 2, 3]));
    assert_eq!(t.query(2, 1), Err(SegTreeError::EmptyRange));
    assert_eq!(t.query(3, 5), Err(SegTreeError::EmptyRange));
}

#[test]
fn query_on_empty_tree_fails() {
    let t: SegmentTree<SumNode> = SegmentTree::build(vec![]);
    assert_eq!(t.query(0, 0), Err(SegTreeError::EmptyRange));
    assert_eq!(t.query(0, 10), Err(SegTreeError::EmptyRange));
}

#[test]
fn update_out_of_bounds_fails() {
    let mut t = SegmentTree::build(sum_nodes(&[1, 2, 3]));
    assert_eq!(t.update(3, &5), Err(SegTreeError::IndexOutOfBounds));
    assert_eq!(t.query(0, 2), Ok(SumNode(6)));
}

#[test]
fn single_element_tree() {
    let mut t = SegmentTree::build(sum_nodes(&[9]));
    assert_eq!(t.query(0, 0), Ok(SumNode(9)));
    assert_eq!(t.query(0, 5), Ok(SumNode(9)));
    assert_eq!(t.update(0, &3), Ok(()));
    assert_eq!(t.query(0, 0), Ok(SumNode(12)));
    assert_eq!(t.query(1, 1), Err(SegTreeError::EmptyRange));
}

#[test]
fn min_tree_with_assign_updates() {
    let values = [41u64, 67, 6, 30, 85, 43, 39];
    let data: Vec<MinNode> = values.iter().map(|&x| MinNode(x)).collect();
    let mut t = SegmentTree::build(data);
    assert_eq!(t.query(0, 6), Ok(MinNode(6)));
    assert_eq!(t.query(3, 6), Ok(MinNode(30)));
    assert_eq!(t.update(2, &50), Ok(()));
    assert_eq!(t.query(0, 6), Ok(MinNode(30)));
    assert_eq!(t.query(0, 2), Ok(MinNode(41)));
}

#[test]
fn concat_preserves_left_to_right_order() {
    let parts = ["a", "b", "c", "d", "e"];
    let data: Vec<Text> = parts.iter().map(|s| Text(s.to_string())).collect();
    let mut t = SegmentTree::build(data);
    assert_eq!(t.query(1, 3), Ok(Text("bcd".to_string())));
    assert_eq!(t.query(0, 4), Ok(Text("abcde".to_string())));
    assert_eq!(t.update(2, &"x".to_string()), Ok(()));
    assert_eq!(t.query(0, 4), Ok(Text("abcxde".to_string())));
}

#[test]
fn add_merge_is_associative() {
    let samples = [0u64, 1, 2, 13, 100, 12345];
    for &a in &samples {
        for &b in &samples {
            for &c in &samples {
                assert_eq!(
                    AddU64::merge(&AddU64::merge(&SumNode(a), &SumNode(b)), &SumNode(c)),
                    AddU64::merge(&SumNode(a), &AddU64::merge(&SumNode(b), &SumNode(c)))
                );
            }
        }
    }
}

#[test]
fn node_helpers_apply_capabilities() {
    assert_eq!(SegmentTree::<SumNode>::node_merge(&SumNode(3), &SumNode(4)), SumNode(7));
    let mut v = SumNode(10);
    SegmentTree::<SumNode>::node_update(&mut v, &5);
    assert_eq!(v, SumNode(15));

    assert_eq!(SegmentTree::<SumNode>::node_merge(&Some(SumNode(3)), &None), Some(SumNode(3)));
    assert_eq!(SegmentTree::<SumNode>::node_merge(&None, &Some(SumNode(4))), Some(SumNode(4)));
    assert_eq!(SegmentTree::<SumNode>::node_merge::<Option<SumNode>>(&None, &None), None);
    assert_eq!(
        SegmentTree::<SumNode>::node_merge(&Some(SumNode(3)), &Some(SumNode(4))),
        Some(SumNode(7))
    );

    let mut absent: Option<SumNode> = None;
    SegmentTree::<SumNode>::node_update(&mut absent, &5);
    assert_eq!(absent, None);
    let mut present = Some(SumNode(1));
    SegmentTree::<SumNode>::node_update(&mut present, &5);
    assert_eq!(present, Some(SumNode(6)));
}
