use segtri::lazy_ops::LazyOps;
use segtri::op_deque::OpDeque;
use segtri::seg_node::{range_intersect, range_mid, split_lr_range, SegNode};
use segtri::{ModifyOp, SegData, SegTree};

/// The map `x -> a * x + b` on the data of each point.
#[derive(Clone, Copy, PartialEq, Debug)]
struct Affine(usize, usize);

impl ModifyOp<usize> for Affine {
    fn nop() -> Self {
        Affine(1, 0)
    }

    fn combine(&mut self, another_op: &Self) {
        *self = Affine(another_op.0 * self.0, another_op.0 * self.1 + another_op.1)
    }

    fn apply(&self, orig_seg_data: &mut usize, seg_len: usize) {
        *orig_seg_data *= self.0;
        *orig_seg_data += seg_len * self.1
    }
}

fn points(seg: &mut SegTree<usize, Affine>) -> Vec<usize> {
    (0..seg.point_cnt()).map(|i| seg.query_point(i)).collect()
}

#[test]
fn usize_data_wraps() {
    assert_eq!(SegData::add(&usize::MAX, &2), 1);
    assert_eq!(SegData::add(&3usize, &4), 7);
    assert_eq!(SegData::mul(&5usize, 3), 15);
    assert_eq!(SegData::mul(&(usize::MAX / 2 + 1), 2), 0);
    assert_eq!(SegData::duplicate(&9usize), 9);
}

#[test]
fn new_tree_holds_default_everywhere() {
    let mut seg: SegTree<usize, Affine> = SegTree::new(7, 3);
    assert_eq!(seg.point_cnt(), 7);
    assert_eq!(points(&mut seg), vec![3; 7]);
    assert_eq!(seg.query(&(0..7)), 21);
    assert_eq!(seg.query(&(2..5)), 9);
}

#[test]
fn single_point_tree() {
    let mut seg: SegTree<usize, Affine> = SegTree::new(1, 4);
    seg.modify(&(0..1), &Affine(2, 1));
    assert_eq!(seg.query_point(0), 9);
    assert_eq!(seg.node_cnt(), 1);
    let mut seg: SegTree<usize, Affine> = SegTree::with_points(&[6]);
    seg.modify_point(0, &Affine(3, 0));
    assert_eq!(seg.query(&(0..1)), 18);
}

#[test]
fn modify_changes_only_its_range() {
    let mut seg: SegTree<usize, Affine> = SegTree::with_points(&[1, 2, 3, 4, 5, 6]);
    seg.modify(&(1..4), &Affine(10, 1));
    assert_eq!(points(&mut seg), vec![1, 21, 31, 41, 5, 6]);
    seg.modify(&(5..2), &Affine(0, 0));
    assert_eq!(points(&mut seg), vec![1, 21, 31, 41, 5, 6]);
    seg.modify(&(0..6), &Affine(0, 7));
    assert_eq!(points(&mut seg), vec![7; 6]);
}

#[test]
fn nop_modifies_nothing() {
    let mut seg: SegTree<usize, Affine> = SegTree::with_points(&[4, 8, 15, 16, 23, 42]);
    seg.modify(&(1..5), &Affine::nop());
    assert_eq!(points(&mut seg), vec![4, 8, 15, 16, 23, 42]);
}

#[test]
fn combined_op_is_ops_in_sequence() {
    let first = Affine(3, 2);
    let second = Affine(5, 1);
    let mut combined = first;
    combined.combine(&second);
    let mut in_sequence: SegTree<usize, Affine> = SegTree::with_points(&[1, 2, 3, 4, 5]);
    in_sequence.modify(&(1..4), &first);
    in_sequence.modify(&(1..4), &second);
    let mut at_once: SegTree<usize, Affine> = SegTree::with_points(&[1, 2, 3, 4, 5]);
    at_once.modify(&(1..4), &combined);
    assert_eq!(points(&mut in_sequence), points(&mut at_once));
    assert_eq!(points(&mut at_once), vec![1, 41, 56, 71, 5]);
}

#[test]
fn query_splits_into_parts() {
    let mut seg: SegTree<usize, Affine> = SegTree::new(9, 2);
    seg.modify(&(2..7), &Affine(3, 1));
    let whole = seg.query(&(1..8));
    for mid in 2..8 {
        assert_eq!(whole, seg.query(&(1..mid)) + seg.query(&(mid..8)));
    }
    assert_eq!(whole, 2 + 7 * 5 + 2);
}

#[test]
fn query_point_is_one_point_query() {
    let mut seg: SegTree<usize, Affine> = SegTree::with_points(&[9, 8, 7, 6, 5]);
    seg.modify(&(0..3), &Affine(1, 10));
    for i in 0..5 {
        assert_eq!(seg.query_point(i), seg.query(&(i..i + 1)));
    }
}

#[test]
fn modify_point_is_one_point_modify() {
    let mut by_point: SegTree<usize, Affine> = SegTree::new(6, 1);
    let mut by_range: SegTree<usize, Affine> = SegTree::new(6, 1);
    by_point.modify_point(4, &Affine(2, 3));
    by_range.modify(&(4..5), &Affine(2, 3));
    assert_eq!(points(&mut by_point), points(&mut by_range));
    assert_eq!(points(&mut by_point), vec![1, 1, 1, 1, 5, 1]);
}

#[test]
fn nodes_are_created_lazily() {
    let mut seg: SegTree<usize, Affine> = SegTree::new(1 << 20, 1);
    assert_eq!(seg.node_cnt(), 1);
    seg.modify(&(0..1 << 20), &Affine(1, 1));
    assert_eq!(seg.node_cnt(), 1);
    assert_eq!(seg.query(&(5..100)), 190);
    assert_eq!(seg.node_cnt(), 1);
    seg.modify(&(0..1 << 19), &Affine(1, 1));
    assert_eq!(seg.node_cnt(), 3);
    assert_eq!(seg.query(&(0..1 << 20)), 3 * (1 << 19) + 2 * (1 << 19));
    assert_eq!(seg.node_cnt(), 3);
}

#[test]
fn with_points_builds_every_leaf() {
    let seg: SegTree<usize, Affine> = SegTree::with_points(&[1, 2, 3, 4, 5]);
    assert_eq!(seg.node_cnt(), 9);
}

#[test]
fn range_helpers() {
    assert_eq!(range_mid(&(4..6)), 5);
    assert_eq!(range_mid(&(3..8)), 5);
    assert_eq!(range_mid(&(usize::MAX - 2..usize::MAX)), usize::MAX - 1);
    assert_eq!(range_mid(&(9..3)), 6);
    assert_eq!(split_lr_range(&(0..5)), (0..2, 2..5));
    assert_eq!(range_intersect(&(0..5), &(3..9)), 3..5);
    assert_eq!(range_intersect(&(4..6), &(0..10)), 4..6);
    assert!(range_intersect(&(0..2), &(3..9)).is_empty());
}

#[test]
fn seg_node_over_offset_range() {
    let mut node: SegNode<usize, Affine> = SegNode::from_same_point_data(2);
    node.modify(&(10..20), &(12..15), &Affine(1, 5));
    assert_eq!(node.query(&(10..20), &(10..20)), 2 * 10 + 5 * 3);
    assert_eq!(node.query(&(10..20), &(13..14)), 7);
    assert_eq!(node.query(&(10..20), &(15..17)), 4);
    assert!(node.node_cnt(10) > 1);
    let mut built: SegNode<usize, Affine> = SegNode::with_points(&[3, 1, 4, 1, 5]);
    assert_eq!(built.query(&(0..5), &(1..4)), 6);
    built.modify(&(0..5), &(0..5), &Affine(2, 0));
    assert_eq!(built.query(&(0..5), &(0..5)), 28);
}

#[test]
fn lazy_ops_merge_and_cancel() {
    let mut ops: LazyOps<char> = LazyOps::new();
    assert!(ops.inner().is_empty());
    ops.push_back('a', 0);
    assert!(ops.inner().is_empty());
    ops.push_back('a', 2);
    ops.push_back('a', 3);
    assert_eq!(ops.inner(), &vec![('a', 5)]);
    ops.push_back('b', -1);
    assert_eq!(ops.inner(), &vec![('a', 5), ('b', -1)]);
    ops.push_back('b', 1);
    assert_eq!(ops.inner(), &vec![('a', 5)]);
    ops.push_back('a', -5);
    assert!(ops.inner().is_empty());
    ops.push_back('c', 4);
    ops.clear();
    assert!(ops.inner().is_empty());
}

#[test]
fn op_deque_merges_at_back() {
    let mut ops: OpDeque<char> = OpDeque::new();
    assert!(ops.0.is_empty());
    ops.push_back('a', 0);
    assert!(ops.0.is_empty());
    ops.push_back('a', 1);
    ops.push_back('a', 2);
    ops.push_back('b', 1);
    ops.push_back('a', 1);
    let items: Vec<(char, usize)> = ops.0.iter().cloned().collect();
    assert_eq!(items, vec![('a', 3), ('b', 1), ('a', 1)]);
}

#[test]
fn modify_creates_few_nodes() {
    let mut seg: SegTree<usize, Affine> = SegTree::new(1000, 0);
    seg.modify(&(3..997), &Affine(1, 1));
    let depth = 10;
    assert!(seg.node_cnt() <= 1 + 4 * depth);
    assert!(seg.node_cnt() > 1);
    let before = seg.node_cnt();
    seg.modify(&(0..500), &Affine(1, 1));
    assert!(seg.node_cnt() <= before + 2 * depth);
    assert_eq!(seg.query(&(0..1000)), 994 + 500);
}

#[test]
fn lazy_ops_keep_push_order() {
    let mut ops: LazyOps<char> = LazyOps::new();
    ops.push_back('x', 1);
    ops.push_back('y', 2);
    ops.push_back('y', 1);
    ops.push_back('x', 2);
    assert_eq!(ops.inner(), &vec![('x', 1), ('y', 3), ('x', 2)]);
    for w in ops.inner().windows(2) {
        assert_ne!(w[0].0, w[1].0);
    }
}
