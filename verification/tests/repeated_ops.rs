use segtri::{ModifyOp, SegTree};

#[derive(Clone, PartialEq)]
enum Operations {
    SetTo(usize),
    Add1,
    Mul(usize),
}

/// The map `x -> a * x + b` on the data of each point.
struct Affine(usize, usize);

impl ModifyOp<usize> for Affine {
    fn nop() -> Self {
        Affine(1, 0)
    }

    fn combine(&mut self, another_op: &Self) {
        *self = Affine(another_op.0 * self.0, another_op.0 * self.1 + another_op.1)
    }

    fn apply(&self, orig_data: &mut usize, seg_size: usize) {
        *orig_data *= self.0;
        *orig_data += seg_size * self.1
    }
}

impl Operations {
    fn affine(&self) -> Affine {
        match self {
            Operations::SetTo(x) => Affine(0, *x),
            Operations::Add1 => Affine(1, 1),
            Operations::Mul(x) => Affine(*x, 0),
        }
    }
}

/// Applies `op` `n` times to the points of `range`.
fn modify_ntimes(
    seg: &mut SegTree<usize, Affine>,
    range: &std::ops::Range<usize>,
    op: &Operations,
    n: usize,
) {
    for _ in 0..n {
        seg.modify(range, &op.affine());
    }
}

/// Applies `op` `n` times to the point `idx`.
fn modify_point_ntimes(seg: &mut SegTree<usize, Affine>, idx: usize, op: &Operations, n: usize) {
    for _ in 0..n {
        seg.modify_point(idx, &op.affine());
    }
}

#[test]
fn test_simple_add() {
    let mut seg = SegTree::new(10, 1);
    modify_ntimes(&mut seg, &(0..0), &Operations::Add1, 2);
    assert_eq!(seg.query(&(0..10)), 10);
    modify_ntimes(&mut seg, &(0..10), &Operations::Add1, 2);
    assert_eq!(seg.query(&(0..10)), 30);
    modify_ntimes(&mut seg, &(0..5), &Operations::Add1, 2);
    assert_eq!(seg.query(&(0..10)), 40);
    modify_point_ntimes(&mut seg, 2, &Operations::Add1, 4);
    assert_eq!(seg.query(&(0..10)), 44);
    assert_eq!(seg.query(&(2..6)), 22);
    assert_eq!(seg.query(&(0..10)), 44);
    assert_eq!(seg.query_point(9), 3);
    assert_eq!(seg.query_point(0), 5);
    assert_eq!(seg.query_point(2), 9);
}

#[test]
fn mod_test_with_points() {
    let mut seg = SegTree::with_points(&(1..=10).collect::<Vec<_>>());
    modify_ntimes(&mut seg, &(0..0), &Operations::Add1, 2);
    assert_eq!(seg.query(&(0..10)), 10 + 45);
    modify_ntimes(&mut seg, &(0..10), &Operations::Add1, 2);
    assert_eq!(seg.query(&(0..10)), 30 + 45);
    modify_ntimes(&mut seg, &(0..5), &Operations::Add1, 2);
    assert_eq!(seg.query(&(0..10)), 40 + 45);
    modify_point_ntimes(&mut seg, 2, &Operations::Add1, 4);
    assert_eq!(seg.query(&(0..10)), 44 + 45);
    assert_eq!(seg.query(&(2..6)), 22 + 14);
    assert_eq!(seg.query(&(0..10)), 44 + 45);
    assert_eq!(seg.query_point(9), 3 + 9);
    assert_eq!(seg.query_point(0), 5 + 0);
    assert_eq!(seg.query_point(2), 9 + 2);
}

#[test]
fn mod_test_op_order() {
    let mut seg = SegTree::new(10, 1);
    modify_ntimes(&mut seg, &(0..10), &Operations::SetTo(0), 0);
    assert_eq!(seg.query(&(0..10)), 10);
    modify_ntimes(&mut seg, &(0..10), &Operations::SetTo(0), 1);
    assert_eq!(seg.query(&(0..7)), 0);
    modify_ntimes(&mut seg, &(1..10), &Operations::Mul(10), 3);
    modify_ntimes(&mut seg, &(7..9), &Operations::Add1, 2);
    modify_ntimes(&mut seg, &(1..8), &Operations::Add1, 1);
    modify_ntimes(&mut seg, &(5..7), &Operations::Mul(2), 2);
    modify_ntimes(&mut seg, &(5..7), &Operations::Add1, 0);
    modify_ntimes(&mut seg, &(2..10), &Operations::Mul(2), 2);
    modify_ntimes(&mut seg, &(4..7), &Operations::Add1, 1);
    assert_eq!(seg.query(&(0..6)), 31);
    assert_eq!(seg.query(&(0..10)), 68);
    assert_eq!(
        vec![0, 1, 4, 4, 5, 17, 17, 12, 8, 0],
        (0..10).map(|i| seg.query_point(i)).collect::<Vec<_>>(),
    )
}

#[test]
fn mod_test_large_seg() {
    let mut seg = SegTree::new(usize::MAX, 0);
    modify_ntimes(&mut seg, &(0..usize::MAX / 3), &Operations::SetTo(1), 1);
    modify_ntimes(&mut seg, &(usize::MAX / 5..usize::MAX / 3 + 121), &Operations::Add1, 3);
    assert_eq!(seg.query_point(0), 1);
    assert_eq!(seg.query_point(usize::MAX / 3), 3);
    assert_eq!(seg.query_point(usize::MAX / 3 - 1), 4);
    assert_eq!(seg.query_point(usize::MAX / 3 + 121), 0);
}
