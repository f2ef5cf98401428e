//! A segment tree with lazy propagation, supporting updates and queries
//! over ranges of points.
//!
//! The data of the points is any type implementing [SegData]: it says how
//! the data of two adjacent segments is summed and how the data of a run of
//! equal points is obtained at once. Updates are operations implementing
//! [ModifyOp]. Nodes are created lazily, so a tree built with
//! [SegTree::new] stays small while updates cover large ranges.

pub mod lazy_ops;
pub mod modify_op;
pub mod op_deque;
pub mod seg_data;
pub mod seg_node;

use std::ops::Range;
use vstd::prelude::*;

pub use modify_op::ModifyOp;
pub use seg_data::SegData;

use modify_op::apply_on_range;
use seg_data::{seg_data_laws, seg_sum};
use seg_node::{depth, full_shape, refine_shape, shape_node_count, SegNode, Shape};

verus! {

/// A segment tree over `point_cnt` points.
pub struct SegTree<T, Op> {
    point_cnt: usize,
    root: SegNode<T, Op>,
}

impl<T: SegData, Op: ModifyOp<T>> View for SegTree<T, Op> {
    type V = Seq<T>;

    /// The data of each point, in order.
    closed spec fn view(&self) -> Seq<T> {
        self.root.points(self.point_cnt as nat)
    }
}

impl<T: SegData, Op: ModifyOp<T>> SegTree<T, Op> {
    /// The tree is well formed: its data obeys the laws of segment data, it
    /// has at least one point, and its nodes are well formed.
    pub closed spec fn wf(&self) -> bool {
        &&& seg_data_laws::<T>()
        &&& self.point_cnt >= 1
        &&& self.root.wf(self.point_cnt as nat)
    }

    /// The number of nodes of the tree.
    pub closed spec fn node_count(&self) -> nat {
        self.root.node_count()
    }

    /// The shape of the tree: which of its nodes are leaves and which are
    /// split.
    pub closed spec fn shape(&self) -> Shape {
        self.root.shape()
    }

    /// The number of nodes of the tree is the number of nodes of its shape.
    pub proof fn lemma_node_count_is_shape_count(&self)
        ensures
            self.node_count() == shape_node_count(self.shape()),
    {
        self.root.lemma_node_count_is_shape_count();
    }

    /// A well-formed tree has at least one point, and its number of points
    /// fits in a `usize`.
    pub proof fn lemma_wf_len(&self)
        requires
            self.wf(),
        ensures
            1 <= self@.len() <= usize::MAX,
    {
        self.root.lemma_points_len(self.point_cnt as nat);
    }

    /// Creates a new [SegTree] with `point_cnt` points,
    /// all initialized to `default_data_for_single_point`.
    /// This is O(1) and doesn't allocate on the heap, with nodes lazily created.
    pub fn new(point_cnt: usize, default_data_for_single_point: T) -> (r: Self)
        requires
            point_cnt >= 1,
            seg_data_laws::<T>(),
        ensures
            r.wf(),
            r@ == Seq::new(point_cnt as nat, |i: int| default_data_for_single_point),
            r.node_count() == 1,
            r.shape() == Shape::Leaf,
    {
        Self { point_cnt, root: SegNode::from_same_point_data(default_data_for_single_point) }
    }

    /// Creates a fully built [SegTree] from the provided slice of point data, which is O(n).
    /// Use [Self::new] if all points are identical.
    pub fn with_points(point_data: &[T]) -> (r: Self)
        requires
            point_data@.len() >= 1,
            seg_data_laws::<T>(),
        ensures
            r.wf(),
            r@ == point_data@,
            r.node_count() == 2 * point_data@.len() - 1,
            r.shape() == full_shape(point_data@.len()),
    {
        Self { point_cnt: point_data.len(), root: SegNode::with_points(point_data) }
    }

    /// Returns the total number of points in the whole segment.
    pub fn point_cnt(&self) -> (r: usize)
        ensures
            r == self@.len(),
    {
        proof {
            self.root.lemma_points_len(self.point_cnt as nat);
        }
        self.point_cnt
    }

    /// Returns the number of nodes currently in the tree.
    pub fn node_cnt(&self) -> (r: u128)
        requires
            self.wf(),
        ensures
            r == self.node_count(),
    {
        self.root.node_cnt(self.point_cnt)
    }

    /// Modifies the data of a single point at `point_idx`.
    pub fn modify_point(&mut self, point_idx: usize, op: &Op)
        requires
            old(self).wf(),
            point_idx < old(self)@.len(),
        ensures
            final(self).wf(),
            final(self)@ == old(self)@.update(
                point_idx as int,
                op.apply_to_point(old(self)@[point_idx as int]),
            ),
            final(self).node_count() <= old(self).node_count() + 4 * depth(old(self)@.len()),
            final(self).shape() == refine_shape(
                old(self).shape(),
                old(self)@.len(),
                point_idx as int,
                point_idx + 1,
            ),
    {
        proof {
            self.root.lemma_points_len(self.point_cnt as nat);
        }
        self.modify(&(point_idx..point_idx + 1), op);
        proof {
            assert(apply_on_range(old(self)@, point_idx as int, point_idx + 1, *op) =~= old(
                self,
            )@.update(point_idx as int, op.apply_to_point(old(self)@[point_idx as int])));
        }
    }

    /// Modifies the data for all points in `target_range`.
    /// Does nothing if the range is empty.
    pub fn modify(&mut self, target_range: &Range<usize>, op: &Op)
        requires
            old(self).wf(),
            target_range.start < target_range.end ==> target_range.end <= old(self)@.len(),
        ensures
            final(self).wf(),
            final(self)@ == apply_on_range(
                old(self)@,
                target_range.start as int,
                target_range.end as int,
                *op,
            ),
            target_range.start >= target_range.end || (target_range.start == 0
                && target_range.end == old(self)@.len()) ==> final(self).node_count() == old(
                self,
            ).node_count(),
            final(self).node_count() <= old(self).node_count() + 4 * depth(old(self)@.len()),
            final(self).shape() == refine_shape(
                old(self).shape(),
                old(self)@.len(),
                target_range.start as int,
                target_range.end as int,
            ),
    {
        proof {
            self.root.lemma_points_len(self.point_cnt as nat);
        }
        if target_range.start >= target_range.end {
            proof {
                assert(apply_on_range(
                    old(self)@,
                    target_range.start as int,
                    target_range.end as int,
                    *op,
                ) =~= old(self)@);
            }
            return ;
        }
        self.root.modify(&(0..self.point_cnt), target_range, op);
    }

    /// Retrieves the data at a single point `point_idx`.
    pub fn query_point(&mut self, point_idx: usize) -> (r: T)
        requires
            old(self).wf(),
            point_idx < old(self)@.len(),
        ensures
            final(self).wf(),
            final(self)@ == old(self)@,
            final(self).node_count() == old(self).node_count(),
            final(self).shape() == old(self).shape(),
            r == old(self)@[point_idx as int],
    {
        proof {
            self.root.lemma_points_len(self.point_cnt as nat);
        }
        let r = self.query(&(point_idx..point_idx + 1));
        proof {
            assert(old(self)@.subrange(point_idx as int, point_idx + 1) =~= seq![
                old(self)@[point_idx as int],
            ]);
        }
        r
    }

    /// Retrieves the sum of data for all points in `target_range`.
    pub fn query(&mut self, target_range: &Range<usize>) -> (r: T)
        requires
            old(self).wf(),
            target_range.start < target_range.end,
            target_range.end <= old(self)@.len(),
        ensures
            final(self).wf(),
            final(self)@ == old(self)@,
            final(self).node_count() == old(self).node_count(),
            final(self).shape() == old(self).shape(),
            r == seg_sum(old(self)@.subrange(target_range.start as int, target_range.end as int)),
    {
        proof {
            self.root.lemma_points_len(self.point_cnt as nat);
        }
        self.root.query(&(0..self.point_cnt), target_range)
    }
}

} // verus!
