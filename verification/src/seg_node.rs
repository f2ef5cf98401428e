use std::ops::Range;
use vstd::prelude::*;

use crate::modify_op::{apply_on_range, ModifyOp};
use crate::seg_data::{lemma_seg_sum_concat, seg_data_laws, seg_sum, SegData};

verus! {

/// A node whose points are not all known to hold the same data: it keeps
/// the sum of its points, and an operation still to be passed on to its
/// children, with a flag that is clear while that operation is a no-op.
pub struct DivergedSegNode<T, Op> {
    data_acc: T,
    pending_ops_for_children: Op,
    has_pending_ops: bool,
    l_child: Box<SegNode<T, Op>>,
    r_child: Box<SegNode<T, Op>>,
}

/// A node of the segment tree, covering a range of points.
pub enum SegNode<T, Op> {
    /// Every point of the node holds this data.
    Same(T),
    /// The node is split into two children.
    Diverged(DivergedSegNode<T, Op>),
}

/// The number of points of the left child of a node with `len` points.
pub open spec fn left_len(len: nat) -> nat {
    len / 2
}

/// The number of points of the right child of a node with `len` points;
/// the right child may be one point larger than the left one.
pub open spec fn right_len(len: nat) -> nat {
    (len - len / 2) as nat
}

/// The number of levels below a node with `len` points when it is split
/// down to single points: the ceiling of the base-2 logarithm of `len`.
pub open spec fn depth(len: nat) -> nat
    decreases len,
{
    if len <= 1 {
        0
    } else {
        1 + depth(right_len(len))
    }
}

/// More points never need fewer levels.
pub proof fn lemma_depth_monotone(a: nat, b: nat)
    requires
        a <= b,
    ensures
        depth(a) <= depth(b),
    decreases b,
{
    if a > 1 {
        lemma_depth_monotone(right_len(a), right_len(b));
    }
}

/// At most `2^k` points need at most `k` levels.
pub proof fn lemma_depth_log(len: nat, k: nat)
    requires
        len <= vstd::arithmetic::power2::pow2(k),
    ensures
        depth(len) <= k,
    decreases len,
{
    if len > 1 {
        if k == 0 {
            vstd::arithmetic::power2::lemma2_to64();
        } else {
            vstd::arithmetic::power2::lemma_pow2_unfold(k);
            lemma_depth_log(right_len(len), (k - 1) as nat);
        }
    }
}

/// The shape of a subtree: which nodes are leaves and which are split.
pub enum Shape {
    /// A node whose points all hold the same data.
    Leaf,
    /// A node split into a left and a right child.
    Split(Box<Shape>, Box<Shape>),
}

/// The number of nodes of a subtree of the given shape.
pub open spec fn shape_node_count(s: Shape) -> nat
    decreases s,
{
    match s {
        Shape::Leaf => 1,
        Shape::Split(l, r) => 1 + shape_node_count(*l) + shape_node_count(*r),
    }
}

/// The shape of the fully built subtree over `len` points: split down to
/// one leaf per point, the right part of each split taking the extra point.
pub open spec fn full_shape(len: nat) -> Shape
    decreases len,
{
    if len <= 1 {
        Shape::Leaf
    } else {
        Shape::Split(Box::new(full_shape(left_len(len))), Box::new(full_shape(right_len(len))))
    }
}

/// The shape of a subtree over `len` points after the points `lo..hi`
/// (counted from its first point) are updated: a node is split exactly
/// when the update covers part of it but not all of it, and a leaf that is
/// split gets two leaves as children. Nodes covered wholly or not at all
/// keep their shape.
pub open spec fn refine_shape(s: Shape, len: nat, lo: int, hi: int) -> Shape
    decreases len,
{
    if lo >= hi || (lo == 0 && hi == len) || len <= 1 {
        s
    } else {
        let l = left_len(len) as int;
        let children = match s {
            Shape::Leaf => (Shape::Leaf, Shape::Leaf),
            Shape::Split(a, b) => (*a, *b),
        };
        Shape::Split(
            Box::new(
                refine_shape(
                    children.0,
                    left_len(len),
                    lo,
                    if hi <= l {
                        hi
                    } else {
                        l
                    },
                ),
            ),
            Box::new(
                refine_shape(
                    children.1,
                    right_len(len),
                    if lo >= l {
                        lo - l
                    } else {
                        0
                    },
                    hi - l,
                ),
            ),
        )
    }
}

impl<T: SegData, Op: ModifyOp<T>> SegNode<T, Op> {
    /// The shape of the subtree rooted at this node.
    pub closed spec fn shape(self) -> Shape
        decreases self,
    {
        match self {
            SegNode::Same(_) => Shape::Leaf,
            SegNode::Diverged(d) => Shape::Split(
                Box::new(d.l_child.shape()),
                Box::new(d.r_child.shape()),
            ),
        }
    }

    /// The number of nodes is the number of nodes of the shape.
    pub proof fn lemma_node_count_is_shape_count(self)
        ensures
            self.node_count() == shape_node_count(self.shape()),
        decreases self,
    {
        if let SegNode::Diverged(d) = self {
            d.l_child.lemma_node_count_is_shape_count();
            d.r_child.lemma_node_count_is_shape_count();
        }
    }

    /// A fully built node has the full shape.
    pub proof fn lemma_full_shape(self, len: nat)
        requires
            self.is_full(len),
        ensures
            self.shape() == full_shape(len),
        decreases self,
    {
        if let SegNode::Diverged(d) = self {
            d.l_child.lemma_full_shape(left_len(len));
            d.r_child.lemma_full_shape(right_len(len));
        }
    }

    /// The node over `len` points is fully built: every point has its own
    /// leaf, and nothing is pending anywhere.
    pub closed spec fn is_full(self, len: nat) -> bool
        decreases self,
    {
        match self {
            SegNode::Same(_) => len == 1,
            SegNode::Diverged(d) => {
                &&& len >= 2
                &&& !d.has_pending_ops
                &&& d.l_child.is_full(left_len(len))
                &&& d.r_child.is_full(right_len(len))
            },
        }
    }

    /// A fully built node over `len` points has `2 * len - 1` nodes.
    pub proof fn lemma_full_node_count(self, len: nat)
        requires
            self.is_full(len),
        ensures
            self.node_count() == 2 * len - 1,
        decreases self,
    {
        if let SegNode::Diverged(d) = self {
            d.l_child.lemma_full_node_count(left_len(len));
            d.r_child.lemma_full_node_count(right_len(len));
        }
    }

    /// The data of each point of the node, when the node covers `len` points.
    pub closed spec fn points(self, len: nat) -> Seq<T>
        decreases self,
    {
        match self {
            SegNode::Same(s) => Seq::new(len, |i: int| s),
            SegNode::Diverged(d) => {
                let lp = d.l_child.points(left_len(len));
                let rp = d.r_child.points(right_len(len));
                (lp + rp).map_values(|x: T| d.pending_ops_for_children.apply_to_point(x))
            },
        }
    }

    /// The node is well formed for a range of `len` points: diverged nodes
    /// have at least two points, and the sum they keep is the sum of their
    /// points.
    pub closed spec fn wf(self, len: nat) -> bool
        decreases self,
    {
        &&& len >= 1
        &&& match self {
            SegNode::Same(_) => true,
            SegNode::Diverged(d) => {
                &&& len >= 2
                &&& d.l_child.wf(left_len(len))
                &&& d.r_child.wf(right_len(len))
                &&& d.data_acc == seg_sum(self.points(len))
                &&& !d.has_pending_ops ==> d.nothing_pending()
            },
        }
    }

    /// The number of nodes in the subtree rooted at this node.
    pub closed spec fn node_count(self) -> nat
        decreases self,
    {
        match self {
            SegNode::Same(_) => 1,
            SegNode::Diverged(d) => 1 + d.l_child.node_count() + d.r_child.node_count(),
        }
    }

    /// A node covering `len` points has `len` points.
    pub proof fn lemma_points_len(self, len: nat)
        ensures
            self.points(len).len() == len,
        decreases self,
    {
        if let SegNode::Diverged(d) = self {
            d.l_child.lemma_points_len(left_len(len));
            d.r_child.lemma_points_len(right_len(len));
        }
    }

    /// A well-formed subtree over `len` points has at most `2 * len - 1`
    /// nodes.
    pub proof fn lemma_node_count_bound(self, len: nat)
        requires
            self.wf(len),
        ensures
            self.node_count() <= 2 * len - 1,
        decreases self,
    {
        if let SegNode::Diverged(d) = self {
            d.l_child.lemma_node_count_bound(left_len(len));
            d.r_child.lemma_node_count_bound(right_len(len));
        }
    }
}

impl<T: SegData, Op: ModifyOp<T>> DivergedSegNode<T, Op> {
    /// The points of both children, left first, before the pending
    /// operation is applied to them.
    pub closed spec fn children_points(self, len: nat) -> Seq<T> {
        self.l_child.points(left_len(len)) + self.r_child.points(right_len(len))
    }

    /// The pending operation does nothing.
    pub closed spec fn nothing_pending(self) -> bool {
        forall|x: T| #[trigger] self.pending_ops_for_children.apply_to_point(x) == x
    }

    /// Passes the pending operation on to both children; the points of the
    /// node stay as they were. Nothing is touched when nothing is pending.
    fn resolve_pending_ops(&mut self, l_child_range_len: usize, r_child_range_len: usize)
        requires
            l_child_range_len == left_len((l_child_range_len + r_child_range_len) as nat),
            SegNode::Diverged(*old(self)).wf((l_child_range_len + r_child_range_len) as nat),
        ensures
            ({
                let len = (l_child_range_len + r_child_range_len) as nat;
                &&& SegNode::Diverged(*final(self)).wf(len)
                &&& SegNode::Diverged(*final(self)).points(len) == SegNode::Diverged(
                    *old(self),
                ).points(len)
                &&& final(self).nothing_pending()
                &&& final(self).children_points(len) == SegNode::Diverged(*old(self)).points(len)
                &&& final(self).data_acc == old(self).data_acc
                &&& SegNode::Diverged(*final(self)).node_count() == SegNode::Diverged(
                    *old(self),
                ).node_count()
                &&& !final(self).has_pending_ops
                &&& !old(self).has_pending_ops ==> *final(self) == *old(self)
                &&& final(self).l_child.shape() == old(self).l_child.shape()
                &&& final(self).r_child.shape() == old(self).r_child.shape()
            }),
    {
        if !self.has_pending_ops {
            proof {
                let len = (l_child_range_len + r_child_range_len) as nat;
                assert(self.children_points(len).map_values(
                    |x: T| self.pending_ops_for_children.apply_to_point(x),
                ) =~= self.children_points(len));
            }
            return ;
        }
        let ghost len = (l_child_range_len + r_child_range_len) as nat;
        let ghost old_points = SegNode::Diverged(*self).points(len);
        let ghost pending = self.pending_ops_for_children;
        let ghost lp = self.l_child.points(left_len(len));
        let ghost rp = self.r_child.points(right_len(len));
        self.l_child.modify_whole_with(l_child_range_len, &self.pending_ops_for_children);
        self.r_child.modify_whole_with(r_child_range_len, &self.pending_ops_for_children);
        self.pending_ops_for_children = Op::nop();
        self.has_pending_ops = false;
        proof {
            let f = |x: T| pending.apply_to_point(x);
            assert(self.children_points(len) =~= (lp + rp).map_values(f));
            assert(self.children_points(len).map_values(
                |x: T| self.pending_ops_for_children.apply_to_point(x),
            ) =~= self.children_points(len));
        }
    }
}

/// The middle of a range: the floor of the mean of its bounds.
pub fn range_mid(range: &Range<usize>) -> (r: usize)
    ensures
        r == (range.start + range.end) / 2,
{
    if range.start <= range.end {
        range.start + (range.end - range.start) / 2
    } else {
        range.end + (range.start - range.end) / 2
    }
}

/// Splits a range at its middle; the right part may be larger.
pub fn split_lr_range(range: &Range<usize>) -> (r: (Range<usize>, Range<usize>))
    ensures
        r.0.start == range.start,
        r.0.end == r.1.start,
        r.1.end == range.end,
        r.0.end == (range.start + range.end) / 2,
        range.start <= range.end ==> r.0.end - r.0.start == left_len(
            (range.end - range.start) as nat,
        ) && r.1.end - r.1.start == right_len((range.end - range.start) as nat),
{
    let mid = range_mid(range);
    (range.start..mid, mid..range.end)
}

/// The points that two ranges have in common.
pub fn range_intersect(range1: &Range<usize>, range2: &Range<usize>) -> (r: Range<usize>)
    ensures
        r.start == if range1.start >= range2.start {
            range1.start
        } else {
            range2.start
        },
        r.end == if range1.end <= range2.end {
            range1.end
        } else {
            range2.end
        },
{
    let start = if range1.start >= range2.start {
        range1.start
    } else {
        range2.start
    };
    let end = if range1.end <= range2.end {
        range1.end
    } else {
        range2.end
    };
    start..end
}

impl<T: SegData, Op: ModifyOp<T>> SegNode<T, Op> {

    /// A node whose points all hold `same_point_data`.
    pub fn from_same_point_data(same_point_data: T) -> (r: Self)
        ensures
            forall|len: nat| len >= 1 ==> #[trigger] r.wf(len),
            forall|len: nat|
                #[trigger] r.points(len) == Seq::new(len, |i: int| same_point_data),
            r.node_count() == 1,
            r == SegNode::<T, Op>::Same(same_point_data),
            r.shape() == Shape::Leaf,
    {
        SegNode::Same(same_point_data)
    }

    /// A fully built node over the given points, with a leaf for each point.
    pub fn with_points(point_data: &[T]) -> (r: Self)
        requires
            seg_data_laws::<T>(),
            point_data@.len() >= 1,
        ensures
            r.wf(point_data@.len()),
            r.points(point_data@.len()) == point_data@,
            r.is_full(point_data@.len()),
            r.shape() == full_shape(point_data@.len()),
            r.node_count() == 2 * point_data@.len() - 1,
            point_data@.len() == 1 ==> r == SegNode::<T, Op>::Same(point_data@[0]),
            point_data@.len() >= 2 ==> r is Diverged,
        decreases point_data@.len(),
    {
        let ghost len = point_data@.len();
        if point_data.len() == 1 {
            let r = SegNode::Same(point_data[0].duplicate());
            proof {
                assert(r.points(len) =~= point_data@);
            }
            return r;
        }
        let (l_range, r_range) = split_lr_range(&(0..point_data.len()));
        let mut l_child = Box::new(Self::with_points(&point_data[l_range.start..l_range.end]));
        let mut r_child = Box::new(Self::with_points(&point_data[r_range.start..r_range.end]));
        let l_sum = l_child.query(&l_range, &l_range);
        let r_sum = r_child.query(&r_range, &r_range);
        let data_acc = l_sum.add(&r_sum);
        let r = SegNode::Diverged(
            DivergedSegNode {
                data_acc,
                pending_ops_for_children: Op::nop(),
                has_pending_ops: false,
                l_child,
                r_child,
            },
        );
        proof {
            let lp = point_data@.subrange(0, l_range.end as int);
            let rp = point_data@.subrange(l_range.end as int, len as int);
            assert(l_range.end == len / 2);
            assert(lp.len() == left_len(len));
            assert(rp.len() == right_len(len));
            assert(lp.subrange(0, lp.len() as int) =~= lp);
            assert(rp.subrange(0, rp.len() as int) =~= rp);
            assert(l_sum == seg_sum(lp));
            assert(r_sum == seg_sum(rp));
            lemma_seg_sum_concat(lp, rp);
            assert(lp + rp =~= point_data@);
            assert(data_acc == seg_sum(point_data@));
            assert(r.points(len) =~= point_data@);
            r.lemma_full_node_count(len);
            r.lemma_full_shape(len);
        }
        r
    }

    /// The number of nodes in the subtree of a node covering
    /// `node_range_len` points.
    pub fn node_cnt(&self, node_range_len: usize) -> (r: u128)
        requires
            self.wf(node_range_len as nat),
        ensures
            r == self.node_count(),
        decreases self,
    {
        proof {
            self.lemma_node_count_bound(node_range_len as nat);
        }
        match self {
            SegNode::Same(_) => 1,
            SegNode::Diverged(d) => {
                let l_len = node_range_len / 2;
                let l = d.l_child.node_cnt(l_len);
                let r = d.r_child.node_cnt(node_range_len - l_len);
                proof {
                    d.l_child.lemma_node_count_bound(left_len(node_range_len as nat));
                    d.r_child.lemma_node_count_bound(right_len(node_range_len as nat));
                }
                1 + l + r
            },
        }
    }

    /// Makes the node diverged, covering `my_node_range_len` points, without
    /// changing its points, and hands out the diverged node.
    fn ensure_diverged(&mut self, my_node_range_len: usize) -> (d: &mut DivergedSegNode<T, Op>)
        requires
            seg_data_laws::<T>(),
            old(self).wf(my_node_range_len as nat),
            my_node_range_len >= 2,
        ensures
            SegNode::Diverged(*d).wf(my_node_range_len as nat),
            SegNode::Diverged(*d).points(my_node_range_len as nat) == old(self).points(
                my_node_range_len as nat,
            ),
            *final(self) == SegNode::Diverged(*final(d)),
            *old(self) matches SegNode::Same(x) ==> {
                &&& d.data_acc == T::mul_spec(x, my_node_range_len as nat)
                &&& !d.has_pending_ops
                &&& d.nothing_pending()
                &&& *d.l_child == SegNode::<T, Op>::Same(x)
                &&& *d.r_child == SegNode::<T, Op>::Same(x)
                &&& SegNode::Diverged(*d).node_count() == 3
            },
            *old(self) matches SegNode::Diverged(od) ==> *d == od,
    {
        let ghost len = my_node_range_len as nat;
        if let SegNode::Same(s) = self {
            let data_acc = s.mul(my_node_range_len);
            let l = s.duplicate();
            let r = s.duplicate();
            let ghost x = *s;
            *self = SegNode::Diverged(
                DivergedSegNode {
                    data_acc,
                    pending_ops_for_children: Op::nop(),
                    has_pending_ops: false,
                    l_child: Box::new(SegNode::Same(l)),
                    r_child: Box::new(SegNode::Same(r)),
                },
            );
            proof {
                let same = Seq::new(len, |i: int| x);
                assert(SegNode::<T, Op>::Same(x).points(left_len(len)) =~= Seq::new(
                    left_len(len),
                    |i: int| x,
                ));
                assert(SegNode::<T, Op>::Same(x).points(right_len(len)) =~= Seq::new(
                    right_len(len),
                    |i: int| x,
                ));
                assert(self.points(len) =~= same);
                assert(T::mul_spec(x, len) == seg_sum(same));
                assert(SegNode::<T, Op>::Same(x).wf(left_len(len)));
                assert(SegNode::<T, Op>::Same(x).wf(right_len(len)));
                assert(self.wf(len));
                assert(SegNode::<T, Op>::Same(x).node_count() == 1);
                assert(self.node_count() == 3);
            }
        }
        match self {
            SegNode::Diverged(d) => d,
            SegNode::Same(_) => vstd::pervasive::unreached(),
        }
    }

    /// The sum of the data of the points in `target_range`, for a node that
    /// covers `node_range`. Pending operations on the way are passed on to
    /// the children; the points of the node do not change.
    pub fn query(&mut self, node_range: &Range<usize>, target_range: &Range<usize>) -> (r: T)
        requires
            seg_data_laws::<T>(),
            node_range.start <= target_range.start,
            target_range.start < target_range.end,
            target_range.end <= node_range.end,
            old(self).wf((node_range.end - node_range.start) as nat),
        ensures
            final(self).wf((node_range.end - node_range.start) as nat),
            final(self).points((node_range.end - node_range.start) as nat) == old(self).points(
                (node_range.end - node_range.start) as nat,
            ),
            final(self).node_count() == old(self).node_count(),
            final(self).shape() == old(self).shape(),
            *old(self) is Same || (target_range.start == node_range.start && target_range.end
                == node_range.end) ==> *final(self) == *old(self),
            r == seg_sum(
                old(self).points((node_range.end - node_range.start) as nat).subrange(
                    target_range.start - node_range.start,
                    target_range.end - node_range.start,
                ),
            ),
        decreases node_range.end - node_range.start,
    {
        let ghost len = (node_range.end - node_range.start) as nat;
        let ghost old_points = self.points(len);
        let ghost lo = target_range.start - node_range.start;
        let ghost hi = target_range.end - node_range.start;
        proof {
            self.lemma_points_len(len);
        }
        let diverged = match self {
            SegNode::Same(s) => {
                let k = target_range.end - target_range.start;
                proof {
                    assert(old_points.subrange(lo, hi) =~= Seq::new(k as nat, |i: int| *s));
                }
                return s.mul(k);
            },
            SegNode::Diverged(d) => {
                if target_range.start == node_range.start && target_range.end == node_range.end {
                    proof {
                        assert(old_points.subrange(lo, hi) =~= old_points);
                    }
                    return d.data_acc.duplicate();
                }
                d
            },
        };
        let (l_child_range, r_child_range) = split_lr_range(node_range);
        let l_target_range = range_intersect(&l_child_range, target_range);
        let r_target_range = range_intersect(&r_child_range, target_range);
        let l_len = l_child_range.end - l_child_range.start;
        let r_len = r_child_range.end - r_child_range.start;
        diverged.resolve_pending_ops(l_len, r_len);
        let ghost lp = diverged.l_child.points(left_len(len));
        let ghost rp = diverged.r_child.points(right_len(len));
        let ghost mid = l_len as int;
        proof {
            diverged.l_child.lemma_points_len(left_len(len));
            diverged.r_child.lemma_points_len(right_len(len));
            assert(old_points =~= lp + rp);
        }
        if l_target_range.start >= l_target_range.end {
            proof {
                assert(old_points.subrange(lo, hi) =~= rp.subrange(lo - mid, hi - mid));
            }
            diverged.r_child.query(&r_child_range, &r_target_range)
        } else if r_target_range.start >= r_target_range.end {
            proof {
                assert(old_points.subrange(lo, hi) =~= lp.subrange(lo, hi));
            }
            diverged.l_child.query(&l_child_range, &l_target_range)
        } else {
            let l_sum = diverged.l_child.query(&l_child_range, &l_target_range);
            let r_sum = diverged.r_child.query(&r_child_range, &r_target_range);
            proof {
                assert(old_points.subrange(lo, hi) =~= lp.subrange(lo, mid) + rp.subrange(
                    0,
                    hi - mid,
                ));
                lemma_seg_sum_concat(lp.subrange(lo, mid), rp.subrange(0, hi - mid));
            }
            l_sum.add(&r_sum)
        }
    }

    /// Applies `op` to every point in `target_range`, for a node that covers
    /// `node_range`. Children are created only where the target range
    /// splits a node whose points were all the same.
    pub fn modify(
        &mut self,
        node_range: &Range<usize>,
        target_range: &Range<usize>,
        op: &Op,
    )
        requires
            seg_data_laws::<T>(),
            node_range.start <= target_range.start,
            target_range.start < target_range.end,
            target_range.end <= node_range.end,
            old(self).wf((node_range.end - node_range.start) as nat),
        ensures
            final(self).wf((node_range.end - node_range.start) as nat),
            final(self).points((node_range.end - node_range.start) as nat) == apply_on_range(
                old(self).points((node_range.end - node_range.start) as nat),
                target_range.start - node_range.start,
                target_range.end - node_range.start,
                *op,
            ),
            target_range.start == node_range.start && target_range.end == node_range.end
                ==> final(self).node_count() == old(self).node_count(),
            final(self).shape() == refine_shape(
                old(self).shape(),
                (node_range.end - node_range.start) as nat,
                target_range.start - node_range.start,
                target_range.end - node_range.start,
            ),
            final(self).node_count() <= old(self).node_count() + if target_range.start
                == node_range.start || target_range.end == node_range.end {
                2 * depth((node_range.end - node_range.start) as nat)
            } else {
                4 * depth((node_range.end - node_range.start) as nat)
            },
        decreases node_range.end - node_range.start,
    {
        let ghost len = (node_range.end - node_range.start) as nat;
        let ghost old_points = self.points(len);
        let ghost lo = target_range.start - node_range.start;
        let ghost hi = target_range.end - node_range.start;
        let ghost old_count = self.node_count();
        let ghost old_shape = self.shape();
        proof {
            self.lemma_points_len(len);
        }
        if target_range.start == node_range.start && target_range.end == node_range.end {
            self.modify_whole_with(node_range.end - node_range.start, op);
            proof {
                assert(old_points.map_values(|x: T| op.apply_to_point(x)) =~= apply_on_range(
                    old_points,
                    lo,
                    hi,
                    *op,
                ));
            }
            return ;
        }
        let (l_child_range, r_child_range) = split_lr_range(node_range);
        let l_target_range = range_intersect(&l_child_range, target_range);
        let r_target_range = range_intersect(&r_child_range, target_range);
        let l_len = l_child_range.end - l_child_range.start;
        let r_len = r_child_range.end - r_child_range.start;
        let diverged = self.ensure_diverged(node_range.end - node_range.start);
        diverged.resolve_pending_ops(l_len, r_len);
        let ghost lp = diverged.l_child.points(left_len(len));
        let ghost rp = diverged.r_child.points(right_len(len));
        let ghost mid = l_len as int;
        proof {
            diverged.l_child.lemma_points_len(left_len(len));
            diverged.r_child.lemma_points_len(right_len(len));
            assert(old_points =~= lp + rp);
        }
        let ghost l_count = diverged.l_child.node_count();
        let ghost r_count = diverged.r_child.node_count();
        let ghost l_shape = diverged.l_child.shape();
        let ghost r_shape = diverged.r_child.shape();
        proof {
            let children = match old_shape {
                Shape::Leaf => (Shape::Leaf, Shape::Leaf),
                Shape::Split(a, b) => (*a, *b),
            };
            assert(l_shape == children.0 && r_shape == children.1);
        }
        proof {
            assert(1 + l_count + r_count <= old_count + 2);
            lemma_depth_monotone(left_len(len), right_len(len));
            assert(depth(len) == 1 + depth(right_len(len)));
        }
        if r_target_range.start < r_target_range.end {
            diverged.r_child.modify(&r_child_range, &r_target_range, op);
        }
        if l_target_range.start < l_target_range.end {
            diverged.l_child.modify(&l_child_range, &l_target_range, op);
        }
        let ghost new_lp = diverged.l_child.points(left_len(len));
        let ghost new_rp = diverged.r_child.points(right_len(len));
        proof {
            let l = mid;
            assert(diverged.l_child.shape() == refine_shape(
                l_shape,
                left_len(len),
                lo,
                if hi <= l {
                    hi
                } else {
                    l
                },
            ));
            assert(diverged.r_child.shape() == refine_shape(
                r_shape,
                right_len(len),
                if lo >= l {
                    lo - l
                } else {
                    0
                },
                hi - l,
            ));
        }
        proof {
            assert(new_lp =~= apply_on_range(lp, lo, hi, *op));
            assert(new_rp =~= apply_on_range(rp, lo - mid, hi - mid, *op));
            assert(new_lp + new_rp =~= apply_on_range(old_points, lo, hi, *op));
        }
        let l_sum = diverged.l_child.query(&l_child_range, &l_child_range);
        let r_sum = diverged.r_child.query(&r_child_range, &r_child_range);
        diverged.data_acc = l_sum.add(&r_sum);
        proof {
            diverged.l_child.lemma_points_len(left_len(len));
            diverged.r_child.lemma_points_len(right_len(len));
            assert(new_lp.subrange(0, mid) =~= new_lp);
            assert(new_rp.subrange(0, right_len(len) as int) =~= new_rp);
            lemma_seg_sum_concat(new_lp, new_rp);
            assert(diverged.children_points(len).map_values(
                |x: T| diverged.pending_ops_for_children.apply_to_point(x),
            ) =~= new_lp + new_rp);
            let new_count = SegNode::Diverged(*diverged).node_count();
            let dl = depth(left_len(len));
            let dr = depth(right_len(len));
            assert(new_count == 1 + diverged.l_child.node_count() + diverged.r_child.node_count());
            if target_range.start == node_range.start {
                assert(new_count <= old_count + 2 * depth(len));
            } else if target_range.end == node_range.end {
                assert(new_count <= old_count + 2 * depth(len));
            } else {
                assert(new_count <= old_count + 4 * depth(len));
            }
        }
    }

    /// Applies `op` to every point of the node, which covers
    /// `node_range_len` points.
    fn modify_whole_with(&mut self, node_range_len: usize, op: &Op)
        requires
            old(self).wf(node_range_len as nat),
        ensures
            final(self).wf(node_range_len as nat),
            final(self).points(node_range_len as nat) == old(self).points(
                node_range_len as nat,
            ).map_values(|x: T| op.apply_to_point(x)),
            final(self).node_count() == old(self).node_count(),
            final(self).shape() == old(self).shape(),
            *old(self) is Same ==> *final(self) is Same,
            *old(self) matches SegNode::Diverged(od) ==> *final(self) matches SegNode::Diverged(nd)
                && nd.l_child == od.l_child && nd.r_child == od.r_child,
    {
        let ghost len = node_range_len as nat;
        let ghost old_points = self.points(len);
        match self {
            SegNode::Same(s) => {
                let ghost x = *s;
                op.apply(s, 1);
                proof {
                    assert(seg_sum(seq![x]) == x);
                    assert(seq![x].map_values(|y: T| op.apply_to_point(y)) =~= seq![
                        op.apply_to_point(x),
                    ]);
                    assert(seg_sum(seq![op.apply_to_point(x)]) == op.apply_to_point(x));
                }
            },
            SegNode::Diverged(d) => {
                let ghost acc = d.data_acc;
                let ghost p = d.pending_ops_for_children;
                proof {
                    SegNode::Diverged(*d).lemma_points_len(len);
                    assert(seg_sum(old_points) == acc);
                }
                op.apply(&mut d.data_acc, node_range_len);
                d.pending_ops_for_children.combine(op);
                d.has_pending_ops = true;
                proof {
                    let g = |x: T| d.pending_ops_for_children.apply_to_point(x);
                    assert(d.children_points(len).map_values(g) =~= old_points.map_values(
                        |x: T| op.apply_to_point(x),
                    ));
                }
            },
        }
        proof {
            assert(self.points(len) =~= old_points.map_values(|x: T| op.apply_to_point(x)));
        }
    }
}

} // verus!
