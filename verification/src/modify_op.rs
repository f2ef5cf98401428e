use vstd::prelude::*;

use crate::seg_data::{seg_sum, SegData};

verus! {

/// A range modification operation for segment tree data.
/// Any type that implements this trait can be used as an operation
/// in methods such as [crate::SegTree::modify].
pub trait ModifyOp<T: SegData>: Sized {
    /// What the operation does to the data of a single point.
    ///
    /// Implementations verified against this trait give their own
    /// definition; the default body only lets implementations that are not
    /// verified leave it out, and nothing is proved from it for them.
    open spec fn apply_to_point(&self, x: T) -> T {
        x
    }

    /// Returns a no-op (do-nothing) operation.
    fn nop() -> (r: Self)
        ensures
            forall|x: T| #[trigger] r.apply_to_point(x) == x,
    ;

    /// Applies the modification operation.
    ///
    /// The given `orig_seg_data` is the sum of the data of a segment of
    /// length `seg_len`. It is modified as if the operation were applied to
    /// each point in the segment individually.
    fn apply(&self, orig_seg_data: &mut T, seg_len: usize)
        ensures
            forall|s: Seq<T>|
                s.len() == seg_len && s.len() >= 1 && #[trigger] seg_sum(s) == *old(orig_seg_data)
                    ==> *final(orig_seg_data) == seg_sum(
                    s.map_values(|x: T| self.apply_to_point(x)),
                ),
    ;

    /// Combines this operation with another operation: afterwards `self`
    /// acts as `self` followed by `another_op`.
    fn combine(&mut self, another_op: &Self)
        ensures
            forall|x: T| #[trigger]
                final(self).apply_to_point(x) == another_op.apply_to_point(
                    old(self).apply_to_point(x),
                ),
    ;
}

} // verus!

verus! {

/// The points `s` after `op` is applied to each point with an index in
/// `start..end`.
pub open spec fn apply_on_range<T: SegData, Op: ModifyOp<T>>(
    s: Seq<T>,
    start: int,
    end: int,
    op: Op,
) -> Seq<T> {
    Seq::new(
        s.len(),
        |i: int|
            if start <= i < end {
                op.apply_to_point(s[i])
            } else {
                s[i]
            },
    )
}

} // verus!

verus! {

/// Applying an operation to an empty range changes nothing.
pub proof fn lemma_apply_on_empty_range<T: SegData, Op: ModifyOp<T>>(
    s: Seq<T>,
    start: int,
    end: int,
    op: Op,
)
    requires
        start >= end,
    ensures
        apply_on_range(s, start, end, op) == s,
{
    assert(apply_on_range(s, start, end, op) =~= s);
}

/// Applying a no-op to a range leaves every point as it was.
pub proof fn lemma_apply_nop_on_range<T: SegData, Op: ModifyOp<T>>(
    s: Seq<T>,
    start: int,
    end: int,
    nop: Op,
)
    requires
        forall|x: T| #[trigger] nop.apply_to_point(x) == x,
    ensures
        apply_on_range(s, start, end, nop) == s,
{
    assert(apply_on_range(s, start, end, nop) =~= s);
}

/// Applying `first` and then `second` to a range is applying their
/// combination, as [ModifyOp::combine] makes it, to that range once.
pub proof fn lemma_apply_combined_on_range<T: SegData, Op: ModifyOp<T>>(
    s: Seq<T>,
    start: int,
    end: int,
    first: Op,
    second: Op,
    combined: Op,
)
    requires
        forall|x: T| #[trigger]
            combined.apply_to_point(x) == second.apply_to_point(first.apply_to_point(x)),
    ensures
        apply_on_range(apply_on_range(s, start, end, first), start, end, second) == apply_on_range(
            s,
            start,
            end,
            combined,
        ),
{
    assert(apply_on_range(apply_on_range(s, start, end, first), start, end, second)
        =~= apply_on_range(s, start, end, combined));
}

/// Applying an operation to the one-point range at `idx` changes only the
/// point at `idx`: modifying a point is modifying the range made of it.
pub proof fn lemma_apply_on_single_point<T: SegData, Op: ModifyOp<T>>(s: Seq<T>, idx: int, op: Op)
    requires
        0 <= idx < s.len(),
    ensures
        apply_on_range(s, idx, idx + 1, op) == s.update(idx, op.apply_to_point(s[idx])),
{
    assert(apply_on_range(s, idx, idx + 1, op) =~= s.update(idx, op.apply_to_point(s[idx])));
}

} // verus!
