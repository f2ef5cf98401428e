# segtri

A segment tree with lazy propagation, verified with Verus. It supports
updates and queries over ranges of points.

- `src/seg_data.rs`: the `SegData` trait for the data of a segment (how
  adjacent segments are summed and runs of equal points repeated), the sum
  `seg_sum` of a run of points, the laws the data must obey, and the
  instance for `usize` (wrapping arithmetic) with its laws proved.
- `src/modify_op.rs`: the `ModifyOp` trait for range updates (`nop`,
  `apply`, `combine`), `apply_on_range`, and laws about updates.
- `src/seg_node.rs`: the nodes of the tree. A node is either a run of
  equal points or is split in two children with the sum of its points and an
  update still to be passed on (with a flag telling whether it is a no-op);
  nodes are created lazily: an update splits exactly the leaves it covers
  in part (the `Shape` model states which), which makes at most four new
  nodes per level.
- `src/lib.rs`: `SegTree`, whose view is the sequence of its points.
- `src/lazy_ops.rs`, `src/op_deque.rs`: queues of counted operations that
  merge equal neighbours.
