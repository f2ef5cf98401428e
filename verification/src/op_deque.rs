use std::collections::VecDeque;
use vstd::prelude::*;
use vstd::std_specs::cmp::PartialEqSpec;

use crate::lazy_ops::{lemma_push_keeps_neighbours_distinct, neighbours_distinct};

verus! {

/// A double-ended queue of operations, each with the number of times it is
/// to be applied. Equal neighbouring operations are merged at the back.
pub struct OpDeque<Op>(pub VecDeque<(Op, usize)>);

impl<Op> View for OpDeque<Op> {
    type V = Seq<(Op, usize)>;

    open spec fn view(&self) -> Seq<(Op, usize)> {
        self.0@
    }
}

/// Whether pushing `new_op` may merge it into the operation at the back:
/// always where `==` on `Op` follows its specification and says they are
/// equal, and possibly (as far as can be known) where it does not follow one.
pub open spec fn may_merge_back<Op: PartialEq>(ops: Seq<(Op, usize)>, new_op: Op) -> bool {
    ops.len() > 0 && (Op::obeys_eq_spec() ==> ops.last().0.eq_spec(&new_op))
}

/// The deque after `times` more applications of the operation at its back.
pub open spec fn add_to_back<Op>(ops: Seq<(Op, usize)>, times: usize) -> Seq<(Op, usize)> {
    ops.drop_last().push((ops.last().0, (ops.last().1 + times) as usize))
}

/// Every count in the deque is positive.
pub open spec fn deque_counts_positive<Op>(ops: Seq<(Op, usize)>) -> bool {
    forall|i: int| 0 <= i < ops.len() ==> #[trigger] ops[i].1 > 0
}

/// Adding to the back entry keeps counts positive and neighbouring
/// operations distinct.
pub proof fn lemma_add_to_back_keeps_laws<Op: PartialEq>(ops: Seq<(Op, usize)>, times: usize)
    requires
        ops.len() > 0,
        ops.last().1 + times <= usize::MAX,
    ensures
        deque_counts_positive(ops) ==> deque_counts_positive(add_to_back(ops, times)),
        neighbours_distinct(ops) ==> neighbours_distinct(add_to_back(ops, times)),
{
    let r = add_to_back(ops, times);
    if neighbours_distinct(ops) {
        assert forall|i: int, j: int| 0 <= i && j == i + 1 && j < r.len() implies !(
        #[trigger] r[i]).0.eq_spec(&(#[trigger] r[j]).0) by {
            assert(r[i].0 == ops[i].0);
            assert(r[j].0 == ops[j].0);
        }
    }
    if deque_counts_positive(ops) {
        assert forall|i: int| 0 <= i < r.len() implies #[trigger] r[i].1 > 0 by {
            if i < r.len() - 1 {
                assert(r[i] == ops[i]);
            }
        }
    }
}

impl<Op: PartialEq> OpDeque<Op> {
    /// An empty deque; nothing is allocated.
    pub fn new() -> (r: Self)
        ensures
            r@ == Seq::<(Op, usize)>::empty(),
    {
        OpDeque(VecDeque::new())
    }

    /// Queues `new_op` at the back to be applied `times` times. Nothing
    /// happens when `times` is zero; `new_op` is merged into the operation at
    /// the back when the two are equal.
    pub fn push_back(&mut self, new_op: Op, times: usize)
        requires
            times != 0 && may_merge_back(old(self)@, new_op) ==> old(self)@.last().1 + times
                <= usize::MAX,
        ensures
            times == 0 ==> final(self)@ == old(self)@,
            times != 0 ==> {
                ||| (may_merge_back(old(self)@, new_op) && final(self)@ == add_to_back(
                    old(self)@,
                    times,
                ))
                ||| final(self)@ == old(self)@.push((new_op, times))
            },
            times != 0 && Op::obeys_eq_spec() ==> final(self)@ == if old(self)@.len() > 0
                && old(self)@.last().0.eq_spec(&new_op) {
                add_to_back(old(self)@, times)
            } else {
                old(self)@.push((new_op, times))
            },
            deque_counts_positive(old(self)@) ==> deque_counts_positive(final(self)@),
            Op::obeys_eq_spec() && neighbours_distinct(old(self)@) ==> neighbours_distinct(
                final(self)@,
            ),
    {
        if times == 0 {
            return ;
        }
        let len = self.0.len();
        if len > 0 {
            let same = self.0[len - 1].0 == new_op;
            if same {
                let (back_op, back_times) = self.0.pop_back().unwrap();
                self.0.push_back((back_op, back_times + times));
                proof {
                    assert(old(self)@.drop_last() =~= self.0@.subrange(0, len - 1));
                    assert(self@ =~= add_to_back(old(self)@, times));
                    lemma_add_to_back_keeps_laws(old(self)@, times);
                }
                return ;
            }
        }
        self.0.push_back((new_op, times));
        proof {
            if Op::obeys_eq_spec() && neighbours_distinct(old(self)@) {
                lemma_push_keeps_neighbours_distinct(old(self)@, (new_op, times));
            }
            if deque_counts_positive(old(self)@) {
                assert forall|i: int| 0 <= i < self@.len() implies #[trigger] self@[i].1 > 0 by {
                    if i < old(self)@.len() {
                        assert(self@[i] == old(self)@[i]);
                    }
                }
            }
        }
    }
}

} // verus!
