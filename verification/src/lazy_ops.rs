use vstd::prelude::*;
use vstd::laws_eq::obeys_concrete_eq;
use vstd::std_specs::cmp::PartialEqSpec;

verus! {

/// A queue of pending operations, each with the (signed) number of times it
/// is to be applied. Equal neighbouring operations are merged, and an
/// operation whose count drops to zero leaves the queue.
pub struct LazyOps<Op>(Vec<(Op, isize)>);

impl<Op> View for LazyOps<Op> {
    type V = Seq<(Op, isize)>;

    closed spec fn view(&self) -> Seq<(Op, isize)> {
        self.0@
    }
}

/// No queued operation has a count of zero.
pub open spec fn counts_nonzero<Op>(ops: Seq<(Op, isize)>) -> bool {
    forall|i: int| 0 <= i < ops.len() ==> #[trigger] ops[i].1 != 0
}

/// The queue after `times` more applications of its last operation:
/// the count grows, and the entry leaves when it reaches zero.
pub open spec fn merge_into_last<Op>(ops: Seq<(Op, isize)>, times: isize) -> Seq<(Op, isize)> {
    let count = ops.last().1 + times;
    if count == 0 {
        ops.drop_last()
    } else {
        ops.drop_last().push((ops.last().0, count as isize))
    }
}

/// Whether pushing `new_op` may merge it into the last queued operation:
/// always where `==` on `Op` follows its specification and says they are
/// equal, and possibly (as far as can be known) where it does not follow one.
pub open spec fn may_merge<Op: PartialEq>(ops: Seq<(Op, isize)>, new_op: Op) -> bool {
    ops.len() > 0 && (Op::obeys_eq_spec() ==> ops.last().0.eq_spec(&new_op))
}

/// No two neighbouring entries hold operations that `==` says are equal.
pub open spec fn neighbours_distinct<Op: PartialEq, C>(ops: Seq<(Op, C)>) -> bool {
    forall|i: int, j: int|
        0 <= i && j == i + 1 && j < ops.len() ==> !(#[trigger] ops[i]).0.eq_spec(
            &(#[trigger] ops[j]).0,
        )
}

/// Every queued count is positive.
pub open spec fn counts_positive<Op>(ops: Seq<(Op, isize)>) -> bool {
    forall|i: int| 0 <= i < ops.len() ==> #[trigger] ops[i].1 > 0
}

/// The operations of the queue one by one, oldest first: each entry stands
/// for its operation repeated as many times as its (non-negative) count.
pub open spec fn expand<Op>(ops: Seq<(Op, isize)>) -> Seq<Op>
    decreases ops.len(),
{
    if ops.len() == 0 {
        Seq::empty()
    } else {
        expand(ops.drop_last()) + Seq::new(ops.last().1 as nat, |i: int| ops.last().0)
    }
}

/// Merging into the last entry keeps neighbouring operations distinct.
pub proof fn lemma_merge_keeps_neighbours_distinct<Op: PartialEq>(
    ops: Seq<(Op, isize)>,
    times: isize,
)
    requires
        ops.len() > 0,
        neighbours_distinct(ops),
    ensures
        neighbours_distinct(merge_into_last(ops, times)),
{
    let r = merge_into_last(ops, times);
    assert forall|i: int, j: int| 0 <= i && j == i + 1 && j < r.len() implies !(
    #[trigger] r[i]).0.eq_spec(&(#[trigger] r[j]).0) by {
        assert(r[i].0 == ops[i].0);
        assert(r[j].0 == ops[j].0);
    }
}

/// Appending an operation that `==` says differs from the last one keeps
/// neighbouring operations distinct.
pub proof fn lemma_push_keeps_neighbours_distinct<Op: PartialEq, C>(
    ops: Seq<(Op, C)>,
    entry: (Op, C),
)
    requires
        neighbours_distinct(ops),
        ops.len() > 0 ==> !ops.last().0.eq_spec(&entry.0),
    ensures
        neighbours_distinct(ops.push(entry)),
{
    let r = ops.push(entry);
    assert forall|i: int, j: int| 0 <= i && j == i + 1 && j < r.len() implies !(
    #[trigger] r[i]).0.eq_spec(&(#[trigger] r[j]).0) by {
        if j < ops.len() {
            assert(r[i] == ops[i] && r[j] == ops[j]);
        }
    }
}

/// Appending an entry appends its repetitions to the expansion.
pub proof fn lemma_expand_push<Op>(ops: Seq<(Op, isize)>, op: Op, times: isize)
    requires
        times >= 0,
    ensures
        expand(ops.push((op, times))) == expand(ops) + Seq::new(times as nat, |i: int| op),
{
    assert(ops.push((op, times)).drop_last() =~= ops);
}

/// Merging `times` more repetitions into the last entry appends them to the
/// expansion.
pub proof fn lemma_expand_merge<Op>(ops: Seq<(Op, isize)>, times: isize)
    requires
        ops.len() > 0,
        ops.last().1 >= 0,
        times >= 0,
        ops.last().1 + times <= isize::MAX,
    ensures
        expand(merge_into_last(ops, times)) == expand(ops) + Seq::new(
            times as nat,
            |i: int| ops.last().0,
        ),
{
    let last = ops.last();
    let rest = ops.drop_last();
    let merged = Seq::new((last.1 + times) as nat, |i: int| last.0);
    assert(Seq::new(last.1 as nat, |i: int| last.0) + Seq::new(times as nat, |i: int| last.0)
        =~= merged);
    if last.1 + times != 0 {
        lemma_expand_push(rest, last.0, (last.1 + times) as isize);
    } else {
        assert(merged =~= Seq::<Op>::empty());
    }
    assert(expand(ops) == expand(rest) + Seq::new(last.1 as nat, |i: int| last.0));
    assert(expand(rest) + merged =~= expand(rest) + Seq::new(last.1 as nat, |i: int| last.0)
        + Seq::new(times as nat, |i: int| last.0));
}

impl<Op: PartialEq> LazyOps<Op> {
    /// An empty queue; nothing is allocated.
    pub fn new() -> (r: Self)
        ensures
            r@ == Seq::<(Op, isize)>::empty(),
    {
        LazyOps(Vec::new())
    }

    /// Queues `new_op` to be applied `times` times. Nothing happens when
    /// `times` is zero; `new_op` is merged into the last queued operation
    /// when the two are equal.
    pub fn push_back(&mut self, new_op: Op, times: isize)
        requires
            times != 0 && may_merge(old(self)@, new_op) ==> isize::MIN <= old(self)@.last().1 + times
                <= isize::MAX,
        ensures
            times == 0 ==> final(self)@ == old(self)@,
            times != 0 ==> {
                ||| (may_merge(old(self)@, new_op) && final(self)@ == merge_into_last(old(self)@, times))
                ||| final(self)@ == old(self)@.push((new_op, times))
            },
            times != 0 && Op::obeys_eq_spec() ==> final(self)@ == if old(self)@.len() > 0
                && old(self)@.last().0.eq_spec(&new_op) {
                merge_into_last(old(self)@, times)
            } else {
                old(self)@.push((new_op, times))
            },
            counts_nonzero(old(self)@) ==> counts_nonzero(final(self)@),
            Op::obeys_eq_spec() && neighbours_distinct(old(self)@) ==> neighbours_distinct(
                final(self)@,
            ),
            obeys_concrete_eq::<Op>() && times >= 0 && counts_positive(old(self)@) ==> {
                &&& counts_positive(final(self)@)
                &&& expand(final(self)@) == expand(old(self)@) + Seq::new(
                    times as nat,
                    |i: int| new_op,
                )
            },
    {
        proof {
            reveal(obeys_concrete_eq);
        }
        if times == 0 {
            proof {
                assert(expand(self@) + Seq::new(times as nat, |i: int| new_op) =~= expand(self@));
            }
            return ;
        }
        let len = self.0.len();
        if len > 0 {
            let same = self.0[len - 1].0 == new_op;
            if same {
                let (back_op, back_times) = self.0.pop().unwrap();
                let count: isize = back_times + times;
                if count != 0 {
                    self.0.push((back_op, count));
                }
                proof {
                    assert(old(self)@.drop_last() =~= self.0@.subrange(0, len - 1));
                    assert(self@ == merge_into_last(old(self)@, times));
                    if neighbours_distinct(old(self)@) {
                        lemma_merge_keeps_neighbours_distinct(old(self)@, times);
                    }
                    if obeys_concrete_eq::<Op>() && times >= 0 && counts_positive(old(self)@) {
                        lemma_expand_merge(old(self)@, times);
                        assert(old(self)@.last().0 == new_op);
                        assert(Seq::new(times as nat, |i: int| old(self)@.last().0) =~= Seq::new(
                            times as nat,
                            |i: int| new_op,
                        ));
                    }
                }
                return ;
            }
        }
        self.0.push((new_op, times));
        proof {
            if Op::obeys_eq_spec() && neighbours_distinct(old(self)@) {
                lemma_push_keeps_neighbours_distinct(old(self)@, (new_op, times));
            }
            if times >= 0 {
                lemma_expand_push(old(self)@, new_op, times);
            }
        }
    }

    /// Empties the queue.
    pub fn clear(&mut self)
        ensures
            final(self)@ == Seq::<(Op, isize)>::empty(),
    {
        self.0 = Vec::new();
    }

    /// The queued operations with their counts, oldest first.
    pub fn inner(&self) -> (r: &Vec<(Op, isize)>)
        ensures
            r@ == self@,
    {
        &self.0
    }
}

} // verus!
