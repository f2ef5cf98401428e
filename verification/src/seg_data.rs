use vstd::prelude::*;

verus! {

/// The data a segment tree keeps for a segment of points.
///
/// `add` joins the data of two adjacent segments (the left one first), and
/// `mul` gives the data of `n` consecutive points that all hold the same
/// data, which is assumed to be cheaper than adding them one by one.
pub trait SegData: Sized {
    /// The data of the segment made of a segment with data `a` followed by
    /// a segment with data `b`.
    ///
    /// Implementations verified against this trait give their own
    /// definition; the default body only lets implementations that are not
    /// verified leave it out, and nothing is proved from it for them.
    open spec fn add_spec(a: Self, b: Self) -> Self {
        a
    }

    /// The data of `n` consecutive points that each hold `a`.
    ///
    /// As for [SegData::add_spec], the default body only lets unverified
    /// implementations leave it out.
    open spec fn mul_spec(a: Self, n: nat) -> Self {
        a
    }

    /// Joins the data of two adjacent segments.
    fn add(&self, rhs: &Self) -> (r: Self)
        ensures
            r == Self::add_spec(*self, *rhs),
    ;

    /// The data of `n` consecutive points that each hold `self`.
    fn mul(&self, n: usize) -> (r: Self)
        requires
            n >= 1,
        ensures
            r == Self::mul_spec(*self, n as nat),
    ;

    /// A copy of the data.
    fn duplicate(&self) -> (r: Self)
        ensures
            r == *self,
    ;
}

/// The data of a non-empty sequence of points, summed from left to right.
pub open spec fn seg_sum<T: SegData>(s: Seq<T>) -> T
    decreases s.len(),
{
    if s.len() <= 1 {
        s[0]
    } else {
        T::add_spec(seg_sum(s.drop_last()), s.last())
    }
}

/// Joining data is associative: the way a sequence of segments is grouped
/// does not change its data.
pub open spec fn add_is_associative<T: SegData>() -> bool {
    forall|a: T, b: T, c: T|
        #[trigger] T::add_spec(T::add_spec(a, b), c) == T::add_spec(a, T::add_spec(b, c))
}

/// Repeating data is adding it: `n` points holding `a` have the data that
/// summing them one by one gives.
pub open spec fn mul_is_repeated_add<T: SegData>() -> bool {
    forall|a: T, n: nat| n >= 1 ==> #[trigger] T::mul_spec(a, n) == seg_sum(Seq::new(n, |i: int| a))
}

/// The laws that the data of a segment tree obeys.
pub open spec fn seg_data_laws<T: SegData>() -> bool {
    &&& add_is_associative::<T>()
    &&& mul_is_repeated_add::<T>()
}

/// The data of two adjacent non-empty runs of points is the data of the
/// left run joined with the data of the right run.
pub proof fn lemma_seg_sum_concat<T: SegData>(a: Seq<T>, b: Seq<T>)
    requires
        add_is_associative::<T>(),
        a.len() >= 1,
        b.len() >= 1,
    ensures
        seg_sum(a + b) == T::add_spec(seg_sum(a), seg_sum(b)),
    decreases b.len(),
{
    if b.len() == 1 {
        assert((a + b).drop_last() =~= a);
        assert((a + b).last() == b[0]);
    } else {
        assert((a + b).drop_last() =~= a + b.drop_last());
        assert((a + b).last() == b.last());
        lemma_seg_sum_concat(a, b.drop_last());
        assert(T::add_spec(T::add_spec(seg_sum(a), seg_sum(b.drop_last())), b.last())
            == T::add_spec(seg_sum(a), T::add_spec(seg_sum(b.drop_last()), b.last())));
    }
}

/// The modulus of `usize` arithmetic.
pub open spec fn usize_modulus() -> nat {
    usize::MAX as nat + 1
}

/// Point data of type `usize` is summed with wrapping addition, as the
/// release build of `+` does.
impl SegData for usize {
    open spec fn add_spec(a: usize, b: usize) -> usize {
        ((a + b) % (usize_modulus() as int)) as usize
    }

    open spec fn mul_spec(a: usize, n: nat) -> usize {
        ((a as nat * n) % usize_modulus()) as usize
    }

    fn add(&self, rhs: &usize) -> (r: usize) {
        proof {
            lemma_mod_below_twice(*self + *rhs, usize_modulus() as int);
        }
        self.wrapping_add(*rhs)
    }

    fn mul(&self, n: usize) -> (r: usize) {
        self.wrapping_mul(n)
    }

    fn duplicate(&self) -> (r: usize) {
        *self
    }
}

/// A value below twice the modulus, reduced by the modulus.
proof fn lemma_mod_below_twice(v: int, m: int)
    requires
        0 < m,
        0 <= v < 2 * m,
    ensures
        v % m == if v < m { v } else { v - m },
{
    if v < m {
        vstd::arithmetic::div_mod::lemma_small_mod(v as nat, m as nat);
    } else {
        vstd::arithmetic::div_mod::lemma_mod_add_multiples_vanish(v - m, m);
        vstd::arithmetic::div_mod::lemma_small_mod((v - m) as nat, m as nat);
    }
}

/// `n` points holding `x` sum to `x * n`, wrapped.
proof fn lemma_usize_repeat(x: usize, n: nat)
    requires
        n >= 1,
    ensures
        seg_sum(Seq::new(n, |i: int| x)) == ((x as nat * n) % usize_modulus()) as usize,
    decreases n,
{
    let m = usize_modulus() as int;
    let s = Seq::new(n, |i: int| x);
    if n == 1 {
        assert(x as nat * n == x as nat) by (nonlinear_arith)
            requires
                n == 1,
        ;
        vstd::arithmetic::div_mod::lemma_small_mod(x as nat, m as nat);
        assert(seg_sum(s) == s[0]);
    } else {
        assert(s.drop_last() =~= Seq::new((n - 1) as nat, |i: int| x));
        lemma_usize_repeat(x, (n - 1) as nat);
        let p = x as int * (n - 1);
        assert(x as int * n == p + x) by {
            vstd::arithmetic::mul::lemma_mul_is_distributive_add(x as int, n - 1, 1);
        }
        assert(p >= 0) by (nonlinear_arith)
            requires
                p == x as int * (n - 1),
                n >= 1,
                x >= 0,
        ;
        vstd::arithmetic::div_mod::lemma_add_mod_noop(p, x as int, m);
        vstd::arithmetic::div_mod::lemma_small_mod(x as nat, m as nat);
        vstd::arithmetic::div_mod::lemma_mod_bound(p, m);
        let a = seg_sum(s.drop_last());
        assert(a as int == p % m);
        assert(seg_sum(s) == usize::add_spec(a, x));
        assert(usize::add_spec(a, x) as int == (a + x) % m);
        assert((a + x) % m == (p + x) % m);
    }
}

/// Data of type `usize` obeys the laws of segment data: wrapping addition is
/// associative and wrapping multiplication is repeated wrapping addition.
pub proof fn lemma_usize_seg_data_laws()
    ensures
        seg_data_laws::<usize>(),
{
    assert forall|a: usize, n: nat| n >= 1 implies #[trigger] usize::mul_spec(a, n) == seg_sum(
        Seq::new(n, |i: int| a),
    ) by {
        lemma_usize_repeat(a, n);
    }
    let m = usize_modulus() as int;
    assert forall|a: usize, b: usize, c: usize|
        #[trigger] usize::add_spec(usize::add_spec(a, b), c) == usize::add_spec(
            a,
            usize::add_spec(b, c),
        ) by {
        vstd::arithmetic::div_mod::lemma_add_mod_noop(a + b, c as int, m);
        vstd::arithmetic::div_mod::lemma_add_mod_noop(a as int, b + c, m);
        vstd::arithmetic::div_mod::lemma_small_mod(a as nat, m as nat);
        vstd::arithmetic::div_mod::lemma_small_mod(c as nat, m as nat);
        vstd::arithmetic::div_mod::lemma_mod_bound(a + b, m);
        vstd::arithmetic::div_mod::lemma_mod_bound(b + c, m);
        assert(a + b + c == a + (b + c));
    }
}

} // verus!

verus! {

/// The sum over a one-point range is the data of that point: querying a
/// point is querying the range made of it.
pub proof fn lemma_seg_sum_single_point<T: SegData>(s: Seq<T>, idx: int)
    requires
        0 <= idx < s.len(),
    ensures
        seg_sum(s.subrange(idx, idx + 1)) == s[idx],
{
    assert(s.subrange(idx, idx + 1) =~= seq![s[idx]]);
}

/// The sum over a range is the sum over its left part joined with the sum
/// over its right part, wherever the range is split.
pub proof fn lemma_seg_sum_split<T: SegData>(s: Seq<T>, start: int, mid: int, end: int)
    requires
        add_is_associative::<T>(),
        0 <= start < mid < end <= s.len(),
    ensures
        seg_sum(s.subrange(start, end)) == T::add_spec(
            seg_sum(s.subrange(start, mid)),
            seg_sum(s.subrange(mid, end)),
        ),
{
    assert(s.subrange(start, end) =~= s.subrange(start, mid) + s.subrange(mid, end));
    lemma_seg_sum_concat(s.subrange(start, mid), s.subrange(mid, end));
}

} // verus!
