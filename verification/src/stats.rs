//! Per-key statistics accumulator.
//!
//! A measurement value carries one fractional decimal digit, so it is
//! represented exactly as an integer count of tenths (`-13.7` is `-137`).
//! An accumulator tracks the minimum, maximum, running sum and count of
//! all values folded into it.  The sum is kept in an `i128` so that it
//! cannot overflow: each value fits an `i64` and at most `u64::MAX`
//! values can ever be folded into one accumulator.

use vstd::prelude::*;

verus! {

/// Mathematical model of an accumulator: unbounded integers.
pub struct StatsModel {
    pub min: int,
    pub max: int,
    pub sum: int,
    pub count: int,
}

/// The model of an accumulator holding exactly one value.
pub open spec fn stats_single(v: int) -> StatsModel {
    StatsModel { min: v, max: v, sum: v, count: 1 }
}

/// The model of folding one more value into an accumulator.
pub open spec fn stats_fold(m: StatsModel, v: int) -> StatsModel {
    StatsModel {
        min: if v < m.min { v } else { m.min },
        max: if v > m.max { v } else { m.max },
        sum: m.sum + v,
        count: m.count + 1,
    }
}

/// The model of combining two accumulators for the same key.
pub open spec fn stats_combine(a: StatsModel, b: StatsModel) -> StatsModel {
    StatsModel {
        min: if a.min <= b.min { a.min } else { b.min },
        max: if a.max >= b.max { a.max } else { b.max },
        sum: a.sum + b.sum,
        count: a.count + b.count,
    }
}

/// The accumulator built by folding every value of a non-empty sequence,
/// in order, starting from the first value alone.
pub open spec fn stats_of(s: Seq<int>) -> StatsModel
    recommends
        s.len() >= 1,
    decreases s.len(),
{
    if s.len() <= 1 {
        stats_single(s[0])
    } else {
        stats_fold(stats_of(s.drop_last()), s.last())
    }
}

/// The sum of a sequence of values.
pub open spec fn sum_of(s: Seq<int>) -> int
    decreases s.len(),
{
    if s.len() == 0 {
        0
    } else {
        sum_of(s.drop_last()) + s.last()
    }
}

/// Folding a sequence of further values into an accumulator, in order.
pub open spec fn fold_values(st: StatsModel, vs: Seq<int>) -> StatsModel
    decreases vs.len(),
{
    if vs.len() == 0 {
        st
    } else {
        stats_fold(fold_values(st, vs.drop_last()), vs.last())
    }
}

/// Well-formedness of a model: at least one value was folded in, the
/// minimum does not exceed the maximum, and the sum lies between
/// `count * min` and `count * max` (hence the mean lies between the
/// minimum and the maximum).
pub open spec fn model_wf(m: StatsModel) -> bool {
    &&& 1 <= m.count
    &&& m.min <= m.max
    &&& m.count * m.min <= m.sum
    &&& m.sum <= m.count * m.max
}

/// Per-key aggregate: minimum, maximum, running sum and count of the
/// values observed for one key, all in tenths.
#[derive(Clone, Copy, Debug, PartialEq, Eq, Structural)]
pub struct Stats {
    pub min: i64,
    pub max: i64,
    pub sum: i128,
    pub count: u64,
}

impl View for Stats {
    type V = StatsModel;

    open spec fn view(&self) -> StatsModel {
        StatsModel {
            min: self.min as int,
            max: self.max as int,
            sum: self.sum as int,
            count: self.count as int,
        }
    }
}

impl Stats {
    /// Abbreviation for a well-formed accumulator.
    pub open spec fn wf(self) -> bool {
        model_wf(self@)
    }

    /// Seed an accumulator from the first observed value.
    pub fn new(v: i64) -> (r: Stats)
        ensures
            r@ == stats_single(v as int),
            r.wf(),
    {
        Stats { min: v, max: v, sum: v as i128, count: 1 }
    }

    /// Fold one more observed value into the accumulator.
    pub fn fold(&mut self, v: i64)
        requires
            old(self).wf(),
            old(self).count < u64::MAX,
        ensures
            final(self)@ == stats_fold(old(self)@, v as int),
            final(self).wf(),
    {
        proof {
            lemma_fold_bounds(self@, v as int);
        }
        if v < self.min {
            self.min = v;
        }
        if v > self.max {
            self.max = v;
        }
        self.sum = self.sum + (v as i128);
        self.count = self.count + 1;
    }

    /// Combine with an accumulator for the same key built elsewhere.
    pub fn combine(&self, other: &Stats) -> (r: Stats)
        requires
            self.wf(),
            other.wf(),
            self.count + other.count <= u64::MAX,
        ensures
            r@ == stats_combine(self@, other@),
            r.wf(),
    {
        proof {
            lemma_combine_bounds(self@, other@);
        }
        Stats {
            min: if self.min <= other.min { self.min } else { other.min },
            max: if self.max >= other.max { self.max } else { other.max },
            sum: self.sum + other.sum,
            count: self.count + other.count,
        }
    }
}

/// Folding preserves well-formedness, and the new sum still fits an
/// `i128` when the fields came from machine integers.
proof fn lemma_fold_bounds(m: StatsModel, v: int)
    requires
        model_wf(m),
        i64::MIN <= m.min,
        m.max <= i64::MAX,
        m.count < u64::MAX,
        i64::MIN <= v <= i64::MAX,
    ensures
        model_wf(stats_fold(m, v)),
        i128::MIN <= stats_fold(m, v).sum <= i128::MAX,
{
    let r = stats_fold(m, v);
    assert(r.count * r.min <= r.sum && r.sum <= r.count * r.max && i128::MIN <= r.sum
        <= i128::MAX) by (nonlinear_arith)
        requires
            model_wf(m),
            i64::MIN <= m.min,
            m.max <= i64::MAX,
            m.count < u64::MAX,
            i64::MIN <= v <= i64::MAX,
            r == stats_fold(m, v),
    ;
}

/// Combining preserves well-formedness, and the combined sum still fits
/// an `i128` when the fields came from machine integers.
proof fn lemma_combine_bounds(a: StatsModel, b: StatsModel)
    requires
        model_wf(a),
        model_wf(b),
        i64::MIN <= a.min,
        a.max <= i64::MAX,
        i64::MIN <= b.min,
        b.max <= i64::MAX,
        a.count + b.count <= u64::MAX,
    ensures
        model_wf(stats_combine(a, b)),
        i128::MIN <= stats_combine(a, b).sum <= i128::MAX,
{
    let r = stats_combine(a, b);
    assert(r.count * r.min <= r.sum && r.sum <= r.count * r.max && i128::MIN <= r.sum
        <= i128::MAX) by (nonlinear_arith)
        requires
            model_wf(a),
            model_wf(b),
            i64::MIN <= a.min,
            a.max <= i64::MAX,
            i64::MIN <= b.min,
            b.max <= i64::MAX,
            a.count + b.count <= u64::MAX,
            r == stats_combine(a, b),
    ;
}

/// Folding a non-empty sequence of values computes the true statistics:
/// the count is the number of values, the sum is their sum, and the
/// minimum and maximum are values of the sequence that bound every
/// value of the sequence.
pub proof fn lemma_stats_of_correct(s: Seq<int>)
    requires
        s.len() >= 1,
    ensures
        stats_of(s).count == s.len(),
        stats_of(s).sum == sum_of(s),
        forall|i: int| 0 <= i < s.len() ==> stats_of(s).min <= s[i],
        s.contains(stats_of(s).min),
        forall|i: int| 0 <= i < s.len() ==> s[i] <= stats_of(s).max,
        s.contains(stats_of(s).max),
    decreases s.len(),
{
    if s.len() == 1 {
        assert(s.drop_last().len() == 0);
        assert(sum_of(s.drop_last()) == 0);
        assert(s.last() == s[0]);
        assert(s.contains(s[0]));
    } else {
        let t = s.drop_last();
        lemma_stats_of_correct(t);
        assert(forall|i: int| 0 <= i < t.len() ==> t[i] == s[i]);
        let m = stats_of(s).min;
        if m == s.last() {
            assert(s.contains(m));
        } else {
            let i = choose|i: int| 0 <= i < t.len() && t[i] == m;
            assert(s[i] == m);
            assert(s.contains(m));
        }
        let mx = stats_of(s).max;
        if mx == s.last() {
            assert(s.contains(mx));
        } else {
            let i = choose|i: int| 0 <= i < t.len() && t[i] == mx;
            assert(s[i] == mx);
            assert(s.contains(mx));
        }
    }
}

/// Removing one element removes exactly its contribution to the sum.
proof fn lemma_sum_of_remove(s: Seq<int>, i: int)
    requires
        0 <= i < s.len(),
    ensures
        sum_of(s.remove(i)) == sum_of(s) - s[i],
    decreases s.len(),
{
    if i == s.len() - 1 {
        assert(s.remove(i) =~= s.drop_last());
    } else {
        assert(s.remove(i).drop_last() =~= s.drop_last().remove(i));
        assert(s.remove(i).last() == s.last());
        lemma_sum_of_remove(s.drop_last(), i);
    }
}

/// The sum of a sequence depends only on the multiset of its values.
pub proof fn lemma_sum_of_permutation(s: Seq<int>, t: Seq<int>)
    requires
        s.to_multiset() == t.to_multiset(),
    ensures
        sum_of(s) == sum_of(t),
    decreases s.len(),
{
    s.to_multiset_ensures();
    t.to_multiset_ensures();
    if s.len() == 0 {
        assert(t.len() == 0);
    } else {
        let e = s.last();
        assert(s[s.len() - 1] == e);
        assert(s.contains(e));
        assert(t.to_multiset().count(e) > 0);
        assert(t.contains(e));
        let j = choose|j: int| 0 <= j < t.len() && t[j] == e;
        assert(s.remove(s.len() - 1) =~= s.drop_last());
        assert(s.drop_last().to_multiset() == s.to_multiset().remove(e));
        assert(t.remove(j).to_multiset() == t.to_multiset().remove(e));
        lemma_sum_of_permutation(s.drop_last(), t.remove(j));
        lemma_sum_of_remove(t, j);
    }
}

/// The statistics of a non-empty sequence of values depend only on the
/// multiset of the values: any reordering across blocks or workers
/// yields the same minimum, maximum, sum and count.
pub proof fn lemma_stats_of_permutation(s: Seq<int>, t: Seq<int>)
    requires
        s.to_multiset() == t.to_multiset(),
        s.len() >= 1,
    ensures
        stats_of(s) == stats_of(t),
{
    s.to_multiset_ensures();
    t.to_multiset_ensures();
    assert(t.len() == s.len());
    lemma_stats_of_correct(s);
    lemma_stats_of_correct(t);
    lemma_sum_of_permutation(s, t);
    let ms = stats_of(s).min;
    let mt = stats_of(t).min;
    assert(t.to_multiset().count(ms) > 0);
    assert(t.contains(ms));
    let i = choose|i: int| 0 <= i < t.len() && t[i] == ms;
    assert(mt <= ms);
    assert(s.to_multiset().count(mt) > 0);
    assert(s.contains(mt));
    let j = choose|j: int| 0 <= j < s.len() && s[j] == mt;
    assert(ms <= mt);
    let xs = stats_of(s).max;
    let xt = stats_of(t).max;
    assert(t.to_multiset().count(xs) > 0);
    assert(t.contains(xs));
    let k = choose|k: int| 0 <= k < t.len() && t[k] == xs;
    assert(xs <= xt);
    assert(s.to_multiset().count(xt) > 0);
    assert(s.contains(xt));
    let l = choose|l: int| 0 <= l < s.len() && s[l] == xt;
    assert(xt <= xs);
}

/// Splitting one key's values between two workers loses nothing:
/// combining the two accumulators yields exactly the accumulator of
/// the concatenated value sequence.
pub proof fn lemma_combine_splits(a: Seq<int>, b: Seq<int>)
    requires
        a.len() >= 1,
        b.len() >= 1,
    ensures
        stats_combine(stats_of(a), stats_of(b)) == stats_of(a + b),
    decreases b.len(),
{
    if b.len() == 1 {
        assert((a + b).drop_last() =~= a);
        assert((a + b).last() == b[0]);
        assert((a + b).len() >= 2);
        assert(stats_of(b) == stats_single(b[0]));
        assert(stats_combine(stats_of(a), stats_single(b[0])) == stats_fold(stats_of(a), b[0]));
    } else {
        let b2 = b.drop_last();
        lemma_combine_splits(a, b2);
        assert((a + b).drop_last() =~= a + b2);
        assert((a + b).last() == b.last());
        assert(stats_combine(stats_of(a), stats_fold(stats_of(b2), b.last())) == stats_fold(
            stats_combine(stats_of(a), stats_of(b2)),
            b.last(),
        ));
    }
}

/// Combining is commutative: the two scopes' accumulators may be merged
/// in either order.
pub proof fn lemma_combine_commutative(a: StatsModel, b: StatsModel)
    ensures
        stats_combine(a, b) == stats_combine(b, a),
{
}

/// Combining is associative: partial accumulators may be merged in any
/// grouping.
pub proof fn lemma_combine_associative(a: StatsModel, b: StatsModel, c: StatsModel)
    ensures
        stats_combine(stats_combine(a, b), c) == stats_combine(a, stats_combine(b, c)),
{
}

} // verus!
