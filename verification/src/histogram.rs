//! A per-feature histogram: quantile-style bin boundaries built from the
//! distinct values of a feature column, with one gradient sum and one
//! hessian sum per bin.

use vstd::prelude::*;
use vstd::arithmetic::div_mod::{lemma_div_is_ordered, lemma_div_multiples_vanish, lemma_div_plus_one};
use vstd::arithmetic::mul::lemma_mul_inequality;

verus! {

/// A sequence is non-decreasing.
pub open spec fn sorted(s: Seq<u64>) -> bool {
    forall|i: int, j: int| 0 <= i <= j < s.len() ==> s[i] <= s[j]
}

/// A sequence is strictly increasing.
pub open spec fn strictly_sorted(s: Seq<u64>) -> bool {
    forall|i: int, j: int| 0 <= i < j < s.len() ==> s[i] < s[j]
}

/// How many elements of `s` are less than or equal to `x`.
pub open spec fn count_le(s: Seq<u64>, x: u64) -> int
    decreases s.len(),
{
    if s.len() == 0 {
        0
    } else {
        count_le(s.drop_last(), x) + if s.last() <= x {
            1int
        } else {
            0int
        }
    }
}

/// In a sorted sequence, a split point with everything at or below `x` on
/// its left and everything above `x` on its right is exactly the number of
/// elements that are at or below `x`.
proof fn lemma_count_le_split(s: Seq<u64>, x: u64, k: int)
    requires
        0 <= k <= s.len(),
        forall|i: int| 0 <= i < k ==> s[i] <= x,
        forall|i: int| k <= i < s.len() ==> s[i] > x,
    ensures
        count_le(s, x) == k,
    decreases s.len(),
{
    if s.len() > 0 {
        if k == s.len() {
            lemma_count_le_split(s.drop_last(), x, k - 1);
        } else {
            lemma_count_le_split(s.drop_last(), x, k);
        }
    }
}

/// Index of the first element of `v` that is strictly greater than `x`,
/// or `v.len()` when there is none; equivalently, the number of elements
/// that are at or below `x`.
fn first_gt(v: &Vec<u64>, x: u64) -> (r: usize)
    requires
        sorted(v@),
    ensures
        r <= v@.len(),
        forall|i: int| 0 <= i < r ==> v@[i] <= x,
        forall|i: int| r <= i < v@.len() ==> v@[i] > x,
        r == count_le(v@, x),
{
    let mut lo: usize = 0;
    let mut hi: usize = v.len();
    while lo < hi
        invariant
            lo <= hi <= v@.len(),
            sorted(v@),
            forall|i: int| 0 <= i < lo ==> v@[i] <= x,
            forall|i: int| hi <= i < v@.len() ==> v@[i] > x,
        decreases hi - lo,
    {
        let mid = lo + (hi - lo) / 2;
        if v[mid] <= x {
            lo = mid + 1;
        } else {
            hi = mid;
        }
    }
    proof {
        lemma_count_le_split(v@, x, lo as int);
    }
    lo
}

/// Index of the first element of `v` that is at or above `x`, or `v.len()`
/// when there is none: the position at which `x` would be inserted to keep
/// `v` sorted.
fn first_ge(v: &Vec<u64>, x: u64) -> (r: usize)
    requires
        sorted(v@),
    ensures
        r <= v@.len(),
        forall|i: int| 0 <= i < r ==> v@[i] < x,
        forall|i: int| r <= i < v@.len() ==> v@[i] >= x,
{
    let mut lo: usize = 0;
    let mut hi: usize = v.len();
    while lo < hi
        invariant
            lo <= hi <= v@.len(),
            sorted(v@),
            forall|i: int| 0 <= i < lo ==> v@[i] < x,
            forall|i: int| hi <= i < v@.len() ==> v@[i] >= x,
        decreases hi - lo,
    {
        let mid = lo + (hi - lo) / 2;
        if v[mid] < x {
            lo = mid + 1;
        } else {
            hi = mid;
        }
    }
    lo
}

/// `v` inserted into the strictly increasing sequence `u`, keeping it
/// strictly increasing and duplicate-free: `u` itself when `v` already
/// occurs in it.
pub open spec fn insert_unique(u: Seq<u64>, v: u64) -> Seq<u64>
    decreases u.len(),
{
    if u.len() == 0 {
        seq![v]
    } else if v < u[0] {
        seq![v] + u
    } else if v == u[0] {
        u
    } else {
        seq![u[0]] + insert_unique(u.drop_first(), v)
    }
}

/// The distinct values of `s`, in ascending order.
pub open spec fn uniques_of(s: Seq<u64>) -> Seq<u64>
    decreases s.len(),
{
    if s.len() == 0 {
        Seq::empty()
    } else {
        insert_unique(uniques_of(s.drop_last()), s.last())
    }
}

proof fn lemma_insert_unique_props(u: Seq<u64>, v: u64)
    requires
        strictly_sorted(u),
    ensures
        strictly_sorted(insert_unique(u, v)),
        u.len() <= insert_unique(u, v).len() <= u.len() + 1,
        forall|w: u64| #[trigger] insert_unique(u, v).contains(w) <==> (u.contains(w) || w == v),
    decreases u.len(),
{
    let r = insert_unique(u, v);
    if u.len() == 0 {
        assert forall|w: u64| #[trigger] r.contains(w) <==> (u.contains(w) || w == v) by {
            if w == v {
                assert(r[0] == v);
            }
            if r.contains(w) {
                let i = choose|i: int| 0 <= i < r.len() && r[i] == w;
                assert(i == 0);
            }
        }
    } else if v < u[0] {
        assert forall|i: int, j: int| 0 <= i < j < r.len() implies r[i] < r[j] by {
            assert(r[j] == u[j - 1]);
            if i == 0 {
                assert(r[i] == v);
                if j - 1 > 0 {
                    assert(u[0] < u[j - 1]);
                }
            } else {
                assert(r[i] == u[i - 1]);
            }
        }
        assert forall|w: u64| #[trigger] r.contains(w) <==> (u.contains(w) || w == v) by {
            if r.contains(w) {
                let i = choose|i: int| 0 <= i < r.len() && r[i] == w;
                if i == 0 {
                    assert(w == v);
                } else {
                    assert(u[i - 1] == w);
                }
            }
            if u.contains(w) {
                let i = choose|i: int| 0 <= i < u.len() && u[i] == w;
                assert(r[i + 1] == w);
            }
            if w == v {
                assert(r[0] == w);
            }
        }
    } else if v == u[0] {
        assert(u.contains(v)) by {
            assert(u[0] == v);
        }
    } else {
        let t = u.drop_first();
        assert(strictly_sorted(t)) by {
            assert forall|i: int, j: int| 0 <= i < j < t.len() implies t[i] < t[j] by {
                assert(t[i] == u[i + 1] && t[j] == u[j + 1]);
            }
        }
        lemma_insert_unique_props(t, v);
        let rt = insert_unique(t, v);
        assert forall|i: int, j: int| 0 <= i < j < r.len() implies r[i] < r[j] by {
            assert(r[j] == rt[j - 1]);
            if i == 0 {
                assert(r[i] == u[0]);
                assert(rt.contains(rt[j - 1]));
                if t.contains(rt[j - 1]) {
                    let k = choose|k: int| 0 <= k < t.len() && t[k] == rt[j - 1];
                    assert(u[k + 1] == rt[j - 1]);
                    assert(u[0] < u[k + 1]);
                } else {
                    assert(rt[j - 1] == v);
                }
            } else {
                assert(r[i] == rt[i - 1]);
            }
        }
        assert forall|w: u64| #[trigger] r.contains(w) <==> (u.contains(w) || w == v) by {
            if r.contains(w) {
                let i = choose|i: int| 0 <= i < r.len() && r[i] == w;
                if i == 0 {
                    assert(u[0] == w);
                    assert(u.contains(w));
                } else {
                    assert(rt[i - 1] == w);
                    assert(rt.contains(w));
                    if t.contains(w) {
                        let k = choose|k: int| 0 <= k < t.len() && t[k] == w;
                        assert(u[k + 1] == w);
                        assert(u.contains(w));
                    }
                }
            }
            if u.contains(w) {
                let i = choose|i: int| 0 <= i < u.len() && u[i] == w;
                if i == 0 {
                    assert(r[0] == w);
                } else {
                    assert(t[i - 1] == w);
                    assert(t.contains(w));
                    assert(rt.contains(w));
                    let k = choose|k: int| 0 <= k < rt.len() && rt[k] == w;
                    assert(r[k + 1] == w);
                }
            }
            if w == v {
                assert(rt.contains(w));
                let k = choose|k: int| 0 <= k < rt.len() && rt[k] == w;
                assert(r[k + 1] == w);
            }
        }
    }
}

/// The distinct-value sequence is strictly increasing, has exactly the
/// members of the column it came from, and is never longer than it.
pub proof fn lemma_uniques_of_props(s: Seq<u64>)
    ensures
        strictly_sorted(uniques_of(s)),
        uniques_of(s).len() <= s.len(),
        forall|w: u64| #[trigger] uniques_of(s).contains(w) <==> s.contains(w),
    decreases s.len(),
{
    if s.len() > 0 {
        let s0 = s.drop_last();
        lemma_uniques_of_props(s0);
        lemma_insert_unique_props(uniques_of(s0), s.last());
        assert forall|w: u64| #[trigger] uniques_of(s).contains(w) <==> s.contains(w) by {
            if uniques_of(s).contains(w) {
                if s0.contains(w) {
                    let i = choose|i: int| 0 <= i < s0.len() && s0[i] == w;
                    assert(s[i] == w);
                } else {
                    assert(w == s.last());
                    assert(s[s.len() - 1] == w);
                }
            }
            if s.contains(w) {
                let i = choose|i: int| 0 <= i < s.len() && s[i] == w;
                if i < s.len() - 1 {
                    assert(s0[i] == w);
                    assert(s0.contains(w));
                } else {
                    assert(w == s.last());
                }
            }
        }
    }
}

/// Two strictly increasing sequences with the same members are the same
/// sequence.
pub proof fn lemma_strictly_sorted_same_elements(x: Seq<u64>, y: Seq<u64>)
    requires
        strictly_sorted(x),
        strictly_sorted(y),
        forall|w: u64| x.contains(w) <==> y.contains(w),
    ensures
        x == y,
    decreases x.len(),
{
    if x.len() == 0 {
        if y.len() > 0 {
            assert(y[0] == y[0]);
            assert(y.contains(y[0]));
            assert(x.contains(y[0]));
            assert(false);
        }
        assert(x =~= y);
    } else if y.len() == 0 {
        assert(x[0] == x[0]);
        assert(x.contains(x[0]));
        assert(y.contains(x[0]));
        assert(false);
    } else {
        assert(x.contains(x[0])) by {
            assert(x[0] == x[0]);
        }
        assert(y.contains(x[0]));
        let k = choose|k: int| 0 <= k < y.len() && y[k] == x[0];
        if k > 0 {
            assert(y[0] < y[k]);
        }
        assert(y.contains(y[0])) by {
            assert(y[0] == y[0]);
        }
        assert(x.contains(y[0]));
        let m = choose|m: int| 0 <= m < x.len() && x[m] == y[0];
        if m > 0 {
            assert(x[0] < x[m]);
        }
        assert(x[0] == y[0]);
        let xt = x.drop_first();
        let yt = y.drop_first();
        assert(strictly_sorted(xt)) by {
            assert forall|i: int, j: int| 0 <= i < j < xt.len() implies xt[i] < xt[j] by {
                assert(xt[i] == x[i + 1] && xt[j] == x[j + 1]);
            }
        }
        assert(strictly_sorted(yt)) by {
            assert forall|i: int, j: int| 0 <= i < j < yt.len() implies yt[i] < yt[j] by {
                assert(yt[i] == y[i + 1] && yt[j] == y[j + 1]);
            }
        }
        assert forall|w: u64| xt.contains(w) <==> yt.contains(w) by {
            if xt.contains(w) {
                let i = choose|i: int| 0 <= i < xt.len() && xt[i] == w;
                assert(x[i + 1] == w);
                assert(x[0] < x[i + 1]);
                assert(x.contains(w));
                assert(y.contains(w));
                let j = choose|j: int| 0 <= j < y.len() && y[j] == w;
                assert(j != 0);
                assert(yt[j - 1] == w);
                assert(yt.contains(w));
            }
            if yt.contains(w) {
                let i = choose|i: int| 0 <= i < yt.len() && yt[i] == w;
                assert(y[i + 1] == w);
                assert(y[0] < y[i + 1]);
                assert(y.contains(w));
                assert(x.contains(w));
                let j = choose|j: int| 0 <= j < x.len() && x[j] == w;
                assert(j != 0);
                assert(xt[j - 1] == w);
                assert(xt.contains(w));
            }
        }
        lemma_strictly_sorted_same_elements(xt, yt);
        assert(x =~= y) by {
            assert(x.len() == y.len());
            assert forall|i: int| 0 <= i < x.len() implies x[i] == y[i] by {
                if i > 0 {
                    assert(x[i] == xt[i - 1] && y[i] == yt[i - 1]);
                }
            }
        }
    }
}

/// The errors a histogram operation reports when its caller breaks the
/// calling contract: statistic batches of unequal lengths, or accumulation
/// into a histogram built from an empty feature column.
#[derive(Clone, Copy, Debug, PartialEq, Eq, Structural)]
pub enum HistogramError {
    InputLengthMismatch,
    EmptyHistogram,
}

/// The bin an element falls into under the rule "the rightmost boundary at
/// or below the value names the bin", clamped into `[0, num_bins - 1]`:
/// values below every boundary fall into bin 0, and values at or above the
/// last boundary fall into the last bin.
pub open spec fn spec_bin_index(bins: Seq<u64>, num_bins: int, x: u64) -> int {
    let c = count_le(bins, x);
    if c == 0 {
        0
    } else if c - 1 <= num_bins - 1 {
        c - 1
    } else {
        num_bins - 1
    }
}

/// The sum of the absolute values of `s`: a bound on every partial sum
/// of any selection of its entries.
pub open spec fn sum_abs(s: Seq<i64>) -> int
    decreases s.len(),
{
    if s.len() == 0 {
        0
    } else {
        sum_abs(s.drop_last()) + vstd::math::abs(s.last() as int)
    }
}

proof fn lemma_sum_abs_take_le(s: Seq<i64>, i: int)
    requires
        0 <= i <= s.len(),
    ensures
        0 <= sum_abs(s.take(i)) <= sum_abs(s),
    decreases s.len(),
{
    if i == s.len() {
        assert(s.take(i) =~= s);
        if s.len() > 0 {
            lemma_sum_abs_take_le(s.drop_last(), s.len() - 1);
            assert(s.drop_last().take(s.len() - 1) =~= s.drop_last());
        }
    } else {
        lemma_sum_abs_take_le(s.drop_last(), i);
        assert(s.drop_last().take(i) =~= s.take(i));
    }
}

/// The total statistic routed into bin `j` when the samples
/// `(values[i], stats[i])` are accumulated one by one: the sum of
/// `stats[i]` over exactly those `i` whose feature value falls into bin
/// `j`.
pub open spec fn spec_accumulated(
    bins: Seq<u64>,
    num_bins: int,
    values: Seq<u64>,
    stats: Seq<i64>,
    j: int,
) -> int
    decreases values.len(),
{
    if values.len() == 0 {
        0
    } else {
        spec_accumulated(bins, num_bins, values.drop_last(), stats.drop_last(), j) + if
        spec_bin_index(bins, num_bins, values.last()) == j {
            stats.last() as int
        } else {
            0int
        }
    }
}

/// The number of bins a histogram over `n_unique >= 2` distinct values
/// gets under a budget of `max_bins`: the budget, capped at one bin per
/// gap between consecutive distinct values.
pub open spec fn spec_num_bins_of(n_unique: int, max_bins: int) -> int {
    if max_bins <= n_unique - 1 {
        max_bins
    } else {
        n_unique - 1
    }
}

/// The boundary sequence built over the distinct values `u`: the values
/// sampled at `num_bins + 1` evenly spaced rank positions, so that
/// boundary `i` is `u[i * (u.len() - 1) / num_bins]`. A single distinct
/// value gives the one boundary `u[0]`; no values give no boundaries.
pub open spec fn spec_boundaries(u: Seq<u64>, max_bins: int) -> Seq<u64> {
    if u.len() == 0 {
        Seq::empty()
    } else if u.len() == 1 {
        seq![u[0]]
    } else {
        let nb = spec_num_bins_of(u.len() as int, max_bins);
        Seq::new((nb + 1) as nat, |i: int| u[i * (u.len() - 1) / nb])
    }
}

/// How many statistic entries (one gradient sum and one hessian sum each)
/// a histogram over `n_unique` distinct values gets: none without values,
/// one for the degenerate single-value histogram, and one per bin
/// otherwise.
pub open spec fn spec_stat_len(n_unique: int, max_bins: int) -> int {
    if n_unique == 0 {
        0
    } else if n_unique == 1 {
        1
    } else {
        spec_num_bins_of(n_unique, max_bins)
    }
}

/// A per-feature histogram.
///
/// `bins` holds `num_bins + 1` sorted boundary values describing `num_bins`
/// half-open intervals (the last interval is closed at the top);
/// `gradients` and `hessians` hold one running sum per interval. A
/// histogram built from a single distinct value is degenerate: one
/// boundary and one statistic pair, and every value falls into that bin.
pub struct Histogram {
    pub bins: Vec<u64>,
    pub gradients: Vec<i64>,
    pub hessians: Vec<i64>,
}

impl Histogram {
    /// Well-formedness: boundaries are sorted, the two statistic columns
    /// are aligned, and their common length matches the boundary count —
    /// empty alongside empty `bins`, one alongside a single boundary, and
    /// `bins.len() - 1` otherwise.
    pub open spec fn wf(self) -> bool {
        &&& sorted(self.bins@)
        &&& self.hessians@.len() == self.gradients@.len()
        &&& (self.bins@.len() == 0 ==> self.gradients@.len() == 0)
        &&& (self.bins@.len() == 1 ==> self.gradients@.len() == 1)
        &&& (self.bins@.len() >= 2 ==> self.gradients@.len() == self.bins@.len() - 1)
    }

    /// The number of bins, which is also the length of each statistic
    /// column.
    pub open spec fn spec_num_bins(self) -> int {
        self.gradients@.len() as int
    }

    /// Builds a histogram from a feature column and a bin budget. The
    /// boundaries are the column's distinct values sampled at evenly
    /// spaced rank positions — a quantile-style binning, independent of
    /// the order of the column — and every statistic starts at zero. When
    /// boundaries exist, the first is the smallest observed value and the
    /// last is the largest.
    pub fn from_feature(feature_values: &Vec<u64>, max_bins: usize) -> (r: Histogram)
        requires
            1 <= max_bins,
            feature_values@.len() <= 0xFFFF_FFFF,
        ensures
            r.wf(),
            strictly_sorted(r.bins@),
            r.bins@ == spec_boundaries(uniques_of(feature_values@), max_bins as int),
            r.gradients@.len() == spec_stat_len(
                uniques_of(feature_values@).len() as int,
                max_bins as int,
            ),
            r.hessians@.len() == r.gradients@.len(),
            forall|j: int|
                0 <= j < r.gradients@.len() ==> r.gradients@[j] == 0 && r.hessians@[j] == 0,
            r.bins@.len() >= 1 ==> r.bins@.first() == uniques_of(feature_values@).first()
                && r.bins@.last() == uniques_of(feature_values@).last(),
    {
        let n = feature_values.len();
        let mut uniq: Vec<u64> = Vec::new();
        proof {
            assert(uniq@ =~= uniques_of(feature_values@.take(0)));
        }
        let mut k: usize = 0;
        while k < n
            invariant
                k <= n,
                n == feature_values@.len(),
                uniq@ == uniques_of(feature_values@.take(k as int)),
                strictly_sorted(uniq@),
                uniq@.len() <= k,
            decreases n - k,
        {
            let v = feature_values[k];
            let ghost pre = uniq@;
            proof {
                assert(feature_values@.take(k as int + 1).drop_last() =~= feature_values@.take(
                    k as int,
                ));
                assert(feature_values@.take(k as int + 1).last() == v);
                lemma_insert_unique_props(pre, v);
                assert(sorted(pre)) by {
                    assert forall|i: int, j: int| 0 <= i <= j < pre.len() implies pre[i]
                        <= pre[j] by {
                        if i < j {
                            assert(pre[i] < pre[j]);
                        }
                    }
                }
            }
            let pos = first_ge(&uniq, v);
            let present = pos < uniq.len() && uniq[pos] == v;
            if present {
                proof {
                    assert(pre[pos as int] == v);
                    assert(pre.contains(v));
                    lemma_strictly_sorted_same_elements(insert_unique(pre, v), pre);
                }
            } else {
                uniq.insert(pos, v);
                proof {
                    let p = pos as int;
                    pre.insert_ensures(p, v);
                    let nu = pre.insert(p, v);
                    assert(uniq@ == nu);
                    assert(p < pre.len() ==> pre[p] > v);
                    assert(strictly_sorted(nu)) by {
                        assert forall|i: int, j: int| 0 <= i < j < nu.len() implies nu[i]
                            < nu[j] by {
                            if i > p {
                                assert(nu[(i - 1) + 1] == pre[i - 1]);
                            }
                            if j > p {
                                assert(nu[(j - 1) + 1] == pre[j - 1]);
                            }
                            if i < p && j == p {
                                assert(nu[i] == pre[i] && nu[j] == v);
                            }
                            if i < p && j > p {
                                assert(nu[i] == pre[i]);
                                if p < pre.len() {
                                    assert(pre[i] < pre[p]);
                                }
                            }
                            if i == p && j > p {
                                assert(nu[i] == v);
                                if p < pre.len() && j - 1 > p {
                                    assert(pre[p] < pre[j - 1]);
                                }
                            }
                        }
                    }
                    assert forall|w: u64| nu.contains(w) <==> (pre.contains(w) || w == v) by {
                        if nu.contains(w) {
                            let q = choose|q: int| 0 <= q < nu.len() && nu[q] == w;
                            if q < p {
                                assert(pre[q] == w);
                                assert(pre.contains(w));
                            } else if q == p {
                                assert(w == v);
                            } else {
                                assert(nu[(q - 1) + 1] == pre[q - 1]);
                                assert(pre.contains(w));
                            }
                        }
                        if pre.contains(w) {
                            let q = choose|q: int| 0 <= q < pre.len() && pre[q] == w;
                            if q < p {
                                assert(nu[q] == w);
                            } else {
                                assert(nu[q + 1] == pre[q]);
                            }
                            assert(nu.contains(w));
                        }
                        if w == v {
                            assert(nu[p] == w);
                            assert(nu.contains(w));
                        }
                    }
                    lemma_strictly_sorted_same_elements(nu, insert_unique(pre, v));
                }
            }
            k = k + 1;
        }
        proof {
            assert(feature_values@.take(n as int) =~= feature_values@);
        }
        let ghost u = uniques_of(feature_values@);
        let n_unique = uniq.len();
        if n_unique == 0 {
            let r = Histogram { bins: Vec::new(), gradients: Vec::new(), hessians: Vec::new() };
            proof {
                assert(r.bins@ =~= spec_boundaries(u, max_bins as int));
            }
            return r;
        }
        if n_unique == 1 {
            let b0 = uniq[0];
            let mut bins: Vec<u64> = Vec::new();
            bins.push(b0);
            let mut gradients: Vec<i64> = Vec::new();
            gradients.push(0);
            let mut hessians: Vec<i64> = Vec::new();
            hessians.push(0);
            let r = Histogram { bins, gradients, hessians };
            proof {
                assert(r.bins@ =~= spec_boundaries(u, max_bins as int));
            }
            return r;
        }
        let num_bins = if max_bins <= n_unique - 1 {
            max_bins
        } else {
            n_unique - 1
        };
        let ghost nb = num_bins as int;
        let ghost lastu = u.len() - 1;
        let mut bins: Vec<u64> = Vec::new();
        let mut i: usize = 0;
        while i < num_bins + 1
            invariant
                i <= num_bins + 1,
                u == uniq@,
                n_unique == uniq@.len(),
                2 <= n_unique <= 0xFFFF_FFFF,
                nb == num_bins as int,
                lastu == u.len() - 1,
                1 <= num_bins <= n_unique - 1,
                strictly_sorted(u),
                bins@.len() == i,
                forall|t: int| 0 <= t < i ==> bins@[t] == u[t * lastu / nb],
            decreases num_bins + 1 - i,
        {
            proof {
                assert((i as int) * lastu <= 0xFFFF_FFFF * 0xFFFF_FFFF) by (nonlinear_arith)
                    requires
                        0 <= i as int <= 0xFFFF_FFFF,
                        0 <= lastu <= 0xFFFF_FFFF,
                ;
                lemma_mul_inequality(i as int, nb, lastu);
                lemma_div_is_ordered((i as int) * lastu, nb * lastu, nb);
                lemma_div_multiples_vanish(lastu, nb);
            }
            let idx64 = (i as u64) * ((n_unique - 1) as u64) / (num_bins as u64);
            let idx = idx64 as usize;
            bins.push(uniq[idx]);
            i = i + 1;
        }
        let mut gradients: Vec<i64> = Vec::new();
        let mut hessians: Vec<i64> = Vec::new();
        let mut j: usize = 0;
        while j < num_bins
            invariant
                j <= num_bins,
                gradients@.len() == j,
                hessians@.len() == j,
                forall|t: int| 0 <= t < j ==> gradients@[t] == 0 && hessians@[t] == 0,
            decreases num_bins - j,
        {
            gradients.push(0);
            hessians.push(0);
            j = j + 1;
        }
        let r = Histogram { bins, gradients, hessians };
        proof {
            assert forall|t: int, t2: int| 0 <= t < t2 < r.bins@.len() implies r.bins@[t]
                < r.bins@[t2] by {
                assert((t2 - t) * lastu >= lastu) by (nonlinear_arith)
                    requires
                        t2 - t >= 1,
                        lastu >= 0,
                ;
                assert(t2 * lastu == t * lastu + (t2 - t) * lastu) by (nonlinear_arith);
                lemma_div_plus_one(t * lastu, nb);
                lemma_div_is_ordered(t * lastu + nb, t2 * lastu, nb);
                lemma_mul_inequality(t2, nb, lastu);
                lemma_div_is_ordered(t2 * lastu, nb * lastu, nb);
                lemma_div_multiples_vanish(lastu, nb);
                assert(0 <= t * lastu / nb) by {
                    lemma_mul_inequality(0, t, lastu);
                    lemma_div_is_ordered(0 * lastu, t * lastu, nb);
                    lemma_div_multiples_vanish(0, nb);
                }
                assert(u[t * lastu / nb] < u[t2 * lastu / nb]);
            }
            assert(sorted(r.bins@)) by {
                assert forall|a: int, b: int| 0 <= a <= b < r.bins@.len() implies r.bins@[a]
                    <= r.bins@[b] by {
                    if a < b {
                        assert(r.bins@[a] < r.bins@[b]);
                    }
                }
            }
            assert(r.bins@ =~= spec_boundaries(u, max_bins as int));
            assert(r.bins@.first() == u.first()) by {
                lemma_div_multiples_vanish(0, nb);
                assert(0 * lastu == 0) by (nonlinear_arith);
            }
            assert(r.bins@.last() == u.last()) by {
                lemma_div_multiples_vanish(lastu, nb);
                assert(r.bins@.len() - 1 == nb);
                assert(r.bins@[nb] == u[nb * lastu / nb]);
            }
        }
        r
    }

    /// Adds each sample's statistics to the bin its feature value falls
    /// into: for sample `i`, `gradients[i]` joins the gradient sum and
    /// `hessians[i]` the hessian sum of bin `search_bin_index(feature_values[i])`.
    /// Sums only ever grow by what is handed in — there is no reset.
    ///
    /// The three batches must have equal lengths, and a histogram built
    /// from an empty column accepts no samples; either violation is
    /// reported without touching any sum. The caller keeps every running
    /// sum far enough from the `i64` range ends that no addition can
    /// leave it.
    pub fn accumulate(
        &mut self,
        feature_values: &Vec<u64>,
        gradients: &Vec<i64>,
        hessians: &Vec<i64>,
    ) -> (r: Result<(), HistogramError>)
        requires
            old(self).wf(),
            feature_values@.len() == gradients@.len() && feature_values@.len() == hessians@.len()
                ==> forall|q: int|
                0 <= q < old(self).gradients@.len() ==> vstd::math::abs(
                    old(self).gradients@[q] as int,
                ) + sum_abs(gradients@) <= i64::MAX && vstd::math::abs(
                    old(self).hessians@[q] as int,
                ) + sum_abs(hessians@) <= i64::MAX,
        ensures
            final(self).wf(),
            final(self).bins@ == old(self).bins@,
            final(self).gradients@.len() == old(self).gradients@.len(),
            final(self).hessians@.len() == old(self).hessians@.len(),
            feature_values@.len() != gradients@.len() || feature_values@.len() != hessians@.len()
                ==> r == Err::<(), HistogramError>(HistogramError::InputLengthMismatch)
                && *final(self) == *old(self),
            feature_values@.len() == gradients@.len() && feature_values@.len() == hessians@.len()
                && old(self).gradients@.len() == 0 && feature_values@.len() > 0 ==> r == Err::<
                (),
                HistogramError,
            >(HistogramError::EmptyHistogram) && *final(self) == *old(self),
            feature_values@.len() == gradients@.len() && feature_values@.len() == hessians@.len()
                && (old(self).gradients@.len() > 0 || feature_values@.len() == 0) ==> r == Ok::<
                (),
                HistogramError,
            >(()) && forall|j: int|
                0 <= j < old(self).gradients@.len() ==> final(self).gradients@[j] as int == old(
                    self,
                ).gradients@[j] as int + spec_accumulated(
                    old(self).bins@,
                    old(self).gradients@.len() as int,
                    feature_values@,
                    gradients@,
                    j,
                ) && final(self).hessians@[j] as int == old(self).hessians@[j] as int
                    + spec_accumulated(
                    old(self).bins@,
                    old(self).gradients@.len() as int,
                    feature_values@,
                    hessians@,
                    j,
                ),
    {
        if feature_values.len() != gradients.len() || feature_values.len() != hessians.len() {
            return Err(HistogramError::InputLengthMismatch);
        }
        if self.gradients.len() == 0 {
            if feature_values.len() > 0 {
                return Err(HistogramError::EmptyHistogram);
            } else {
                return Ok(());
            }
        }
        let ghost obins = self.bins@;
        let ghost og = self.gradients@;
        let ghost oh = self.hessians@;
        let ghost nbins = self.gradients@.len() as int;
        let mut i: usize = 0;
        while i < feature_values.len()
            invariant
                i <= feature_values@.len(),
                feature_values@.len() == gradients@.len(),
                feature_values@.len() == hessians@.len(),
                self.bins@ == obins,
                self.gradients@.len() == og.len(),
                self.hessians@.len() == oh.len(),
                og.len() == oh.len(),
                og.len() >= 1,
                nbins == og.len() as int,
                self.wf(),
                forall|q: int|
                    0 <= q < og.len() ==> vstd::math::abs(og[q] as int) + sum_abs(gradients@)
                        <= i64::MAX,
                forall|q: int|
                    0 <= q < og.len() ==> vstd::math::abs(oh[q] as int) + sum_abs(hessians@)
                        <= i64::MAX,
                forall|q: int|
                    0 <= q < og.len() ==> #[trigger] self.gradients@[q] as int == og[q] as int
                        + spec_accumulated(
                        obins,
                        nbins,
                        feature_values@.take(i as int),
                        gradients@.take(i as int),
                        q,
                    ),
                forall|q: int|
                    0 <= q < og.len() ==> #[trigger] self.hessians@[q] as int == oh[q] as int
                        + spec_accumulated(
                        obins,
                        nbins,
                        feature_values@.take(i as int),
                        hessians@.take(i as int),
                        q,
                    ),
                forall|q: int|
                    0 <= q < og.len() ==> vstd::math::abs(self.gradients@[q] as int)
                        <= vstd::math::abs(og[q] as int) + sum_abs(gradients@.take(i as int)),
                forall|q: int|
                    0 <= q < og.len() ==> vstd::math::abs(self.hessians@[q] as int)
                        <= vstd::math::abs(oh[q] as int) + sum_abs(hessians@.take(i as int)),
            decreases feature_values@.len() - i,
        {
            let ghost fi = i as int;
            let v = feature_values[i];
            let b = self.search_bin_index(v);
            proof {
                lemma_sum_abs_take_le(gradients@, fi + 1);
                lemma_sum_abs_take_le(hessians@, fi + 1);
                lemma_sum_abs_take_le(gradients@, fi);
                lemma_sum_abs_take_le(hessians@, fi);
                assert(gradients@.take(fi + 1).drop_last() =~= gradients@.take(fi));
                assert(hessians@.take(fi + 1).drop_last() =~= hessians@.take(fi));
                assert(feature_values@.take(fi + 1).drop_last() =~= feature_values@.take(fi));
                assert(sum_abs(gradients@.take(fi + 1)) == sum_abs(gradients@.take(fi))
                    + vstd::math::abs(gradients@[fi] as int));
                assert(sum_abs(hessians@.take(fi + 1)) == sum_abs(hessians@.take(fi))
                    + vstd::math::abs(hessians@[fi] as int));
            }
            let gnew = self.gradients[b] + gradients[i];
            self.gradients[b] = gnew;
            let hnew = self.hessians[b] + hessians[i];
            self.hessians[b] = hnew;
            proof {
                let ft1 = feature_values@.take(fi + 1);
                let gt1 = gradients@.take(fi + 1);
                let ht1 = hessians@.take(fi + 1);
                assert(ft1.last() == v && gt1.last() == gradients@[fi] && ht1.last()
                    == hessians@[fi]);
                assert forall|q: int| 0 <= q < og.len() implies #[trigger] self.gradients@[
                    q
                ] as int == og[q] as int + spec_accumulated(obins, nbins, ft1, gt1, q)
                    && #[trigger] self.hessians@[q] as int == oh[q] as int + spec_accumulated(
                    obins,
                    nbins,
                    ft1,
                    ht1,
                    q,
                ) by {
                    assert(spec_accumulated(obins, nbins, ft1, gt1, q) == spec_accumulated(
                        obins,
                        nbins,
                        feature_values@.take(fi),
                        gradients@.take(fi),
                        q,
                    ) + if spec_bin_index(obins, nbins, v) == q {
                        gradients@[fi] as int
                    } else {
                        0int
                    });
                    assert(spec_accumulated(obins, nbins, ft1, ht1, q) == spec_accumulated(
                        obins,
                        nbins,
                        feature_values@.take(fi),
                        hessians@.take(fi),
                        q,
                    ) + if spec_bin_index(obins, nbins, v) == q {
                        hessians@[fi] as int
                    } else {
                        0int
                    });
                }
            }
            i = i + 1;
        }
        proof {
            assert(feature_values@.take(feature_values@.len() as int) =~= feature_values@);
            assert(gradients@.take(gradients@.len() as int) =~= gradients@);
            assert(hessians@.take(hessians@.len() as int) =~= hessians@);
        }
        Ok(())
    }

    /// Finds the bin `value` falls into: the index of the rightmost
    /// boundary at or below `value`, clamped into the valid bin range at
    /// both ends. Must not be called on a histogram with no bins.
    pub fn search_bin_index(&self, value: u64) -> (r: usize)
        requires
            self.wf(),
            self.spec_num_bins() >= 1,
        ensures
            r == spec_bin_index(self.bins@, self.spec_num_bins(), value),
            r < self.gradients@.len(),
    {
        let idx = first_gt(&self.bins, value);
        if idx == 0 {
            0
        } else {
            let cand = idx - 1;
            let last = self.gradients.len() - 1;
            if cand <= last {
                cand
            } else {
                last
            }
        }
    }
}

/// For a feature column with at least two distinct values, the histogram
/// that `from_feature` describes carries exactly one gradient sum and one
/// hessian sum per interval: one statistic entry fewer than it has
/// boundaries.
pub proof fn lemma_stats_align_with_boundaries(values: Seq<u64>, max_bins: int)
    requires
        1 <= max_bins,
        uniques_of(values).len() >= 2,
    ensures
        spec_boundaries(uniques_of(values), max_bins).len() == spec_stat_len(
            uniques_of(values).len() as int,
            max_bins,
        ) + 1,
{
}

/// With a bin budget of at least one bin per gap between consecutive
/// distinct values, the boundaries are the distinct values themselves:
/// `n` distinct values always give exactly `n - 1` bins.
pub proof fn lemma_ample_budget_keeps_all_uniques(values: Seq<u64>, max_bins: int)
    requires
        uniques_of(values).len() >= 2,
        max_bins >= uniques_of(values).len() - 1,
    ensures
        spec_boundaries(uniques_of(values), max_bins) == uniques_of(values),
        spec_stat_len(uniques_of(values).len() as int, max_bins) == uniques_of(values).len() - 1,
{
    let u = uniques_of(values);
    let nb = spec_num_bins_of(u.len() as int, max_bins);
    assert forall|i: int| 0 <= i < nb + 1 implies spec_boundaries(u, max_bins)[i] == u[i] by {
        assert(i * (u.len() - 1) == nb * i) by (nonlinear_arith)
            requires
                nb == u.len() - 1,
        ;
        lemma_div_multiples_vanish(i, nb);
    }
    assert(spec_boundaries(u, max_bins) =~= u);
}

/// Histogram construction is order-independent: two feature columns that
/// are permutations of each other have the same distinct-value sequence,
/// and with it the same boundaries and the same statistic shape.
pub proof fn lemma_from_feature_order_independent(v1: Seq<u64>, v2: Seq<u64>, max_bins: int)
    requires
        v1.to_multiset() == v2.to_multiset(),
    ensures
        uniques_of(v1) == uniques_of(v2),
        spec_boundaries(uniques_of(v1), max_bins) == spec_boundaries(uniques_of(v2), max_bins),
{
    lemma_uniques_of_props(v1);
    lemma_uniques_of_props(v2);
    assert forall|w: u64| uniques_of(v1).contains(w) <==> uniques_of(v2).contains(w) by {
        v1.to_multiset_ensures();
        v2.to_multiset_ensures();
        assert(v1.contains(w) <==> v1.to_multiset().count(w) > 0);
        assert(v2.contains(w) <==> v2.to_multiset().count(w) > 0);
    }
    lemma_strictly_sorted_same_elements(uniques_of(v1), uniques_of(v2));
}

/// Accumulation is monotonic and history-free: each pass adds a total
/// that depends only on the batch, so accumulating the same batch twice
/// into freshly built (all-zero) sums leaves every bin at exactly double
/// what one pass gives. `once` and `twice` name a bin's sum after one
/// and after two passes, as `accumulate` describes them.
pub proof fn lemma_accumulate_twice_doubles(
    bins: Seq<u64>,
    num_bins: int,
    values: Seq<u64>,
    stats: Seq<i64>,
    j: int,
    once: int,
    twice: int,
)
    requires
        once == 0 + spec_accumulated(bins, num_bins, values, stats, j),
        twice == once + spec_accumulated(bins, num_bins, values, stats, j),
    ensures
        twice == 2 * once,
{
}

/// Bin lookup clamps at both ends: a value below every boundary falls
/// into bin 0, and a value at or above the last boundary falls into the
/// last bin.
pub proof fn lemma_bin_index_clamps(bins: Seq<u64>, num_bins: int, x: u64)
    requires
        sorted(bins),
        bins.len() >= 1,
        1 <= num_bins <= bins.len(),
    ensures
        x < bins.first() ==> spec_bin_index(bins, num_bins, x) == 0,
        x >= bins.last() ==> spec_bin_index(bins, num_bins, x) == num_bins - 1,
{
    if x < bins.first() {
        lemma_count_le_split(bins, x, 0);
    }
    if x >= bins.last() {
        lemma_count_le_split(bins, x, bins.len() as int);
    }
}

} // verus!
