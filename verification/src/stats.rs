//! Result types of a measurement, and the percentiles of a set of samples.
use std::collections::HashMap;
use vstd::prelude::*;
use vstd::relations::{sorted_by, total_ordering};

verus! {

#[derive(Debug, Clone, Eq, PartialEq, Structural)]
pub enum Direction {
    /// Traffic flows from Client => Server (the default)
    ClientToServer,
    /// Traffic flows from Server => Client.
    ServerToClient,
    /// Both ways.
    Bidirectional,
}

/// Exact percentiles over a set of samples (nearest-rank, no interpolation).
#[derive(Debug, Clone, Eq, PartialEq, Structural)]
pub struct Dist {
    pub count: u64,
    pub min: u64,
    pub p50: u64,
    pub p90: u64,
    pub p99: u64,
    pub p100: u64,
    pub mean: u64,
}

/// Latency-under-load correlates, all derived from one clock read per I/O completion.
#[derive(Debug, Clone, Eq, PartialEq, Structural)]
pub struct LatencyStats {
    /// Nanoseconds: per-write stall (sender side) or inter-arrival gap (receiver side).
    pub interval_ns: Dist,
    /// Per-window goodput in bits/sec (throughput-stability distribution). `count == 0`
    /// means a transport didn't measure it (then the goodput line is suppressed).
    pub throughput_bps: Dist,
    /// Measured cost of one monotonic clock read (ns), subtracted from `interval_ns`.
    pub clock_baseline_ns: u64,
    /// Samples discarded during warm-up.
    pub warmup_discarded: u64,
}

#[derive(Debug, Clone, Eq, PartialEq)]
pub struct StreamStats {
    pub sender: bool,
    pub duration_millis: u64,
    pub bytes_transferred: u64,
    pub syscalls: u64,
    /// Present only when the test was run with latency measurement.
    pub latency: Option<LatencyStats>,
}

#[derive(Debug, Clone, Eq, PartialEq)]
pub struct TestResults {
    pub streams: HashMap<usize, StreamStats>,
}

/// The order of samples.
pub open spec fn at_most() -> spec_fn(u64, u64) -> bool {
    |a: u64, b: u64| a <= b
}

/// The samples in ascending order.
pub open spec fn ascending(samples: Seq<u64>) -> Seq<u64> {
    samples.sort_by(at_most())
}

/// The sum of the samples.
pub open spec fn sum_of(samples: Seq<u64>) -> nat
    decreases samples.len(),
{
    if samples.len() == 0 {
        0
    } else {
        sum_of(samples.drop_last()) + samples.last() as nat
    }
}

/// The least rank that covers `p` percent of `n` samples.
pub open spec fn nearest_rank(p: nat, n: nat) -> nat {
    (p * n + 99) / 100
}

/// Of samples in ascending order, the one whose rank is the nearest rank of `p` percent;
/// the first where that rank is zero and the last where it is past the end.
pub open spec fn percentile(sorted: Seq<u64>, p: nat) -> u64 {
    let rank = nearest_rank(p, sorted.len());
    if rank == 0 {
        sorted[0]
    } else if rank > sorted.len() {
        sorted[sorted.len() - 1]
    } else {
        sorted[rank - 1]
    }
}

/// The percentiles of no samples.
pub open spec fn no_dist() -> Dist {
    Dist { count: 0, min: 0, p50: 0, p90: 0, p99: 0, p100: 0, mean: 0 }
}

/// The percentiles of the samples, their number and their mean, rounded down.
pub open spec fn dist_of(samples: Seq<u64>) -> Dist {
    if samples.len() == 0 {
        no_dist()
    } else {
        let sorted = ascending(samples);
        Dist {
            count: samples.len() as u64,
            min: sorted[0],
            p50: percentile(sorted, 50),
            p90: percentile(sorted, 90),
            p99: percentile(sorted, 99),
            p100: sorted[sorted.len() - 1],
            mean: (sum_of(samples) / samples.len()) as u64,
        }
    }
}

proof fn lemma_at_most_is_total()
    ensures
        total_ordering(at_most()),
{
}

/// Whatever rearranges the samples into ascending order gives the same.
pub proof fn law_ascending_is_unique(samples: Seq<u64>, sorted: Seq<u64>)
    requires
        sorted.to_multiset() == samples.to_multiset(),
        forall|i: int, j: int| 0 <= i < j < sorted.len() ==> sorted[i] <= sorted[j],
    ensures
        sorted == ascending(samples),
{
    lemma_at_most_is_total();
    samples.lemma_sort_by_ensures(at_most());
    vstd::seq_lib::lemma_sorted_unique(sorted, ascending(samples), at_most());
}

/// Calls `<[u64]>::sort_unstable`, which rearranges the samples into ascending order.
#[verifier::external_body]
pub(crate) fn sort_samples(v: &mut Vec<u64>)
    ensures
        final(v)@.to_multiset() == old(v)@.to_multiset(),
        forall|i: int, j: int| 0 <= i < j < final(v)@.len() ==> final(v)@[i] <= final(v)@[j],
{
    v.sort_unstable()
}

/// The samples in ascending order are the same samples, and ascend.
pub proof fn law_ascending_is_sorted(samples: Seq<u64>)
    ensures
        ascending(samples).len() == samples.len(),
        ascending(samples).to_multiset() == samples.to_multiset(),
        forall|i: int, j: int|
            0 <= i < j < samples.len() ==> ascending(samples)[i] <= ascending(samples)[j],
{
    lemma_at_most_is_total();
    samples.lemma_sort_by_ensures(at_most());
    samples.to_multiset_ensures();
    ascending(samples).to_multiset_ensures();
    let sorted = ascending(samples);
    assert forall|i: int, j: int| 0 <= i < j < samples.len() implies sorted[i] <= sorted[j] by {
        assert(at_most()(sorted[i], sorted[j]));
    }
}

/// The mean of samples lies between their bounds.
proof fn lemma_sum_bounds(samples: Seq<u64>, lo: u64, hi: u64)
    requires
        forall|i: int| 0 <= i < samples.len() ==> lo <= samples[i] && samples[i] <= hi,
    ensures
        lo * samples.len() <= sum_of(samples) <= hi * samples.len(),
    decreases samples.len(),
{
    if samples.len() > 0 {
        let n = samples.len();
        lemma_sum_bounds(samples.drop_last(), lo, hi);
        assert(lo <= samples[n - 1] <= hi);
        assert(lo * (n - 1) + lo == lo * n) by (nonlinear_arith);
        assert(hi * (n - 1) + hi == hi * n) by (nonlinear_arith);
    }
}

fn sum_samples(v: &Vec<u64>) -> (sum: u128)
    ensures
        sum as nat == sum_of(v@),
{
    let mut sum: u128 = 0;
    let mut i: usize = 0;
    assert(v@.take(0) =~= Seq::<u64>::empty());
    while i < v.len()
        invariant
            i <= v.len(),
            sum as nat == sum_of(v@.take(i as int)),
            sum <= u64::MAX * i,
        decreases v.len() - i,
    {
        proof {
            assert(v@.take(i + 1).drop_last() =~= v@.take(i as int));
            let n = i as int;
            assert(u64::MAX * (n + 1) == u64::MAX * n + u64::MAX) by (nonlinear_arith);
            assert(u64::MAX * n <= u64::MAX * u64::MAX) by (nonlinear_arith)
                requires
                    n <= u64::MAX,
            ;
        }
        sum = sum + v[i] as u128;
        i = i + 1;
    }
    assert(v@.take(i as int) =~= v@);
    sum
}

/// Of samples in ascending order, the one whose rank is the nearest rank of `p` percent.
pub fn percentile_of(sorted: &[u64], p: u64) -> (v: u64)
    requires
        sorted.len() > 0,
    ensures
        v == percentile(sorted@, p as nat),
{
    let n: usize = sorted.len();
    proof {
        let pp = p as int;
        let nn = n as int;
        assert(0 <= pp * nn <= 0xffff_ffff_ffff_ffff * 0xffff_ffff_ffff_ffff) by (nonlinear_arith)
            requires
                0 <= pp <= 0xffff_ffff_ffff_ffff,
                0 <= nn <= 0xffff_ffff_ffff_ffff,
        ;
    }
    let rank: u128 = (p as u128 * n as u128 + 99) / 100;
    if rank == 0 {
        sorted[0]
    } else if rank > n as u128 {
        sorted[n - 1]
    } else {
        sorted[(rank - 1) as usize]
    }
}

impl Default for Dist {
    fn default() -> (d: Self)
        ensures
            d == no_dist(),
    {
        Dist { count: 0, min: 0, p50: 0, p90: 0, p99: 0, p100: 0, mean: 0 }
    }
}

impl Default for TestResults {
    fn default() -> (r: Self)
        ensures
            r.streams@ == Map::<usize, StreamStats>::empty(),
    {
        TestResults { streams: HashMap::new() }
    }
}

/// The percentiles of samples that are in ascending order.
pub(crate) fn dist_of_sorted(sorted: &Vec<u64>) -> (d: Dist)
    requires
        forall|i: int, j: int| 0 <= i < j < sorted@.len() ==> sorted@[i] <= sorted@[j],
    ensures
        d == dist_of(sorted@),
{
    if sorted.is_empty() {
        return Dist::default();
    }
    let sum: u128 = sum_samples(sorted);
    let n: usize = sorted.len();
    proof {
        law_ascending_is_unique(sorted@, sorted@);
        lemma_sum_bounds(sorted@, 0, u64::MAX);
        let total = sum as int;
        let len = n as int;
        vstd::arithmetic::div_mod::lemma_div_is_ordered(total, u64::MAX * len, len);
        vstd::arithmetic::div_mod::lemma_div_by_multiple(u64::MAX as int, len);
    }
    Dist {
        count: n as u64,
        min: sorted[0],
        p50: percentile_of(sorted.as_slice(), 50),
        p90: percentile_of(sorted.as_slice(), 90),
        p99: percentile_of(sorted.as_slice(), 99),
        p100: sorted[n - 1],
        mean: (sum / n as u128) as u64,
    }
}

impl Dist {
    /// Exact percentiles by sorting the raw samples (p100 is the true max).
    pub fn from_samples(v: Vec<u64>) -> (d: Self)
        ensures
            d == dist_of(v@),
    {
        let mut sorted = v;
        sort_samples(&mut sorted);
        proof {
            law_dist_ignores_order(v@, sorted@);
        }
        dist_of_sorted(&sorted)
    }
}

/// The number of samples that are at most `v`.
pub open spec fn count_at_most(samples: Seq<u64>, v: u64) -> nat
    decreases samples.len(),
{
    if samples.len() == 0 {
        0
    } else {
        count_at_most(samples.drop_last(), v) + if samples.last() <= v {
            1nat
        } else {
            0
        }
    }
}

proof fn lemma_remove_one(samples: Seq<u64>, i: int, v: u64)
    requires
        0 <= i < samples.len(),
    ensures
        sum_of(samples) == sum_of(samples.remove(i)) + samples[i],
        count_at_most(samples, v) == count_at_most(samples.remove(i), v) + if samples[i] <= v {
            1nat
        } else {
            0
        },
    decreases samples.len(),
{
    if i == samples.len() - 1 {
        assert(samples.remove(i) =~= samples.drop_last());
    } else {
        lemma_remove_one(samples.drop_last(), i, v);
        assert(samples.remove(i).drop_last() =~= samples.drop_last().remove(i));
    }
}

/// Rearranging samples changes neither their sum nor how many are at most `v`.
proof fn lemma_rearranged(a: Seq<u64>, b: Seq<u64>, v: u64)
    requires
        a.to_multiset() == b.to_multiset(),
    ensures
        a.len() == b.len(),
        sum_of(a) == sum_of(b),
        count_at_most(a, v) == count_at_most(b, v),
    decreases a.len(),
{
    a.to_multiset_ensures();
    b.to_multiset_ensures();
    if a.len() > 0 {
        let x = a.last();
        assert(a.contains(x));
        assert(b.to_multiset().count(x) > 0);
        assert(b.contains(x));
        let i = choose|i: int| 0 <= i < b.len() && b[i] == x;
        lemma_remove_one(b, i, v);
        assert(a.drop_last() =~= a.remove(a.len() - 1));
        assert(a.remove(a.len() - 1).to_multiset() =~= a.to_multiset().remove(x));
        assert(b.remove(i).to_multiset() =~= b.to_multiset().remove(x));
        lemma_rearranged(a.drop_last(), b.remove(i), v);
    }
}

proof fn lemma_count_sorted(sorted: Seq<u64>, i: int, v: u64)
    requires
        0 <= i <= sorted.len(),
        forall|j: int, k: int| 0 <= j < k < sorted.len() ==> sorted[j] <= sorted[k],
    ensures
        i < sorted.len() && sorted[i] <= v ==> count_at_most(sorted, v) >= i + 1,
        i < sorted.len() && sorted[i] > v ==> count_at_most(sorted, v) <= i,
        count_at_most(sorted, v) <= sorted.len(),
    decreases sorted.len(),
{
    if sorted.len() > 0 {
        let rest = sorted.drop_last();
        if i < rest.len() {
            lemma_count_sorted(rest, i, v);
            assert(rest[i] == sorted[i]);
        } else {
            lemma_count_sorted(rest, rest.len() as int, v);
            if sorted.last() <= v {
                if rest.len() > 0 {
                    lemma_count_sorted(rest, rest.len() - 1, v);
                }
            }
        }
    }
}

/// The percentile of `p` is the smallest sample whose rank covers `p` percent of the
/// samples: at least `p` percent of them are at most that sample, and of every smaller
/// value this does not hold.
pub proof fn law_percentile_is_nearest_rank(samples: Seq<u64>, p: nat)
    requires
        samples.len() > 0,
        1 <= p <= 100,
    ensures
        samples.contains(percentile(ascending(samples), p)),
        100 * count_at_most(samples, percentile(ascending(samples), p)) >= p * samples.len(),
        forall|w: u64|
            w < percentile(ascending(samples), p) ==> 100 * #[trigger] count_at_most(samples, w) < p
                * samples.len(),
{
    let sorted = ascending(samples);
    let v = percentile(sorted, p);
    let n = samples.len();
    law_ascending_is_sorted(samples);
    let rank = nearest_rank(p, n);
    assert(n <= p * n <= 100 * n) by (nonlinear_arith)
        requires
            1 <= p <= 100,
    ;
    assert(1 <= rank <= n);
    let i = rank - 1;
    assert(v == sorted[i]);
    samples.to_multiset_ensures();
    sorted.to_multiset_ensures();
    assert(sorted.contains(v));
    assert(samples.to_multiset().count(v) > 0);
    lemma_rearranged(samples, sorted, v);
    lemma_count_sorted(sorted, i, v);
    assert forall|w: u64| w < v implies 100 * #[trigger] count_at_most(samples, w) < p * n by {
        lemma_rearranged(samples, sorted, w);
        lemma_count_sorted(sorted, i, w);
    }
}

/// `min` is the least sample, `p100` the true maximum, and the percentiles and the mean
/// lie between them in order.
pub proof fn law_dist_is_ordered(samples: Seq<u64>)
    requires
        samples.len() > 0,
    ensures
        ({
            let d = dist_of(samples);
            &&& d.min <= d.p50 <= d.p90 <= d.p99 <= d.p100
            &&& d.min <= d.mean <= d.p100
            &&& samples.contains(d.min)
            &&& samples.contains(d.p100)
            &&& forall|i: int| 0 <= i < samples.len() ==> d.min <= samples[i] && samples[i] <= d.p100
        }),
{
    let sorted = ascending(samples);
    let d = dist_of(samples);
    let n = samples.len();
    law_ascending_is_sorted(samples);
    samples.to_multiset_ensures();
    sorted.to_multiset_ensures();
    assert(sorted.contains(d.min));
    assert(sorted.contains(d.p100));
    assert(samples.to_multiset().count(d.min) > 0);
    assert(samples.to_multiset().count(d.p100) > 0);
    assert forall|i: int| 0 <= i < samples.len() implies d.min <= samples[i] && samples[i]
        <= d.p100 by {
        assert(samples.contains(samples[i]));
        assert(sorted.to_multiset().count(samples[i]) > 0);
        assert(sorted.contains(samples[i]));
    }
    lemma_sum_bounds(samples, d.min, d.p100);
    let total = sum_of(samples) as int;
    let lo = d.min as int;
    let hi = d.p100 as int;
    let len = n as int;
    vstd::arithmetic::div_mod::lemma_div_is_ordered(lo * len, total, len);
    vstd::arithmetic::div_mod::lemma_div_is_ordered(total, hi * len, len);
    vstd::arithmetic::div_mod::lemma_div_by_multiple(lo, len);
    vstd::arithmetic::div_mod::lemma_div_by_multiple(hi, len);
}

/// The percentiles do not depend on the order in which the samples were taken.
pub proof fn law_dist_ignores_order(a: Seq<u64>, b: Seq<u64>)
    requires
        a.to_multiset() == b.to_multiset(),
    ensures
        dist_of(a) == dist_of(b),
{
    lemma_rearranged(a, b, 0);
    law_ascending_is_sorted(b);
    law_ascending_is_unique(a, ascending(b));
}

proof fn lemma_filter_counts(samples: Seq<u64>, v: u64)
    ensures
        samples.filter(|x: u64| x <= v).len() == count_at_most(samples, v),
        v > 0 ==> samples.filter(|x: u64| x < v).len() == count_at_most(samples, (v - 1) as u64),
        v == 0 ==> samples.filter(|x: u64| x < v).len() == 0,
    decreases samples.len(),
{
    reveal(Seq::filter);
    if samples.len() > 0 {
        lemma_filter_counts(samples.drop_last(), v);
    }
}

proof fn lemma_sum_is_fold(samples: Seq<u64>)
    ensures
        sum_of(samples) == samples.fold_left(0int, |sum: int, x: u64| sum + x),
    decreases samples.len(),
{
    if samples.len() > 0 {
        lemma_sum_is_fold(samples.drop_last());
    }
}

/// Of the sample that `i` others stand in front of in ascending order: more than `i` samples
/// are no greater, and no more than `i` are smaller.
pub proof fn law_rank_counts(samples: Seq<u64>, i: int)
    requires
        0 <= i < samples.len(),
    ensures
        ({
            let v = ascending(samples)[i];
            &&& samples.contains(v)
            &&& samples.filter(|x: u64| x <= v).len() > i
            &&& samples.filter(|x: u64| x < v).len() <= i
        }),
{
    let sorted = ascending(samples);
    let v = sorted[i];
    law_ascending_is_sorted(samples);
    samples.to_multiset_ensures();
    sorted.to_multiset_ensures();
    assert(sorted.contains(v));
    assert(samples.to_multiset().count(v) > 0);
    lemma_filter_counts(samples, v);
    lemma_rearranged(samples, sorted, v);
    lemma_count_sorted(sorted, i, v);
    if v > 0 {
        lemma_rearranged(samples, sorted, (v - 1) as u64);
        lemma_count_sorted(sorted, i, (v - 1) as u64);
    }
}

/// `v` is a sample, at least `p` percent of the samples are no greater, and fewer than `p`
/// percent are smaller.
pub open spec fn covers(samples: Seq<u64>, v: u64, p: int) -> bool {
    &&& samples.contains(v)
    &&& 100 * samples.filter(|x: u64| x <= v).len() >= p * samples.len()
    &&& 100 * samples.filter(|x: u64| x < v).len() < p * samples.len()
}

/// The figures of a set of samples: their number, the samples that cover 50, 90 and 99
/// percent, and the mean, which is the sum over the number, rounded down. The least and the
/// greatest sample bound all of them. Of no samples all figures are zero.
pub proof fn law_dist_has_its_figures(samples: Seq<u64>)
    requires
        samples.len() <= u64::MAX,
    ensures
        ({
            let d = dist_of(samples);
            let sum = samples.fold_left(0int, |sum: int, x: u64| sum + x);
            &&& d.count == samples.len()
            &&& samples.len() == 0 ==> d.min == 0 && d.p50 == 0 && d.p90 == 0 && d.p99 == 0
                && d.p100 == 0 && d.mean == 0
            &&& samples.len() > 0 ==> {
                &&& samples.contains(d.min) && samples.contains(d.p100)
                &&& forall|i: int|
                    0 <= i < samples.len() ==> d.min <= #[trigger] samples[i] && samples[i]
                        <= d.p100
                &&& covers(samples, d.p50, 50)
                &&& covers(samples, d.p90, 90)
                &&& covers(samples, d.p99, 99)
                &&& d.mean * samples.len() <= sum
                &&& sum < (d.mean + 1) * samples.len()
            }
        }),
{
    if samples.len() > 0 {
        let d = dist_of(samples);
        let sorted = ascending(samples);
        let n = samples.len();
        law_dist_is_ordered(samples);
        lemma_sum_is_fold(samples);
        lemma_covers(samples, 50);
        lemma_covers(samples, 90);
        lemma_covers(samples, 99);
        law_ascending_is_sorted(samples);
        lemma_sum_bounds(samples, 0, u64::MAX);
        let total = sum_of(samples) as int;
        let len = n as int;
        vstd::arithmetic::div_mod::lemma_div_is_ordered(total, u64::MAX * len, len);
        vstd::arithmetic::div_mod::lemma_div_by_multiple(u64::MAX as int, len);
        vstd::arithmetic::div_mod::lemma_fundamental_div_mod(total, len);
        vstd::arithmetic::div_mod::lemma_mod_bound(total, len);
        let q = d.mean as int;
        let r = total % len;
        assert(q * len <= total && total < (q + 1) * len) by (nonlinear_arith)
            requires
                total == len * q + r,
                0 <= r < len,
        ;
    }
}

proof fn lemma_covers(samples: Seq<u64>, p: nat)
    requires
        samples.len() > 0,
        1 <= p <= 100,
    ensures
        covers(samples, percentile(ascending(samples), p), p as int),
{
    let v = percentile(ascending(samples), p);
    let n = samples.len();
    law_percentile_is_nearest_rank(samples, p);
    lemma_filter_counts(samples, v);
    if v > 0 {
        assert(100 * count_at_most(samples, (v - 1) as u64) < p * n);
    } else {
        assert(p * n > 0) by (nonlinear_arith)
            requires
                p >= 1,
                n >= 1,
        ;
    }
}

/// Any percentile covers its percentage. None at all gives the least sample, and all or more
/// gives the greatest.
pub proof fn law_percentiles_of_ascending_samples(sorted: Seq<u64>, p: nat)
    requires
        sorted.len() > 0,
        forall|i: int, j: int| 0 <= i < j < sorted.len() ==> sorted[i] <= sorted[j],
    ensures
        1 <= p <= 100 ==> covers(sorted, percentile(sorted, p), p as int),
        p == 0 ==> percentile(sorted, p) == sorted.first(),
        p >= 100 ==> percentile(sorted, p) == sorted.last(),
{
    law_ascending_is_unique(sorted, sorted);
    let n = sorted.len();
    if 1 <= p <= 100 {
        lemma_covers(sorted, p);
    }
    if p == 0 {
        assert(p * n == 0) by (nonlinear_arith)
            requires
                p == 0,
        ;
    }
    if p >= 100 {
        assert(p * n >= 100 * n) by (nonlinear_arith)
            requires
                p >= 100,
        ;
    }
}

} // verus!
