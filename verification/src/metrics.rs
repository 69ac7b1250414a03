//! Metric values: the tagged union of metric kinds, the mergeability policy,
//! and the kind-wise merge operation (additive for gauges and counts,
//! bucket-wise union on a canonical ladder for histograms).

use vstd::prelude::*;
use vstd::arithmetic::power2::pow2;
use vstd::arithmetic::power2::lemma_pow2_unfold;
use vstd::arithmetic::power2::lemma_pow2_strictly_increases;
use vstd::arithmetic::power2::lemma2_to64;

verus! {

/// One cumulative histogram bucket: `count` observations were `<= le`.
#[derive(Clone, Copy, Debug)]
pub struct Bucket {
    pub le: u64,
    pub count: u64,
}

/// Mathematical model of a bucket.
pub ghost struct BucketModel {
    pub le: int,
    pub count: int,
}

impl View for Bucket {
    type V = BucketModel;

    open spec fn view(&self) -> BucketModel {
        BucketModel { le: self.le as int, count: self.count as int }
    }
}

/// A distribution metric: total observation count, total of observed values,
/// and an ordered list of cumulative buckets.
#[derive(Debug)]
pub struct FilteredHistogram {
    pub count: u64,
    pub sum: u64,
    pub buckets: Vec<Bucket>,
}

/// Mathematical model of a histogram.
pub ghost struct HistogramModel {
    pub count: int,
    pub sum: int,
    pub buckets: Seq<BucketModel>,
}

impl View for FilteredHistogram {
    type V = HistogramModel;

    open spec fn view(&self) -> HistogramModel {
        HistogramModel {
            count: self.count as int,
            sum: self.sum as int,
            buckets: Seq::new(self.buckets@.len(), |i: int| self.buckets@[i]@),
        }
    }
}

impl Clone for FilteredHistogram {
    fn clone(&self) -> (res: Self)
        ensures
            res@ == self@,
    {
        let mut buckets: Vec<Bucket> = Vec::new();
        let mut i: usize = 0;
        while i < self.buckets.len()
            invariant
                i <= self.buckets.len(),
                buckets@.len() == i,
                forall|j: int| 0 <= j < i ==> buckets@[j] == self.buckets@[j],
            decreases self.buckets.len() - i,
        {
            buckets.push(self.buckets[i]);
            i = i + 1;
        }
        let res = FilteredHistogram { count: self.count, sum: self.sum, buckets };
        proof {
            assert(res@.buckets =~= self@.buckets);
        }
        res
    }
}

/// A metric value reported by a worker: a closed set of kinds. Gauges,
/// counts and histograms take part in cross-worker aggregation; the three
/// remaining kinds are carried for protocol completeness but never merged.
#[derive(Debug)]
pub enum FilteredMetrics {
    Gauge(i64),
    Count(i64),
    Histogram(FilteredHistogram),
    Time(i64),
    Percentiles(i64),
    TimeSerie(i64),
}

/// Mathematical model of a metric value.
pub ghost enum MetricModel {
    Gauge(int),
    Count(int),
    Histogram(HistogramModel),
    Time(int),
    Percentiles(int),
    TimeSerie(int),
}

impl View for FilteredMetrics {
    type V = MetricModel;

    open spec fn view(&self) -> MetricModel {
        match self {
            FilteredMetrics::Gauge(v) => MetricModel::Gauge(*v as int),
            FilteredMetrics::Count(v) => MetricModel::Count(*v as int),
            FilteredMetrics::Histogram(h) => MetricModel::Histogram(h@),
            FilteredMetrics::Time(v) => MetricModel::Time(*v as int),
            FilteredMetrics::Percentiles(v) => MetricModel::Percentiles(*v as int),
            FilteredMetrics::TimeSerie(v) => MetricModel::TimeSerie(*v as int),
        }
    }
}

impl Clone for FilteredMetrics {
    fn clone(&self) -> (res: Self)
        ensures
            res@ == self@,
    {
        match self {
            FilteredMetrics::Gauge(v) => FilteredMetrics::Gauge(*v),
            FilteredMetrics::Count(v) => FilteredMetrics::Count(*v),
            FilteredMetrics::Histogram(h) => FilteredMetrics::Histogram(h.clone()),
            FilteredMetrics::Time(v) => FilteredMetrics::Time(*v),
            FilteredMetrics::Percentiles(v) => FilteredMetrics::Percentiles(*v),
            FilteredMetrics::TimeSerie(v) => FilteredMetrics::TimeSerie(*v),
        }
    }
}

/// The mergeability policy: gauges, counts and histograms take part in
/// aggregation; times, percentiles and time series never do.
pub open spec fn is_mergeable_model(m: MetricModel) -> bool {
    match m {
        MetricModel::Gauge(_) => true,
        MetricModel::Count(_) => true,
        MetricModel::Histogram(_) => true,
        MetricModel::Time(_) => false,
        MetricModel::Percentiles(_) => false,
        MetricModel::TimeSerie(_) => false,
    }
}

/// The canonical upper bound of bucket `i`: `2^i - 1`, so the ladder of
/// bounds reads 0, 1, 3, 7, 15, ...
pub open spec fn bucket_bound(i: nat) -> int {
    pow2(i) - 1
}

/// The count stored at index `i` of a bucket list, an out-of-range index
/// contributing 0.
pub open spec fn bucket_count_at(buckets: Seq<BucketModel>, i: int) -> int {
    if 0 <= i < buckets.len() {
        buckets[i].count
    } else {
        0
    }
}

/// What merging two histograms yields: totals are summed, and bucket `i`
/// holds the canonical bound `2^i - 1` together with the sum of the two
/// inputs' counts at `i`, up to the longer of the two bucket lists.
pub open spec fn merged_histogram(a: HistogramModel, b: HistogramModel) -> HistogramModel {
    HistogramModel {
        count: a.count + b.count,
        sum: a.sum + b.sum,
        buckets: Seq::new(
            if a.buckets.len() >= b.buckets.len() { a.buckets.len() } else { b.buckets.len() },
            |i: int| BucketModel {
                le: bucket_bound(i as nat),
                count: bucket_count_at(a.buckets, i) + bucket_count_at(b.buckets, i),
            },
        ),
    }
}

/// What merging two metric values yields: same-kind gauges and counts are
/// summed, same-kind histograms are combined bucket-wise, and every other
/// pairing leaves the left value unchanged.
pub open spec fn merged_value(a: MetricModel, b: MetricModel) -> MetricModel {
    match (a, b) {
        (MetricModel::Gauge(x), MetricModel::Gauge(y)) => MetricModel::Gauge(x + y),
        (MetricModel::Count(x), MetricModel::Count(y)) => MetricModel::Count(x + y),
        (MetricModel::Histogram(h1), MetricModel::Histogram(h2)) => MetricModel::Histogram(
            merged_histogram(h1, h2),
        ),
        _ => a,
    }
}

/// Machine-width bounds under which two histograms can be merged without
/// overflow: totals and bucket-wise sums fit in 64 bits, and the longer
/// bucket list has at most 65 buckets, so that every canonical bound
/// `2^i - 1` itself fits in 64 bits.
pub open spec fn histogram_merge_fits(a: HistogramModel, b: HistogramModel) -> bool {
    &&& a.count + b.count <= u64::MAX
    &&& a.sum + b.sum <= u64::MAX
    &&& a.buckets.len() <= 65
    &&& b.buckets.len() <= 65
    &&& forall|i: int|
        0 <= i < 65 ==> bucket_count_at(a.buckets, i) + bucket_count_at(b.buckets, i) <= u64::MAX
}

/// Machine-width bounds under which two metric values can be merged without
/// overflow. Pairings that merge as a no-op always fit.
pub open spec fn merge_fits(a: MetricModel, b: MetricModel) -> bool {
    match (a, b) {
        (MetricModel::Gauge(x), MetricModel::Gauge(y)) => i64::MIN <= x + y <= i64::MAX,
        (MetricModel::Count(x), MetricModel::Count(y)) => i64::MIN <= x + y <= i64::MAX,
        (MetricModel::Histogram(h1), MetricModel::Histogram(h2)) => histogram_merge_fits(h1, h2),
        _ => true,
    }
}

/// Merges two histograms into a fresh one on the canonical bucket ladder.
fn merge_histograms(a: &FilteredHistogram, b: &FilteredHistogram) -> (r: FilteredHistogram)
    requires
        histogram_merge_fits(a@, b@),
    ensures
        r@ == merged_histogram(a@, b@),
{
    let longest: usize = if a.buckets.len() >= b.buckets.len() {
        a.buckets.len()
    } else {
        b.buckets.len()
    };
    let mut buckets: Vec<Bucket> = Vec::new();
    let mut le: u64 = 0;
    let mut i: usize = 0;
    proof {
        lemma2_to64();
    }
    while i < longest
        invariant
            i <= longest,
            longest <= 65,
            longest == if a@.buckets.len() >= b@.buckets.len() {
                a@.buckets.len()
            } else {
                b@.buckets.len()
            },
            forall|k: int|
                0 <= k < 65 ==> bucket_count_at(a@.buckets, k) + bucket_count_at(b@.buckets, k)
                    <= u64::MAX,
            i < longest ==> le == bucket_bound(i as nat),
            buckets@.len() == i,
            forall|j: int| 0 <= j < i ==> buckets@[j]@ == merged_histogram(a@, b@).buckets[j],
        decreases longest - i,
    {
        let ca: u64 = if i < a.buckets.len() {
            a.buckets[i].count
        } else {
            0
        };
        let cb: u64 = if i < b.buckets.len() {
            b.buckets[i].count
        } else {
            0
        };
        proof {
            assert(ca == bucket_count_at(a@.buckets, i as int));
            assert(cb == bucket_count_at(b@.buckets, i as int));
        }
        buckets.push(Bucket { le, count: ca + cb });
        i = i + 1;
        if i < longest {
            proof {
                lemma_pow2_unfold(i as nat);
                lemma2_to64();
                if (i as nat) < 64 {
                    lemma_pow2_strictly_increases(i as nat, 64);
                }
            }
            le = 2 * le + 1;
        }
    }
    let r = FilteredHistogram { count: a.count + b.count, sum: a.sum + b.sum, buckets };
    proof {
        assert(r@.buckets =~= merged_histogram(a@, b@).buckets);
    }
    r
}

impl FilteredMetrics {
    /// Whether this value takes part in cross-worker aggregation.
    pub fn is_mergeable(&self) -> (r: bool)
        ensures
            r == is_mergeable_model(self@),
    {
        match self {
            FilteredMetrics::Gauge(_) => true,
            FilteredMetrics::Count(_) => true,
            FilteredMetrics::Histogram(_) => true,
            FilteredMetrics::Time(_) => false,
            FilteredMetrics::Percentiles(_) => false,
            FilteredMetrics::TimeSerie(_) => false,
        }
    }

    /// Merges `right` into `self`: same-kind gauges and counts are summed,
    /// same-kind histograms are combined bucket-wise on the canonical
    /// ladder, and any other pairing leaves `self` unchanged.
    pub fn merge(&mut self, right: &Self)
        requires
            merge_fits(old(self)@, right@),
        ensures
            final(self)@ == merged_value(old(self)@, right@),
    {
        let merged: Option<FilteredMetrics> = match (&*self, right) {
            (FilteredMetrics::Gauge(a), FilteredMetrics::Gauge(b)) => Some(
                FilteredMetrics::Gauge(*a + *b),
            ),
            (FilteredMetrics::Count(a), FilteredMetrics::Count(b)) => Some(
                FilteredMetrics::Count(*a + *b),
            ),
            (FilteredMetrics::Histogram(a), FilteredMetrics::Histogram(b)) => Some(
                FilteredMetrics::Histogram(merge_histograms(a, b)),
            ),
            _ => None,
        };
        if let Some(m) = merged {
            *self = m;
        }
    }
}

} // verus!
