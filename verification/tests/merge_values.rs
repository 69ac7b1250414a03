use proxy_metrics::metrics::Bucket;
use proxy_metrics::metrics::FilteredHistogram;
use proxy_metrics::metrics::FilteredMetrics;

fn gauge_of(v: &FilteredMetrics) -> i64 {
    match v {
        FilteredMetrics::Gauge(x) => *x,
        _ => panic!("expected a gauge"),
    }
}

fn count_of(v: &FilteredMetrics) -> i64 {
    match v {
        FilteredMetrics::Count(x) => *x,
        _ => panic!("expected a count"),
    }
}

fn histogram_of(v: &FilteredMetrics) -> &FilteredHistogram {
    match v {
        FilteredMetrics::Histogram(h) => h,
        _ => panic!("expected a histogram"),
    }
}

#[test]
fn gauges_are_additive() {
    let mut left = FilteredMetrics::Gauge(5);
    left.merge(&FilteredMetrics::Gauge(7));
    assert_eq!(gauge_of(&left), 12);
}

#[test]
fn counts_are_additive() {
    let mut left = FilteredMetrics::Count(-3);
    left.merge(&FilteredMetrics::Count(4));
    assert_eq!(count_of(&left), 1);
}

#[test]
fn mismatched_kinds_leave_left_unchanged() {
    let mut left = FilteredMetrics::Gauge(5);
    left.merge(&FilteredMetrics::Count(7));
    assert_eq!(gauge_of(&left), 5);

    let mut left = FilteredMetrics::Count(9);
    left.merge(&FilteredMetrics::Gauge(1));
    assert_eq!(count_of(&left), 9);
}

#[test]
fn non_mergeable_kinds_never_merge() {
    let mut left = FilteredMetrics::Time(3);
    left.merge(&FilteredMetrics::Time(4));
    assert!(matches!(left, FilteredMetrics::Time(3)));

    let mut left = FilteredMetrics::Gauge(5);
    left.merge(&FilteredMetrics::Percentiles(1));
    assert_eq!(gauge_of(&left), 5);
}

#[test]
fn mergeability_policy() {
    assert!(FilteredMetrics::Gauge(0).is_mergeable());
    assert!(FilteredMetrics::Count(0).is_mergeable());
    assert!(
        FilteredMetrics::Histogram(FilteredHistogram { count: 0, sum: 0, buckets: Vec::new() })
            .is_mergeable()
    );
    assert!(!FilteredMetrics::Time(0).is_mergeable());
    assert!(!FilteredMetrics::Percentiles(0).is_mergeable());
    assert!(!FilteredMetrics::TimeSerie(0).is_mergeable());
}

#[test]
fn histogram_totals_are_summed() {
    let a = FilteredHistogram { count: 10, sum: 100, buckets: vec![Bucket { le: 0, count: 4 }] };
    let b = FilteredHistogram { count: 3, sum: 41, buckets: Vec::new() };
    let mut left = FilteredMetrics::Histogram(a);
    left.merge(&FilteredMetrics::Histogram(b));
    let h = histogram_of(&left);
    assert_eq!(h.count, 13);
    assert_eq!(h.sum, 141);
}

#[test]
fn histogram_bucket_counts_are_unioned() {
    // A has one bucket, B has two: missing indices contribute 0.
    let a = FilteredHistogram { count: 5, sum: 5, buckets: vec![Bucket { le: 0, count: 5 }] };
    let b = FilteredHistogram {
        count: 5,
        sum: 9,
        buckets: vec![Bucket { le: 0, count: 2 }, Bucket { le: 1, count: 3 }],
    };
    let mut left = FilteredMetrics::Histogram(a);
    left.merge(&FilteredMetrics::Histogram(b));
    let h = histogram_of(&left);
    assert_eq!(h.buckets.len(), 2);
    assert_eq!(h.buckets[0].le, 0);
    assert_eq!(h.buckets[0].count, 7);
    assert_eq!(h.buckets[1].le, 1);
    assert_eq!(h.buckets[1].count, 3);
}

#[test]
fn histogram_merge_yields_canonical_ladder() {
    // Merging a 2-bucket and a 3-bucket histogram yields exactly 3 buckets
    // with bounds 0, 1, 3, whatever bounds the inputs carried.
    let a = FilteredHistogram {
        count: 0,
        sum: 0,
        buckets: vec![Bucket { le: 42, count: 1 }, Bucket { le: 99, count: 2 }],
    };
    let b = FilteredHistogram {
        count: 0,
        sum: 0,
        buckets: vec![
            Bucket { le: 0, count: 10 },
            Bucket { le: 1, count: 20 },
            Bucket { le: 3, count: 30 },
        ],
    };
    let mut left = FilteredMetrics::Histogram(a);
    left.merge(&FilteredMetrics::Histogram(b));
    let h = histogram_of(&left);
    assert_eq!(h.buckets.len(), 3);
    assert_eq!(h.buckets[0].le, 0);
    assert_eq!(h.buckets[1].le, 1);
    assert_eq!(h.buckets[2].le, 3);
    assert_eq!(h.buckets[0].count, 11);
    assert_eq!(h.buckets[1].count, 22);
    assert_eq!(h.buckets[2].count, 30);
}

#[test]
fn long_ladder_bounds_are_powers_of_two_minus_one() {
    let mut buckets = Vec::new();
    for _ in 0..8 {
        buckets.push(Bucket { le: 7, count: 1 });
    }
    let a = FilteredHistogram { count: 8, sum: 8, buckets };
    let b = FilteredHistogram { count: 0, sum: 0, buckets: Vec::new() };
    let mut left = FilteredMetrics::Histogram(a);
    left.merge(&FilteredMetrics::Histogram(b));
    let h = histogram_of(&left);
    let expected: [u64; 8] = [0, 1, 3, 7, 15, 31, 63, 127];
    assert_eq!(h.buckets.len(), 8);
    for (i, want) in expected.iter().enumerate() {
        assert_eq!(h.buckets[i].le, *want);
        assert_eq!(h.buckets[i].count, 1);
    }
}
