use proxy_metrics::engine::AggregatedMetrics;
use proxy_metrics::maps::MetricsMap;
use proxy_metrics::metrics::Bucket;
use proxy_metrics::metrics::FilteredHistogram;
use proxy_metrics::metrics::FilteredMetrics;
use proxy_metrics::snapshots::BackendMetrics;
use proxy_metrics::snapshots::ClusterMap;
use proxy_metrics::snapshots::ClusterMetrics;
use proxy_metrics::snapshots::WorkerMetrics;

fn s(x: &str) -> String {
    x.to_string()
}

fn one_metric(name: &str, v: FilteredMetrics) -> MetricsMap {
    let mut m = MetricsMap::new();
    m.insert(s(name), v);
    m
}

fn proxy_worker(name: &str, v: FilteredMetrics) -> WorkerMetrics {
    WorkerMetrics { proxy: one_metric(name, v), clusters: ClusterMap::new() }
}

fn gauge_of(v: &FilteredMetrics) -> i64 {
    match v {
        FilteredMetrics::Gauge(x) => *x,
        _ => panic!("expected a gauge"),
    }
}

fn count_of(v: &FilteredMetrics) -> i64 {
    match v {
        FilteredMetrics::Count(x) => *x,
        _ => panic!("expected a count"),
    }
}

#[test]
fn two_workers_proxy_gauges_sum() {
    let mut agg = AggregatedMetrics::new();
    agg.workers.insert(s("w1"), proxy_worker("active_connections", FilteredMetrics::Gauge(5)));
    agg.workers.insert(s("w2"), proxy_worker("active_connections", FilteredMetrics::Gauge(7)));
    agg.merge_metrics();
    assert_eq!(agg.workers.len(), 0);
    assert_eq!(agg.proxying.len(), 1);
    let v = agg.proxying.get(&s("active_connections")).expect("metric must be present");
    assert_eq!(gauge_of(v), 12);
}

#[test]
fn duplicate_worker_id_overwrites_the_stored_report() {
    let mut agg = AggregatedMetrics::new();
    agg.workers.insert(s("w1"), proxy_worker("requests", FilteredMetrics::Count(3)));
    agg.workers.insert(s("w1"), proxy_worker("requests", FilteredMetrics::Count(10)));
    agg.merge_metrics();
    let v = agg.proxying.get(&s("requests")).expect("metric must be present");
    assert_eq!(count_of(v), 10);
}

#[test]
fn merge_is_idempotent_after_drain() {
    let mut agg = AggregatedMetrics::new();
    agg.workers.insert(s("w1"), proxy_worker("requests", FilteredMetrics::Count(3)));
    agg.workers.insert(s("w2"), proxy_worker("requests", FilteredMetrics::Count(4)));
    agg.merge_metrics();
    assert_eq!(agg.workers.len(), 0);
    assert_eq!(count_of(agg.proxying.get(&s("requests")).unwrap()), 7);

    // No new report arrived: a second merge changes nothing.
    agg.merge_metrics();
    assert_eq!(agg.workers.len(), 0);
    assert_eq!(agg.proxying.len(), 1);
    assert_eq!(count_of(agg.proxying.get(&s("requests")).unwrap()), 7);
    assert_eq!(agg.clusters.len(), 0);
}

#[test]
fn non_mergeable_values_never_reach_the_outputs() {
    let mut agg = AggregatedMetrics::new();

    let mut proxy = MetricsMap::new();
    proxy.insert(s("uptime"), FilteredMetrics::Time(12345));
    proxy.insert(s("percentiles"), FilteredMetrics::Percentiles(9));
    proxy.insert(s("serie"), FilteredMetrics::TimeSerie(1));
    proxy.insert(s("requests"), FilteredMetrics::Count(2));

    let mut cluster_metrics = MetricsMap::new();
    cluster_metrics.insert(s("uptime"), FilteredMetrics::Time(777));
    let mut clusters = ClusterMap::new();
    clusters.insert(
        s("c1"),
        ClusterMetrics { cluster: cluster_metrics, backends: Vec::new() },
    );

    agg.workers.insert(s("w1"), WorkerMetrics { proxy, clusters });
    agg.merge_metrics();

    assert_eq!(agg.proxying.len(), 1);
    assert!(agg.proxying.get(&s("uptime")).is_none());
    assert!(agg.proxying.get(&s("percentiles")).is_none());
    assert!(agg.proxying.get(&s("serie")).is_none());
    assert_eq!(count_of(agg.proxying.get(&s("requests")).unwrap()), 2);
    // The cluster held only a non-mergeable value: no cluster entry at all.
    assert_eq!(agg.clusters.len(), 0);
}

#[test]
fn worker_order_does_not_change_the_merged_values() {
    let mut first = AggregatedMetrics::new();
    first.workers.insert(s("w1"), proxy_worker("requests", FilteredMetrics::Count(3)));
    first.workers.insert(s("w2"), proxy_worker("requests", FilteredMetrics::Count(4)));
    first.merge_metrics();

    let mut second = AggregatedMetrics::new();
    second.workers.insert(s("w2"), proxy_worker("requests", FilteredMetrics::Count(4)));
    second.workers.insert(s("w1"), proxy_worker("requests", FilteredMetrics::Count(3)));
    second.merge_metrics();

    assert_eq!(
        count_of(first.proxying.get(&s("requests")).unwrap()),
        count_of(second.proxying.get(&s("requests")).unwrap()),
    );
}

#[test]
fn worker_order_does_not_change_cluster_level_values() {
    let worker = |n: i64| {
        let mut clusters = ClusterMap::new();
        clusters.insert(
            s("c1"),
            ClusterMetrics {
                cluster: one_metric("http_errors", FilteredMetrics::Count(n)),
                backends: Vec::new(),
            },
        );
        WorkerMetrics { proxy: MetricsMap::new(), clusters }
    };

    let mut first = AggregatedMetrics::new();
    first.workers.insert(s("w1"), worker(5));
    first.workers.insert(s("w2"), worker(7));
    first.merge_metrics();

    let mut second = AggregatedMetrics::new();
    second.workers.insert(s("w2"), worker(7));
    second.workers.insert(s("w1"), worker(5));
    second.merge_metrics();

    let a = first.clusters.get(&s("c1")).unwrap();
    let b = second.clusters.get(&s("c1")).unwrap();
    assert_eq!(
        count_of(a.cluster.get(&s("http_errors")).unwrap()),
        count_of(b.cluster.get(&s("http_errors")).unwrap()),
    );
    assert_eq!(count_of(a.cluster.get(&s("http_errors")).unwrap()), 12);
}

#[test]
fn cluster_level_metrics_merge_under_their_cluster_id() {
    let mut agg = AggregatedMetrics::new();
    for (wid, n) in [("w1", 5), ("w2", 7)] {
        let mut clusters = ClusterMap::new();
        clusters.insert(
            s("c1"),
            ClusterMetrics {
                cluster: one_metric("http_errors", FilteredMetrics::Count(n)),
                backends: Vec::new(),
            },
        );
        agg.workers.insert(s(wid), WorkerMetrics { proxy: MetricsMap::new(), clusters });
    }
    agg.merge_metrics();
    assert_eq!(agg.clusters.len(), 1);
    let c1 = agg.clusters.get(&s("c1")).expect("cluster must be present");
    assert_eq!(count_of(c1.cluster.get(&s("http_errors")).unwrap()), 12);
    assert!(c1.backends.is_empty());
}

#[test]
fn backends_merge_by_backend_id() {
    let mut agg = AggregatedMetrics::new();
    for (wid, n) in [("w1", 3), ("w2", 4)] {
        let backend = BackendMetrics {
            backend_id: s("b1"),
            metrics: one_metric("requests", FilteredMetrics::Count(n)),
        };
        let mut clusters = ClusterMap::new();
        clusters.insert(
            s("c1"),
            ClusterMetrics { cluster: MetricsMap::new(), backends: vec![backend] },
        );
        agg.workers.insert(s(wid), WorkerMetrics { proxy: MetricsMap::new(), clusters });
    }
    agg.merge_metrics();

    let c1 = agg.clusters.get(&s("c1")).expect("cluster must be present");
    assert_eq!(c1.backends.len(), 1);
    assert_eq!(c1.backends[0].backend_id, s("b1"));
    assert_eq!(count_of(c1.backends[0].metrics.get(&s("requests")).unwrap()), 7);
}

#[test]
fn a_new_backend_id_is_appended_without_disturbing_the_first() {
    let mut agg = AggregatedMetrics::new();
    let b1 = BackendMetrics {
        backend_id: s("b1"),
        metrics: one_metric("requests", FilteredMetrics::Count(3)),
    };
    let mut clusters = ClusterMap::new();
    clusters.insert(s("c1"), ClusterMetrics { cluster: MetricsMap::new(), backends: vec![b1] });
    agg.workers.insert(s("w1"), WorkerMetrics { proxy: MetricsMap::new(), clusters });

    let b2 = BackendMetrics {
        backend_id: s("b2"),
        metrics: one_metric("requests", FilteredMetrics::Count(9)),
    };
    let mut clusters = ClusterMap::new();
    clusters.insert(s("c1"), ClusterMetrics { cluster: MetricsMap::new(), backends: vec![b2] });
    agg.workers.insert(s("w2"), WorkerMetrics { proxy: MetricsMap::new(), clusters });

    agg.merge_metrics();

    let c1 = agg.clusters.get(&s("c1")).expect("cluster must be present");
    assert_eq!(c1.backends.len(), 2);
    assert_eq!(c1.backends[0].backend_id, s("b1"));
    assert_eq!(count_of(c1.backends[0].metrics.get(&s("requests")).unwrap()), 3);
    assert_eq!(c1.backends[1].backend_id, s("b2"));
    assert_eq!(count_of(c1.backends[1].metrics.get(&s("requests")).unwrap()), 9);
}

#[test]
fn first_seen_backend_is_copied_whole() {
    // The first mergeable metric of a backend under a fresh cluster inserts
    // a copy of the whole backend snapshot; each further metric of the same
    // backend is then merged into that copy, which already carries it.
    let mut metrics = MetricsMap::new();
    metrics.insert(s("m1"), FilteredMetrics::Count(3));
    metrics.insert(s("m2"), FilteredMetrics::Count(5));
    let backend = BackendMetrics { backend_id: s("b1"), metrics };
    let mut clusters = ClusterMap::new();
    clusters.insert(
        s("c1"),
        ClusterMetrics { cluster: MetricsMap::new(), backends: vec![backend] },
    );
    let mut agg = AggregatedMetrics::new();
    agg.workers.insert(s("w1"), WorkerMetrics { proxy: MetricsMap::new(), clusters });
    agg.merge_metrics();

    let c1 = agg.clusters.get(&s("c1")).expect("cluster must be present");
    assert_eq!(c1.backends.len(), 1);
    assert_eq!(count_of(c1.backends[0].metrics.get(&s("m1")).unwrap()), 3);
    assert_eq!(count_of(c1.backends[0].metrics.get(&s("m2")).unwrap()), 10);
}

#[test]
fn a_backend_copy_carries_its_non_mergeable_values() {
    // Non-mergeable values are never merged, but a backend snapshot is
    // copied whole when its id is first seen, so a copy may carry them.
    let mut metrics = MetricsMap::new();
    metrics.insert(s("g"), FilteredMetrics::Gauge(1));
    metrics.insert(s("t"), FilteredMetrics::Time(9));
    let backend = BackendMetrics { backend_id: s("b1"), metrics };
    let mut clusters = ClusterMap::new();
    clusters.insert(
        s("c1"),
        ClusterMetrics { cluster: MetricsMap::new(), backends: vec![backend] },
    );
    let mut agg = AggregatedMetrics::new();
    agg.workers.insert(s("w1"), WorkerMetrics { proxy: MetricsMap::new(), clusters });
    agg.merge_metrics();

    let c1 = agg.clusters.get(&s("c1")).expect("cluster must be present");
    assert_eq!(gauge_of(c1.backends[0].metrics.get(&s("g")).unwrap()), 1);
    assert!(matches!(
        c1.backends[0].metrics.get(&s("t")),
        Some(FilteredMetrics::Time(9))
    ));
}

#[test]
fn histograms_merge_through_the_engine() {
    let mut agg = AggregatedMetrics::new();
    let h1 = FilteredHistogram {
        count: 4,
        sum: 10,
        buckets: vec![Bucket { le: 0, count: 1 }, Bucket { le: 1, count: 3 }],
    };
    let h2 = FilteredHistogram { count: 2, sum: 5, buckets: vec![Bucket { le: 0, count: 2 }] };
    agg.workers.insert(s("w1"), proxy_worker("latency", FilteredMetrics::Histogram(h1)));
    agg.workers.insert(s("w2"), proxy_worker("latency", FilteredMetrics::Histogram(h2)));
    agg.merge_metrics();

    match agg.proxying.get(&s("latency")).unwrap() {
        FilteredMetrics::Histogram(h) => {
            assert_eq!(h.count, 6);
            assert_eq!(h.sum, 15);
            assert_eq!(h.buckets.len(), 2);
            assert_eq!((h.buckets[0].le, h.buckets[0].count), (0, 3));
            assert_eq!((h.buckets[1].le, h.buckets[1].count), (1, 3));
        }
        _ => panic!("expected a histogram"),
    }
}

#[test]
fn maps_enumerate_names_in_sorted_order() {
    // Names inserted out of order come back lexicographically sorted.
    let mut m = MetricsMap::new();
    m.insert(s("delta"), FilteredMetrics::Count(4));
    m.insert(s("alpha"), FilteredMetrics::Count(1));
    m.insert(s("charlie"), FilteredMetrics::Count(3));
    m.insert(s("bravo"), FilteredMetrics::Count(2));
    let names: Vec<&str> = m.entries.iter().map(|e| e.0.as_str()).collect();
    assert_eq!(names, vec!["alpha", "bravo", "charlie", "delta"]);
}

#[test]
fn merged_output_enumerates_sorted_regardless_of_arrival_order() {
    // One worker reports "b" before "a"; another reports "a" before "b".
    // Both merged outputs enumerate a then b, with the same entries.
    let mut p1 = MetricsMap::new();
    p1.insert(s("b"), FilteredMetrics::Count(1));
    p1.insert(s("a"), FilteredMetrics::Count(2));
    let mut p2 = MetricsMap::new();
    p2.insert(s("a"), FilteredMetrics::Count(10));
    p2.insert(s("b"), FilteredMetrics::Count(20));

    let mut first = AggregatedMetrics::new();
    first.workers.insert(s("w1"), WorkerMetrics { proxy: p1, clusters: ClusterMap::new() });
    let mut p2b = MetricsMap::new();
    p2b.insert(s("a"), FilteredMetrics::Count(10));
    p2b.insert(s("b"), FilteredMetrics::Count(20));
    first.workers.insert(s("w2"), WorkerMetrics { proxy: p2b, clusters: ClusterMap::new() });
    first.merge_metrics();

    let mut p1b = MetricsMap::new();
    p1b.insert(s("b"), FilteredMetrics::Count(1));
    p1b.insert(s("a"), FilteredMetrics::Count(2));
    let mut second = AggregatedMetrics::new();
    second.workers.insert(s("w2"), WorkerMetrics { proxy: p2, clusters: ClusterMap::new() });
    second.workers.insert(s("w1"), WorkerMetrics { proxy: p1b, clusters: ClusterMap::new() });
    second.merge_metrics();

    for agg in [&first, &second] {
        assert_eq!(agg.proxying.entries.len(), 2);
        assert_eq!(agg.proxying.entries[0].0, s("a"));
        assert_eq!(agg.proxying.entries[1].0, s("b"));
        assert_eq!(count_of(&agg.proxying.entries[0].1), 12);
        assert_eq!(count_of(&agg.proxying.entries[1].1), 21);
    }
}

#[test]
fn mismatched_kinds_across_workers_keep_the_first_value() {
    let mut agg = AggregatedMetrics::new();
    agg.workers.insert(s("w1"), proxy_worker("m", FilteredMetrics::Gauge(5)));
    agg.workers.insert(s("w2"), proxy_worker("m", FilteredMetrics::Count(7)));
    agg.merge_metrics();
    // Workers fold in sorted id order: w1's gauge arrives first and the
    // mismatched count is a no-op on it.
    assert_eq!(gauge_of(agg.proxying.get(&s("m")).unwrap()), 5);
}
