//! General properties of the merge: statements that hold for all inputs,
//! proved once and for all against the specification functions that the
//! executable contracts use.

use vstd::prelude::*;
use crate::metrics::MetricModel;
use crate::metrics::HistogramModel;
use crate::metrics::merged_value;
use crate::metrics::merged_histogram;
use crate::metrics::bucket_bound;
use crate::metrics::bucket_count_at;
use crate::metrics::is_mergeable_model;
use crate::order::unique_keys;
use crate::order::has_key;
use crate::order::lex_lt;
use crate::order::sorted_keys;
use crate::order::sorted_insert;
use crate::order::lemma_sorted_insert_props;
use crate::order::lemma_sorted_insert_unique;
use crate::order::lemma_sorted_insert_sorted;
use crate::order::lemma_lex_lt_asym;
use crate::maps::upsert_merged;
use crate::snapshots::ClusterModel;
use crate::snapshots::WorkerModel;
use crate::engine::folded;
use crate::engine::metric_step;
use crate::engine::worker_proxy_step;
use crate::engine::worker_clusters_step;
use crate::engine::worker_cluster_step;
use crate::engine::cluster_metric_step;
use crate::engine::backend_metric_step;
use crate::engine::backend_step;
use crate::engine::apply_cluster_metric;
use crate::engine::apply_backend_metric;
use crate::snapshots::BackendModel;

verus! {

/// Additivity: for all integers `a` and `b`, merging `Gauge(a)` with
/// `Gauge(b)` yields `Gauge(a + b)`, and merging `Count(a)` with
/// `Count(b)` yields `Count(a + b)`.
pub proof fn lemma_scalar_merge_additive(a: int, b: int)
    ensures
        merged_value(MetricModel::Gauge(a), MetricModel::Gauge(b)) == MetricModel::Gauge(a + b),
        merged_value(MetricModel::Count(a), MetricModel::Count(b)) == MetricModel::Count(a + b),
{
}

/// Histogram totals: whatever the bucket shapes, merging two histograms
/// sums their total counts and their total sums.
pub proof fn lemma_histogram_merge_totals(a: HistogramModel, b: HistogramModel)
    ensures
        merged_histogram(a, b).count == a.count + b.count,
        merged_histogram(a, b).sum == a.sum + b.sum,
{
}

/// Canonical bucket ladder: a histogram merge yields as many buckets as
/// the longer input, and bucket `i` carries the canonical bound
/// `2^i - 1`, whatever bounds the inputs carried.
pub proof fn lemma_histogram_merge_canonical_ladder(a: HistogramModel, b: HistogramModel)
    ensures
        merged_histogram(a, b).buckets.len() == if a.buckets.len() >= b.buckets.len() {
            a.buckets.len()
        } else {
            b.buckets.len()
        },
        forall|i: int|
            0 <= i < merged_histogram(a, b).buckets.len() ==> (#[trigger] merged_histogram(
                a,
                b,
            ).buckets[i]).le == bucket_bound(i as nat),
{
}

/// Bucket-count union: for all `i`, the merged bucket `i` counts the sum
/// of the two inputs' counts at `i`, an out-of-range index contributing 0.
pub proof fn lemma_histogram_merge_bucket_union(a: HistogramModel, b: HistogramModel)
    ensures
        forall|i: int|
            0 <= i < merged_histogram(a, b).buckets.len() ==> (#[trigger] merged_histogram(
                a,
                b,
            ).buckets[i]).count == bucket_count_at(a.buckets, i) + bucket_count_at(b.buckets, i),
{
}

/// Idempotence after drain: merging drains the stored reports, and
/// folding an empty report sequence leaves both outputs unchanged — so a
/// second merge, with no report added in between, changes nothing.
pub proof fn lemma_merge_after_drain_is_noop(
    proxying: Seq<(Seq<char>, MetricModel)>,
    clusters: Seq<(Seq<char>, ClusterModel)>,
    ws: Seq<(Seq<char>, WorkerModel)>,
)
    requires
        ws.len() == 0,
    ensures
        folded(worker_proxy_step(), proxying, ws) == proxying,
        folded(worker_clusters_step(), clusters, ws) == clusters,
{
}

/// An invariant that a fold's step keeps is kept by the whole fold.
proof fn lemma_folded_preserves<A, E>(
    step: spec_fn(A, E) -> A,
    inv: spec_fn(A) -> bool,
    acc: A,
    es: Seq<E>,
)
    requires
        inv(acc),
        forall|a: A, e: E| inv(a) ==> #[trigger] inv(step(a, e)),
    ensures
        inv(folded(step, acc, es)),
    decreases es.len(),
{
    if es.len() != 0 {
        lemma_folded_preserves(step, inv, acc, es.drop_last());
    }
}

/// Merging keeps a mergeable value mergeable, whatever stands on the
/// right.
proof fn lemma_merged_value_keeps_mergeable(a: MetricModel, b: MetricModel)
    requires
        is_mergeable_model(a),
    ensures
        is_mergeable_model(merged_value(a, b)),
{
}

/// Whether every value of a metric map is of a mergeable kind.
pub open spec fn all_values_mergeable(s: Seq<(Seq<char>, MetricModel)>) -> bool {
    forall|i: int| 0 <= i < s.len() ==> is_mergeable_model((#[trigger] s[i]).1)
}

/// Merge-inserting a mergeable value keeps every stored value mergeable.
proof fn lemma_upsert_merged_keeps_mergeable(
    s: Seq<(Seq<char>, MetricModel)>,
    k: Seq<char>,
    v: MetricModel,
)
    requires
        all_values_mergeable(s),
        is_mergeable_model(v),
    ensures
        all_values_mergeable(upsert_merged(s, k, v)),
{
    let s2 = upsert_merged(s, k, v);
    assert forall|i: int| 0 <= i < s2.len() implies is_mergeable_model((#[trigger] s2[i]).1) by {
        if has_key(s, k) {
            assert(is_mergeable_model(s[i].1));
            lemma_merged_value_keeps_mergeable(s[i].1, v);
        } else {
            lemma_sorted_insert_props(s, (k, v));
            if s2[i] != (k, v) {
                let j = choose|j: int| 0 <= j < s.len() && s[j] == s2[i];
                assert(is_mergeable_model(s[j].1));
            }
        }
    }
}

/// Non-mergeable exclusion, process-wide: when every value already stored
/// in `proxying` is mergeable, every value after merging any worker
/// reports still is — a Time, Percentiles or TimeSerie value never
/// appears there.
pub proof fn lemma_non_mergeable_never_in_proxying(
    p0: Seq<(Seq<char>, MetricModel)>,
    ws: Seq<(Seq<char>, WorkerModel)>,
)
    requires
        all_values_mergeable(p0),
    ensures
        all_values_mergeable(folded(worker_proxy_step(), p0, ws)),
{
    let inv = |p: Seq<(Seq<char>, MetricModel)>| all_values_mergeable(p);
    let mstep = metric_step();
    assert forall|a: Seq<(Seq<char>, MetricModel)>, e: (Seq<char>, MetricModel)|
        inv(a) implies #[trigger] inv(mstep(a, e)) by {
        if is_mergeable_model(e.1) {
            lemma_upsert_merged_keeps_mergeable(a, e.0, e.1);
        }
    }
    let wstep = worker_proxy_step();
    assert forall|a: Seq<(Seq<char>, MetricModel)>, w: (Seq<char>, WorkerModel)|
        inv(a) implies #[trigger] inv(wstep(a, w)) by {
        lemma_folded_preserves(mstep, inv, a, w.1.proxy);
    }
    lemma_folded_preserves(wstep, inv, p0, ws);
}

/// Whether every cluster-level metric value of an output cluster map is of
/// a mergeable kind.
pub open spec fn cluster_level_values_mergeable(cl: Seq<(Seq<char>, ClusterModel)>) -> bool {
    forall|i: int| 0 <= i < cl.len() ==> all_values_mergeable((#[trigger] cl[i]).1.cluster)
}

/// Non-mergeable exclusion, cluster-level: when every cluster-level value
/// already stored in the output cluster map is mergeable, every one after
/// merging any worker reports still is. (A backend snapshot is copied
/// whole when its id is first seen, so this speaks of the cluster-level
/// maps, not of the maps inside backend copies.)
pub proof fn lemma_non_mergeable_never_in_cluster_metrics(
    c0: Seq<(Seq<char>, ClusterModel)>,
    ws: Seq<(Seq<char>, WorkerModel)>,
)
    requires
        cluster_level_values_mergeable(c0),
    ensures
        cluster_level_values_mergeable(folded(worker_clusters_step(), c0, ws)),
{
    let inv = |cl: Seq<(Seq<char>, ClusterModel)>| cluster_level_values_mergeable(cl);
    assert forall|a: Seq<(Seq<char>, ClusterModel)>, e: (Seq<char>, MetricModel), cid: Seq<char>|
        inv(a) implies #[trigger] inv(cluster_metric_step(cid)(a, e)) by {
        if is_mergeable_model(e.1) {
            let a2 = apply_cluster_metric(a, cid, e.0, e.1);
            assert forall|i: int|
                0 <= i < a2.len() implies all_values_mergeable((#[trigger] a2[i]).1.cluster) by {
                if has_key(a, cid) {
                    assert(all_values_mergeable(a[i].1.cluster));
                    lemma_upsert_merged_keeps_mergeable(a[i].1.cluster, e.0, e.1);
                } else {
                    let centry = ClusterModel {
                        cluster: Seq::<(Seq<char>, MetricModel)>::empty().push((e.0, e.1)),
                        backends: Seq::<BackendModel>::empty(),
                    };
                    lemma_sorted_insert_props(a, (cid, centry));
                    if a2[i] != (cid, centry) {
                        let j = choose|j: int| 0 <= j < a.len() && a[j] == a2[i];
                        assert(all_values_mergeable(a[j].1.cluster));
                    }
                }
            }
        }
    }
    assert forall|a: Seq<(Seq<char>, ClusterModel)>,
        e: (Seq<char>, MetricModel),
        cid: Seq<char>,
        b: BackendModel|
        inv(a) implies #[trigger] inv(backend_metric_step(cid, b)(a, e)) by {
        if is_mergeable_model(e.1) {
            let a2 = apply_backend_metric(a, cid, b, e.0, e.1);
            assert forall|i: int|
                0 <= i < a2.len() implies all_values_mergeable((#[trigger] a2[i]).1.cluster) by {
                if has_key(a, cid) {
                    assert(all_values_mergeable(a[i].1.cluster));
                    assert(a2[i].1.cluster == a[i].1.cluster);
                } else {
                    let centry = ClusterModel {
                        cluster: Seq::<(Seq<char>, MetricModel)>::empty(),
                        backends: Seq::<BackendModel>::empty().push(b),
                    };
                    lemma_sorted_insert_props(a, (cid, centry));
                    if a2[i] != (cid, centry) {
                        let j = choose|j: int| 0 <= j < a.len() && a[j] == a2[i];
                        assert(all_values_mergeable(a[j].1.cluster));
                    }
                }
            }
        }
    }
    assert forall|a: Seq<(Seq<char>, ClusterModel)>, e: (Seq<char>, ClusterModel)|
        inv(a) implies #[trigger] inv(worker_cluster_step()(a, e)) by {
        let mid = folded(cluster_metric_step(e.0), a, e.1.cluster);
        lemma_folded_preserves(cluster_metric_step(e.0), inv, a, e.1.cluster);
        assert forall|a3: Seq<(Seq<char>, ClusterModel)>, b: BackendModel|
            inv(a3) implies #[trigger] inv(backend_step(e.0)(a3, b)) by {
            lemma_folded_preserves(backend_metric_step(e.0, b), inv, a3, b.metrics);
        }
        lemma_folded_preserves(backend_step(e.0), inv, mid, e.1.backends);
    }
    assert forall|a: Seq<(Seq<char>, ClusterModel)>, w: (Seq<char>, WorkerModel)|
        inv(a) implies #[trigger] inv(worker_clusters_step()(a, w)) by {
        lemma_folded_preserves(worker_cluster_step(), inv, a, w.1.clusters);
    }
    lemma_folded_preserves(worker_clusters_step(), inv, c0, ws);
}

/// Folding backend metrics never alters any cluster's cluster-level
/// metric map: an existing cluster id keeps its cluster-level metrics,
/// and a cluster entry created by a backend starts with none.
pub proof fn lemma_backends_never_alter_cluster_metrics(
    cl: Seq<(Seq<char>, ClusterModel)>,
    cid: Seq<char>,
    bs: Seq<BackendModel>,
)
    ensures
        ({
            let m0 = clusters_level_map(cl);
            let m1 = clusters_level_map(folded(backend_step(cid), cl, bs));
            &&& forall|k: Seq<char>|
                m0.contains_key(k) ==> #[trigger] m1.contains_key(k) && m1[k] == m0[k]
            &&& forall|k: Seq<char>|
                #[trigger] m1.contains_key(k) && !m0.contains_key(k) ==> m1[k] == Map::<
                    Seq<char>,
                    MetricModel,
                >::empty()
        }),
{
    let m0 = clusters_level_map(cl);
    let inv = |r: Seq<(Seq<char>, ClusterModel)>|
        {
            &&& forall|k: Seq<char>|
                m0.contains_key(k) ==> #[trigger] clusters_level_map(r).contains_key(k)
                    && clusters_level_map(r)[k] == m0[k]
            &&& forall|k: Seq<char>|
                #[trigger] clusters_level_map(r).contains_key(k) && !m0.contains_key(k)
                    ==> clusters_level_map(r)[k] == Map::<Seq<char>, MetricModel>::empty()
        };
    assert forall|a: Seq<(Seq<char>, ClusterModel)>, e: (Seq<char>, MetricModel), b: BackendModel|
        inv(a) implies #[trigger] inv(backend_metric_step(cid, b)(a, e)) by {
        if is_mergeable_model(e.1) {
            let a2 = apply_backend_metric(a, cid, b, e.0, e.1);
            if has_key(a, cid) {
                assert(forall|i: int|
                    0 <= i < a.len() ==> (#[trigger] a2[i]).0 == a[i].0 && a2[i].1.cluster
                        == a[i].1.cluster);
                lemma_clusters_level_map_pointwise(a, a2);
            } else {
                let centry = ClusterModel {
                    cluster: Seq::<(Seq<char>, MetricModel)>::empty(),
                    backends: Seq::<BackendModel>::empty().push(b),
                };
                assert(a2 == sorted_insert(a, (cid, centry)));
                lemma_clusters_level_map_sorted_insert(a, (cid, centry));
                lemma_clusters_level_map_contains(a, cid);
                assert(entries_map(centry.cluster) == Map::<Seq<char>, MetricModel>::empty());
            }
        }
    }
    assert forall|a: Seq<(Seq<char>, ClusterModel)>, b: BackendModel|
        inv(a) implies #[trigger] inv(backend_step(cid)(a, b)) by {
        lemma_folded_preserves(backend_metric_step(cid, b), inv, a, b.metrics);
    }
    lemma_folded_preserves(backend_step(cid), inv, cl, bs);
}

/// A fold step on a non-mergeable entry is a no-op: a Time, Percentiles
/// or TimeSerie value never alters any output, at any level.
pub proof fn lemma_non_mergeable_step_is_noop(
    p: Seq<(Seq<char>, MetricModel)>,
    cl: Seq<(Seq<char>, ClusterModel)>,
    cid: Seq<char>,
    b: BackendModel,
    e: (Seq<char>, MetricModel),
)
    requires
        !is_mergeable_model(e.1),
    ensures
        metric_step()(p, e) == p,
        cluster_metric_step(cid)(cl, e) == cl,
        backend_metric_step(cid, b)(cl, e) == cl,
{
}

/// Whether a metric map entry carries a mergeable value.
pub open spec fn mergeable_pred() -> spec_fn((Seq<char>, MetricModel)) -> bool {
    |e: (Seq<char>, MetricModel)| is_mergeable_model(e.1)
}

/// Non-mergeable exclusion, the other half: folding a worker's metric
/// entries and folding only its mergeable entries end in the same state —
/// the skipped values alter nothing.
pub proof fn lemma_skipped_values_never_alter(
    acc: Seq<(Seq<char>, MetricModel)>,
    es: Seq<(Seq<char>, MetricModel)>,
)
    ensures
        folded(metric_step(), acc, es) == folded(
            metric_step(),
            acc,
            es.filter(mergeable_pred()),
        ),
    decreases es.len(),
{
    reveal(Seq::filter);
    if es.len() != 0 {
        lemma_skipped_values_never_alter(acc, es.drop_last());
        let fprev = es.drop_last().filter(mergeable_pred());
        let l = es.last();
        if is_mergeable_model(l.1) {
            assert(es.filter(mergeable_pred()) == fprev.push(l));
            assert(fprev.push(l).drop_last() =~= fprev);
            assert(fprev.push(l).last() == l);
        } else {
            assert(es.filter(mergeable_pred()) == fprev);
        }
    }
}

/// The name-to-value map that an association sequence denotes: a later
/// entry wins, so with unique keys it is the map of the entries.
pub open spec fn entries_map(s: Seq<(Seq<char>, MetricModel)>) -> Map<Seq<char>, MetricModel>
    decreases s.len(),
{
    if s.len() == 0 {
        Map::empty()
    } else {
        entries_map(s.drop_last()).insert(s.last().0, s.last().1)
    }
}

proof fn lemma_entries_map_contains(s: Seq<(Seq<char>, MetricModel)>, k: Seq<char>)
    ensures
        entries_map(s).contains_key(k) <==> has_key(s, k),
    decreases s.len(),
{
    if s.len() == 0 {
    } else {
        let s0 = s.drop_last();
        lemma_entries_map_contains(s0, k);
        if s.last().0 == k {
            assert(s[s.len() - 1].0 == k);
        } else {
            if has_key(s, k) {
                let i = choose|i: int| 0 <= i < s.len() && s[i].0 == k;
                assert(s0[i] == s[i]);
                assert(has_key(s0, k));
            }
            if has_key(s0, k) {
                let i = choose|i: int| 0 <= i < s0.len() && s0[i].0 == k;
                assert(s[i] == s0[i]);
                assert(has_key(s, k));
            }
        }
    }
}

/// Sorted insertion of a fresh key reads, as a map, as inserting that
/// key.
proof fn lemma_entries_map_sorted_insert(
    s: Seq<(Seq<char>, MetricModel)>,
    e: (Seq<char>, MetricModel),
)
    requires
        !has_key(s, e.0),
    ensures
        entries_map(sorted_insert(s, e)) == entries_map(s).insert(e.0, e.1),
    decreases s.len(),
{
    let t = sorted_insert(s, e);
    if s.len() == 0 {
        assert(t == seq![e]);
        assert(seq![e].drop_last() =~= s);
        assert(seq![e].last() == e);
    } else if lex_lt(s.last().0, e.0) {
        assert(t == s.push(e));
        assert(s.push(e).drop_last() =~= s);
        assert(s.push(e).last() == e);
    } else {
        let s0 = s.drop_last();
        let l = s.last();
        assert(forall|j: int| 0 <= j < s0.len() ==> s0[j] == s[j]);
        assert(!has_key(s0, e.0)) by {
            if has_key(s0, e.0) {
                let j = choose|j: int| 0 <= j < s0.len() && s0[j].0 == e.0;
                assert(s[j].0 == e.0);
            }
        }
        lemma_entries_map_sorted_insert(s0, e);
        assert(t == sorted_insert(s0, e).push(l));
        assert(sorted_insert(s0, e).push(l).drop_last() =~= sorted_insert(s0, e));
        assert(sorted_insert(s0, e).push(l).last() == l);
        assert(s[s.len() - 1].0 != e.0);
        assert(entries_map(s0).insert(e.0, e.1).insert(l.0, l.1) =~= entries_map(s0).insert(
            l.0,
            l.1,
        ).insert(e.0, e.1));
    }
}

proof fn lemma_upsert_merged_keeps_unique(
    s: Seq<(Seq<char>, MetricModel)>,
    k: Seq<char>,
    v: MetricModel,
)
    requires
        unique_keys(s),
    ensures
        unique_keys(upsert_merged(s, k, v)),
{
    let s2 = upsert_merged(s, k, v);
    if has_key(s, k) {
        assert(forall|i: int| 0 <= i < s2.len() ==> (#[trigger] s2[i]).0 == s[i].0);
    } else {
        lemma_sorted_insert_unique(s, (k, v));
    }
}

proof fn lemma_fold_keeps_unique(
    acc: Seq<(Seq<char>, MetricModel)>,
    es: Seq<(Seq<char>, MetricModel)>,
)
    requires
        unique_keys(acc),
    ensures
        unique_keys(folded(metric_step(), acc, es)),
{
    let inv = |p: Seq<(Seq<char>, MetricModel)>| unique_keys(p);
    let mstep = metric_step();
    assert forall|a: Seq<(Seq<char>, MetricModel)>, e: (Seq<char>, MetricModel)|
        inv(a) implies #[trigger] inv(mstep(a, e)) by {
        if is_mergeable_model(e.1) {
            lemma_upsert_merged_keeps_unique(a, e.0, e.1);
        }
    }
    lemma_folded_preserves(mstep, inv, acc, es);
}

proof fn lemma_entries_map_upsert(s: Seq<(Seq<char>, MetricModel)>, k: Seq<char>, v: MetricModel)
    requires
        unique_keys(s),
    ensures
        entries_map(upsert_merged(s, k, v)) == if entries_map(s).contains_key(k) {
            entries_map(s).insert(k, merged_value(entries_map(s)[k], v))
        } else {
            entries_map(s).insert(k, v)
        },
    decreases s.len(),
{
    lemma_entries_map_contains(s, k);
    let s2 = upsert_merged(s, k, v);
    if !has_key(s, k) {
        lemma_entries_map_sorted_insert(s, (k, v));
    } else {
        let s0 = s.drop_last();
        let l = s.last();
        assert(unique_keys(s0)) by {
            assert(forall|i: int| 0 <= i < s0.len() ==> s0[i] == s[i]);
        }
        lemma_entries_map_contains(s0, k);
        if l.0 == k {
            assert(!has_key(s0, k)) by {
                if has_key(s0, k) {
                    let i = choose|i: int| 0 <= i < s0.len() && s0[i].0 == k;
                    assert(s[i].0 == s[s.len() - 1].0);
                }
            }
            assert(s2.drop_last() =~= s0) by {
                assert forall|i: int| 0 <= i < s0.len() implies s2.drop_last()[i] == s0[i] by {
                    assert(s[i].0 != k);
                    assert(s2[i] == s[i]);
                }
            }
            assert(s2.last() == (k, merged_value(l.1, v)));
            assert(entries_map(s)[k] == l.1);
            assert(entries_map(s).insert(k, merged_value(l.1, v)) =~= entries_map(s0).insert(
                k,
                merged_value(l.1, v),
            ));
        } else {
            assert(has_key(s0, k)) by {
                let i = choose|i: int| 0 <= i < s.len() && s[i].0 == k;
                assert(i != s.len() - 1);
                assert(s0[i] == s[i]);
            }
            lemma_entries_map_upsert(s0, k, v);
            assert(s2.drop_last() =~= upsert_merged(s0, k, v)) by {
                assert forall|i: int|
                    0 <= i < s0.len() implies s2.drop_last()[i] == upsert_merged(s0, k, v)[i] by {
                    assert(s2[i] == if s[i].0 == k {
                        (s[i].0, merged_value(s[i].1, v))
                    } else {
                        s[i]
                    });
                }
            }
            assert(s2.last() == l);
            let x0 = merged_value(entries_map(s0)[k], v);
            assert(entries_map(s2) == entries_map(s0).insert(k, x0).insert(l.0, l.1));
            assert(entries_map(s)[k] == entries_map(s0)[k]);
            assert(entries_map(s0).insert(k, x0).insert(l.0, l.1) =~= entries_map(s0).insert(
                l.0,
                l.1,
            ).insert(k, x0));
        }
    }
}

/// The step that folds one metric entry into a name-keyed mathematical
/// map, mirroring `metric_step` on the map the entries denote.
pub open spec fn map_metric_step() -> spec_fn(
    Map<Seq<char>, MetricModel>,
    (Seq<char>, MetricModel),
) -> Map<Seq<char>, MetricModel> {
    |m: Map<Seq<char>, MetricModel>, e: (Seq<char>, MetricModel)|
        if is_mergeable_model(e.1) {
            if m.contains_key(e.0) {
                m.insert(e.0, merged_value(m[e.0], e.1))
            } else {
                m.insert(e.0, e.1)
            }
        } else {
            m
        }
}

/// Folding entries into an association sequence and reading it as a map
/// is folding them into the map directly.
proof fn lemma_fold_as_map(acc: Seq<(Seq<char>, MetricModel)>, es: Seq<(Seq<char>, MetricModel)>)
    requires
        unique_keys(acc),
    ensures
        entries_map(folded(metric_step(), acc, es)) == folded(
            map_metric_step(),
            entries_map(acc),
            es,
        ),
    decreases es.len(),
{
    if es.len() != 0 {
        lemma_fold_as_map(acc, es.drop_last());
        lemma_fold_keeps_unique(acc, es.drop_last());
        let prev = folded(metric_step(), acc, es.drop_last());
        let l = es.last();
        if is_mergeable_model(l.1) {
            lemma_entries_map_upsert(prev, l.0, l.1);
        }
    }
}

/// Whether some entry of the sequence carries key `k` with a mergeable
/// value.
pub open spec fn mergeable_entry_at(s: Seq<(Seq<char>, MetricModel)>, k: Seq<char>) -> bool {
    exists|i: int| 0 <= i < s.len() && (#[trigger] s[i]).0 == k && is_mergeable_model(s[i].1)
}

/// The mergeable value stored under `k` — well defined when the keys are
/// unique and `mergeable_entry_at` holds.
pub open spec fn mergeable_value_at(
    s: Seq<(Seq<char>, MetricModel)>,
    k: Seq<char>,
) -> MetricModel {
    s[choose|i: int| 0 <= i < s.len() && s[i].0 == k && is_mergeable_model(s[i].1)].1
}

proof fn lemma_map_fold_lookup(
    m: Map<Seq<char>, MetricModel>,
    es: Seq<(Seq<char>, MetricModel)>,
    k: Seq<char>,
)
    requires
        unique_keys(es),
    ensures
        mergeable_entry_at(es, k) ==> {
            let r = folded(map_metric_step(), m, es);
            r.contains_key(k) && r[k] == if m.contains_key(k) {
                merged_value(m[k], mergeable_value_at(es, k))
            } else {
                mergeable_value_at(es, k)
            }
        },
        !mergeable_entry_at(es, k) ==> {
            let r = folded(map_metric_step(), m, es);
            (r.contains_key(k) <==> m.contains_key(k)) && (m.contains_key(k) ==> r[k] == m[k])
        },
    decreases es.len(),
{
    if es.len() != 0 {
        let es0 = es.drop_last();
        let l = es.last();
        assert(unique_keys(es0)) by {
            assert(forall|i: int| 0 <= i < es0.len() ==> es0[i] == es[i]);
        }
        lemma_map_fold_lookup(m, es0, k);
        let r0 = folded(map_metric_step(), m, es0);
        if l.0 == k {
            assert(!mergeable_entry_at(es0, k)) by {
                if mergeable_entry_at(es0, k) {
                    let i = choose|i: int|
                        0 <= i < es0.len() && es0[i].0 == k && is_mergeable_model(es0[i].1);
                    assert(es[i].0 == es[es.len() - 1].0);
                }
            }
            if is_mergeable_model(l.1) {
                assert(mergeable_entry_at(es, k)) by {
                    assert(es[es.len() - 1].0 == k && is_mergeable_model(es[es.len() - 1].1));
                }
                assert(mergeable_value_at(es, k) == l.1) by {
                    let i = choose|i: int|
                        0 <= i < es.len() && es[i].0 == k && is_mergeable_model(es[i].1);
                    if i != es.len() - 1 {
                        assert(es[i].0 == es[es.len() - 1].0);
                    }
                }
            } else {
                assert(!mergeable_entry_at(es, k)) by {
                    if mergeable_entry_at(es, k) {
                        let i = choose|i: int|
                            0 <= i < es.len() && es[i].0 == k && is_mergeable_model(es[i].1);
                        if i != es.len() - 1 {
                            assert(es0[i] == es[i]);
                        }
                    }
                }
            }
        } else {
            assert(mergeable_entry_at(es, k) <==> mergeable_entry_at(es0, k)) by {
                if mergeable_entry_at(es, k) {
                    let i = choose|i: int|
                        0 <= i < es.len() && es[i].0 == k && is_mergeable_model(es[i].1);
                    assert(i != es.len() - 1);
                    assert(es0[i] == es[i]);
                }
                if mergeable_entry_at(es0, k) {
                    let i = choose|i: int|
                        0 <= i < es0.len() && es0[i].0 == k && is_mergeable_model(es0[i].1);
                    assert(es[i] == es0[i]);
                }
            }
            if mergeable_entry_at(es, k) {
                assert(mergeable_value_at(es, k) == mergeable_value_at(es0, k)) by {
                    let i = choose|i: int|
                        0 <= i < es.len() && es[i].0 == k && is_mergeable_model(es[i].1);
                    let i0 = choose|i: int|
                        0 <= i < es0.len() && es0[i].0 == k && is_mergeable_model(es0[i].1);
                    assert(es0[i0] == es[i0]);
                    if i != i0 {
                        assert(es[i].0 == es[i0].0);
                    }
                }
            }
        }
    }
}

/// The cluster-id to cluster-level-metrics map that an output cluster map
/// denotes: each cluster's metric entries read as a map, backends set
/// aside.
pub open spec fn clusters_level_map(cl: Seq<(Seq<char>, ClusterModel)>) -> Map<
    Seq<char>,
    Map<Seq<char>, MetricModel>,
>
    decreases cl.len(),
{
    if cl.len() == 0 {
        Map::empty()
    } else {
        clusters_level_map(cl.drop_last()).insert(
            cl.last().0,
            entries_map(cl.last().1.cluster),
        )
    }
}

proof fn lemma_clusters_level_map_contains(cl: Seq<(Seq<char>, ClusterModel)>, k: Seq<char>)
    ensures
        clusters_level_map(cl).contains_key(k) <==> has_key(cl, k),
    decreases cl.len(),
{
    if cl.len() == 0 {
    } else {
        let cl0 = cl.drop_last();
        lemma_clusters_level_map_contains(cl0, k);
        if cl.last().0 == k {
            assert(cl[cl.len() - 1].0 == k);
        } else {
            if has_key(cl, k) {
                let i = choose|i: int| 0 <= i < cl.len() && cl[i].0 == k;
                assert(cl0[i] == cl[i]);
                assert(has_key(cl0, k));
            }
            if has_key(cl0, k) {
                let i = choose|i: int| 0 <= i < cl0.len() && cl0[i].0 == k;
                assert(cl[i] == cl0[i]);
                assert(has_key(cl, k));
            }
        }
    }
}

/// Unique cluster ids, and unique metric names within each cluster's
/// cluster-level map — what the cluster-level reading needs.
pub open spec fn cluster_maps_unique(cl: Seq<(Seq<char>, ClusterModel)>) -> bool {
    &&& unique_keys(cl)
    &&& forall|i: int| 0 <= i < cl.len() ==> unique_keys((#[trigger] cl[i]).1.cluster)
}

/// The cluster-level metrics stored under `cid`, an absent cluster
/// reading as empty.
pub open spec fn cluster_metrics_of(
    m: Map<Seq<char>, Map<Seq<char>, MetricModel>>,
    cid: Seq<char>,
) -> Map<Seq<char>, MetricModel> {
    if m.contains_key(cid) {
        m[cid]
    } else {
        Map::empty()
    }
}

/// Sorted insertion of a fresh cluster id reads, at the cluster level,
/// as inserting that id with its cluster-level metrics.
proof fn lemma_clusters_level_map_sorted_insert(
    cl: Seq<(Seq<char>, ClusterModel)>,
    e: (Seq<char>, ClusterModel),
)
    requires
        !has_key(cl, e.0),
    ensures
        clusters_level_map(sorted_insert(cl, e)) == clusters_level_map(cl).insert(
            e.0,
            entries_map(e.1.cluster),
        ),
    decreases cl.len(),
{
    let t = sorted_insert(cl, e);
    if cl.len() == 0 {
        assert(t == seq![e]);
        assert(seq![e].drop_last() =~= cl);
        assert(seq![e].last() == e);
    } else if lex_lt(cl.last().0, e.0) {
        assert(t == cl.push(e));
        assert(cl.push(e).drop_last() =~= cl);
        assert(cl.push(e).last() == e);
    } else {
        let cl0 = cl.drop_last();
        let l = cl.last();
        assert(forall|j: int| 0 <= j < cl0.len() ==> cl0[j] == cl[j]);
        assert(!has_key(cl0, e.0)) by {
            if has_key(cl0, e.0) {
                let j = choose|j: int| 0 <= j < cl0.len() && cl0[j].0 == e.0;
                assert(cl[j].0 == e.0);
            }
        }
        lemma_clusters_level_map_sorted_insert(cl0, e);
        assert(t == sorted_insert(cl0, e).push(l));
        assert(sorted_insert(cl0, e).push(l).drop_last() =~= sorted_insert(cl0, e));
        assert(sorted_insert(cl0, e).push(l).last() == l);
        assert(cl[cl.len() - 1].0 != e.0);
        assert(clusters_level_map(cl0).insert(e.0, entries_map(e.1.cluster)).insert(
            l.0,
            entries_map(l.1.cluster),
        ) =~= clusters_level_map(cl0).insert(l.0, entries_map(l.1.cluster)).insert(
            e.0,
            entries_map(e.1.cluster),
        ));
    }
}

/// Two cluster maps with the same ids and the same cluster-level metrics
/// entry by entry read as the same cluster-level map.
proof fn lemma_clusters_level_map_pointwise(
    a: Seq<(Seq<char>, ClusterModel)>,
    b: Seq<(Seq<char>, ClusterModel)>,
)
    requires
        a.len() == b.len(),
        forall|i: int|
            0 <= i < a.len() ==> (#[trigger] b[i]).0 == a[i].0 && b[i].1.cluster == a[i].1.cluster,
    ensures
        clusters_level_map(b) == clusters_level_map(a),
    decreases a.len(),
{
    if a.len() != 0 {
        assert(forall|i: int|
            0 <= i < a.drop_last().len() ==> a.drop_last()[i] == a[i] && b.drop_last()[i] == b[i]);
        lemma_clusters_level_map_pointwise(a.drop_last(), b.drop_last());
        assert(b.last() == b[a.len() - 1] && a.last() == a[a.len() - 1]);
    }
}

proof fn lemma_clusters_level_map_apply(
    cl: Seq<(Seq<char>, ClusterModel)>,
    cid: Seq<char>,
    n: Seq<char>,
    v: MetricModel,
)
    requires
        cluster_maps_unique(cl),
        is_mergeable_model(v),
    ensures
        clusters_level_map(apply_cluster_metric(cl, cid, n, v)) == clusters_level_map(cl).insert(
            cid,
            map_metric_step()(cluster_metrics_of(clusters_level_map(cl), cid), (n, v)),
        ),
    decreases cl.len(),
{
    lemma_clusters_level_map_contains(cl, cid);
    let a2 = apply_cluster_metric(cl, cid, n, v);
    let base = cluster_metrics_of(clusters_level_map(cl), cid);
    if !has_key(cl, cid) {
        let fresh = Seq::<(Seq<char>, MetricModel)>::empty().push((n, v));
        let centry = ClusterModel { cluster: fresh, backends: Seq::<BackendModel>::empty() };
        assert(a2 == sorted_insert(cl, (cid, centry)));
        lemma_clusters_level_map_sorted_insert(cl, (cid, centry));
        assert(entries_map(fresh) == Map::<Seq<char>, MetricModel>::empty().insert(n, v)) by {
            assert(fresh.drop_last() =~= Seq::<(Seq<char>, MetricModel)>::empty());
            assert(fresh.last() == (n, v));
            assert(entries_map(Seq::<(Seq<char>, MetricModel)>::empty())
                == Map::<Seq<char>, MetricModel>::empty());
        }
        assert(base == Map::<Seq<char>, MetricModel>::empty());
    } else {
        let cl0 = cl.drop_last();
        let l = cl.last();
        assert(cluster_maps_unique(cl0)) by {
            assert(forall|i: int| 0 <= i < cl0.len() ==> cl0[i] == cl[i]);
        }
        lemma_clusters_level_map_contains(cl0, cid);
        if l.0 == cid {
            assert(!has_key(cl0, cid)) by {
                if has_key(cl0, cid) {
                    let i = choose|i: int| 0 <= i < cl0.len() && cl0[i].0 == cid;
                    assert(cl[i].0 == cl[cl.len() - 1].0);
                }
            }
            assert(a2.drop_last() =~= cl0) by {
                assert forall|i: int| 0 <= i < cl0.len() implies a2.drop_last()[i] == cl0[i] by {
                    assert(cl[i].0 != cid);
                    assert(a2[i] == cl[i]);
                }
            }
            assert(a2.last() == (cid, ClusterModel {
                cluster: upsert_merged(l.1.cluster, n, v),
                backends: l.1.backends,
            }));
            assert(unique_keys(l.1.cluster));
            lemma_entries_map_upsert(l.1.cluster, n, v);
            assert(base == entries_map(l.1.cluster));
            lemma_entries_map_contains(l.1.cluster, n);
            assert(clusters_level_map(cl).insert(cid, map_metric_step()(base, (n, v)))
                =~= clusters_level_map(cl0).insert(cid, entries_map(upsert_merged(l.1.cluster, n, v))));
        } else {
            assert(has_key(cl0, cid)) by {
                let i = choose|i: int| 0 <= i < cl.len() && cl[i].0 == cid;
                assert(i != cl.len() - 1);
                assert(cl0[i] == cl[i]);
            }
            lemma_clusters_level_map_apply(cl0, cid, n, v);
            assert(a2.drop_last() =~= apply_cluster_metric(cl0, cid, n, v)) by {
                assert forall|i: int|
                    0 <= i < cl0.len() implies a2.drop_last()[i] == apply_cluster_metric(
                    cl0,
                    cid,
                    n,
                    v,
                )[i] by {
                    assert(a2[i] == if cl[i].0 == cid {
                        (cl[i].0, ClusterModel {
                            cluster: upsert_merged(cl[i].1.cluster, n, v),
                            backends: cl[i].1.backends,
                        })
                    } else {
                        cl[i]
                    });
                }
            }
            assert(a2.last() == l);
            let base0 = cluster_metrics_of(clusters_level_map(cl0), cid);
            assert(base == base0);
            let x0 = map_metric_step()(base0, (n, v));
            assert(clusters_level_map(a2) == clusters_level_map(cl0).insert(cid, x0).insert(
                l.0,
                entries_map(l.1.cluster),
            ));
            assert(clusters_level_map(cl0).insert(cid, x0).insert(l.0, entries_map(l.1.cluster))
                =~= clusters_level_map(cl0).insert(l.0, entries_map(l.1.cluster)).insert(cid, x0));
        }
    }
}

/// The step that folds one cluster-level metric entry of cluster `cid`
/// into the cluster-id to cluster-level-metrics map.
pub open spec fn mm_cluster_metric_step(cid: Seq<char>) -> spec_fn(
    Map<Seq<char>, Map<Seq<char>, MetricModel>>,
    (Seq<char>, MetricModel),
) -> Map<Seq<char>, Map<Seq<char>, MetricModel>> {
    |m: Map<Seq<char>, Map<Seq<char>, MetricModel>>, e: (Seq<char>, MetricModel)|
        if is_mergeable_model(e.1) {
            m.insert(cid, map_metric_step()(cluster_metrics_of(m, cid), e))
        } else {
            m
        }
}

/// Whether some entry of the sequence carries a mergeable value.
pub open spec fn any_mergeable(es: Seq<(Seq<char>, MetricModel)>) -> bool {
    exists|i: int| 0 <= i < es.len() && is_mergeable_model((#[trigger] es[i]).1)
}

proof fn lemma_map_fold_all_skipped(
    b: Map<Seq<char>, MetricModel>,
    es: Seq<(Seq<char>, MetricModel)>,
)
    requires
        !any_mergeable(es),
    ensures
        folded(map_metric_step(), b, es) == b,
    decreases es.len(),
{
    if es.len() != 0 {
        assert(!any_mergeable(es.drop_last())) by {
            if any_mergeable(es.drop_last()) {
                let i = choose|i: int|
                    0 <= i < es.drop_last().len() && is_mergeable_model(es.drop_last()[i].1);
                assert(is_mergeable_model(es[i].1));
            }
        }
        lemma_map_fold_all_skipped(b, es.drop_last());
        assert(!is_mergeable_model(es.last().1)) by {
            assert(es[es.len() - 1] == es.last());
        }
    }
}

proof fn lemma_mm_cluster_fold_all_skipped(
    m: Map<Seq<char>, Map<Seq<char>, MetricModel>>,
    cid: Seq<char>,
    es: Seq<(Seq<char>, MetricModel)>,
)
    requires
        !any_mergeable(es),
    ensures
        folded(mm_cluster_metric_step(cid), m, es) == m,
    decreases es.len(),
{
    if es.len() != 0 {
        assert(!any_mergeable(es.drop_last())) by {
            if any_mergeable(es.drop_last()) {
                let i = choose|i: int|
                    0 <= i < es.drop_last().len() && is_mergeable_model(es.drop_last()[i].1);
                assert(is_mergeable_model(es[i].1));
            }
        }
        lemma_mm_cluster_fold_all_skipped(m, cid, es.drop_last());
        assert(!is_mergeable_model(es.last().1)) by {
            assert(es[es.len() - 1] == es.last());
        }
    }
}

proof fn lemma_cluster_fold_as_map(
    cl: Seq<(Seq<char>, ClusterModel)>,
    cid: Seq<char>,
    es: Seq<(Seq<char>, MetricModel)>,
)
    requires
        cluster_maps_unique(cl),
    ensures
        cluster_maps_unique(folded(cluster_metric_step(cid), cl, es)),
        clusters_level_map(folded(cluster_metric_step(cid), cl, es)) == folded(
            mm_cluster_metric_step(cid),
            clusters_level_map(cl),
            es,
        ),
    decreases es.len(),
{
    if es.len() != 0 {
        lemma_cluster_fold_as_map(cl, cid, es.drop_last());
        let prev = folded(cluster_metric_step(cid), cl, es.drop_last());
        let l = es.last();
        if is_mergeable_model(l.1) {
            lemma_clusters_level_map_apply(prev, cid, l.0, l.1);
            lemma_clusters_level_map_contains(prev, cid);
            let a2 = apply_cluster_metric(prev, cid, l.0, l.1);
            assert(cluster_maps_unique(a2)) by {
                if has_key(prev, cid) {
                    assert(forall|i: int|
                        0 <= i < a2.len() ==> (#[trigger] a2[i]).0 == prev[i].0);
                    assert forall|i: int|
                        0 <= i < a2.len() implies unique_keys((#[trigger] a2[i]).1.cluster) by {
                        assert(unique_keys(prev[i].1.cluster));
                        if prev[i].0 == cid {
                            lemma_upsert_merged_keeps_unique(prev[i].1.cluster, l.0, l.1);
                        }
                    }
                } else {
                    let centry = ClusterModel {
                        cluster: Seq::<(Seq<char>, MetricModel)>::empty().push((l.0, l.1)),
                        backends: Seq::<BackendModel>::empty(),
                    };
                    assert(a2 == sorted_insert(prev, (cid, centry)));
                    lemma_sorted_insert_unique(prev, (cid, centry));
                    lemma_sorted_insert_props(prev, (cid, centry));
                    assert forall|i: int|
                        0 <= i < a2.len() implies unique_keys((#[trigger] a2[i]).1.cluster) by {
                        if a2[i] != (cid, centry) {
                            let j = choose|j: int| 0 <= j < prev.len() && prev[j] == a2[i];
                            assert(unique_keys(prev[j].1.cluster));
                        }
                    }
                }
            }
        }
    }
}

proof fn lemma_mm_cluster_fold_lookup(
    m: Map<Seq<char>, Map<Seq<char>, MetricModel>>,
    cid: Seq<char>,
    es: Seq<(Seq<char>, MetricModel)>,
    k: Seq<char>,
)
    ensures
        k != cid ==> {
            let r = folded(mm_cluster_metric_step(cid), m, es);
            (r.contains_key(k) <==> m.contains_key(k)) && (m.contains_key(k) ==> r[k] == m[k])
        },
        k == cid && any_mergeable(es) ==> {
            let r = folded(mm_cluster_metric_step(cid), m, es);
            r.contains_key(cid) && r[cid] == folded(
                map_metric_step(),
                cluster_metrics_of(m, cid),
                es,
            )
        },
    decreases es.len(),
{
    if es.len() != 0 {
        let es0 = es.drop_last();
        let l = es.last();
        lemma_mm_cluster_fold_lookup(m, cid, es0, k);
        let r0 = folded(mm_cluster_metric_step(cid), m, es0);
        if k == cid && any_mergeable(es) {
            if is_mergeable_model(l.1) {
                if any_mergeable(es0) {
                } else {
                    lemma_mm_cluster_fold_all_skipped(m, cid, es0);
                    lemma_map_fold_all_skipped(cluster_metrics_of(m, cid), es0);
                }
            } else {
                assert(any_mergeable(es0)) by {
                    let i = choose|i: int| 0 <= i < es.len() && is_mergeable_model(es[i].1);
                    assert(es[es.len() - 1] == l);
                    assert(i != es.len() - 1);
                    assert(es0[i] == es[i]);
                }
            }
        }
    }
}

/// The step that folds one cluster snapshot's cluster-level entries into
/// the cluster-id to cluster-level-metrics map.
pub open spec fn mm_worker_cluster_step() -> spec_fn(
    Map<Seq<char>, Map<Seq<char>, MetricModel>>,
    (Seq<char>, ClusterModel),
) -> Map<Seq<char>, Map<Seq<char>, MetricModel>> {
    |m: Map<Seq<char>, Map<Seq<char>, MetricModel>>, e: (Seq<char>, ClusterModel)|
        folded(mm_cluster_metric_step(e.0), m, e.1.cluster)
}

/// The cluster snapshot stored under `k` — well defined when `has_key`
/// holds and the keys are unique.
pub open spec fn cluster_value_at(
    wcs: Seq<(Seq<char>, ClusterModel)>,
    k: Seq<char>,
) -> ClusterModel {
    wcs[choose|i: int| 0 <= i < wcs.len() && wcs[i].0 == k].1
}

proof fn lemma_worker_clusters_fold_as_map(
    cl: Seq<(Seq<char>, ClusterModel)>,
    wcs: Seq<(Seq<char>, ClusterModel)>,
)
    requires
        cluster_maps_unique(cl),
        forall|i: int| 0 <= i < wcs.len() ==> (#[trigger] wcs[i]).1.backends.len() == 0,
    ensures
        cluster_maps_unique(folded(worker_cluster_step(), cl, wcs)),
        clusters_level_map(folded(worker_cluster_step(), cl, wcs)) == folded(
            mm_worker_cluster_step(),
            clusters_level_map(cl),
            wcs,
        ),
    decreases wcs.len(),
{
    if wcs.len() != 0 {
        let w0 = wcs.drop_last();
        let l = wcs.last();
        assert(forall|i: int| 0 <= i < w0.len() ==> w0[i] == wcs[i]);
        lemma_worker_clusters_fold_as_map(cl, w0);
        let prev = folded(worker_cluster_step(), cl, w0);
        lemma_cluster_fold_as_map(prev, l.0, l.1.cluster);
        let mid = folded(cluster_metric_step(l.0), prev, l.1.cluster);
        assert(l == wcs[wcs.len() - 1]);
        assert(l.1.backends.len() == 0);
        assert(folded(backend_step(l.0), mid, l.1.backends) == mid);
    }
}

proof fn lemma_mm_worker_fold_lookup(
    m: Map<Seq<char>, Map<Seq<char>, MetricModel>>,
    wcs: Seq<(Seq<char>, ClusterModel)>,
    k: Seq<char>,
)
    requires
        unique_keys(wcs),
    ensures
        !has_key(wcs, k) ==> {
            let r = folded(mm_worker_cluster_step(), m, wcs);
            (r.contains_key(k) <==> m.contains_key(k)) && (m.contains_key(k) ==> r[k] == m[k])
        },
        has_key(wcs, k) && any_mergeable(cluster_value_at(wcs, k).cluster) ==> {
            let r = folded(mm_worker_cluster_step(), m, wcs);
            r.contains_key(k) && r[k] == folded(
                map_metric_step(),
                cluster_metrics_of(m, k),
                cluster_value_at(wcs, k).cluster,
            )
        },
        has_key(wcs, k) && !any_mergeable(cluster_value_at(wcs, k).cluster) ==> {
            let r = folded(mm_worker_cluster_step(), m, wcs);
            (r.contains_key(k) <==> m.contains_key(k)) && (m.contains_key(k) ==> r[k] == m[k])
        },
    decreases wcs.len(),
{
    if wcs.len() != 0 {
        let w0 = wcs.drop_last();
        let l = wcs.last();
        assert(unique_keys(w0)) by {
            assert(forall|i: int| 0 <= i < w0.len() ==> w0[i] == wcs[i]);
        }
        lemma_mm_worker_fold_lookup(m, w0, k);
        let r0 = folded(mm_worker_cluster_step(), m, w0);
        lemma_mm_cluster_fold_lookup(r0, l.0, l.1.cluster, k);
        if l.0 == k {
            assert(!has_key(w0, k)) by {
                if has_key(w0, k) {
                    let i = choose|i: int| 0 <= i < w0.len() && w0[i].0 == k;
                    assert(wcs[i].0 == wcs[wcs.len() - 1].0);
                }
            }
            assert(has_key(wcs, k)) by {
                assert(wcs[wcs.len() - 1].0 == k);
            }
            assert(cluster_value_at(wcs, k) == l.1) by {
                let i = choose|i: int| 0 <= i < wcs.len() && wcs[i].0 == k;
                if i != wcs.len() - 1 {
                    assert(wcs[i].0 == wcs[wcs.len() - 1].0);
                }
            }
            assert(cluster_metrics_of(r0, k) == cluster_metrics_of(m, k));
            if !any_mergeable(l.1.cluster) {
                lemma_mm_cluster_fold_all_skipped(r0, l.0, l.1.cluster);
            }
        } else {
            if has_key(wcs, k) {
                let i = choose|i: int| 0 <= i < wcs.len() && wcs[i].0 == k;
                assert(i != wcs.len() - 1);
                assert(w0[i] == wcs[i]);
                assert(has_key(w0, k));
            }
            if has_key(w0, k) {
                let i = choose|i: int| 0 <= i < w0.len() && w0[i].0 == k;
                assert(wcs[i] == w0[i]);
                assert(has_key(wcs, k));
            }
            if has_key(wcs, k) {
                assert(cluster_value_at(wcs, k) == cluster_value_at(w0, k)) by {
                    let i = choose|i: int| 0 <= i < wcs.len() && wcs[i].0 == k;
                    let i0 = choose|i: int| 0 <= i < w0.len() && w0[i].0 == k;
                    assert(wcs[i0] == w0[i0]);
                    if i != i0 {
                        assert(wcs[i].0 == wcs[i0].0);
                    }
                }
            }
        }
    }
}

/// Whether two metric values are of the same kind.
pub open spec fn same_kind(a: MetricModel, b: MetricModel) -> bool {
    match (a, b) {
        (MetricModel::Gauge(_), MetricModel::Gauge(_)) => true,
        (MetricModel::Count(_), MetricModel::Count(_)) => true,
        (MetricModel::Histogram(_), MetricModel::Histogram(_)) => true,
        (MetricModel::Time(_), MetricModel::Time(_)) => true,
        (MetricModel::Percentiles(_), MetricModel::Percentiles(_)) => true,
        (MetricModel::TimeSerie(_), MetricModel::TimeSerie(_)) => true,
        _ => false,
    }
}

/// Merging two mergeable values of the same kind is commutative.
pub proof fn lemma_merged_value_commutes(a: MetricModel, b: MetricModel)
    requires
        same_kind(a, b),
        is_mergeable_model(a),
    ensures
        merged_value(a, b) == merged_value(b, a),
{
    match (a, b) {
        (MetricModel::Histogram(h1), MetricModel::Histogram(h2)) => {
            assert(merged_histogram(h1, h2).buckets =~= merged_histogram(h2, h1).buckets);
            assert(merged_histogram(h1, h2) == merged_histogram(h2, h1));
            assert(merged_value(a, b) == MetricModel::Histogram(merged_histogram(h1, h2)));
            assert(merged_value(b, a) == MetricModel::Histogram(merged_histogram(h2, h1)));
        },
        _ => {},
    }
}

/// Order independence, process-wide: folding two proxy maps in either
/// order yields the same name-to-value map, as long as a name mergeable
/// in both carries values of the same kind in both.
pub proof fn lemma_proxy_merge_order_independent(
    p1: Seq<(Seq<char>, MetricModel)>,
    p2: Seq<(Seq<char>, MetricModel)>,
)
    requires
        unique_keys(p1),
        unique_keys(p2),
        forall|i: int, j: int|
            0 <= i < p1.len() && 0 <= j < p2.len() && (#[trigger] p1[i]).0 == (#[trigger] p2[j]).0
                && is_mergeable_model(p1[i].1) && is_mergeable_model(p2[j].1) ==> same_kind(
                p1[i].1,
                p2[j].1,
            ),
    ensures
        entries_map(
            folded(
                metric_step(),
                folded(metric_step(), Seq::<(Seq<char>, MetricModel)>::empty(), p1),
                p2,
            ),
        ) == entries_map(
            folded(
                metric_step(),
                folded(metric_step(), Seq::<(Seq<char>, MetricModel)>::empty(), p2),
                p1,
            ),
        ),
{
    let ep = Seq::<(Seq<char>, MetricModel)>::empty();
    let em = Map::<Seq<char>, MetricModel>::empty();
    assert(unique_keys(ep));
    assert(entries_map(ep) == em);
    lemma_fold_as_map(ep, p1);
    lemma_fold_as_map(ep, p2);
    lemma_fold_keeps_unique(ep, p1);
    lemma_fold_keeps_unique(ep, p2);
    lemma_fold_as_map(folded(metric_step(), ep, p1), p2);
    lemma_fold_as_map(folded(metric_step(), ep, p2), p1);
    lemma_map_fold_order_independent(em, p1, p2);
}

/// Order independence at the map level: folding two entry sequences into
/// the same starting map in either order yields the same map, as long as
/// a name mergeable in both carries values of the same kind in both, and
/// the starting map holds none of those shared names.
proof fn lemma_map_fold_order_independent(
    m0: Map<Seq<char>, MetricModel>,
    p1: Seq<(Seq<char>, MetricModel)>,
    p2: Seq<(Seq<char>, MetricModel)>,
)
    requires
        unique_keys(p1),
        unique_keys(p2),
        forall|i: int, j: int|
            0 <= i < p1.len() && 0 <= j < p2.len() && (#[trigger] p1[i]).0 == (#[trigger] p2[j]).0
                && is_mergeable_model(p1[i].1) && is_mergeable_model(p2[j].1) ==> same_kind(
                p1[i].1,
                p2[j].1,
            ),
        forall|i: int, j: int|
            0 <= i < p1.len() && 0 <= j < p2.len() && (#[trigger] p1[i]).0 == (#[trigger] p2[j]).0
                && is_mergeable_model(p1[i].1) && is_mergeable_model(p2[j].1)
                ==> !m0.contains_key(p1[i].0),
    ensures
        folded(map_metric_step(), folded(map_metric_step(), m0, p1), p2) == folded(
            map_metric_step(),
            folded(map_metric_step(), m0, p2),
            p1,
        ),
{
    let m12 = folded(map_metric_step(), folded(map_metric_step(), m0, p1), p2);
    let m21 = folded(map_metric_step(), folded(map_metric_step(), m0, p2), p1);
    assert(m12 =~= m21) by {
        assert forall|k: Seq<char>|
            #![trigger m12.contains_key(k), m21.contains_key(k)]
            true implies (m12.contains_key(k) <==> m21.contains_key(k)) && (m12.contains_key(k)
            ==> m12[k] == m21[k]) by {
            lemma_map_fold_lookup(m0, p1, k);
            lemma_map_fold_lookup(m0, p2, k);
            lemma_map_fold_lookup(folded(map_metric_step(), m0, p1), p2, k);
            lemma_map_fold_lookup(folded(map_metric_step(), m0, p2), p1, k);
            if mergeable_entry_at(p1, k) && mergeable_entry_at(p2, k) {
                let v1 = mergeable_value_at(p1, k);
                let v2 = mergeable_value_at(p2, k);
                assert(same_kind(v1, v2) && !m0.contains_key(k)) by {
                    let i = choose|i: int|
                        0 <= i < p1.len() && p1[i].0 == k && is_mergeable_model(p1[i].1);
                    let j = choose|j: int|
                        0 <= j < p2.len() && p2[j].0 == k && is_mergeable_model(p2[j].1);
                    assert(p1[i].0 == p2[j].0);
                }
                lemma_merged_value_commutes(v1, v2);
            }
        }
    }
}

/// Order independence at the worker level: two worker reports folded into
/// an empty process-wide output in either order denote the same
/// name-to-value map, under the same kind condition on their proxy maps.
pub proof fn lemma_worker_order_independent_proxying(
    e1: (Seq<char>, WorkerModel),
    e2: (Seq<char>, WorkerModel),
)
    requires
        unique_keys(e1.1.proxy),
        unique_keys(e2.1.proxy),
        forall|i: int, j: int|
            0 <= i < e1.1.proxy.len() && 0 <= j < e2.1.proxy.len() && (#[trigger] e1.1.proxy[i]).0
                == (#[trigger] e2.1.proxy[j]).0 && is_mergeable_model(e1.1.proxy[i].1)
                && is_mergeable_model(e2.1.proxy[j].1) ==> same_kind(
                e1.1.proxy[i].1,
                e2.1.proxy[j].1,
            ),
    ensures
        entries_map(
            folded(worker_proxy_step(), Seq::<(Seq<char>, MetricModel)>::empty(), seq![e1, e2]),
        ) == entries_map(
            folded(worker_proxy_step(), Seq::<(Seq<char>, MetricModel)>::empty(), seq![e2, e1]),
        ),
{
    let ep = Seq::<(Seq<char>, MetricModel)>::empty();
    let ewm = Seq::<(Seq<char>, WorkerModel)>::empty();
    let wps = worker_proxy_step();
    assert(folded(wps, ep, ewm) == ep);
    assert(folded(wps, ep, seq![e1]) == wps(ep, e1)) by {
        assert(seq![e1].drop_last() =~= ewm);
        assert(seq![e1].last() == e1);
    }
    assert(folded(wps, ep, seq![e2]) == wps(ep, e2)) by {
        assert(seq![e2].drop_last() =~= ewm);
        assert(seq![e2].last() == e2);
    }
    assert(folded(wps, ep, seq![e1, e2]) == wps(wps(ep, e1), e2)) by {
        assert(seq![e1, e2].drop_last() =~= seq![e1]);
        assert(seq![e1, e2].last() == e2);
    }
    assert(folded(wps, ep, seq![e2, e1]) == wps(wps(ep, e2), e1)) by {
        assert(seq![e2, e1].drop_last() =~= seq![e2]);
        assert(seq![e2, e1].last() == e1);
    }
    assert(wps(ep, e1) == folded(metric_step(), ep, e1.1.proxy));
    assert(wps(ep, e2) == folded(metric_step(), ep, e2.1.proxy));
    assert(wps(wps(ep, e1), e2) == folded(
        metric_step(),
        folded(metric_step(), ep, e1.1.proxy),
        e2.1.proxy,
    ));
    assert(wps(wps(ep, e2), e1) == folded(
        metric_step(),
        folded(metric_step(), ep, e2.1.proxy),
        e1.1.proxy,
    ));
    lemma_proxy_merge_order_independent(e1.1.proxy, e2.1.proxy);
}

/// Merge-inserting keeps the keys sorted and unique.
proof fn lemma_fold_keeps_sorted(
    acc: Seq<(Seq<char>, MetricModel)>,
    es: Seq<(Seq<char>, MetricModel)>,
)
    requires
        sorted_keys(acc),
        unique_keys(acc),
    ensures
        sorted_keys(folded(metric_step(), acc, es)),
        unique_keys(folded(metric_step(), acc, es)),
{
    let inv = |p: Seq<(Seq<char>, MetricModel)>| sorted_keys(p) && unique_keys(p);
    let mstep = metric_step();
    assert forall|a: Seq<(Seq<char>, MetricModel)>, e: (Seq<char>, MetricModel)|
        inv(a) implies #[trigger] inv(mstep(a, e)) by {
        if is_mergeable_model(e.1) {
            let a2 = upsert_merged(a, e.0, e.1);
            if has_key(a, e.0) {
                assert(forall|i: int| 0 <= i < a2.len() ==> (#[trigger] a2[i]).0 == a[i].0);
            } else {
                lemma_sorted_insert_sorted(a, (e.0, e.1));
                lemma_sorted_insert_unique(a, (e.0, e.1));
            }
        }
    }
    lemma_folded_preserves(mstep, inv, acc, es);
}

/// A sorted, unique-keyed association sequence is the canonical form of
/// the map it denotes: two of them with the same entries are the same
/// sequence — enumeration is deterministic.
pub proof fn lemma_sorted_map_canonical(
    s1: Seq<(Seq<char>, MetricModel)>,
    s2: Seq<(Seq<char>, MetricModel)>,
)
    requires
        sorted_keys(s1),
        unique_keys(s1),
        sorted_keys(s2),
        unique_keys(s2),
        entries_map(s1) == entries_map(s2),
    ensures
        s1 == s2,
    decreases s1.len(),
{
    if s1.len() == 0 && s2.len() == 0 {
        assert(s1 =~= s2);
    } else if s1.len() == 0 {
        let k2 = s2.last().0;
        lemma_entries_map_contains(s1, k2);
        lemma_entries_map_contains(s2, k2);
        assert(has_key(s2, k2)) by {
            assert(s2[s2.len() - 1].0 == k2);
        }
        assert(false);
    } else if s2.len() == 0 {
        let k1 = s1.last().0;
        lemma_entries_map_contains(s1, k1);
        lemma_entries_map_contains(s2, k1);
        assert(has_key(s1, k1)) by {
            assert(s1[s1.len() - 1].0 == k1);
        }
        assert(false);
    } else {
        let k1 = s1.last().0;
        let k2 = s2.last().0;
        lemma_entries_map_contains(s1, k1);
        lemma_entries_map_contains(s2, k1);
        lemma_entries_map_contains(s1, k2);
        lemma_entries_map_contains(s2, k2);
        assert(has_key(s1, k1)) by {
            assert(s1[s1.len() - 1].0 == k1);
        }
        assert(has_key(s2, k2)) by {
            assert(s2[s2.len() - 1].0 == k2);
        }
        assert(k1 == k2) by {
            if k1 != k2 {
                let i = choose|i: int| 0 <= i < s2.len() && s2[i].0 == k1;
                assert(i != s2.len() - 1);
                assert(lex_lt(s2[i].0, s2[s2.len() - 1].0));
                let j = choose|j: int| 0 <= j < s1.len() && s1[j].0 == k2;
                assert(j != s1.len() - 1);
                assert(lex_lt(s1[j].0, s1[s1.len() - 1].0));
                lemma_lex_lt_asym(k1, k2);
            }
        }
        assert(entries_map(s1)[k1] == s1.last().1);
        assert(entries_map(s2)[k1] == s2.last().1);
        assert(s1.last() == s2.last());
        let s10 = s1.drop_last();
        let s20 = s2.drop_last();
        assert(forall|i: int| 0 <= i < s10.len() ==> s10[i] == s1[i]);
        assert(forall|i: int| 0 <= i < s20.len() ==> s20[i] == s2[i]);
        assert(!has_key(s10, k1)) by {
            if has_key(s10, k1) {
                let i = choose|i: int| 0 <= i < s10.len() && s10[i].0 == k1;
                assert(s1[i].0 == s1[s1.len() - 1].0);
            }
        }
        assert(!has_key(s20, k1)) by {
            if has_key(s20, k1) {
                let i = choose|i: int| 0 <= i < s20.len() && s20[i].0 == k1;
                assert(s2[i].0 == s2[s2.len() - 1].0);
            }
        }
        lemma_entries_map_contains(s10, k1);
        lemma_entries_map_contains(s20, k1);
        assert(entries_map(s10) =~= entries_map(s1).remove(k1));
        assert(entries_map(s20) =~= entries_map(s2).remove(k1));
        lemma_sorted_map_canonical(s10, s20);
        assert(s1 =~= s2);
    }
}

/// Order independence, process-wide, in the spec's own words: with the
/// outputs kept as sorted maps, folding two worker reports into an empty
/// process-wide output in either order yields the very same map — equal
/// as a sequence, enumeration included — under the same kind condition.
pub proof fn lemma_worker_order_yields_identical_proxying(
    e1: (Seq<char>, WorkerModel),
    e2: (Seq<char>, WorkerModel),
)
    requires
        unique_keys(e1.1.proxy),
        unique_keys(e2.1.proxy),
        forall|i: int, j: int|
            0 <= i < e1.1.proxy.len() && 0 <= j < e2.1.proxy.len() && (#[trigger] e1.1.proxy[i]).0
                == (#[trigger] e2.1.proxy[j]).0 && is_mergeable_model(e1.1.proxy[i].1)
                && is_mergeable_model(e2.1.proxy[j].1) ==> same_kind(
                e1.1.proxy[i].1,
                e2.1.proxy[j].1,
            ),
    ensures
        folded(worker_proxy_step(), Seq::<(Seq<char>, MetricModel)>::empty(), seq![e1, e2])
            == folded(worker_proxy_step(), Seq::<(Seq<char>, MetricModel)>::empty(), seq![e2, e1]),
{
    lemma_worker_order_independent_proxying(e1, e2);
    let ep = Seq::<(Seq<char>, MetricModel)>::empty();
    let ewm = Seq::<(Seq<char>, WorkerModel)>::empty();
    let wps = worker_proxy_step();
    assert(folded(wps, ep, ewm) == ep);
    assert(folded(wps, ep, seq![e1]) == wps(ep, e1)) by {
        assert(seq![e1].drop_last() =~= ewm);
        assert(seq![e1].last() == e1);
    }
    assert(folded(wps, ep, seq![e2]) == wps(ep, e2)) by {
        assert(seq![e2].drop_last() =~= ewm);
        assert(seq![e2].last() == e2);
    }
    assert(folded(wps, ep, seq![e1, e2]) == wps(wps(ep, e1), e2)) by {
        assert(seq![e1, e2].drop_last() =~= seq![e1]);
        assert(seq![e1, e2].last() == e2);
    }
    assert(folded(wps, ep, seq![e2, e1]) == wps(wps(ep, e2), e1)) by {
        assert(seq![e2, e1].drop_last() =~= seq![e2]);
        assert(seq![e2, e1].last() == e1);
    }
    let l12 = folded(metric_step(), folded(metric_step(), ep, e1.1.proxy), e2.1.proxy);
    let l21 = folded(metric_step(), folded(metric_step(), ep, e2.1.proxy), e1.1.proxy);
    assert(wps(wps(ep, e1), e2) == l12);
    assert(wps(wps(ep, e2), e1) == l21);
    lemma_fold_keeps_sorted(ep, e1.1.proxy);
    lemma_fold_keeps_sorted(ep, e2.1.proxy);
    lemma_fold_keeps_sorted(folded(metric_step(), ep, e1.1.proxy), e2.1.proxy);
    lemma_fold_keeps_sorted(folded(metric_step(), ep, e2.1.proxy), e1.1.proxy);
    lemma_sorted_map_canonical(l12, l21);
}

/// Order independence at the worker level, cluster side: for two worker
/// reports whose cluster snapshots carry no backends, folding them into
/// an empty output in either order denotes the same cluster-id to
/// cluster-level-metrics map, as long as a metric name mergeable in both
/// reports under the same cluster id carries values of the same kind in
/// both.
pub proof fn lemma_worker_order_independent_cluster_metrics(
    e1: (Seq<char>, WorkerModel),
    e2: (Seq<char>, WorkerModel),
)
    requires
        cluster_maps_unique(e1.1.clusters),
        cluster_maps_unique(e2.1.clusters),
        forall|i: int| 0 <= i < e1.1.clusters.len() ==> (#[trigger] e1.1.clusters[i]).1.backends.len() == 0,
        forall|i: int| 0 <= i < e2.1.clusters.len() ==> (#[trigger] e2.1.clusters[i]).1.backends.len() == 0,
        forall|i: int, j: int, a: int, b: int|
            0 <= i < e1.1.clusters.len() && 0 <= j < e2.1.clusters.len() && e1.1.clusters[i].0
                == e2.1.clusters[j].0 && 0 <= a < e1.1.clusters[i].1.cluster.len() && 0 <= b
                < e2.1.clusters[j].1.cluster.len() && (#[trigger] e1.1.clusters[i].1.cluster[a]).0
                == (#[trigger] e2.1.clusters[j].1.cluster[b]).0 && is_mergeable_model(
                e1.1.clusters[i].1.cluster[a].1,
            ) && is_mergeable_model(e2.1.clusters[j].1.cluster[b].1) ==> same_kind(
                e1.1.clusters[i].1.cluster[a].1,
                e2.1.clusters[j].1.cluster[b].1,
            ),
    ensures
        clusters_level_map(
            folded(
                worker_clusters_step(),
                Seq::<(Seq<char>, ClusterModel)>::empty(),
                seq![e1, e2],
            ),
        ) == clusters_level_map(
            folded(
                worker_clusters_step(),
                Seq::<(Seq<char>, ClusterModel)>::empty(),
                seq![e2, e1],
            ),
        ),
{
    let ec = Seq::<(Seq<char>, ClusterModel)>::empty();
    let ewm = Seq::<(Seq<char>, WorkerModel)>::empty();
    let wcs = worker_clusters_step();
    assert(folded(wcs, ec, ewm) == ec);
    assert(folded(wcs, ec, seq![e1]) == wcs(ec, e1)) by {
        assert(seq![e1].drop_last() =~= ewm);
        assert(seq![e1].last() == e1);
    }
    assert(folded(wcs, ec, seq![e2]) == wcs(ec, e2)) by {
        assert(seq![e2].drop_last() =~= ewm);
        assert(seq![e2].last() == e2);
    }
    assert(folded(wcs, ec, seq![e1, e2]) == wcs(wcs(ec, e1), e2)) by {
        assert(seq![e1, e2].drop_last() =~= seq![e1]);
        assert(seq![e1, e2].last() == e2);
    }
    assert(folded(wcs, ec, seq![e2, e1]) == wcs(wcs(ec, e2), e1)) by {
        assert(seq![e2, e1].drop_last() =~= seq![e2]);
        assert(seq![e2, e1].last() == e1);
    }
    let s1 = folded(worker_cluster_step(), ec, e1.1.clusters);
    let s2 = folded(worker_cluster_step(), ec, e2.1.clusters);
    assert(wcs(ec, e1) == s1);
    assert(wcs(ec, e2) == s2);
    assert(wcs(s1, e2) == folded(worker_cluster_step(), s1, e2.1.clusters));
    assert(wcs(s2, e1) == folded(worker_cluster_step(), s2, e1.1.clusters));
    let m0 = Map::<Seq<char>, Map<Seq<char>, MetricModel>>::empty();
    assert(cluster_maps_unique(ec));
    assert(clusters_level_map(ec) == m0);
    lemma_worker_clusters_fold_as_map(ec, e1.1.clusters);
    lemma_worker_clusters_fold_as_map(ec, e2.1.clusters);
    lemma_worker_clusters_fold_as_map(s1, e2.1.clusters);
    lemma_worker_clusters_fold_as_map(s2, e1.1.clusters);
    let e1c = e1.1.clusters;
    let e2c = e2.1.clusters;
    let n1 = folded(mm_worker_cluster_step(), m0, e1c);
    let n2 = folded(mm_worker_cluster_step(), m0, e2c);
    let l12 = folded(mm_worker_cluster_step(), n1, e2c);
    let l21 = folded(mm_worker_cluster_step(), n2, e1c);
    assert(l12 =~= l21) by {
        assert forall|k: Seq<char>|
            #![trigger l12.contains_key(k), l21.contains_key(k)]
            true implies (l12.contains_key(k) <==> l21.contains_key(k)) && (l12.contains_key(k)
            ==> l12[k] == l21[k]) by {
            lemma_mm_worker_fold_lookup(m0, e1c, k);
            lemma_mm_worker_fold_lookup(m0, e2c, k);
            lemma_mm_worker_fold_lookup(n1, e2c, k);
            lemma_mm_worker_fold_lookup(n2, e1c, k);
            if has_key(e1c, k) && has_key(e2c, k) {
                let cv1 = cluster_value_at(e1c, k);
                let cv2 = cluster_value_at(e2c, k);
                let i1 = choose|i: int| 0 <= i < e1c.len() && e1c[i].0 == k;
                let i2 = choose|i: int| 0 <= i < e2c.len() && e2c[i].0 == k;
                assert(unique_keys(cv1.cluster)) by {
                    assert(e1c[i1].1 == cv1);
                }
                assert(unique_keys(cv2.cluster)) by {
                    assert(e2c[i2].1 == cv2);
                }
                if any_mergeable(cv1.cluster) && any_mergeable(cv2.cluster) {
                    assert forall|a: int, b: int|
                        0 <= a < cv1.cluster.len() && 0 <= b < cv2.cluster.len() && (
                        #[trigger] cv1.cluster[a]).0 == (#[trigger] cv2.cluster[b]).0
                        && is_mergeable_model(cv1.cluster[a].1) && is_mergeable_model(
                        cv2.cluster[b].1,
                    ) implies same_kind(cv1.cluster[a].1, cv2.cluster[b].1) by {
                        assert(e1c[i1].0 == e2c[i2].0);
                        assert(e1c[i1].1.cluster[a] == cv1.cluster[a]);
                        assert(e2c[i2].1.cluster[b] == cv2.cluster[b]);
                    }
                    lemma_map_fold_order_independent(
                        Map::<Seq<char>, MetricModel>::empty(),
                        cv1.cluster,
                        cv2.cluster,
                    );
                }
            }
        }
    }
}

} // verus!
