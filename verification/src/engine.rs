//! The aggregation engine: the collected per-worker reports are drained and
//! folded, metric by metric, into the two output maps — process-wide
//! `proxying` metrics and per-cluster metrics with their backends.

use vstd::prelude::*;
use crate::metrics::FilteredMetrics;
use crate::metrics::MetricModel;
use crate::metrics::is_mergeable_model;
use crate::maps::MetricsMap;
use crate::order::unique_keys;
use crate::order::has_key;
use crate::order::sorted_keys;
use crate::order::sorted_insert;
use crate::order::lex_lt;
use crate::order::str_lex_lt;
use crate::order::lemma_sorted_scan_insert;
use crate::maps::upsert_merged;
use crate::maps::upsert_fits;
use crate::snapshots::BackendModel;
use crate::snapshots::ClusterModel;
use crate::snapshots::WorkerModel;
use crate::snapshots::BackendMetrics;
use crate::snapshots::ClusterMetrics;
use crate::snapshots::ClusterMap;
use crate::snapshots::WorkerMap;
use crate::snapshots::backends_view;
use crate::snapshots::has_backend;
use crate::snapshots::backend_wf;
use crate::snapshots::cluster_wf;
use crate::snapshots::clusters_wf;

verus! {

/// What folding one cluster-level metric into the output cluster map
/// yields: an existing cluster absorbs the value into its cluster-level
/// metrics; a missing cluster id creates a cluster entry holding that one
/// metric and no backends yet.
pub open spec fn apply_cluster_metric(
    cl: Seq<(Seq<char>, ClusterModel)>,
    cid: Seq<char>,
    name: Seq<char>,
    v: MetricModel,
) -> Seq<(Seq<char>, ClusterModel)> {
    if has_key(cl, cid) {
        cl.map(
            |i: int, e: (Seq<char>, ClusterModel)|
                if e.0 == cid {
                    (e.0, ClusterModel {
                        cluster: upsert_merged(e.1.cluster, name, v),
                        backends: e.1.backends,
                    })
                } else {
                    e
                },
        )
    } else {
        sorted_insert(
            cl,
            (cid, ClusterModel {
                cluster: Seq::<(Seq<char>, MetricModel)>::empty().push((name, v)),
                backends: Seq::<BackendModel>::empty(),
            }),
        )
    }
}

/// Machine-width bound under which one cluster-level metric can be folded
/// in without overflow.
pub open spec fn cluster_metric_fits(
    cl: Seq<(Seq<char>, ClusterModel)>,
    cid: Seq<char>,
    name: Seq<char>,
    v: MetricModel,
) -> bool {
    forall|i: int|
        0 <= i < cl.len() && (#[trigger] cl[i]).0 == cid ==> upsert_fits(cl[i].1.cluster, name, v)
}

/// One backend snapshot after absorbing one metric value.
pub open spec fn backend_with_metric(
    b: BackendModel,
    name: Seq<char>,
    v: MetricModel,
) -> BackendModel {
    BackendModel { backend_id: b.backend_id, metrics: upsert_merged(b.metrics, name, v) }
}

/// One output cluster after folding in one metric of backend `b`: a backend
/// already known under the same id absorbs the value; otherwise the whole
/// incoming backend snapshot is appended, carrying every metric it already
/// holds.
pub open spec fn cluster_with_backend_metric(
    c: ClusterModel,
    b: BackendModel,
    name: Seq<char>,
    v: MetricModel,
) -> ClusterModel {
    if has_backend(c.backends, b.backend_id) {
        ClusterModel {
            cluster: c.cluster,
            backends: c.backends.map(
                |j: int, bb: BackendModel|
                    if bb.backend_id == b.backend_id {
                        backend_with_metric(bb, name, v)
                    } else {
                        bb
                    },
            ),
        }
    } else {
        ClusterModel { cluster: c.cluster, backends: c.backends.push(b) }
    }
}

/// What folding one metric of backend `b` into the output cluster map
/// yields: a missing cluster id creates a cluster entry with no
/// cluster-level metrics and that one backend snapshot.
pub open spec fn apply_backend_metric(
    cl: Seq<(Seq<char>, ClusterModel)>,
    cid: Seq<char>,
    b: BackendModel,
    name: Seq<char>,
    v: MetricModel,
) -> Seq<(Seq<char>, ClusterModel)> {
    if has_key(cl, cid) {
        cl.map(
            |i: int, e: (Seq<char>, ClusterModel)|
                if e.0 == cid {
                    (e.0, cluster_with_backend_metric(e.1, b, name, v))
                } else {
                    e
                },
        )
    } else {
        sorted_insert(
            cl,
            (cid, ClusterModel {
                cluster: Seq::<(Seq<char>, MetricModel)>::empty(),
                backends: Seq::<BackendModel>::empty().push(b),
            }),
        )
    }
}

/// Machine-width bound under which one backend metric can be folded in
/// without overflow.
pub open spec fn backend_metric_fits(
    cl: Seq<(Seq<char>, ClusterModel)>,
    cid: Seq<char>,
    bid: Seq<char>,
    name: Seq<char>,
    v: MetricModel,
) -> bool {
    forall|i: int, j: int|
        0 <= i < cl.len() && (#[trigger] cl[i]).0 == cid && 0 <= j < cl[i].1.backends.len() && (
        #[trigger] cl[i].1.backends[j]).backend_id == bid ==> upsert_fits(
            cl[i].1.backends[j].metrics,
            name,
            v,
        )
}

/// Finds the position of the backend carrying `id`, if any.
fn find_backend(backends: &Vec<BackendMetrics>, id: &String) -> (r: Option<usize>)
    ensures
        match r {
            Some(j) => 0 <= j < backends@.len() && backends_view(backends@)[j as int].backend_id
                == id@,
            None => !has_backend(backends_view(backends@), id@),
        },
{
    let mut i: usize = 0;
    while i < backends.len()
        invariant
            i <= backends.len(),
            forall|j: int|
                0 <= j < i ==> (#[trigger] backends_view(backends@)[j]).backend_id != id@,
        decreases backends.len() - i,
    {
        if backends[i].backend_id == *id {
            proof {
                assert(backends_view(backends@)[i as int].backend_id == id@);
            }
            return Some(i);
        }
        i = i + 1;
    }
    None
}

impl ClusterMap {
    /// Folds one mergeable cluster-level metric of cluster `cluster_id`
    /// into the output map.
    pub fn merge_cluster_metric(&mut self, cluster_id: &String, name: String, value: FilteredMetrics)
        requires
            clusters_wf(old(self)@),
            cluster_metric_fits(old(self)@, cluster_id@, name@, value@),
        ensures
            final(self)@ == apply_cluster_metric(old(self)@, cluster_id@, name@, value@),
            clusters_wf(final(self)@),
    {
        let ghost s = self@;
        let ghost es = self.entries@;
        let mut i: usize = 0;
        while i < self.entries.len()
            invariant
                old(self)@ == s,
                self@ == s,
                self.entries@ == es,
                i <= self.entries.len(),
                clusters_wf(s),
                cluster_metric_fits(s, cluster_id@, name@, value@),
                forall|j: int| 0 <= j < i ==> lex_lt((#[trigger] s[j]).0, cluster_id@),
            decreases self.entries.len() - i,
        {
            if self.entries[i].0 == *cluster_id {
                proof {
                    assert(s[i as int].0 == cluster_id@);
                    assert(has_key(s, cluster_id@));
                    assert(cluster_wf(s[i as int].1));
                    assert(upsert_fits(s[i as int].1.cluster, name@, value@));
                }
                let kv = self.entries.remove(i);
                let k0 = kv.0;
                let mut cm = kv.1;
                cm.cluster.merge_in(name, value);
                self.entries.insert(i, (k0, cm));
                proof {
                    assert forall|j: int| 0 <= j < s.len() && j != i implies (#[trigger] s[j]).0
                        != cluster_id@ by {
                        if j < i {
                            assert(s[j].0 != s[i as int].0);
                        } else {
                            assert(s[i as int].0 != s[j].0);
                        }
                    }
                    assert(self.entries@ =~= es.update(i as int, (k0, cm)));
                    assert(self@ =~= apply_cluster_metric(s, cluster_id@, name@, value@));
                    assert(forall|x: int|
                        0 <= x < self@.len() ==> (#[trigger] self@[x]).0 == s[x].0);
                    assert(clusters_wf(self@));
                }
                return;
            }
            if !str_lex_lt(self.entries[i].0.as_str(), cluster_id.as_str()) {
                self.insert_fresh_cluster_metric(cluster_id, name, value, i);
                return;
            }
            i = i + 1;
        }
        let at = self.entries.len();
        self.insert_fresh_cluster_metric(cluster_id, name, value, at);
    }

    /// Creates the cluster entry for `cluster_id` at position `at` — its
    /// sorted position — holding the one metric and no backends yet.
    fn insert_fresh_cluster_metric(
        &mut self,
        cluster_id: &String,
        name: String,
        value: FilteredMetrics,
        at: usize,
    )
        requires
            clusters_wf(old(self)@),
            at <= old(self)@.len(),
            forall|j: int| 0 <= j < at ==> lex_lt((#[trigger] old(self)@[j]).0, cluster_id@),
            at < old(self)@.len() ==> !lex_lt(old(self)@[at as int].0, cluster_id@)
                && old(self)@[at as int].0 != cluster_id@,
        ensures
            final(self)@ == apply_cluster_metric(old(self)@, cluster_id@, name@, value@),
            clusters_wf(final(self)@),
    {
        let ghost s = self@;
        let ghost es = self.entries@;
        let mut m = MetricsMap::new();
        m.insert(name, value);
        let fresh = ClusterMetrics { cluster: m, backends: Vec::new() };
        proof {
            assert(fresh@.cluster =~= Seq::<(Seq<char>, MetricModel)>::empty().push(
                (name@, value@),
            ));
            assert(fresh@.backends =~= Seq::<BackendModel>::empty());
            lemma_sorted_scan_insert(s, (cluster_id@, fresh@), at as int);
            assert(!has_key(s, cluster_id@));
        }
        let key = cluster_id.clone();
        self.entries.insert(at, (key, fresh));
        proof {
            assert(self@ =~= s.insert(at as int, (cluster_id@, fresh@))) by {
                es.insert_ensures(at as int, (key, fresh));
                s.insert_ensures(at as int, (cluster_id@, fresh@));
            }
            assert(self@ == apply_cluster_metric(s, cluster_id@, name@, value@));
            assert forall|x: int| 0 <= x < self@.len() implies cluster_wf(
                (#[trigger] self@[x]).1,
            ) by {
                s.insert_ensures(at as int, (cluster_id@, fresh@));
                if x < at {
                    assert(self@[x] == s[x]);
                    assert(cluster_wf(s[x].1));
                } else if x == at {
                    assert(self@[x].1 == fresh@);
                } else {
                    assert(self@[x] == s[x - 1]);
                    assert(cluster_wf(s[x - 1].1));
                }
            }
            assert(clusters_wf(self@));
        }
    }

    /// Folds one mergeable metric of backend `backend` (reported under
    /// cluster `cluster_id`) into the output map.
    pub fn merge_backend_metric(
        &mut self,
        cluster_id: &String,
        backend: &BackendMetrics,
        name: String,
        value: FilteredMetrics,
    )
        requires
            clusters_wf(old(self)@),
            backend_wf(backend@),
            backend_metric_fits(old(self)@, cluster_id@, backend@.backend_id, name@, value@),
        ensures
            final(self)@ == apply_backend_metric(old(self)@, cluster_id@, backend@, name@, value@),
            clusters_wf(final(self)@),
    {
        let ghost s = self@;
        let ghost es = self.entries@;
        let mut i: usize = 0;
        while i < self.entries.len()
            invariant
                old(self)@ == s,
                self@ == s,
                self.entries@ == es,
                i <= self.entries.len(),
                clusters_wf(s),
                backend_wf(backend@),
                backend_metric_fits(s, cluster_id@, backend@.backend_id, name@, value@),
                forall|j: int| 0 <= j < i ==> lex_lt((#[trigger] s[j]).0, cluster_id@),
            decreases self.entries.len() - i,
        {
            if self.entries[i].0 == *cluster_id {
                proof {
                    assert(s[i as int].0 == cluster_id@);
                    assert(has_key(s, cluster_id@));
                    assert(cluster_wf(s[i as int].1));
                    assert forall|j: int| 0 <= j < s.len() && j != i implies (#[trigger] s[j]).0
                        != cluster_id@ by {
                        if j < i {
                            assert(s[j].0 != s[i as int].0);
                        } else {
                            assert(s[i as int].0 != s[j].0);
                        }
                    }
                }
                let kv = self.entries.remove(i);
                let k0 = kv.0;
                let mut cm = kv.1;
                let ghost c = s[i as int].1;
                match find_backend(&cm.backends, &backend.backend_id) {
                    Some(j) => {
                        proof {
                            assert(c.backends[j as int].backend_id == backend@.backend_id);
                            assert(has_backend(c.backends, backend@.backend_id));
                            assert(backend_wf(c.backends[j as int]));
                            assert(upsert_fits(c.backends[j as int].metrics, name@, value@));
                            assert forall|j2: int|
                                0 <= j2 < c.backends.len() && j2 != j implies (#[trigger] c
                                .backends[j2]).backend_id != backend@.backend_id by {
                                let jj = j as int;
                                if j2 < j {
                                    assert(c.backends[j2].backend_id != c.backends[jj].backend_id);
                                } else {
                                    assert(c.backends[jj].backend_id != c.backends[j2].backend_id);
                                }
                            }
                        }
                        let ghost bs = cm.backends@;
                        let mut be = cm.backends.remove(j);
                        be.metrics.merge_in(name, value);
                        cm.backends.insert(j, be);
                        proof {
                            assert(cm.backends@ =~= bs.update(j as int, be));
                            assert(backends_view(cm.backends@) =~= c.backends.map(
                                |j2: int, bb: BackendModel|
                                    if bb.backend_id == backend@.backend_id {
                                        backend_with_metric(bb, name@, value@)
                                    } else {
                                        bb
                                    },
                            ));
                            assert(cm@ == cluster_with_backend_metric(c, backend@, name@, value@));
                        }
                        self.entries.insert(i, (k0, cm));
                        proof {
                            assert(self.entries@ =~= es.update(i as int, (k0, cm)));
                            assert(self@ =~= apply_backend_metric(
                                s,
                                cluster_id@,
                                backend@,
                                name@,
                                value@,
                            ));
                            assert(forall|x: int|
                                0 <= x < self@.len() ==> (#[trigger] self@[x]).0 == s[x].0);
                            assert(clusters_wf(self@));
                        }
                    },
                    None => {
                        cm.backends.push(backend.clone());
                        proof {
                            assert(backends_view(cm.backends@) =~= c.backends.push(backend@));
                            assert(cm@ == cluster_with_backend_metric(c, backend@, name@, value@));
                        }
                        self.entries.insert(i, (k0, cm));
                        proof {
                            assert(self.entries@ =~= es.update(i as int, (k0, cm)));
                            assert(self@ =~= apply_backend_metric(
                                s,
                                cluster_id@,
                                backend@,
                                name@,
                                value@,
                            ));
                            assert(forall|x: int|
                                0 <= x < self@.len() ==> (#[trigger] self@[x]).0 == s[x].0);
                            assert(clusters_wf(self@));
                        }
                    },
                }
                return;
            }
            if !str_lex_lt(self.entries[i].0.as_str(), cluster_id.as_str()) {
                self.insert_fresh_cluster_backend(
                    cluster_id,
                    backend,
                    i,
                    Ghost(name@),
                    Ghost(value@),
                );
                return;
            }
            i = i + 1;
        }
        let at = self.entries.len();
        self.insert_fresh_cluster_backend(cluster_id, backend, at, Ghost(name@), Ghost(value@));
    }

    /// Creates the cluster entry for `cluster_id` at position `at` — its
    /// sorted position — holding no cluster-level metrics and a copy of
    /// the one backend snapshot.
    fn insert_fresh_cluster_backend(
        &mut self,
        cluster_id: &String,
        backend: &BackendMetrics,
        at: usize,
        Ghost(name): Ghost<Seq<char>>,
        Ghost(value): Ghost<MetricModel>,
    )
        requires
            clusters_wf(old(self)@),
            backend_wf(backend@),
            at <= old(self)@.len(),
            forall|j: int| 0 <= j < at ==> lex_lt((#[trigger] old(self)@[j]).0, cluster_id@),
            at < old(self)@.len() ==> !lex_lt(old(self)@[at as int].0, cluster_id@)
                && old(self)@[at as int].0 != cluster_id@,
        ensures
            final(self)@ == apply_backend_metric(old(self)@, cluster_id@, backend@, name, value),
            clusters_wf(final(self)@),
    {
        let ghost s = self@;
        let ghost es = self.entries@;
        let mut bs: Vec<BackendMetrics> = Vec::new();
        bs.push(backend.clone());
        let fresh = ClusterMetrics { cluster: MetricsMap::new(), backends: bs };
        proof {
            assert(fresh@.cluster =~= Seq::<(Seq<char>, MetricModel)>::empty());
            assert(fresh@.backends =~= Seq::<BackendModel>::empty().push(backend@));
            lemma_sorted_scan_insert(s, (cluster_id@, fresh@), at as int);
            assert(!has_key(s, cluster_id@));
        }
        let key = cluster_id.clone();
        self.entries.insert(at, (key, fresh));
        proof {
            assert(self@ =~= s.insert(at as int, (cluster_id@, fresh@))) by {
                es.insert_ensures(at as int, (key, fresh));
                s.insert_ensures(at as int, (cluster_id@, fresh@));
            }
            assert forall|x: int| 0 <= x < self@.len() implies cluster_wf(
                (#[trigger] self@[x]).1,
            ) by {
                s.insert_ensures(at as int, (cluster_id@, fresh@));
                if x < at {
                    assert(self@[x] == s[x]);
                    assert(cluster_wf(s[x].1));
                } else if x == at {
                    assert(self@[x].1 == fresh@);
                } else {
                    assert(self@[x] == s[x - 1]);
                    assert(cluster_wf(s[x - 1].1));
                }
            }
            assert(clusters_wf(self@));
        }
    }
}

/// Left fold of a step function over a sequence, processing entries in
/// sequence order.
pub open spec fn folded<A, E>(step: spec_fn(A, E) -> A, acc: A, es: Seq<E>) -> A
    decreases es.len(),
{
    if es.len() == 0 {
        acc
    } else {
        step(folded(step, acc, es.drop_last()), es.last())
    }
}

/// Whether every intermediate step of `folded(step, acc, es)` satisfies
/// `fits`: the machine-width side condition of the whole fold.
pub open spec fn folded_fits<A, E>(
    step: spec_fn(A, E) -> A,
    fits: spec_fn(A, E) -> bool,
    acc: A,
    es: Seq<E>,
) -> bool
    decreases es.len(),
{
    es.len() == 0 || (folded_fits(step, fits, acc, es.drop_last()) && fits(
        folded(step, acc, es.drop_last()),
        es.last(),
    ))
}

/// One more entry extends a fold of a prefix by one step.
pub proof fn lemma_folded_take_step<A, E>(step: spec_fn(A, E) -> A, acc: A, es: Seq<E>, n: int)
    requires
        0 <= n < es.len(),
    ensures
        folded(step, acc, es.take(n + 1)) == step(folded(step, acc, es.take(n)), es[n]),
{
    assert(es.take(n + 1).drop_last() =~= es.take(n));
    assert(es.take(n + 1).last() == es[n]);
}

/// The side condition of a fold restricts to every prefix.
pub proof fn lemma_folded_fits_take<A, E>(
    step: spec_fn(A, E) -> A,
    fits: spec_fn(A, E) -> bool,
    acc: A,
    es: Seq<E>,
    n: int,
)
    requires
        folded_fits(step, fits, acc, es),
        0 <= n <= es.len(),
    ensures
        folded_fits(step, fits, acc, es.take(n)),
    decreases es.len() - n,
{
    if n == es.len() {
        assert(es.take(n) =~= es);
    } else {
        lemma_folded_fits_take(step, fits, acc, es, n + 1);
        assert(es.take(n + 1).drop_last() =~= es.take(n));
        assert(folded_fits(step, fits, acc, es.take(n + 1)));
    }
}

/// The step that folds one proxy metric entry into a name-keyed map:
/// non-mergeable values are skipped, mergeable ones are merge-inserted.
pub open spec fn metric_step() -> spec_fn(
    Seq<(Seq<char>, MetricModel)>,
    (Seq<char>, MetricModel),
) -> Seq<(Seq<char>, MetricModel)> {
    |acc: Seq<(Seq<char>, MetricModel)>, e: (Seq<char>, MetricModel)|
        if is_mergeable_model(e.1) {
            upsert_merged(acc, e.0, e.1)
        } else {
            acc
        }
}

/// The side condition of `metric_step`.
pub open spec fn metric_step_fits() -> spec_fn(
    Seq<(Seq<char>, MetricModel)>,
    (Seq<char>, MetricModel),
) -> bool {
    |acc: Seq<(Seq<char>, MetricModel)>, e: (Seq<char>, MetricModel)|
        is_mergeable_model(e.1) ==> upsert_fits(acc, e.0, e.1)
}

impl MetricsMap {
    /// Folds one worker's process-wide metric map into this output map:
    /// mergeable values are merged name-wise, the rest are skipped.
    pub fn merge_proxy(&mut self, proxy: &MetricsMap)
        requires
            unique_keys(old(self)@),
            sorted_keys(old(self)@),
            folded_fits(metric_step(), metric_step_fits(), old(self)@, proxy@),
        ensures
            final(self)@ == folded(metric_step(), old(self)@, proxy@),
            unique_keys(final(self)@),
            sorted_keys(final(self)@),
    {
        let ghost p0 = self@;
        let ghost ps = proxy@;
        let mut j: usize = 0;
        while j < proxy.entries.len()
            invariant
                old(self)@ == p0,
                proxy@ == ps,
                j <= proxy.entries@.len(),
                proxy.entries@.len() == ps.len(),
                self@ == folded(metric_step(), p0, ps.take(j as int)),
                unique_keys(self@),
                sorted_keys(self@),
                folded_fits(metric_step(), metric_step_fits(), p0, ps),
            decreases proxy.entries@.len() - j,
        {
            let name = proxy.entries[j].0.clone();
            let value = proxy.entries[j].1.clone();
            proof {
                assert((name@, value@) == ps[j as int]);
                lemma_folded_fits_take(metric_step(), metric_step_fits(), p0, ps, j + 1);
                assert(ps.take(j + 1).drop_last() =~= ps.take(j as int));
                assert(ps.take(j + 1).last() == ps[j as int]);
                lemma_folded_take_step(metric_step(), p0, ps, j as int);
            }
            if value.is_mergeable() {
                proof {
                    assert(upsert_fits(self@, name@, value@));
                }
                self.merge_in(name, value);
            }
            j = j + 1;
            proof {
                assert(self@ == folded(metric_step(), p0, ps.take(j as int)));
            }
        }
        proof {
            assert(ps.take(j as int) =~= ps);
        }
    }
}

/// The step that folds one cluster-level metric entry of cluster `cid`
/// into the output cluster map.
pub open spec fn cluster_metric_step(cid: Seq<char>) -> spec_fn(
    Seq<(Seq<char>, ClusterModel)>,
    (Seq<char>, MetricModel),
) -> Seq<(Seq<char>, ClusterModel)> {
    |cl: Seq<(Seq<char>, ClusterModel)>, e: (Seq<char>, MetricModel)|
        if is_mergeable_model(e.1) {
            apply_cluster_metric(cl, cid, e.0, e.1)
        } else {
            cl
        }
}

/// The side condition of `cluster_metric_step`.
pub open spec fn cluster_metric_step_fits(cid: Seq<char>) -> spec_fn(
    Seq<(Seq<char>, ClusterModel)>,
    (Seq<char>, MetricModel),
) -> bool {
    |cl: Seq<(Seq<char>, ClusterModel)>, e: (Seq<char>, MetricModel)|
        is_mergeable_model(e.1) ==> cluster_metric_fits(cl, cid, e.0, e.1)
}

/// The step that folds one metric entry of backend `b` (reported under
/// cluster `cid`) into the output cluster map.
pub open spec fn backend_metric_step(cid: Seq<char>, b: BackendModel) -> spec_fn(
    Seq<(Seq<char>, ClusterModel)>,
    (Seq<char>, MetricModel),
) -> Seq<(Seq<char>, ClusterModel)> {
    |cl: Seq<(Seq<char>, ClusterModel)>, e: (Seq<char>, MetricModel)|
        if is_mergeable_model(e.1) {
            apply_backend_metric(cl, cid, b, e.0, e.1)
        } else {
            cl
        }
}

/// The side condition of `backend_metric_step`.
pub open spec fn backend_metric_step_fits(cid: Seq<char>, b: BackendModel) -> spec_fn(
    Seq<(Seq<char>, ClusterModel)>,
    (Seq<char>, MetricModel),
) -> bool {
    |cl: Seq<(Seq<char>, ClusterModel)>, e: (Seq<char>, MetricModel)|
        is_mergeable_model(e.1) ==> backend_metric_fits(cl, cid, b.backend_id, e.0, e.1)
}

/// The step that folds one whole backend snapshot, metric by metric, into
/// the output cluster map.
pub open spec fn backend_step(cid: Seq<char>) -> spec_fn(
    Seq<(Seq<char>, ClusterModel)>,
    BackendModel,
) -> Seq<(Seq<char>, ClusterModel)> {
    |cl: Seq<(Seq<char>, ClusterModel)>, b: BackendModel|
        folded(backend_metric_step(cid, b), cl, b.metrics)
}

/// The side condition of `backend_step`.
pub open spec fn backend_step_fits(cid: Seq<char>) -> spec_fn(
    Seq<(Seq<char>, ClusterModel)>,
    BackendModel,
) -> bool {
    |cl: Seq<(Seq<char>, ClusterModel)>, b: BackendModel|
        folded_fits(backend_metric_step(cid, b), backend_metric_step_fits(cid, b), cl, b.metrics)
}

/// The step that folds one cluster snapshot of a worker's report into the
/// output cluster map: first its cluster-level metrics, then its backends.
pub open spec fn worker_cluster_step() -> spec_fn(
    Seq<(Seq<char>, ClusterModel)>,
    (Seq<char>, ClusterModel),
) -> Seq<(Seq<char>, ClusterModel)> {
    |cl: Seq<(Seq<char>, ClusterModel)>, e: (Seq<char>, ClusterModel)|
        folded(backend_step(e.0), folded(cluster_metric_step(e.0), cl, e.1.cluster), e.1.backends)
}

/// The side condition of `worker_cluster_step`.
pub open spec fn worker_cluster_step_fits() -> spec_fn(
    Seq<(Seq<char>, ClusterModel)>,
    (Seq<char>, ClusterModel),
) -> bool {
    |cl: Seq<(Seq<char>, ClusterModel)>, e: (Seq<char>, ClusterModel)|
        folded_fits(cluster_metric_step(e.0), cluster_metric_step_fits(e.0), cl, e.1.cluster)
            && folded_fits(
            backend_step(e.0),
            backend_step_fits(e.0),
            folded(cluster_metric_step(e.0), cl, e.1.cluster),
            e.1.backends,
        )
}

/// The step that folds one worker's report into the process-wide output
/// map.
pub open spec fn worker_proxy_step() -> spec_fn(
    Seq<(Seq<char>, MetricModel)>,
    (Seq<char>, WorkerModel),
) -> Seq<(Seq<char>, MetricModel)> {
    |p: Seq<(Seq<char>, MetricModel)>, w: (Seq<char>, WorkerModel)|
        folded(metric_step(), p, w.1.proxy)
}

/// The side condition of `worker_proxy_step`.
pub open spec fn worker_proxy_step_fits() -> spec_fn(
    Seq<(Seq<char>, MetricModel)>,
    (Seq<char>, WorkerModel),
) -> bool {
    |p: Seq<(Seq<char>, MetricModel)>, w: (Seq<char>, WorkerModel)|
        folded_fits(metric_step(), metric_step_fits(), p, w.1.proxy)
}

/// The step that folds one worker's report into the output cluster map.
pub open spec fn worker_clusters_step() -> spec_fn(
    Seq<(Seq<char>, ClusterModel)>,
    (Seq<char>, WorkerModel),
) -> Seq<(Seq<char>, ClusterModel)> {
    |cl: Seq<(Seq<char>, ClusterModel)>, w: (Seq<char>, WorkerModel)|
        folded(worker_cluster_step(), cl, w.1.clusters)
}

/// The side condition of `worker_clusters_step`.
pub open spec fn worker_clusters_step_fits() -> spec_fn(
    Seq<(Seq<char>, ClusterModel)>,
    (Seq<char>, WorkerModel),
) -> bool {
    |cl: Seq<(Seq<char>, ClusterModel)>, w: (Seq<char>, WorkerModel)|
        folded_fits(worker_cluster_step(), worker_cluster_step_fits(), cl, w.1.clusters)
}

impl ClusterMap {
    /// Folds one worker's cluster-level metric map for cluster
    /// `cluster_id` into this output map.
    pub fn merge_cluster_level(&mut self, cluster_id: &String, metrics: &MetricsMap)
        requires
            clusters_wf(old(self)@),
            folded_fits(
                cluster_metric_step(cluster_id@),
                cluster_metric_step_fits(cluster_id@),
                old(self)@,
                metrics@,
            ),
        ensures
            final(self)@ == folded(cluster_metric_step(cluster_id@), old(self)@, metrics@),
            clusters_wf(final(self)@),
    {
        let ghost c0 = self@;
        let ghost ms = metrics@;
        let mut j: usize = 0;
        while j < metrics.entries.len()
            invariant
                old(self)@ == c0,
                metrics@ == ms,
                j <= metrics.entries@.len(),
                metrics.entries@.len() == ms.len(),
                self@ == folded(cluster_metric_step(cluster_id@), c0, ms.take(j as int)),
                clusters_wf(self@),
                folded_fits(
                    cluster_metric_step(cluster_id@),
                    cluster_metric_step_fits(cluster_id@),
                    c0,
                    ms,
                ),
            decreases metrics.entries@.len() - j,
        {
            let name = metrics.entries[j].0.clone();
            let value = metrics.entries[j].1.clone();
            proof {
                assert((name@, value@) == ms[j as int]);
                lemma_folded_fits_take(
                    cluster_metric_step(cluster_id@),
                    cluster_metric_step_fits(cluster_id@),
                    c0,
                    ms,
                    j + 1,
                );
                assert(ms.take(j + 1).drop_last() =~= ms.take(j as int));
                assert(ms.take(j + 1).last() == ms[j as int]);
                lemma_folded_take_step(cluster_metric_step(cluster_id@), c0, ms, j as int);
            }
            if value.is_mergeable() {
                proof {
                    assert(cluster_metric_fits(self@, cluster_id@, name@, value@));
                }
                self.merge_cluster_metric(cluster_id, name, value);
            }
            j = j + 1;
            proof {
                assert(self@ == folded(cluster_metric_step(cluster_id@), c0, ms.take(j as int)));
            }
        }
        proof {
            assert(ms.take(j as int) =~= ms);
        }
    }

    /// Folds every metric of one backend snapshot into this output map.
    pub fn merge_one_backend(&mut self, cluster_id: &String, backend: &BackendMetrics)
        requires
            clusters_wf(old(self)@),
            backend_wf(backend@),
            folded_fits(
                backend_metric_step(cluster_id@, backend@),
                backend_metric_step_fits(cluster_id@, backend@),
                old(self)@,
                backend@.metrics,
            ),
        ensures
            final(self)@ == folded(
                backend_metric_step(cluster_id@, backend@),
                old(self)@,
                backend@.metrics,
            ),
            clusters_wf(final(self)@),
    {
        let ghost c0 = self@;
        let ghost ms = backend@.metrics;
        let mut j: usize = 0;
        while j < backend.metrics.entries.len()
            invariant
                old(self)@ == c0,
                backend@.metrics == ms,
                backend_wf(backend@),
                j <= backend.metrics.entries@.len(),
                backend.metrics.entries@.len() == ms.len(),
                self@ == folded(
                    backend_metric_step(cluster_id@, backend@),
                    c0,
                    ms.take(j as int),
                ),
                clusters_wf(self@),
                folded_fits(
                    backend_metric_step(cluster_id@, backend@),
                    backend_metric_step_fits(cluster_id@, backend@),
                    c0,
                    ms,
                ),
            decreases backend.metrics.entries@.len() - j,
        {
            let name = backend.metrics.entries[j].0.clone();
            let value = backend.metrics.entries[j].1.clone();
            proof {
                assert((name@, value@) == ms[j as int]);
                lemma_folded_fits_take(
                    backend_metric_step(cluster_id@, backend@),
                    backend_metric_step_fits(cluster_id@, backend@),
                    c0,
                    ms,
                    j + 1,
                );
                assert(ms.take(j + 1).drop_last() =~= ms.take(j as int));
                assert(ms.take(j + 1).last() == ms[j as int]);
                lemma_folded_take_step(
                    backend_metric_step(cluster_id@, backend@),
                    c0,
                    ms,
                    j as int,
                );
            }
            if value.is_mergeable() {
                proof {
                    assert(backend_metric_fits(
                        self@,
                        cluster_id@,
                        backend@.backend_id,
                        name@,
                        value@,
                    ));
                }
                self.merge_backend_metric(cluster_id, backend, name, value);
            }
            j = j + 1;
            proof {
                assert(self@ == folded(
                    backend_metric_step(cluster_id@, backend@),
                    c0,
                    ms.take(j as int),
                ));
            }
        }
        proof {
            assert(ms.take(j as int) =~= ms);
        }
    }

    /// Folds a worker's backend snapshots for cluster `cluster_id` into
    /// this output map, backend by backend.
    pub fn merge_backends(&mut self, cluster_id: &String, backends: &Vec<BackendMetrics>)
        requires
            clusters_wf(old(self)@),
            forall|i: int|
                0 <= i < backends@.len() ==> backend_wf(#[trigger] backends_view(backends@)[i]),
            folded_fits(
                backend_step(cluster_id@),
                backend_step_fits(cluster_id@),
                old(self)@,
                backends_view(backends@),
            ),
        ensures
            final(self)@ == folded(
                backend_step(cluster_id@),
                old(self)@,
                backends_view(backends@),
            ),
            clusters_wf(final(self)@),
    {
        let ghost c0 = self@;
        let ghost bs = backends_view(backends@);
        let mut j: usize = 0;
        while j < backends.len()
            invariant
                old(self)@ == c0,
                backends_view(backends@) == bs,
                j <= backends@.len(),
                backends@.len() == bs.len(),
                forall|i: int| 0 <= i < bs.len() ==> backend_wf(#[trigger] bs[i]),
                self@ == folded(backend_step(cluster_id@), c0, bs.take(j as int)),
                clusters_wf(self@),
                folded_fits(backend_step(cluster_id@), backend_step_fits(cluster_id@), c0, bs),
            decreases backends@.len() - j,
        {
            proof {
                assert(bs[j as int] == backends@[j as int]@);
                lemma_folded_fits_take(
                    backend_step(cluster_id@),
                    backend_step_fits(cluster_id@),
                    c0,
                    bs,
                    j + 1,
                );
                assert(bs.take(j + 1).drop_last() =~= bs.take(j as int));
                assert(bs.take(j + 1).last() == bs[j as int]);
                lemma_folded_take_step(backend_step(cluster_id@), c0, bs, j as int);
            }
            self.merge_one_backend(cluster_id, &backends[j]);
            j = j + 1;
            proof {
                assert(self@ == folded(backend_step(cluster_id@), c0, bs.take(j as int)));
            }
        }
        proof {
            assert(bs.take(j as int) =~= bs);
        }
    }

    /// Folds one worker's whole per-cluster report into this output map.
    pub fn merge_worker_clusters(&mut self, clusters: &ClusterMap)
        requires
            clusters_wf(old(self)@),
            clusters_wf(clusters@),
            folded_fits(worker_cluster_step(), worker_cluster_step_fits(), old(self)@, clusters@),
        ensures
            final(self)@ == folded(worker_cluster_step(), old(self)@, clusters@),
            clusters_wf(final(self)@),
    {
        let ghost c0 = self@;
        let ghost cs = clusters@;
        let mut j: usize = 0;
        while j < clusters.entries.len()
            invariant
                old(self)@ == c0,
                clusters@ == cs,
                clusters_wf(cs),
                j <= clusters.entries@.len(),
                clusters.entries@.len() == cs.len(),
                self@ == folded(worker_cluster_step(), c0, cs.take(j as int)),
                clusters_wf(self@),
                folded_fits(worker_cluster_step(), worker_cluster_step_fits(), c0, cs),
            decreases clusters.entries@.len() - j,
        {
            proof {
                assert((clusters.entries@[j as int].0@, clusters.entries@[j as int].1@) == cs[
                    j as int
                ]);
                assert(cluster_wf(cs[j as int].1));
                lemma_folded_fits_take(
                    worker_cluster_step(),
                    worker_cluster_step_fits(),
                    c0,
                    cs,
                    j + 1,
                );
                assert(cs.take(j + 1).drop_last() =~= cs.take(j as int));
                assert(cs.take(j + 1).last() == cs[j as int]);
                lemma_folded_take_step(worker_cluster_step(), c0, cs, j as int);
            }
            let cluster_id = &clusters.entries[j].0;
            let cm = &clusters.entries[j].1;
            self.merge_cluster_level(cluster_id, &cm.cluster);
            self.merge_backends(cluster_id, &cm.backends);
            j = j + 1;
            proof {
                assert(self@ == folded(worker_cluster_step(), c0, cs.take(j as int)));
            }
        }
        proof {
            assert(cs.take(j as int) =~= cs);
        }
    }
}

/// The collector's aggregate: the raw per-worker reports, and the two
/// output maps that the merge populates.
#[derive(Debug)]
pub struct AggregatedMetrics {
    pub workers: WorkerMap,
    pub proxying: MetricsMap,
    pub clusters: ClusterMap,
}

impl AggregatedMetrics {
    /// Well-formedness of the aggregate: all maps carry unique keys, every
    /// stored snapshot is well-formed.
    pub open spec fn wf(&self) -> bool {
        &&& crate::snapshots::workers_wf(self.workers@)
        &&& unique_keys(self.proxying@)
        &&& sorted_keys(self.proxying@)
        &&& clusters_wf(self.clusters@)
    }

    /// An empty aggregate: no reports, no outputs yet.
    pub fn new() -> (r: Self)
        ensures
            r.workers@ == Seq::<(Seq<char>, WorkerModel)>::empty(),
            r.proxying@ == Seq::<(Seq<char>, MetricModel)>::empty(),
            r.clusters@ == Seq::<(Seq<char>, ClusterModel)>::empty(),
            r.wf(),
    {
        AggregatedMetrics {
            workers: WorkerMap::new(),
            proxying: MetricsMap::new(),
            clusters: ClusterMap::new(),
        }
    }

    /// Merges the metrics received from the workers.
    ///
    /// The stored reports are drained — `workers` is empty afterwards, so a
    /// second call is a no-op — and every report is folded into `proxying`
    /// and `clusters`: mergeable process-wide metrics name by name,
    /// cluster-level metrics under their cluster id, and backend metrics
    /// under their cluster id and backend id, appending a copy of a backend
    /// snapshot the first time its id is seen.
    pub fn merge_metrics(&mut self)
        requires
            old(self).wf(),
            folded_fits(
                worker_proxy_step(),
                worker_proxy_step_fits(),
                old(self).proxying@,
                old(self).workers@,
            ),
            folded_fits(
                worker_clusters_step(),
                worker_clusters_step_fits(),
                old(self).clusters@,
                old(self).workers@,
            ),
        ensures
            final(self).workers@.len() == 0,
            final(self).proxying@ == folded(
                worker_proxy_step(),
                old(self).proxying@,
                old(self).workers@,
            ),
            final(self).clusters@ == folded(
                worker_clusters_step(),
                old(self).clusters@,
                old(self).workers@,
            ),
            final(self).wf(),
    {
        let ghost ws = self.workers@;
        let ghost p0 = self.proxying@;
        let ghost c0 = self.clusters@;
        let mut taken = WorkerMap::new();
        core::mem::swap(&mut self.workers, &mut taken);
        let mut j: usize = 0;
        while j < taken.entries.len()
            invariant
                old(self).proxying@ == p0,
                old(self).clusters@ == c0,
                taken@ == ws,
                crate::snapshots::workers_wf(ws),
                self.workers@.len() == 0,
                j <= taken.entries@.len(),
                taken.entries@.len() == ws.len(),
                self.proxying@ == folded(worker_proxy_step(), p0, ws.take(j as int)),
                self.clusters@ == folded(worker_clusters_step(), c0, ws.take(j as int)),
                unique_keys(self.proxying@),
                sorted_keys(self.proxying@),
                clusters_wf(self.clusters@),
                folded_fits(worker_proxy_step(), worker_proxy_step_fits(), p0, ws),
                folded_fits(worker_clusters_step(), worker_clusters_step_fits(), c0, ws),
            decreases taken.entries@.len() - j,
        {
            proof {
                assert((taken.entries@[j as int].0@, taken.entries@[j as int].1@) == ws[j as int]);
                assert(crate::snapshots::worker_wf(ws[j as int].1));
                lemma_folded_fits_take(worker_proxy_step(), worker_proxy_step_fits(), p0, ws, j + 1);
                lemma_folded_fits_take(
                    worker_clusters_step(),
                    worker_clusters_step_fits(),
                    c0,
                    ws,
                    j + 1,
                );
                assert(ws.take(j + 1).drop_last() =~= ws.take(j as int));
                assert(ws.take(j + 1).last() == ws[j as int]);
                lemma_folded_take_step(worker_proxy_step(), p0, ws, j as int);
                lemma_folded_take_step(worker_clusters_step(), c0, ws, j as int);
            }
            let worker = &taken.entries[j].1;
            self.proxying.merge_proxy(&worker.proxy);
            self.clusters.merge_worker_clusters(&worker.clusters);
            j = j + 1;
            proof {
                assert(self.proxying@ == folded(worker_proxy_step(), p0, ws.take(j as int)));
                assert(self.clusters@ == folded(worker_clusters_step(), c0, ws.take(j as int)));
            }
        }
        proof {
            assert(ws.take(j as int) =~= ws);
        }
    }
}

} // verus!
