//! Worker-side snapshot types: per-backend metrics, per-cluster metrics with
//! their backends, and one worker's full report, together with the id-keyed
//! maps that hold them and the well-formedness conditions of the data model.

use vstd::prelude::*;
use crate::metrics::MetricModel;
use crate::maps::MetricsMap;
use crate::order::unique_keys;
use crate::order::has_key;
use crate::order::sorted_keys;
use crate::order::lex_lt;
use crate::order::str_lex_lt;
use crate::order::lemma_sorted_scan_insert;
use crate::maps::upsert_replaced;

verus! {

/// Mathematical model of one backend's snapshot.
pub ghost struct BackendModel {
    pub backend_id: Seq<char>,
    pub metrics: Seq<(Seq<char>, MetricModel)>,
}

/// Mathematical model of one cluster's snapshot.
pub ghost struct ClusterModel {
    pub cluster: Seq<(Seq<char>, MetricModel)>,
    pub backends: Seq<BackendModel>,
}

/// Mathematical model of one worker's report.
pub ghost struct WorkerModel {
    pub proxy: Seq<(Seq<char>, MetricModel)>,
    pub clusters: Seq<(Seq<char>, ClusterModel)>,
}

/// A backend's snapshot: the backend's id and its metric-name map.
#[derive(Debug)]
pub struct BackendMetrics {
    pub backend_id: String,
    pub metrics: MetricsMap,
}

impl View for BackendMetrics {
    type V = BackendModel;

    open spec fn view(&self) -> BackendModel {
        BackendModel { backend_id: self.backend_id@, metrics: self.metrics@ }
    }
}

impl Clone for BackendMetrics {
    fn clone(&self) -> (res: Self)
        ensures
            res@ == self@,
    {
        BackendMetrics { backend_id: self.backend_id.clone(), metrics: self.metrics.clone() }
    }
}

/// A cluster's snapshot: cluster-level metrics plus the snapshots of its
/// backends. Backend identity is by `backend_id`; the list order carries no
/// meaning.
#[derive(Debug)]
pub struct ClusterMetrics {
    pub cluster: MetricsMap,
    pub backends: Vec<BackendMetrics>,
}

/// The models of a list of backend snapshots, in list order.
pub open spec fn backends_view(v: Seq<BackendMetrics>) -> Seq<BackendModel> {
    Seq::new(v.len(), |i: int| v[i]@)
}

impl View for ClusterMetrics {
    type V = ClusterModel;

    open spec fn view(&self) -> ClusterModel {
        ClusterModel { cluster: self.cluster@, backends: backends_view(self.backends@) }
    }
}

/// A cluster-id to cluster-snapshot map: an association vector whose keys
/// are unique and kept sorted in the lexicographic order.
#[derive(Debug)]
pub struct ClusterMap {
    pub entries: Vec<(String, ClusterMetrics)>,
}

impl View for ClusterMap {
    type V = Seq<(Seq<char>, ClusterModel)>;

    open spec fn view(&self) -> Seq<(Seq<char>, ClusterModel)> {
        Seq::new(self.entries@.len(), |i: int| (self.entries@[i].0@, self.entries@[i].1@))
    }
}

/// One worker's full report: process-wide metrics and per-cluster metrics.
#[derive(Debug)]
pub struct WorkerMetrics {
    pub proxy: MetricsMap,
    pub clusters: ClusterMap,
}

impl View for WorkerMetrics {
    type V = WorkerModel;

    open spec fn view(&self) -> WorkerModel {
        WorkerModel { proxy: self.proxy@, clusters: self.clusters@ }
    }
}

/// A worker-id to worker-report map: an association vector whose keys are
/// unique and kept sorted in the lexicographic order.
#[derive(Debug)]
pub struct WorkerMap {
    pub entries: Vec<(String, WorkerMetrics)>,
}

impl View for WorkerMap {
    type V = Seq<(Seq<char>, WorkerModel)>;

    open spec fn view(&self) -> Seq<(Seq<char>, WorkerModel)> {
        Seq::new(self.entries@.len(), |i: int| (self.entries@[i].0@, self.entries@[i].1@))
    }
}

/// Whether some backend in a list carries `id`.
pub open spec fn has_backend(bs: Seq<BackendModel>, id: Seq<char>) -> bool {
    exists|i: int| 0 <= i < bs.len() && bs[i].backend_id == id
}

/// Well-formedness of one backend: its metric names are unique and
/// sorted.
pub open spec fn backend_wf(b: BackendModel) -> bool {
    &&& unique_keys(b.metrics)
    &&& sorted_keys(b.metrics)
}

/// Whether every backend id occurs at most once in a list.
pub open spec fn unique_backend_ids(bs: Seq<BackendModel>) -> bool {
    forall|i: int, j: int| 0 <= i < j < bs.len() ==> bs[i].backend_id != bs[j].backend_id
}

/// Well-formedness of one cluster snapshot: unique, sorted metric names,
/// unique backend ids, well-formed backends.
pub open spec fn cluster_wf(c: ClusterModel) -> bool {
    &&& unique_keys(c.cluster)
    &&& sorted_keys(c.cluster)
    &&& unique_backend_ids(c.backends)
    &&& forall|i: int| 0 <= i < c.backends.len() ==> backend_wf(#[trigger] c.backends[i])
}

/// Well-formedness of a cluster-id keyed map: unique ids, well-formed
/// cluster snapshots.
pub open spec fn clusters_wf(cl: Seq<(Seq<char>, ClusterModel)>) -> bool {
    &&& unique_keys(cl)
    &&& sorted_keys(cl)
    &&& forall|i: int| 0 <= i < cl.len() ==> cluster_wf((#[trigger] cl[i]).1)
}

/// Well-formedness of one worker's report.
pub open spec fn worker_wf(w: WorkerModel) -> bool {
    &&& unique_keys(w.proxy)
    &&& sorted_keys(w.proxy)
    &&& clusters_wf(w.clusters)
}

/// Well-formedness of the worker-id keyed map.
pub open spec fn workers_wf(ws: Seq<(Seq<char>, WorkerModel)>) -> bool {
    &&& unique_keys(ws)
    &&& sorted_keys(ws)
    &&& forall|i: int| 0 <= i < ws.len() ==> worker_wf((#[trigger] ws[i]).1)
}

impl ClusterMap {
    /// An empty map.
    pub fn new() -> (r: Self)
        ensures
            r@ == Seq::<(Seq<char>, ClusterModel)>::empty(),
    {
        let r = ClusterMap { entries: Vec::new() };
        proof {
            assert(r@ =~= Seq::<(Seq<char>, ClusterModel)>::empty());
        }
        r
    }

    /// How many clusters are mapped.
    pub fn len(&self) -> (n: usize)
        ensures
            n == self@.len(),
    {
        self.entries.len()
    }

    /// The cluster snapshot stored under `cluster_id`, if any.
    pub fn get(&self, cluster_id: &String) -> (r: Option<&ClusterMetrics>)
        ensures
            match r {
                Some(c) => exists|i: int|
                    0 <= i < self@.len() && (#[trigger] self@[i]).0 == cluster_id@ && self@[i].1
                        == c@,
                None => !has_key(self@, cluster_id@),
            },
    {
        let mut i: usize = 0;
        while i < self.entries.len()
            invariant
                i <= self.entries.len(),
                forall|j: int| 0 <= j < i ==> (#[trigger] self@[j]).0 != cluster_id@,
            decreases self.entries.len() - i,
        {
            if self.entries[i].0 == *cluster_id {
                proof {
                    assert(self@[i as int].0 == cluster_id@);
                    assert(self@[i as int].1 == self.entries@[i as int].1@);
                }
                return Some(&self.entries[i].1);
            }
            i = i + 1;
        }
        None
    }

    /// Inserts `value` under `cluster_id`, replacing any existing snapshot.
    pub fn insert(&mut self, cluster_id: String, value: ClusterMetrics)
        requires
            unique_keys(old(self)@),
            sorted_keys(old(self)@),
        ensures
            final(self)@ == upsert_replaced(old(self)@, cluster_id@, value@),
            unique_keys(final(self)@),
            sorted_keys(final(self)@),
    {
        let ghost s = self@;
        let ghost es = self.entries@;
        let mut i: usize = 0;
        while i < self.entries.len()
            invariant
                old(self)@ == s,
                self@ == s,
                self.entries@ == es,
                i <= self.entries.len(),
                unique_keys(s),
                sorted_keys(s),
                forall|j: int| 0 <= j < i ==> lex_lt((#[trigger] s[j]).0, cluster_id@),
            decreases self.entries.len() - i,
        {
            if self.entries[i].0 == cluster_id {
                let _ = self.entries.remove(i);
                self.entries.insert(i, (cluster_id, value));
                proof {
                    assert(s[i as int].0 == cluster_id@);
                    assert(has_key(s, cluster_id@));
                    assert forall|j: int| 0 <= j < s.len() && j != i implies (#[trigger] s[j]).0
                        != cluster_id@ by {
                        if j < i {
                            assert(s[j].0 != s[i as int].0);
                        } else {
                            assert(s[i as int].0 != s[j].0);
                        }
                    }
                    assert(self@ =~= upsert_replaced(s, cluster_id@, value@));
                    assert(unique_keys(self@));
                    assert(forall|x: int|
                        0 <= x < self@.len() ==> (#[trigger] self@[x]).0 == s[x].0);
                    assert(sorted_keys(self@));
                }
                return;
            }
            if !str_lex_lt(self.entries[i].0.as_str(), cluster_id.as_str()) {
                proof {
                    assert(s[i as int].0 != cluster_id@);
                    lemma_sorted_scan_insert(s, (cluster_id@, value@), i as int);
                }
                self.entries.insert(i, (cluster_id, value));
                proof {
                    assert(self@ =~= s.insert(i as int, (cluster_id@, value@))) by {
                        es.insert_ensures(i as int, (cluster_id, value));
                        s.insert_ensures(i as int, (cluster_id@, value@));
                    }
                }
                return;
            }
            i = i + 1;
        }
        proof {
            lemma_sorted_scan_insert(s, (cluster_id@, value@), i as int);
        }
        self.entries.insert(i, (cluster_id, value));
        proof {
            assert(self@ =~= s.insert(i as int, (cluster_id@, value@))) by {
                es.insert_ensures(i as int, (cluster_id, value));
                s.insert_ensures(i as int, (cluster_id@, value@));
            }
        }
    }
}

impl WorkerMap {
    /// An empty map.
    pub fn new() -> (r: Self)
        ensures
            r@ == Seq::<(Seq<char>, WorkerModel)>::empty(),
    {
        let r = WorkerMap { entries: Vec::new() };
        proof {
            assert(r@ =~= Seq::<(Seq<char>, WorkerModel)>::empty());
        }
        r
    }

    /// How many workers are mapped.
    pub fn len(&self) -> (n: usize)
        ensures
            n == self@.len(),
    {
        self.entries.len()
    }

    /// Inserts `value` under `worker_id`. A duplicate worker id overwrites
    /// the previously stored, not yet merged report.
    pub fn insert(&mut self, worker_id: String, value: WorkerMetrics)
        requires
            unique_keys(old(self)@),
            sorted_keys(old(self)@),
        ensures
            final(self)@ == upsert_replaced(old(self)@, worker_id@, value@),
            unique_keys(final(self)@),
            sorted_keys(final(self)@),
    {
        let ghost s = self@;
        let ghost es = self.entries@;
        let mut i: usize = 0;
        while i < self.entries.len()
            invariant
                old(self)@ == s,
                self@ == s,
                self.entries@ == es,
                i <= self.entries.len(),
                unique_keys(s),
                sorted_keys(s),
                forall|j: int| 0 <= j < i ==> lex_lt((#[trigger] s[j]).0, worker_id@),
            decreases self.entries.len() - i,
        {
            if self.entries[i].0 == worker_id {
                let _ = self.entries.remove(i);
                self.entries.insert(i, (worker_id, value));
                proof {
                    assert(s[i as int].0 == worker_id@);
                    assert(has_key(s, worker_id@));
                    assert forall|j: int| 0 <= j < s.len() && j != i implies (#[trigger] s[j]).0
                        != worker_id@ by {
                        if j < i {
                            assert(s[j].0 != s[i as int].0);
                        } else {
                            assert(s[i as int].0 != s[j].0);
                        }
                    }
                    assert(self@ =~= upsert_replaced(s, worker_id@, value@));
                    assert(unique_keys(self@));
                    assert(forall|x: int|
                        0 <= x < self@.len() ==> (#[trigger] self@[x]).0 == s[x].0);
                    assert(sorted_keys(self@));
                }
                return;
            }
            if !str_lex_lt(self.entries[i].0.as_str(), worker_id.as_str()) {
                proof {
                    assert(s[i as int].0 != worker_id@);
                    lemma_sorted_scan_insert(s, (worker_id@, value@), i as int);
                }
                self.entries.insert(i, (worker_id, value));
                proof {
                    assert(self@ =~= s.insert(i as int, (worker_id@, value@))) by {
                        es.insert_ensures(i as int, (worker_id, value));
                        s.insert_ensures(i as int, (worker_id@, value@));
                    }
                }
                return;
            }
            i = i + 1;
        }
        proof {
            lemma_sorted_scan_insert(s, (worker_id@, value@), i as int);
        }
        self.entries.insert(i, (worker_id, value));
        proof {
            assert(self@ =~= s.insert(i as int, (worker_id@, value@))) by {
                es.insert_ensures(i as int, (worker_id, value));
                s.insert_ensures(i as int, (worker_id@, value@));
            }
        }
    }
}

} // verus!
