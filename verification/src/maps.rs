//! Name-keyed metric maps. Metric names map to metric values through an
//! association vector whose keys are unique and sorted in the
//! lexicographic order: lookup is by key, and iteration enumerates the
//! names in sorted order, whatever the insertion order was.

use vstd::prelude::*;
use crate::metrics::FilteredMetrics;
use crate::metrics::MetricModel;
use crate::metrics::merged_value;
use crate::metrics::merge_fits;
use crate::order::unique_keys;
use crate::order::has_key;
use crate::order::sorted_keys;
use crate::order::sorted_insert;
use crate::order::lex_lt;
use crate::order::str_lex_lt;
use crate::order::lemma_sorted_scan_insert;

verus! {

/// What inserting `v` under `k` with merge-on-conflict yields: an existing
/// entry under `k` absorbs `v` through the metric merge, and a missing key
/// enters at its sorted position.
pub open spec fn upsert_merged(
    s: Seq<(Seq<char>, MetricModel)>,
    k: Seq<char>,
    v: MetricModel,
) -> Seq<(Seq<char>, MetricModel)> {
    if has_key(s, k) {
        s.map(
            |i: int, e: (Seq<char>, MetricModel)|
                if e.0 == k {
                    (e.0, merged_value(e.1, v))
                } else {
                    e
                },
        )
    } else {
        sorted_insert(s, (k, v))
    }
}

/// What inserting `v` under `k` with replace-on-conflict yields.
pub open spec fn upsert_replaced<V>(
    s: Seq<(Seq<char>, V)>,
    k: Seq<char>,
    v: V,
) -> Seq<(Seq<char>, V)> {
    if has_key(s, k) {
        s.map(
            |i: int, e: (Seq<char>, V)|
                if e.0 == k {
                    (e.0, v)
                } else {
                    e
                },
        )
    } else {
        sorted_insert(s, (k, v))
    }
}

/// Machine-width bound under which `v` can be merge-inserted under `k`:
/// whatever entry it may be merged with, the merge does not overflow.
pub open spec fn upsert_fits(
    s: Seq<(Seq<char>, MetricModel)>,
    k: Seq<char>,
    v: MetricModel,
) -> bool {
    forall|i: int| 0 <= i < s.len() && s[i].0 == k ==> merge_fits(s[i].1, v)
}

/// A metric-name to metric-value map: an association vector whose keys
/// are unique and kept sorted in the lexicographic order.
#[derive(Debug)]
pub struct MetricsMap {
    pub entries: Vec<(String, FilteredMetrics)>,
}

impl View for MetricsMap {
    type V = Seq<(Seq<char>, MetricModel)>;

    open spec fn view(&self) -> Seq<(Seq<char>, MetricModel)> {
        Seq::new(self.entries@.len(), |i: int| (self.entries@[i].0@, self.entries@[i].1@))
    }
}

impl Clone for MetricsMap {
    fn clone(&self) -> (res: Self)
        ensures
            res@ == self@,
    {
        let mut entries: Vec<(String, FilteredMetrics)> = Vec::new();
        let mut i: usize = 0;
        while i < self.entries.len()
            invariant
                i <= self.entries.len(),
                entries@.len() == i,
                forall|j: int| 0 <= j < i ==> #[trigger] entries@[j].0@ == self.entries@[j].0@,
                forall|j: int| 0 <= j < i ==> #[trigger] entries@[j].1@ == self.entries@[j].1@,
            decreases self.entries.len() - i,
        {
            let name = self.entries[i].0.clone();
            let value = self.entries[i].1.clone();
            entries.push((name, value));
            i = i + 1;
        }
        let res = MetricsMap { entries };
        proof {
            assert(res@ =~= self@);
        }
        res
    }
}

impl MetricsMap {
    /// An empty map.
    pub fn new() -> (r: Self)
        ensures
            r@ == Seq::<(Seq<char>, MetricModel)>::empty(),
    {
        let r = MetricsMap { entries: Vec::new() };
        proof {
            assert(r@ =~= Seq::<(Seq<char>, MetricModel)>::empty());
        }
        r
    }

    /// How many names are mapped.
    pub fn len(&self) -> (n: usize)
        ensures
            n == self@.len(),
    {
        self.entries.len()
    }

    /// The value stored under `name`, if any.
    pub fn get(&self, name: &String) -> (r: Option<&FilteredMetrics>)
        ensures
            match r {
                Some(v) => exists|i: int|
                    0 <= i < self@.len() && (#[trigger] self@[i]).0 == name@ && self@[i].1 == v@,
                None => !has_key(self@, name@),
            },
    {
        let mut i: usize = 0;
        while i < self.entries.len()
            invariant
                i <= self.entries.len(),
                forall|j: int| 0 <= j < i ==> (#[trigger] self@[j]).0 != name@,
            decreases self.entries.len() - i,
        {
            if self.entries[i].0 == *name {
                proof {
                    assert(self@[i as int].0 == name@);
                    assert(self@[i as int].1 == self.entries@[i as int].1@);
                }
                return Some(&self.entries[i].1);
            }
            i = i + 1;
        }
        proof {
            assert forall|j: int| 0 <= j < self@.len() implies (#[trigger] self@[j]).0 != name@ by {
            }
        }
        None
    }

    /// Inserts `value` under `name`, replacing any existing value; a new
    /// name enters at its sorted position.
    pub fn insert(&mut self, name: String, value: FilteredMetrics)
        requires
            unique_keys(old(self)@),
            sorted_keys(old(self)@),
        ensures
            final(self)@ == upsert_replaced(old(self)@, name@, value@),
            unique_keys(final(self)@),
            sorted_keys(final(self)@),
    {
        let ghost s = self@;
        let ghost es = self.entries@;
        let mut i: usize = 0;
        while i < self.entries.len()
            invariant
                old(self)@ == s,
                self@ == s,
                self.entries@ == es,
                i <= self.entries.len(),
                unique_keys(s),
                sorted_keys(s),
                forall|j: int| 0 <= j < i ==> lex_lt((#[trigger] s[j]).0, name@),
            decreases self.entries.len() - i,
        {
            if self.entries[i].0 == name {
                let _ = self.entries.remove(i);
                self.entries.insert(i, (name, value));
                proof {
                    assert(s[i as int].0 == name@);
                    assert(has_key(s, name@));
                    assert forall|j: int| 0 <= j < s.len() && j != i implies (#[trigger] s[j]).0
                        != name@ by {
                        if j < i {
                            assert(s[j].0 != s[i as int].0);
                        } else {
                            assert(s[i as int].0 != s[j].0);
                        }
                    }
                    assert(self.entries@ =~= es.update(i as int, (name, value)));
                    assert(self@ =~= upsert_replaced(s, name@, value@));
                    assert(unique_keys(self@));
                    assert(forall|x: int|
                        0 <= x < self@.len() ==> (#[trigger] self@[x]).0 == s[x].0);
                    assert(sorted_keys(self@));
                }
                return;
            }
            if !str_lex_lt(self.entries[i].0.as_str(), name.as_str()) {
                proof {
                    assert(s[i as int].0 != name@);
                    lemma_sorted_scan_insert(s, (name@, value@), i as int);
                }
                self.entries.insert(i, (name, value));
                proof {
                    assert(self@ =~= s.insert(i as int, (name@, value@))) by {
                        es.insert_ensures(i as int, (name, value));
                        s.insert_ensures(i as int, (name@, value@));
                    }
                }
                return;
            }
            i = i + 1;
        }
        proof {
            lemma_sorted_scan_insert(s, (name@, value@), i as int);
        }
        self.entries.insert(i, (name, value));
        proof {
            assert(self@ =~= s.insert(i as int, (name@, value@))) by {
                es.insert_ensures(i as int, (name, value));
                s.insert_ensures(i as int, (name@, value@));
            }
        }
    }

    /// Inserts `value` under `name`, merging it into any existing value.
    pub fn merge_in(&mut self, name: String, value: FilteredMetrics)
        requires
            unique_keys(old(self)@),
            sorted_keys(old(self)@),
            upsert_fits(old(self)@, name@, value@),
        ensures
            final(self)@ == upsert_merged(old(self)@, name@, value@),
            unique_keys(final(self)@),
            sorted_keys(final(self)@),
    {
        let ghost s = self@;
        let ghost es = self.entries@;
        let mut i: usize = 0;
        while i < self.entries.len()
            invariant
                old(self)@ == s,
                self@ == s,
                self.entries@ == es,
                i <= self.entries.len(),
                unique_keys(s),
                sorted_keys(s),
                upsert_fits(s, name@, value@),
                forall|j: int| 0 <= j < i ==> lex_lt((#[trigger] s[j]).0, name@),
            decreases self.entries.len() - i,
        {
            if self.entries[i].0 == name {
                proof {
                    assert(s[i as int].0 == name@);
                    assert(merge_fits(s[i as int].1, value@));
                }
                let kv = self.entries.remove(i);
                let k0 = kv.0;
                let mut v0 = kv.1;
                v0.merge(&value);
                self.entries.insert(i, (k0, v0));
                proof {
                    assert(has_key(s, name@));
                    assert forall|j: int| 0 <= j < s.len() && j != i implies (#[trigger] s[j]).0
                        != name@ by {
                        if j < i {
                            assert(s[j].0 != s[i as int].0);
                        } else {
                            assert(s[i as int].0 != s[j].0);
                        }
                    }
                    assert(self.entries@ =~= es.update(i as int, (k0, v0)));
                    assert(self@ =~= upsert_merged(s, name@, value@));
                    assert(unique_keys(self@));
                    assert(forall|x: int|
                        0 <= x < self@.len() ==> (#[trigger] self@[x]).0 == s[x].0);
                    assert(sorted_keys(self@));
                }
                return;
            }
            if !str_lex_lt(self.entries[i].0.as_str(), name.as_str()) {
                proof {
                    assert(s[i as int].0 != name@);
                    lemma_sorted_scan_insert(s, (name@, value@), i as int);
                }
                self.entries.insert(i, (name, value));
                proof {
                    assert(self@ =~= s.insert(i as int, (name@, value@))) by {
                        es.insert_ensures(i as int, (name, value));
                        s.insert_ensures(i as int, (name@, value@));
                    }
                }
                return;
            }
            i = i + 1;
        }
        proof {
            lemma_sorted_scan_insert(s, (name@, value@), i as int);
        }
        self.entries.insert(i, (name, value));
        proof {
            assert(self@ =~= s.insert(i as int, (name@, value@))) by {
                es.insert_ensures(i as int, (name, value));
                s.insert_ensures(i as int, (name@, value@));
            }
        }
    }
}

} // verus!
