//! Lexicographic order on metric and id names. The name-keyed and
//! id-keyed maps keep their entries sorted by this order, so that they
//! enumerate deterministically whatever the insertion order was.

use vstd::prelude::*;
use vstd::string::StrSliceExecFns;

verus! {

/// Strict lexicographic order on character sequences, decided from
/// position `i` on: the first differing character decides, and a strict
/// prefix comes before every extension of it.
pub open spec fn lex_lt_from(a: Seq<char>, b: Seq<char>, i: int) -> bool
    decreases a.len() - i,
{
    if i < 0 || i >= a.len() {
        0 <= i < b.len()
    } else if i >= b.len() {
        false
    } else if a[i] == b[i] {
        lex_lt_from(a, b, i + 1)
    } else {
        (a[i] as int) < (b[i] as int)
    }
}

/// Strict lexicographic order on names.
pub open spec fn lex_lt(a: Seq<char>, b: Seq<char>) -> bool {
    lex_lt_from(a, b, 0)
}

proof fn lemma_lex_from_total(a: Seq<char>, b: Seq<char>, i: int)
    requires
        0 <= i <= a.len(),
        i <= b.len(),
        forall|j: int| 0 <= j < i ==> a[j] == b[j],
    ensures
        lex_lt_from(a, b, i) || lex_lt_from(b, a, i) || a == b,
    decreases a.len() - i,
{
    if i >= a.len() {
        if i >= b.len() {
            assert(a =~= b);
        }
    } else if i >= b.len() {
    } else if a[i] == b[i] {
        lemma_lex_from_total(a, b, i + 1);
    }
}

/// Two distinct names compare one way or the other.
pub proof fn lemma_lex_lt_total(a: Seq<char>, b: Seq<char>)
    ensures
        a == b || lex_lt(a, b) || lex_lt(b, a),
{
    lemma_lex_from_total(a, b, 0);
}

proof fn lemma_lex_from_asym(a: Seq<char>, b: Seq<char>, i: int)
    requires
        0 <= i,
        lex_lt_from(a, b, i),
    ensures
        !lex_lt_from(b, a, i),
    decreases a.len() - i,
{
    if i < a.len() && i < b.len() && a[i] == b[i] {
        lemma_lex_from_asym(a, b, i + 1);
    }
}

/// The order is strict: it never holds both ways, and never of a name
/// and itself.
pub proof fn lemma_lex_lt_asym(a: Seq<char>, b: Seq<char>)
    ensures
        lex_lt(a, b) ==> !lex_lt(b, a),
        !lex_lt(a, a),
{
    if lex_lt(a, b) {
        lemma_lex_from_asym(a, b, 0);
    }
    if lex_lt(a, a) {
        lemma_lex_from_asym(a, a, 0);
    }
}

/// Compares two names in the lexicographic order, character by
/// character.
pub fn str_lex_lt(a: &str, b: &str) -> (r: bool)
    ensures
        r == lex_lt(a@, b@),
{
    let alen = a.unicode_len();
    let blen = b.unicode_len();
    let mut i: usize = 0;
    while i < alen && i < blen
        invariant
            alen == a@.len(),
            blen == b@.len(),
            i <= alen,
            i <= blen,
            lex_lt(a@, b@) == lex_lt_from(a@, b@, i as int),
        decreases alen - i,
    {
        let ca = a.get_char(i);
        let cb = b.get_char(i);
        if ca != cb {
            return (ca as u32) < (cb as u32);
        }
        i = i + 1;
    }
    i < blen
}

proof fn lemma_lex_from_trans(a: Seq<char>, b: Seq<char>, c: Seq<char>, i: int)
    requires
        0 <= i,
        lex_lt_from(a, b, i),
        lex_lt_from(b, c, i),
    ensures
        lex_lt_from(a, c, i),
    decreases a.len() - i,
{
    if i < a.len() && i < b.len() && a[i] == b[i] && i < c.len() && b[i] == c[i] {
        lemma_lex_from_trans(a, b, c, i + 1);
    }
}

/// The order is transitive.
pub proof fn lemma_lex_lt_trans(a: Seq<char>, b: Seq<char>, c: Seq<char>)
    requires
        lex_lt(a, b),
        lex_lt(b, c),
    ensures
        lex_lt(a, c),
{
    lemma_lex_from_trans(a, b, c, 0);
}

/// Whether every key occurs at most once in an association sequence.
pub open spec fn unique_keys<V>(s: Seq<(Seq<char>, V)>) -> bool {
    forall|i: int, j: int| 0 <= i < j < s.len() ==> s[i].0 != s[j].0
}

/// Whether some entry of an association sequence has key `k`.
pub open spec fn has_key<V>(s: Seq<(Seq<char>, V)>, k: Seq<char>) -> bool {
    exists|i: int| 0 <= i < s.len() && s[i].0 == k
}

/// Whether the keys of an association sequence are strictly sorted in
/// the lexicographic order. Strict sortedness also makes every key
/// unique.
pub open spec fn sorted_keys<V>(s: Seq<(Seq<char>, V)>) -> bool {
    forall|i: int, j: int|
        0 <= i < j < s.len() ==> lex_lt((#[trigger] s[i]).0, (#[trigger] s[j]).0)
}

/// Inserts an entry into an association sequence just before the first
/// key that is not below the entry's key: on a sorted sequence with a
/// fresh key this is the sorted position.
pub open spec fn sorted_insert<V>(
    s: Seq<(Seq<char>, V)>,
    e: (Seq<char>, V),
) -> Seq<(Seq<char>, V)>
    decreases s.len(),
{
    if s.len() == 0 {
        seq![e]
    } else if lex_lt(s.last().0, e.0) {
        s.push(e)
    } else {
        sorted_insert(s.drop_last(), e).push(s.last())
    }
}

/// Where the scan facts pin the position down, `sorted_insert` is an
/// insertion at that position.
pub proof fn lemma_sorted_insert_at<V>(s: Seq<(Seq<char>, V)>, e: (Seq<char>, V), i: int)
    requires
        0 <= i <= s.len(),
        forall|j: int| 0 <= j < i ==> lex_lt((#[trigger] s[j]).0, e.0),
        forall|j: int| i <= j < s.len() ==> lex_lt(e.0, (#[trigger] s[j]).0),
    ensures
        sorted_insert(s, e) == s.insert(i, e),
    decreases s.len(),
{
    if s.len() == 0 {
        assert(sorted_insert(s, e) =~= s.insert(0, e));
    } else if i == s.len() {
        assert(lex_lt(s[s.len() - 1].0, e.0));
        assert(s.push(e) =~= s.insert(i, e));
    } else {
        assert(lex_lt(e.0, s[s.len() - 1].0));
        lemma_lex_lt_asym(e.0, s[s.len() - 1].0);
        let s0 = s.drop_last();
        assert(forall|j: int| 0 <= j < s0.len() ==> s0[j] == s[j]);
        lemma_sorted_insert_at(s0, e, i);
        assert(s0.insert(i, e).push(s.last()) =~= s.insert(i, e)) by {
            s0.insert_ensures(i, e);
            s.insert_ensures(i, e);
        }
    }
}

/// What a sorted scan establishes: when every key before `i` is below
/// the fresh key and the key at `i` (if any) is neither below nor equal
/// to it, the key is absent, `sorted_insert` lands exactly at `i`, and
/// the result is sorted with unique keys.
pub proof fn lemma_sorted_scan_insert<V>(s: Seq<(Seq<char>, V)>, e: (Seq<char>, V), i: int)
    requires
        sorted_keys(s),
        0 <= i <= s.len(),
        forall|j: int| 0 <= j < i ==> lex_lt((#[trigger] s[j]).0, e.0),
        i < s.len() ==> !lex_lt(s[i].0, e.0) && s[i].0 != e.0,
    ensures
        !has_key(s, e.0),
        sorted_insert(s, e) == s.insert(i, e),
        sorted_keys(s.insert(i, e)),
        unique_keys(s.insert(i, e)),
        s.insert(i, e).len() == s.len() + 1,
{
    if i < s.len() {
        lemma_lex_lt_total(e.0, s[i].0);
        assert(lex_lt(e.0, s[i].0));
    }
    assert forall|j: int| i <= j < s.len() implies lex_lt(e.0, (#[trigger] s[j]).0) by {
        if j > i {
            lemma_lex_lt_trans(e.0, s[i].0, s[j].0);
        }
    }
    assert(!has_key(s, e.0)) by {
        if has_key(s, e.0) {
            let j = choose|j: int| 0 <= j < s.len() && s[j].0 == e.0;
            lemma_lex_lt_asym(e.0, e.0);
            if j < i {
                assert(lex_lt(s[j].0, e.0));
            } else {
                assert(lex_lt(e.0, s[j].0));
            }
        }
    }
    lemma_sorted_insert_at(s, e, i);
    let t = s.insert(i, e);
    s.insert_ensures(i, e);
    assert forall|x: int, y: int| 0 <= x < y < t.len() implies lex_lt(
        (#[trigger] t[x]).0,
        (#[trigger] t[y]).0,
    ) by {
        if x == i {
            assert(t[y] == s[y - 1]);
        } else if y == i {
            assert(t[x] == s[x]);
        } else if x < i && y > i {
            assert(t[x] == s[x] && t[y] == s[y - 1]);
            if x == y - 1 {
                assert(lex_lt(s[x].0, e.0) && lex_lt(e.0, s[y - 1].0));
            }
        }
    }
    assert forall|x: int, y: int| 0 <= x < y < t.len() implies (#[trigger] t[x]).0 != (
    #[trigger] t[y]).0 by {
        assert(lex_lt(t[x].0, t[y].0));
        lemma_lex_lt_asym(t[x].0, t[x].0);
    }
}

/// The entries of a sorted insertion: one more than before, each either
/// the fresh entry or one of the old ones, and a key is present exactly
/// when it was present or is the fresh one.
pub proof fn lemma_sorted_insert_props<V>(s: Seq<(Seq<char>, V)>, e: (Seq<char>, V))
    ensures
        sorted_insert(s, e).len() == s.len() + 1,
        forall|x: int|
            0 <= x < sorted_insert(s, e).len() ==> ((#[trigger] sorted_insert(s, e)[x]) == e
                || exists|j: int| 0 <= j < s.len() && s[j] == sorted_insert(s, e)[x]),
        forall|k: Seq<char>|
            #[trigger] has_key(sorted_insert(s, e), k) <==> (has_key(s, k) || k == e.0),
    decreases s.len(),
{
    let t = sorted_insert(s, e);
    if s.len() == 0 {
        assert(t == seq![e]);
        assert(t[0] == e);
        assert forall|k: Seq<char>| #[trigger] has_key(t, k) <==> (has_key(s, k) || k == e.0) by {
            if k == e.0 {
                assert(t[0].0 == k);
            }
            if has_key(t, k) {
                let x = choose|x: int| 0 <= x < t.len() && t[x].0 == k;
                assert(t[x] == e);
            }
        }
    } else if lex_lt(s.last().0, e.0) {
        assert(t == s.push(e));
        assert forall|x: int|
            0 <= x < t.len() implies ((#[trigger] t[x]) == e || exists|j: int|
            0 <= j < s.len() && s[j] == t[x]) by {
            if x < s.len() {
                assert(s[x] == t[x]);
            }
        }
        assert forall|k: Seq<char>| #[trigger] has_key(t, k) <==> (has_key(s, k) || k == e.0) by {
            if has_key(t, k) {
                let x = choose|x: int| 0 <= x < t.len() && t[x].0 == k;
                if x < s.len() {
                    assert(s[x].0 == k);
                }
            }
            if has_key(s, k) {
                let x = choose|x: int| 0 <= x < s.len() && s[x].0 == k;
                assert(t[x].0 == k);
            }
            if k == e.0 {
                assert(t[s.len() as int].0 == k);
            }
        }
    } else {
        let s0 = s.drop_last();
        let l = s.last();
        lemma_sorted_insert_props(s0, e);
        let t0 = sorted_insert(s0, e);
        assert(t == t0.push(l));
        assert(forall|j: int| 0 <= j < s0.len() ==> s0[j] == s[j]);
        assert forall|x: int|
            0 <= x < t.len() implies ((#[trigger] t[x]) == e || exists|j: int|
            0 <= j < s.len() && s[j] == t[x]) by {
            if x < t0.len() {
                assert(t[x] == t0[x]);
                if t0[x] != e {
                    let j = choose|j: int| 0 <= j < s0.len() && s0[j] == t0[x];
                    assert(s[j] == t[x]);
                }
            } else {
                assert(t[x] == l);
                assert(s[s.len() - 1] == t[x]);
            }
        }
        assert forall|k: Seq<char>| #[trigger] has_key(t, k) <==> (has_key(s, k) || k == e.0) by {
            if has_key(t, k) {
                let x = choose|x: int| 0 <= x < t.len() && t[x].0 == k;
                if x < t0.len() {
                    assert(t0[x].0 == k);
                    assert(has_key(t0, k));
                    if has_key(s0, k) {
                        let j = choose|j: int| 0 <= j < s0.len() && s0[j].0 == k;
                        assert(s[j].0 == k);
                    }
                } else {
                    assert(s[s.len() - 1].0 == k);
                }
            }
            if has_key(s, k) {
                let j = choose|j: int| 0 <= j < s.len() && s[j].0 == k;
                if j < s0.len() {
                    assert(s0[j].0 == k);
                    assert(has_key(t0, k));
                    let x = choose|x: int| 0 <= x < t0.len() && t0[x].0 == k;
                    assert(t[x].0 == k);
                } else {
                    assert(t[t.len() - 1].0 == k);
                }
            }
            if k == e.0 {
                assert(has_key(t0, k));
                let x = choose|x: int| 0 <= x < t0.len() && t0[x].0 == k;
                assert(t[x].0 == k);
            }
        }
    }
}

/// Sorted insertion of a fresh key keeps the keys sorted.
pub proof fn lemma_sorted_insert_sorted<V>(s: Seq<(Seq<char>, V)>, e: (Seq<char>, V))
    requires
        sorted_keys(s),
        !has_key(s, e.0),
    ensures
        sorted_keys(sorted_insert(s, e)),
    decreases s.len(),
{
    let t = sorted_insert(s, e);
    assert(forall|j: int| 0 <= j < s.len() ==> (#[trigger] s[j]).0 != e.0);
    if s.len() == 0 {
    } else if lex_lt(s.last().0, e.0) {
        assert forall|x: int, y: int| 0 <= x < y < t.len() implies lex_lt(
            (#[trigger] t[x]).0,
            (#[trigger] t[y]).0,
        ) by {
            if y < s.len() {
                assert(t[x] == s[x] && t[y] == s[y]);
            } else {
                assert(t[x] == s[x] && t[y] == e);
                if x < s.len() - 1 {
                    lemma_lex_lt_trans(s[x].0, s[s.len() - 1].0, e.0);
                }
            }
        }
    } else {
        let s0 = s.drop_last();
        let l = s.last();
        assert(forall|j: int| 0 <= j < s0.len() ==> s0[j] == s[j]);
        assert(!has_key(s0, e.0)) by {
            if has_key(s0, e.0) {
                let j = choose|j: int| 0 <= j < s0.len() && s0[j].0 == e.0;
                assert(s[j].0 == e.0);
            }
        }
        lemma_sorted_insert_sorted(s0, e);
        lemma_sorted_insert_props(s0, e);
        let t0 = sorted_insert(s0, e);
        assert(s[s.len() - 1].0 != e.0);
        lemma_lex_lt_total(s.last().0, e.0);
        assert(lex_lt(e.0, l.0));
        assert forall|x: int| 0 <= x < t0.len() implies lex_lt((#[trigger] t0[x]).0, l.0) by {
            if t0[x] == e {
            } else {
                let j = choose|j: int| 0 <= j < s0.len() && s0[j] == t0[x];
                assert(lex_lt(s[j].0, s[s.len() - 1].0));
            }
        }
        assert forall|x: int, y: int| 0 <= x < y < t.len() implies lex_lt(
            (#[trigger] t[x]).0,
            (#[trigger] t[y]).0,
        ) by {
            if y < t0.len() {
                assert(t[x] == t0[x] && t[y] == t0[y]);
            } else {
                assert(t[x] == t0[x] && t[y] == l);
            }
        }
    }
}

/// Sorted insertion of a fresh key keeps keys unique.
pub proof fn lemma_sorted_insert_unique<V>(s: Seq<(Seq<char>, V)>, e: (Seq<char>, V))
    requires
        unique_keys(s),
        !has_key(s, e.0),
    ensures
        unique_keys(sorted_insert(s, e)),
    decreases s.len(),
{
    let t = sorted_insert(s, e);
    assert(forall|j: int| 0 <= j < s.len() ==> (#[trigger] s[j]).0 != e.0);
    if s.len() == 0 {
    } else if lex_lt(s.last().0, e.0) {
        assert(forall|x: int| 0 <= x < s.len() ==> t[x] == s[x]);
        assert(t[s.len() as int] == e);
    } else {
        let s0 = s.drop_last();
        let l = s.last();
        assert(forall|j: int| 0 <= j < s0.len() ==> s0[j] == s[j]);
        assert(!has_key(s0, e.0)) by {
            if has_key(s0, e.0) {
                let j = choose|j: int| 0 <= j < s0.len() && s0[j].0 == e.0;
                assert(s[j].0 == e.0);
            }
        }
        lemma_sorted_insert_unique(s0, e);
        lemma_sorted_insert_props(s0, e);
        let t0 = sorted_insert(s0, e);
        assert forall|x: int| 0 <= x < t0.len() implies (#[trigger] t0[x]).0 != l.0 by {
            if t0[x].0 == l.0 {
                assert(has_key(t0, l.0));
                assert(s[s.len() - 1].0 == l.0);
                if has_key(s0, l.0) {
                    let j = choose|j: int| 0 <= j < s0.len() && s0[j].0 == l.0;
                    assert(s[j].0 == s[s.len() - 1].0);
                }
            }
        }
        assert forall|x: int, y: int| 0 <= x < y < t.len() implies (#[trigger] t[x]).0 != (
        #[trigger] t[y]).0 by {
            if y < t0.len() {
                assert(t[x] == t0[x] && t[y] == t0[y]);
            } else {
                assert(t[y] == l && t[x] == t0[x]);
            }
        }
    }
}

} // verus!
