//! Association lists at the specification level: lookup with
//! first-match-wins semantics, shared by dictionaries (string keys)
//! and object graphs (identity keys).

use vstd::prelude::*;

verus! {

/// The value bound to `k`, if any: the first matching entry wins.
pub open spec fn assoc_lookup<K, V>(s: Seq<(K, V)>, k: K) -> Option<V>
    decreases s.len(),
{
    if s.len() == 0 {
        None
    } else if s[0].0 == k {
        Some(s[0].1)
    } else {
        assoc_lookup(s.skip(1), k)
    }
}

/// Whether some entry binds `k`.
pub open spec fn assoc_has<K, V>(s: Seq<(K, V)>, k: K) -> bool {
    exists|j: int| 0 <= j < s.len() && s[j].0 == k
}

/// The index of the first entry bound to `k`; meaningful only when
/// some entry has that key.
pub open spec fn assoc_first_index<K, V>(s: Seq<(K, V)>, k: K) -> int
    decreases s.len(),
{
    if s.len() == 0 {
        0
    } else if s[0].0 == k {
        0
    } else {
        1 + assoc_first_index(s.skip(1), k)
    }
}

/// The entry list after binding `k` to `v`: the first entry for `k`
/// is replaced, or, with no such entry, one entry is appended.
pub open spec fn assoc_set<K, V>(s: Seq<(K, V)>, k: K, v: V) -> Seq<(K, V)> {
    if assoc_has(s, k) {
        s.update(assoc_first_index(s, k), (k, v))
    } else {
        s.push((k, v))
    }
}

/// Lookup finds exactly the first matching entry: when no entry
/// matches it is `None`; otherwise `assoc_first_index` points at the
/// first match and lookup returns its value.
pub proof fn lemma_assoc_characterization<K, V>(s: Seq<(K, V)>, k: K)
    ensures
        !assoc_has(s, k) ==> assoc_lookup(s, k) is None,
        assoc_has(s, k) ==> {
            let j = assoc_first_index(s, k);
            &&& 0 <= j < s.len()
            &&& s[j].0 == k
            &&& forall|l: int| 0 <= l < j ==> s[l].0 != k
            &&& assoc_lookup(s, k) == Some(s[j].1)
        },
    decreases s.len(),
{
    if s.len() > 0 {
        let t = s.skip(1);
        lemma_assoc_characterization(t, k);
        assert(forall|l: int| 0 <= l < t.len() ==> t[l] == s[l + 1]);
        if s[0].0 == k {
            assert(assoc_has(s, k));
            assert(assoc_first_index(s, k) == 0);
        } else {
            if assoc_has(s, k) {
                let w = choose|w: int| 0 <= w < s.len() && s[w].0 == k;
                assert(t[w - 1].0 == k);
                assert(assoc_has(t, k));
                let jt = assoc_first_index(t, k);
                assert(assoc_first_index(s, k) == 1 + jt);
                assert(s[1 + jt].0 == k);
                assert forall|l: int| 0 <= l < 1 + jt implies s[l].0 != k by {
                    if l > 0 {
                        assert(t[l - 1].0 != k);
                    }
                }
                assert(assoc_lookup(s, k) == assoc_lookup(t, k));
            } else {
                if assoc_has(t, k) {
                    let w = choose|w: int| 0 <= w < t.len() && t[w].0 == k;
                    assert(s[w + 1].0 == k);
                    assert(assoc_has(s, k));
                }
                assert(!assoc_has(t, k));
                assert(assoc_lookup(s, k) == assoc_lookup(t, k));
            }
        }
    }
}

/// Lookup of `k` does not see entries whose keys differ from it, when
/// both lists agree on keys everywhere and on whole entries wherever
/// the key is `k`.
proof fn lemma_assoc_lookup_same_keys<K, V>(a: Seq<(K, V)>, b: Seq<(K, V)>, k: K)
    requires
        a.len() == b.len(),
        forall|j: int| 0 <= j < a.len() ==> a[j].0 == b[j].0,
        forall|j: int| 0 <= j < a.len() ==> (a[j].0 == k ==> a[j] == b[j]),
    ensures
        assoc_lookup(a, k) == assoc_lookup(b, k),
    decreases a.len(),
{
    if a.len() > 0 {
        assert(forall|j: int| 0 <= j < a.skip(1).len() ==> a.skip(1)[j] == a[j + 1]);
        assert(forall|j: int| 0 <= j < b.skip(1).len() ==> b.skip(1)[j] == b[j + 1]);
        lemma_assoc_lookup_same_keys(a.skip(1), b.skip(1), k);
    }
}

/// Appending an entry for a different key leaves lookup unchanged.
proof fn lemma_assoc_lookup_push_other<K, V>(s: Seq<(K, V)>, e: (K, V), k: K)
    requires
        e.0 != k,
    ensures
        assoc_lookup(s.push(e), k) == assoc_lookup(s, k),
    decreases s.len(),
{
    let p = s.push(e);
    assert(p.len() == s.len() + 1);
    if s.len() == 0 {
        assert(p[0] == e);
        assert(p.skip(1) =~= Seq::<(K, V)>::empty());
        assert(assoc_lookup(p, k) == assoc_lookup(p.skip(1), k));
        assert(assoc_lookup(p.skip(1), k) is None);
        assert(assoc_lookup(s, k) is None);
    } else {
        assert(p[0] == s[0]);
        if s[0].0 == k {
            assert(assoc_lookup(p, k) == Some(p[0].1));
            assert(assoc_lookup(s, k) == Some(s[0].1));
        } else {
            assert(p.skip(1) =~= s.skip(1).push(e));
            lemma_assoc_lookup_push_other(s.skip(1), e, k);
            assert(assoc_lookup(p, k) == assoc_lookup(p.skip(1), k));
            assert(assoc_lookup(s, k) == assoc_lookup(s.skip(1), k));
        }
    }
}

/// After `assoc_set`, looking `k` up finds the new value; every other
/// key reads as before.
pub proof fn lemma_assoc_set<K, V>(s: Seq<(K, V)>, k: K, v: V)
    ensures
        assoc_lookup(assoc_set(s, k, v), k) == Some(v),
        assoc_has(assoc_set(s, k, v), k),
        forall|k2: K| k2 != k ==> assoc_lookup(assoc_set(s, k, v), k2) == assoc_lookup(s, k2),
        forall|k2: K| k2 != k ==> assoc_has(assoc_set(s, k, v), k2) == assoc_has(s, k2),
        assoc_set(s, k, v).len() == if assoc_has(s, k) {
            s.len()
        } else {
            s.len() + 1
        },
    decreases s.len(),
{
    let ns = assoc_set(s, k, v);
    lemma_assoc_characterization(s, k);
    if assoc_has(s, k) {
        let j = assoc_first_index(s, k);
        assert(ns[j].0 == k);
        assert(assoc_has(ns, k));
        lemma_assoc_characterization(ns, k);
        let j2 = assoc_first_index(ns, k);
        assert(forall|l: int| 0 <= l < j ==> ns[l] == s[l]);
        assert(j2 == j);
        assert(assoc_lookup(ns, k) == Some(v));
        assert forall|k2: K| k2 != k implies assoc_lookup(ns, k2) == assoc_lookup(s, k2) by {
            lemma_assoc_lookup_same_keys(s, ns, k2);
        }
        assert forall|k2: K| k2 != k implies assoc_has(ns, k2) == assoc_has(s, k2) by {
            if assoc_has(s, k2) {
                let w = choose|w: int| 0 <= w < s.len() && s[w].0 == k2;
                assert(ns[w].0 == k2);
            }
            if assoc_has(ns, k2) {
                let w = choose|w: int| 0 <= w < ns.len() && ns[w].0 == k2;
                assert(s[w].0 == k2);
            }
        }
    } else {
        assert(ns == s.push((k, v)));
        assert(ns[s.len() as int].0 == k);
        assert(assoc_has(ns, k));
        lemma_assoc_characterization(ns, k);
        assert(forall|l: int| 0 <= l < s.len() ==> ns[l] == s[l]);
        assert(assoc_first_index(ns, k) == s.len());
        assert(assoc_lookup(ns, k) == Some(v));
        assert forall|k2: K| k2 != k implies assoc_lookup(ns, k2) == assoc_lookup(s, k2) by {
            lemma_assoc_lookup_push_other(s, (k, v), k2);
        }
        assert forall|k2: K| k2 != k implies assoc_has(ns, k2) == assoc_has(s, k2) by {
            if assoc_has(s, k2) {
                let w = choose|w: int| 0 <= w < s.len() && s[w].0 == k2;
                assert(ns[w].0 == k2);
            }
            if assoc_has(ns, k2) {
                let w = choose|w: int| 0 <= w < ns.len() && ns[w].0 == k2;
                assert(w < s.len());
                assert(s[w].0 == k2);
            }
        }
    }
}

/// Distinct keys, entrywise: no two entries bind the same key.
pub open spec fn assoc_unique<K, V>(s: Seq<(K, V)>) -> bool {
    forall|i: int, j: int| 0 <= i < j < s.len() ==> s[i].0 != s[j].0
}

/// In a list with distinct keys, every entry is found by lookup.
pub proof fn lemma_assoc_unique_lookup<K, V>(s: Seq<(K, V)>, j: int)
    requires
        assoc_unique(s),
        0 <= j < s.len(),
    ensures
        assoc_lookup(s, s[j].0) == Some(s[j].1),
{
    lemma_assoc_characterization(s, s[j].0);
    assert(assoc_has(s, s[j].0));
    let j2 = assoc_first_index(s, s[j].0);
    assert(s[j2].0 == s[j].0);
    assert(j2 == j);
}


/// The entry list with every entry for `k` removed.
pub open spec fn assoc_remove<K, V>(s: Seq<(K, V)>, k: K) -> Seq<(K, V)> {
    s.filter(|e: (K, V)| e.0 != k)
}

/// Every element of a filtered sequence appears in the sequence it
/// was filtered from.
pub proof fn lemma_filter_elem_member<A>(s: Seq<A>, pred: spec_fn(A) -> bool, i: int)
    requires
        0 <= i < s.filter(pred).len(),
    ensures
        exists|w: int| 0 <= w < s.len() && s[w] == s.filter(pred)[i],
    decreases s.len(),
{
    reveal(Seq::filter);
    if s.len() > 0 {
        let fl = s.filter(pred);
        let fd = s.drop_last().filter(pred);
        if pred(s.last()) {
            if i < fd.len() {
                lemma_filter_elem_member(s.drop_last(), pred, i);
                let w = choose|w: int| 0 <= w < s.drop_last().len() && s.drop_last()[w] == fd[i];
                assert(s[w] == s.drop_last()[w]);
                assert(fl[i] == fd[i]);
            } else {
                assert(fl[i] == s.last());
                assert(s[s.len() - 1] == s.last());
            }
        } else {
            lemma_filter_elem_member(s.drop_last(), pred, i);
            let w = choose|w: int| 0 <= w < s.drop_last().len() && s.drop_last()[w] == fd[i];
            assert(s[w] == s.drop_last()[w]);
        }
    }
}

/// Filtering an entry list with distinct keys leaves distinct keys.
pub proof fn lemma_filter_preserves_unique<K, V>(s: Seq<(K, V)>, pred: spec_fn((K, V)) -> bool)
    requires
        assoc_unique(s),
    ensures
        assoc_unique(s.filter(pred)),
    decreases s.len(),
{
    reveal(Seq::filter);
    if s.len() > 0 {
        assert(forall|j: int| 0 <= j < s.drop_last().len() ==> s.drop_last()[j] == s[j]);
        lemma_filter_preserves_unique(s.drop_last(), pred);
        let fd = s.drop_last().filter(pred);
        if pred(s.last()) {
            let fl = s.filter(pred);
            assert(fl == fd.push(s.last()));
            assert forall|i1: int, i2: int|
                0 <= i1 < i2 < fl.len() implies fl[i1].0 != fl[i2].0 by {
                if i2 == fl.len() - 1 {
                    lemma_filter_elem_member(s.drop_last(), pred, i1);
                    let w = choose|w: int|
                        0 <= w < s.drop_last().len() && s.drop_last()[w] == fd[i1];
                    assert(s[w] == fl[i1]);
                    assert(s[w].0 != s[s.len() - 1].0);
                    assert(fl[i2] == s.last());
                } else {
                    assert(fl[i1] == fd[i1]);
                    assert(fl[i2] == fd[i2]);
                }
            }
        }
    }
}

} // verus!
