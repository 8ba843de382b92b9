//! Mathematical model of a cache's contents: a sequence of key-value entries.
use vstd::prelude::*;

verus! {

/// No key occurs in two entries.
pub open spec fn keys_unique<K, V>(s: Seq<(K, V)>) -> bool {
    forall|i: int, j: int| 0 <= i < j < s.len() ==> s[i].0 != s[j].0
}

/// Some entry holds `k`.
pub open spec fn has_key<K, V>(s: Seq<(K, V)>, k: K) -> bool {
    exists|i: int| 0 <= i < s.len() && s[i].0 == k
}

/// The position of the entry that holds `k` (meaningful when `has_key(s, k)`).
pub open spec fn key_index<K, V>(s: Seq<(K, V)>, k: K) -> int {
    choose|i: int| 0 <= i < s.len() && s[i].0 == k
}

/// The keys of `s`, front to back.
pub open spec fn keys_of<K, V>(s: Seq<(K, V)>) -> Seq<K> {
    s.map_values(|e: (K, V)| e.0)
}

/// The key-value mapping that `s` stores.
pub open spec fn store_of<K, V>(s: Seq<(K, V)>) -> Map<K, V> {
    Map::new(|k: K| has_key(s, k), |k: K| s[key_index(s, k)].1)
}

/// `s` with the entry for `k` taken out, if there is one.
pub open spec fn without_key<K, V>(s: Seq<(K, V)>, k: K) -> Seq<(K, V)> {
    if has_key(s, k) {
        s.remove(key_index(s, k))
    } else {
        s
    }
}

/// `s` after `k` is given the value `v` and made the most recently used.
pub open spec fn touched<K, V>(s: Seq<(K, V)>, k: K, v: V) -> Seq<(K, V)> {
    seq![(k, v)] + without_key(s, k)
}

/// The entries of a cache of capacity `cap` after a write of `v` under `k`:
/// the key goes to the front, and the back entry leaves if the cache overflows.
pub open spec fn after_set<K, V>(s: Seq<(K, V)>, k: K, v: V, cap: nat) -> Seq<(K, V)> {
    let t = touched(s, k, v);
    if t.len() > cap {
        t.drop_last()
    } else {
        t
    }
}

/// The entries of a cache after a read of `k`: a present key goes to the
/// front with its value; an absent key changes nothing.
pub open spec fn after_get<K, V>(s: Seq<(K, V)>, k: K) -> Seq<(K, V)> {
    if has_key(s, k) {
        touched(s, k, s[key_index(s, k)].1)
    } else {
        s
    }
}

/// In a sequence with unique keys, the entry at `i` is the one `key_index` finds.
pub proof fn lemma_key_index<K, V>(s: Seq<(K, V)>, i: int)
    requires
        keys_unique(s),
        0 <= i < s.len(),
    ensures
        has_key(s, s[i].0),
        key_index(s, s[i].0) == i,
{
    let k = s[i].0;
    assert(has_key(s, k));
    let j = key_index(s, k);
    assert(s[j].0 == k);
}

/// Taking out the entry for `k` keeps the others, in order, and their keys unique.
pub proof fn lemma_without_key<K, V>(s: Seq<(K, V)>, k: K)
    requires
        keys_unique(s),
    ensures
        keys_unique(without_key(s, k)),
        !has_key(without_key(s, k), k),
        forall|j: K| j != k ==> (has_key(without_key(s, k), j) <==> has_key(s, j)),
        without_key(s, k).len() == if has_key(s, k) { s.len() - 1 } else { s.len() as int },
        has_key(s, k) ==> without_key(s, k) == s.remove(key_index(s, k)),
        !has_key(s, k) ==> without_key(s, k) == s,
{
    let w = without_key(s, k);
    if has_key(s, k) {
        let i = key_index(s, k);
        assert(s[i].0 == k);
        assert forall|a: int, b: int| 0 <= a < b < w.len() implies w[a].0 != w[b].0 by {
            let a2 = if a < i { a } else { a + 1 };
            let b2 = if b < i { b } else { b + 1 };
            assert(w[a] == s[a2]);
            assert(w[b] == s[b2]);
        }
        if has_key(w, k) {
            let a = choose|a: int| 0 <= a < w.len() && w[a].0 == k;
            let a2 = if a < i { a } else { a + 1 };
            assert(w[a] == s[a2]);
        }
        assert forall|j: K| j != k implies (has_key(w, j) <==> has_key(s, j)) by {
            if has_key(w, j) {
                let a = choose|a: int| 0 <= a < w.len() && w[a].0 == j;
                let a2 = if a < i { a } else { a + 1 };
                assert(w[a] == s[a2]);
            }
            if has_key(s, j) {
                let a = choose|a: int| 0 <= a < s.len() && s[a].0 == j;
                assert(a != i);
                let a2 = if a < i { a } else { a - 1 };
                assert(w[a2] == s[a]);
            }
        }
    }
}

/// Touching `k` keeps the keys unique and puts `(k, v)` in front.
pub proof fn lemma_touched<K, V>(s: Seq<(K, V)>, k: K, v: V)
    requires
        keys_unique(s),
    ensures
        keys_unique(touched(s, k, v)),
        touched(s, k, v)[0] == (k, v),
        touched(s, k, v).len() == if has_key(s, k) { s.len() as int } else { s.len() + 1int },
        forall|j: K| has_key(touched(s, k, v), j) <==> (j == k || has_key(s, j)),
{
    lemma_without_key(s, k);
    let w = without_key(s, k);
    let t = touched(s, k, v);
    assert forall|a: int, b: int| 0 <= a < b < t.len() implies t[a].0 != t[b].0 by {
        assert(t[b] == w[b - 1]);
        if a == 0 {
            assert(has_key(w, w[b - 1].0));
        } else {
            assert(t[a] == w[a - 1]);
        }
    }
    assert forall|j: K| has_key(t, j) <==> (j == k || has_key(s, j)) by {
        if has_key(t, j) && j != k {
            let a = choose|a: int| 0 <= a < t.len() && t[a].0 == j;
            assert(t[a] == w[a - 1]);
            assert(has_key(w, j));
        }
        if j == k {
            assert(t[0].0 == k);
        } else if has_key(s, j) {
            assert(has_key(w, j));
            let a = choose|a: int| 0 <= a < w.len() && w[a].0 == j;
            assert(t[a + 1] == w[a]);
        }
    }
}

/// A write keeps the keys unique and the entry count within the capacity.
pub proof fn lemma_after_set<K, V>(s: Seq<(K, V)>, k: K, v: V, cap: nat)
    requires
        keys_unique(s),
        s.len() <= cap,
        cap >= 1,
    ensures
        keys_unique(after_set(s, k, v, cap)),
        after_set(s, k, v, cap).len() <= cap,
        after_set(s, k, v, cap)[0] == (k, v),
{
    lemma_touched(s, k, v);
}

/// A read keeps the keys unique and the number of entries.
pub proof fn lemma_after_get<K, V>(s: Seq<(K, V)>, k: K)
    requires
        keys_unique(s),
    ensures
        keys_unique(after_get(s, k)),
        after_get(s, k).len() == s.len(),
{
    if has_key(s, k) {
        lemma_touched(s, k, s[key_index(s, k)].1);
    }
}

/// Overwriting the value of the entry for `k` writes `v` under `k` in the store.
pub proof fn lemma_store_update<K, V>(s: Seq<(K, V)>, i: int, k: K, v: V)
    requires
        keys_unique(s),
        0 <= i < s.len(),
        s[i].0 == k,
    ensures
        keys_unique(s.update(i, (k, v))),
        store_of(s.update(i, (k, v))) == store_of(s).insert(k, v),
{
    let t = s.update(i, (k, v));
    lemma_key_index(s, i);
    assert(keys_unique(t)) by {
        assert forall|a: int, b: int| 0 <= a < b < t.len() implies t[a].0 != t[b].0 by {
            assert(s[a].0 == t[a].0 && s[b].0 == t[b].0);
        }
    }
    assert forall|j: K| has_key(t, j) <==> has_key(s, j) by {
        if has_key(t, j) {
            let a = choose|a: int| 0 <= a < t.len() && t[a].0 == j;
            assert(s[a].0 == j);
        }
        if has_key(s, j) {
            let a = choose|a: int| 0 <= a < s.len() && s[a].0 == j;
            assert(t[a].0 == j);
        }
    }
    assert forall|j: K| has_key(t, j) implies t[key_index(t, j)].1 == store_of(s).insert(k, v)[j] by {
        let a = key_index(t, j);
        lemma_key_index(t, a);
        lemma_key_index(s, a);
    }
    assert(store_of(t) =~= store_of(s).insert(k, v));
}

/// Appending an entry for a new key `k` writes `v` under `k` in the store.
pub proof fn lemma_store_push<K, V>(s: Seq<(K, V)>, k: K, v: V)
    requires
        keys_unique(s),
        !has_key(s, k),
    ensures
        keys_unique(s.push((k, v))),
        store_of(s.push((k, v))) == store_of(s).insert(k, v),
{
    let t = s.push((k, v));
    assert(keys_unique(t)) by {
        assert forall|a: int, b: int| 0 <= a < b < t.len() implies t[a].0 != t[b].0 by {
            assert(t[a] == s[a]);
            if b < s.len() {
                assert(t[b] == s[b]);
            }
        }
    }
    assert forall|j: K| has_key(t, j) <==> (j == k || has_key(s, j)) by {
        if has_key(t, j) && j != k {
            let a = choose|a: int| 0 <= a < t.len() && t[a].0 == j;
            assert(s[a].0 == j);
        }
        if j == k {
            assert(t[s.len() as int].0 == k);
        } else if has_key(s, j) {
            let a = choose|a: int| 0 <= a < s.len() && s[a].0 == j;
            assert(t[a].0 == j);
        }
    }
    assert forall|j: K| has_key(t, j) implies t[key_index(t, j)].1 == store_of(s).insert(k, v)[j] by {
        let a = key_index(t, j);
        lemma_key_index(t, a);
        if a < s.len() {
            lemma_key_index(s, a);
        }
    }
    assert(store_of(t) =~= store_of(s).insert(k, v));
}

} // verus!
