//! Properties of the least-recently-used cache, stated over its model and proved.
use vstd::prelude::*;

use crate::model::{after_get, after_set, has_key, key_index, keys_of, keys_unique, store_of, touched};
use crate::model::{lemma_after_get, lemma_after_set, lemma_key_index, lemma_touched, lemma_without_key};

verus! {

/// The entries after the writes `ops`, applied in order from `s`.
pub open spec fn after_sets<K, V>(s: Seq<(K, V)>, ops: Seq<(K, V)>, cap: nat) -> Seq<(K, V)>
    decreases ops.len(),
{
    if ops.len() == 0 {
        s
    } else {
        let prev = after_sets(s, ops.drop_last(), cap);
        after_set(prev, ops.last().0, ops.last().1, cap)
    }
}

/// However many writes are made, a cache never holds more entries than its
/// capacity, and never a key twice.
pub proof fn lemma_writes_stay_within_capacity<K, V>(s: Seq<(K, V)>, ops: Seq<(K, V)>, cap: nat)
    requires
        keys_unique(s),
        s.len() <= cap,
        cap >= 1,
    ensures
        after_sets(s, ops, cap).len() <= cap,
        keys_unique(after_sets(s, ops, cap)),
    decreases ops.len(),
{
    if ops.len() > 0 {
        lemma_writes_stay_within_capacity(s, ops.drop_last(), cap);
        lemma_after_set(after_sets(s, ops.drop_last(), cap), ops.last().0, ops.last().1, cap);
    }
}

/// The recency order holds exactly the keys of the store, each once.
pub proof fn lemma_recency_matches_store<K, V>(s: Seq<(K, V)>)
    requires
        keys_unique(s),
    ensures
        keys_of(s).no_duplicates(),
        keys_of(s).to_set() == store_of(s).dom(),
{
    let ks = keys_of(s);
    assert forall|k: K| ks.contains(k) <==> has_key(s, k) by {
        if ks.contains(k) {
            let i = choose|i: int| 0 <= i < ks.len() && ks[i] == k;
            assert(s[i].0 == k);
        }
        if has_key(s, k) {
            let i = choose|i: int| 0 <= i < s.len() && s[i].0 == k;
            assert(ks[i] == k);
        }
    }
    assert(ks.to_set() =~= store_of(s).dom());
}

/// After a write or a read the recency order still holds exactly the keys of
/// the store, each once.
pub proof fn lemma_operations_keep_recency_consistent<K, V>(s: Seq<(K, V)>, k: K, v: V, cap: nat)
    requires
        keys_unique(s),
        s.len() <= cap,
        cap >= 1,
    ensures
        keys_of(after_set(s, k, v, cap)).no_duplicates(),
        keys_of(after_set(s, k, v, cap)).to_set() == store_of(after_set(s, k, v, cap)).dom(),
        keys_of(after_get(s, k)).no_duplicates(),
        keys_of(after_get(s, k)).to_set() == store_of(after_get(s, k)).dom(),
{
    lemma_after_set(s, k, v, cap);
    lemma_after_get(s, k);
    lemma_recency_matches_store(after_set(s, k, v, cap));
    lemma_recency_matches_store(after_get(s, k));
}

/// When a write of a new key overflows a full cache, exactly the least
/// recently used entry (the back) is evicted; every other entry stays, in its
/// order, behind the new one.
pub proof fn lemma_overflow_evicts_least_recent<K, V>(s: Seq<(K, V)>, k: K, v: V, cap: nat)
    requires
        keys_unique(s),
        s.len() == cap,
        cap >= 1,
        !has_key(s, k),
    ensures
        after_set(s, k, v, cap) == seq![(k, v)] + s.drop_last(),
        !has_key(after_set(s, k, v, cap), s.last().0),
        forall|j: K| j != s.last().0 && has_key(s, j) ==> has_key(after_set(s, k, v, cap), j),
        has_key(after_set(s, k, v, cap), k),
{
    lemma_without_key(s, k);
    let t = after_set(s, k, v, cap);
    assert(t =~= seq![(k, v)] + s.drop_last());
    let back = s.last().0;
    if has_key(t, back) {
        let a = choose|a: int| 0 <= a < t.len() && t[a].0 == back;
        if a == 0 {
            assert(s[s.len() - 1].0 == k);
        } else {
            assert(t[a] == s[a - 1]);
        }
    }
    assert forall|j: K| j != back && has_key(s, j) implies has_key(t, j) by {
        let a = choose|a: int| 0 <= a < s.len() && s[a].0 == j;
        assert(a != s.len() - 1);
        assert(t[a + 1] == s[a]);
    }
    assert(t[0].0 == k);
}

/// Writing the same value under the same key twice leaves the entries as the
/// first write left them: the value stored, and the key the most recently used.
pub proof fn lemma_repeated_write<K, V>(s: Seq<(K, V)>, k: K, v: V, cap: nat)
    requires
        keys_unique(s),
        s.len() <= cap,
        cap >= 1,
    ensures
        after_set(after_set(s, k, v, cap), k, v, cap) == after_set(s, k, v, cap),
        after_set(s, k, v, cap)[0] == (k, v),
        store_of(after_set(s, k, v, cap)).contains_key(k),
        store_of(after_set(s, k, v, cap))[k] == v,
{
    let t = after_set(s, k, v, cap);
    lemma_after_set(s, k, v, cap);
    lemma_key_index(t, 0);
    lemma_without_key(t, k);
    assert(touched(t, k, v) =~= t);
}

/// Reading an absent key changes nothing.
pub proof fn lemma_absent_read_changes_nothing<K, V>(s: Seq<(K, V)>, k: K)
    requires
        !has_key(s, k),
    ensures
        after_get(s, k) == s,
        !store_of(s).contains_key(k),
{
}

/// The keys written by `ops` are pairwise distinct and none is in `s`.
pub open spec fn fresh_writes<K, V>(s: Seq<(K, V)>, ops: Seq<(K, V)>) -> bool {
    &&& keys_unique(ops)
    &&& forall|i: int| 0 <= i < ops.len() ==> !has_key(s, #[trigger] ops[i].0)
}

/// Writes of new keys that fit in the capacity evict nothing: they stand in
/// front of the earlier entries, which keep their order.
proof fn lemma_fresh_writes_prepend<K, V>(s: Seq<(K, V)>, ops: Seq<(K, V)>, cap: nat)
    requires
        keys_unique(s),
        fresh_writes(s, ops),
        s.len() + ops.len() <= cap,
    ensures
        keys_unique(after_sets(s, ops, cap)),
        after_sets(s, ops, cap).len() == s.len() + ops.len(),
        after_sets(s, ops, cap).subrange(ops.len() as int, (s.len() + ops.len()) as int) == s,
        forall|j: K| has_key(after_sets(s, ops, cap), j) <==> (has_key(s, j) || has_key(ops, j)),
    decreases ops.len(),
{
    if ops.len() > 0 {
        let front = ops.drop_last();
        assert(fresh_writes(s, front)) by {
            assert forall|i: int| 0 <= i < front.len() implies !has_key(s, #[trigger] front[i].0) by {
                assert(front[i] == ops[i]);
            }
        }
        lemma_fresh_writes_prepend(s, front, cap);
        let r = after_sets(s, front, cap);
        let o = ops.last();
        assert(!has_key(front, o.0)) by {
            if has_key(front, o.0) {
                let a = choose|a: int| 0 <= a < front.len() && front[a].0 == o.0;
                assert(ops[a] == front[a]);
            }
        }
        assert(!has_key(s, ops[ops.len() - 1].0));
        assert(!has_key(r, o.0));
        lemma_touched(r, o.0, o.1);
        lemma_without_key(r, o.0);
        let t = after_sets(s, ops, cap);
        assert(t =~= seq![o] + r);
        assert(t.subrange(ops.len() as int, (s.len() + ops.len()) as int) =~= r.subrange(front.len() as int, (s.len() + front.len()) as int));
        assert forall|j: K| has_key(ops, j) <==> (has_key(front, j) || j == o.0) by {
            if has_key(ops, j) && j != o.0 {
                let a = choose|a: int| 0 <= a < ops.len() && ops[a].0 == j;
                assert(front[a] == ops[a]);
            }
            if has_key(front, j) {
                let a = choose|a: int| 0 <= a < front.len() && front[a].0 == j;
                assert(front[a] == ops[a]);
            }
            if j == o.0 {
                assert(ops[ops.len() - 1].0 == j);
            }
        }
    }
}

/// A key just read survives when new keys are then written until exactly one
/// entry is evicted, provided another entry is there to evict; the evicted one
/// is the least recently used after the read.
pub proof fn lemma_read_survives_fresh_writes<K, V>(s: Seq<(K, V)>, k: K, ops: Seq<(K, V)>, cap: nat)
    requires
        keys_unique(s),
        s.len() <= cap,
        s.len() >= 2,
        has_key(s, k),
        fresh_writes(s, ops),
        ops.len() == cap - s.len() + 1,
    ensures
        after_sets(after_get(s, k), ops, cap).len() == cap,
        has_key(after_sets(after_get(s, k), ops, cap), k),
        !has_key(after_sets(after_get(s, k), ops, cap), after_get(s, k).last().0),
{
    let g = after_get(s, k);
    lemma_after_get(s, k);
    lemma_touched(s, k, s[key_index(s, k)].1);
    assert(fresh_writes(g, ops));
    let front = ops.drop_last();
    assert(fresh_writes(g, front)) by {
        assert(keys_unique(front));
        assert forall|i: int| 0 <= i < front.len() implies !has_key(g, #[trigger] front[i].0) by {
            assert(front[i] == ops[i]);
        }
    }
    lemma_fresh_writes_prepend(g, front, cap);
    let r = after_sets(g, front, cap);
    let o = ops.last();
    assert(!has_key(front, o.0)) by {
        if has_key(front, o.0) {
            let a = choose|a: int| 0 <= a < front.len() && front[a].0 == o.0;
            assert(ops[a] == front[a]);
        }
    }
    assert(!has_key(g, ops[ops.len() - 1].0));
    assert(!has_key(r, o.0));
    let n = front.len() as int;
    assert(r[n] == g[0]) by {
        assert(r.subrange(n, g.len() + n)[0] == g[0]);
    }
    assert(r.last() == g.last()) by {
        assert(r.subrange(n, g.len() + n)[g.len() - 1] == g[g.len() - 1]);
    }
    assert(g.last().0 != k) by {
        assert(g[0].0 == k);
    }
    assert(r[n].0 == k);
    lemma_overflow_evicts_least_recent(r, o.0, o.1, cap);
}

} // verus!
