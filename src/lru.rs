//! A fixed-capacity cache that evicts the least-recently-used entry.
use std::hash::Hash;
use vstd::laws_eq::obeys_concrete_eq;
use vstd::prelude::*;

use crate::model::{after_get, after_set, has_key, key_index, keys_unique};
use crate::model::{lemma_after_get, lemma_after_set, lemma_key_index, lemma_touched};

verus! {

/// A cache of at most `capacity` entries. Its entries are kept in recency
/// order, the most recently used at the front, each key once.
pub struct LRUCache<K, V> where K: Eq + Hash + Clone {
    capacity: usize,
    entries: Vec<(K, V)>,
}

impl<K, V> View for LRUCache<K, V> where K: Eq + Hash + Clone {
    type V = Seq<(K, V)>;

    /// The entries, most recently used first.
    closed spec fn view(&self) -> Seq<(K, V)> {
        self.entries@
    }
}

impl<K, V> LRUCache<K, V> where K: Eq + Hash + Clone {
    /// The capacity the cache was made with.
    pub closed spec fn spec_capacity(&self) -> nat {
        self.capacity as nat
    }

    /// Keys compare by value, the capacity is positive, and the entries fit
    /// in it with no key twice.
    pub open spec fn wf(&self) -> bool {
        &&& obeys_concrete_eq::<K>()
        &&& self.spec_capacity() >= 1
        &&& self@.len() <= self.spec_capacity()
        &&& keys_unique(self@)
    }

    /// Makes an empty cache that holds at most `capacity` entries.
    pub fn new(capacity: usize) -> (r: Self)
        requires
            capacity > 0,
            obeys_concrete_eq::<K>(),
        ensures
            r.wf(),
            r@ == Seq::<(K, V)>::empty(),
            r.spec_capacity() == capacity,
    {
        LRUCache { capacity, entries: Vec::new() }
    }

    /// The position of the entry for `key`, if there is one.
    fn find(&self, key: &K) -> (r: Option<usize>)
        requires
            self.wf(),
        ensures
            r.is_some() == has_key(self@, *key),
            r matches Some(i) ==> i == key_index(self@, *key) && i < self@.len(),
    {
        let n = self.entries.len();
        let mut i: usize = 0;
        while i < n
            invariant
                n == self@.len(),
                i <= n,
                self.wf(),
                forall|j: int| 0 <= j < i ==> self@[j].0 != *key,
            decreases n - i,
        {
            proof {
                reveal(obeys_concrete_eq);
            }
            if self.entries[i].0.eq(key) {
                proof {
                    lemma_key_index(self@, i as int);
                }
                return Some(i);
            }
            i = i + 1;
        }
        None
    }

    /// Moves the entry at `i` to the front, keeping the others in order.
    fn move_to_front(&mut self, i: usize)
        requires
            old(self).wf(),
            i < old(self)@.len(),
        ensures
            final(self).wf(),
            final(self)@ == after_get(old(self)@, old(self)@[i as int].0),
            final(self).spec_capacity() == old(self).spec_capacity(),
    {
        proof {
            lemma_key_index(self@, i as int);
            lemma_after_get(self@, self@[i as int].0);
        }
        let e = self.entries.remove(i);
        self.entries.insert(0, e);
        proof {
            assert(self@ =~= after_get(old(self)@, old(self)@[i as int].0));
        }
    }

    /// Writes `value` under `key` and makes `key` the most recently used.
    /// When that brings the cache over its capacity, the least recently used
    /// entry is evicted.
    pub fn set(&mut self, key: K, value: V)
        requires
            old(self).wf(),
        ensures
            final(self).wf(),
            final(self)@ == after_set(old(self)@, key, value, old(self).spec_capacity()),
            final(self).spec_capacity() == old(self).spec_capacity(),
    {
        proof {
            lemma_after_set(self@, key, value, self.spec_capacity());
            lemma_touched(self@, key, value);
        }
        let found = self.find(&key);
        if let Some(i) = found {
            self.entries.remove(i);
        }
        self.entries.insert(0, (key, value));
        if self.entries.len() > self.capacity {
            self.entries.pop();
        }
        proof {
            assert(self@ =~= after_set(old(self)@, key, value, old(self).spec_capacity()));
        }
    }

    /// Looks `key` up. A present key becomes the most recently used and its
    /// value is returned; an absent key changes nothing.
    pub fn get(&mut self, key: &K) -> (r: Option<&V>)
        requires
            old(self).wf(),
        ensures
            final(self).wf(),
            final(self)@ == after_get(old(self)@, *key),
            final(self).spec_capacity() == old(self).spec_capacity(),
            r.is_some() == has_key(old(self)@, *key),
            r matches Some(v) ==> *v == old(self)@[key_index(old(self)@, *key)].1,
    {
        match self.find(key) {
            Some(i) => {
                self.move_to_front(i);
                Some(&self.entries[0].1)
            },
            None => None,
        }
    }

    /// Makes `key` the most recently used, if the cache holds it.
    pub fn update_usage(&mut self, key: &K)
        requires
            old(self).wf(),
        ensures
            final(self).wf(),
            final(self)@ == after_get(old(self)@, *key),
            final(self).spec_capacity() == old(self).spec_capacity(),
    {
        if let Some(i) = self.find(key) {
            self.move_to_front(i);
        }
    }

    /// The number of entries held.
    pub fn len(&self) -> (r: usize)
        ensures
            r == self@.len(),
    {
        self.entries.len()
    }

    /// The capacity the cache was made with.
    pub fn capacity(&self) -> (r: usize)
        ensures
            r == self.spec_capacity(),
    {
        self.capacity
    }

    /// The key at position `i` of the recency order (0 is the most recent).
    pub fn key_at(&self, i: usize) -> (r: &K)
        requires
            i < self@.len(),
        ensures
            *r == self@[i as int].0,
    {
        &self.entries[i].0
    }

    /// The value at position `i` of the recency order (0 is the most recent).
    pub fn value_at(&self, i: usize) -> (r: &V)
        requires
            i < self@.len(),
        ensures
            *r == self@[i as int].1,
    {
        &self.entries[i].1
    }
}

} // verus!
