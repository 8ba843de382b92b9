//! An unbounded cache: a plain key-value map that never evicts.
use std::hash::Hash;
use vstd::laws_eq::obeys_concrete_eq;
use vstd::prelude::*;

use crate::model::{has_key, key_index, keys_unique, store_of};
use crate::model::{lemma_key_index, lemma_store_push, lemma_store_update};

verus! {

/// A cache with no bound on its size. Each key is held once.
pub struct Cache<K, V> where K: Eq + Hash {
    storage: Vec<(K, V)>,
}

impl<K, V> View for Cache<K, V> where K: Eq + Hash {
    type V = Map<K, V>;

    /// The key-value mapping the cache holds.
    closed spec fn view(&self) -> Map<K, V> {
        store_of(self.storage@)
    }
}

impl<K, V> Cache<K, V> where K: Eq + Hash + Clone {
    /// Keys compare by value and the storage holds no key twice.
    pub closed spec fn wf(&self) -> bool {
        &&& obeys_concrete_eq::<K>()
        &&& keys_unique(self.storage@)
    }

    /// Makes an empty cache.
    pub fn new() -> (r: Self)
        requires
            obeys_concrete_eq::<K>(),
        ensures
            r.wf(),
            r@ == Map::<K, V>::empty(),
    {
        let r = Cache { storage: Vec::new() };
        proof {
            assert(r@ =~= Map::<K, V>::empty());
        }
        r
    }

    /// The position of the entry for `key`, if there is one.
    fn find(&self, key: &K) -> (r: Option<usize>)
        requires
            self.wf(),
        ensures
            r.is_some() == has_key(self.storage@, *key),
            r matches Some(i) ==> i == key_index(self.storage@, *key) && i < self.storage@.len(),
    {
        let n = self.storage.len();
        let mut i: usize = 0;
        while i < n
            invariant
                n == self.storage@.len(),
                i <= n,
                self.wf(),
                forall|j: int| 0 <= j < i ==> self.storage@[j].0 != *key,
            decreases n - i,
        {
            proof {
                reveal(obeys_concrete_eq);
            }
            if self.storage[i].0.eq(key) {
                proof {
                    lemma_key_index(self.storage@, i as int);
                }
                return Some(i);
            }
            i = i + 1;
        }
        None
    }

    /// Writes `value` under `key`, replacing any earlier value.
    pub fn set(&mut self, key: K, value: V)
        requires
            old(self).wf(),
        ensures
            final(self).wf(),
            final(self)@ == old(self)@.insert(key, value),
    {
        match self.find(&key) {
            Some(i) => {
                proof {
                    lemma_store_update(self.storage@, i as int, key, value);
                }
                self.storage.set(i, (key, value));
            },
            None => {
                proof {
                    lemma_store_push(self.storage@, key, value);
                }
                self.storage.push((key, value));
            },
        }
    }

    /// The value held under `key`, if any.
    pub fn get(&self, key: &K) -> (r: Option<&V>)
        requires
            self.wf(),
        ensures
            r.is_some() == self@.contains_key(*key),
            r matches Some(v) ==> *v == self@[*key],
    {
        match self.find(key) {
            Some(i) => Some(&self.storage[i].1),
            None => None,
        }
    }
}

} // verus!
