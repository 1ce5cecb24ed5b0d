//! Values in a vector, each bound to a key that finds its position.

use crate::map::lawful_keys;
use std::collections::HashMap;
use std::hash::Hash;
use vstd::prelude::*;

verus! {

broadcast use vstd::std_specs::hash::group_hash_axioms;

/// Values in insertion order; a key pushed again overwrites its value in place.
pub struct OneWayMap<K, T> {
    mapping: HashMap<K, usize>,
    storage: Vec<T>,
}

impl<K: Hash + Eq, T> OneWayMap<K, T> {
    /// Position of each key's value.
    pub closed spec fn positions(&self) -> Map<K, usize> {
        self.mapping@
    }

    /// The values, by position.
    pub closed spec fn items(&self) -> Seq<T> {
        self.storage@
    }

    /// Every bound key's position holds a value.
    pub open spec fn wf(&self) -> bool {
        lawful_keys::<K>() ==> forall|k: K| #[trigger]
            self.positions().contains_key(k) ==> self.positions()[k] < self.items().len()
    }

    pub fn new() -> (r: Self)
        ensures
            r.wf(),
            r.items().len() == 0,
            lawful_keys::<K>() ==> r.positions() == Map::<K, usize>::empty(),
    {
        Self { mapping: HashMap::new(), storage: Vec::new() }
    }

    pub fn get_idx(&self, binding: &K) -> (r: Option<usize>)
        requires
            self.wf(),
        ensures
            lawful_keys::<K>() && r is Some ==> r->0 < self.items().len(),
            lawful_keys::<K>() ==> r == if self.positions().contains_key(*binding) {
                Some(self.positions()[*binding])
            } else {
                None
            },
    {
        match self.mapping.get(binding) {
            Some(value) => Some(*value),
            None => None,
        }
    }

    pub fn get(&self, idx: usize) -> (r: Option<&T>)
        ensures
            r is Some == (idx < self.items().len()),
            r matches Some(v) ==> *v == self.items()[idx as int],
    {
        if idx < self.storage.len() {
            Some(&self.storage[idx])
        } else {
            None
        }
    }

    pub fn clear(&mut self)
        ensures
            final(self).wf(),
            final(self).items().len() == 0,
            lawful_keys::<K>() ==> final(self).positions() == Map::<K, usize>::empty(),
    {
        self.mapping.clear();
        self.storage.clear();
    }

    /// Binds `key` to `value`: in place when the key already has a position,
    /// else at a new position at the end. Returns the position.
    pub fn push(&mut self, key: K, value: T) -> (r: usize)
        requires
            old(self).wf(),
        ensures
            final(self).wf(),
            lawful_keys::<K>() && old(self).positions().contains_key(key) ==> r < old(
            self).items().len(),
            r < old(self).items().len() ==> final(self).items() == old(self).items().update(
                r as int,
                value,
            ),
            r >= old(self).items().len() ==> final(self).items() == old(self).items().push(value),
            lawful_keys::<K>() ==> r as int == if old(self).positions().contains_key(key) {
                old(self).positions()[key] as int
            } else {
                old(self).items().len() as int
            },
            lawful_keys::<K>() ==> final(self).positions() == old(self).positions().insert(key, r),
    {
        let next = self.storage.len();
        let idx = match self.mapping.get(&key) {
            Some(idx) => *idx,
            None => {
                self.mapping.insert(key, next);
                next
            },
        };
        if idx < self.storage.len() {
            self.storage.set(idx, value);
        } else {
            self.storage.push(value);
        }
        proof {
            if lawful_keys::<K>() && old(self).positions().contains_key(key) {
                assert(self.positions() =~= old(self).positions().insert(key, idx));
            }
            if lawful_keys::<K>() {
                assert forall|k: K| #[trigger] self.positions().contains_key(k) implies self.positions()[k]
                    < self.items().len() by {
                    if k != key {
                        assert(old(self).positions().contains_key(k));
                    }
                }
            }
        }
        idx
    }
}

} // verus!
