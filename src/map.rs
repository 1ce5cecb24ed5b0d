//! A storage keyed by values: each key maps to the index its value got in an
//! expandable storage, and the key is kept by index for the way back.

use crate::generation::GenerationStorage;
use crate::idvec::IdVec;
use crate::novec::NoVec;
use crate::{ExpandableStorage, KeyIdx, UnorderedStorage};
use std::borrow::Borrow;
use std::collections::HashMap;
use std::hash::Hash;
use vstd::prelude::*;
use vstd::std_specs::hash::{contains_borrowed_key, maps_borrowed_key_to_value, obeys_key_model};

verus! {

broadcast use vstd::std_specs::hash::group_hash_axioms;

pub type MappedGeneration<K, T> = MappedStorage<IdVec<K>, GenerationStorage<T>>;

pub type MappedNoVec<K, T> = MappedStorage<IdVec<K>, NoVec<T>>;

/// The key type hashes and compares as a mathematical value would, so the
/// key-to-index map behaves as a map.
pub open spec fn lawful_keys<Q>() -> bool {
    obeys_key_model::<Q>()
}

/// Values of storage `S`, reached by key through a map from keys to indices.
#[derive(Clone, Debug)]
pub struct MappedStorage<K, S> where
    S: ExpandableStorage,
    K: UnorderedStorage,
    K::Item: Hash + Eq,
 {
    indices: HashMap<K::Item, S::Index>,
    keys: K,
    storage: S,
}

impl<K, S> MappedStorage<K, S> where
    S: ExpandableStorage,
    K: UnorderedStorage,
    K::Item: Hash + Eq,
 {
    /// Index of each key's value.
    pub closed spec fn index_map(&self) -> Map<K::Item, S::Index> {
        self.indices@
    }

    /// The storage of values.
    pub closed spec fn values_store(&self) -> S {
        self.storage
    }

    /// The storage of keys, by index.
    pub closed spec fn keys_store(&self) -> K {
        self.keys
    }

    /// Some index of the value storage reaches `v`.
    pub open spec fn holds(&self, v: S::Item) -> bool {
        exists|i: S::Index| #[trigger] self.values_store().lookup(i) == Some(v)
    }

    pub closed spec fn wf(&self) -> bool {
        self.storage.inv() && self.keys.inv()
    }
}

impl<K, S> MappedStorage<K, S> where
    S: ExpandableStorage + Default,
    K: UnorderedStorage + Default,
    K::Item: Hash + Eq,
 {
    pub fn new() -> (r: Self)
        ensures
            lawful_keys::<K::Item>() ==> r.index_map() == Map::<K::Item, S::Index>::empty(),
    {
        MappedStorage { indices: HashMap::new(), keys: K::default(), storage: S::default() }
    }
}

impl<K, S> MappedStorage<K, S> where
    S: ExpandableStorage,
    K: UnorderedStorage,
    K::Item: Hash + Eq,
    S::Index: Into<K::Index> + Copy,
    K::Index: Copy,
 {
    /// Whether `ki` reaches a value: through its index when it has one, else
    /// through its key.
    pub fn contains(&self, ki: &KeyIdx<K::Item, S::Index>) -> (r: bool)
        ensures
            ki.index matches Some(i) ==> r == self.values_store().lookup(i) is Some,
            ki.index is None && lawful_keys::<K::Item>() ==> r == self.index_map().contains_key(
                ki.key,
            ),
    {
        if let Some(value) = ki.index_ref() {
            return self.storage.get(value).is_some();
        }
        self.indices.contains_key(&ki.key)
    }

    /// The value `ki` reaches: through its index when it has one, else through its key.
    pub fn get(&self, ki: &KeyIdx<K::Item, S::Index>) -> (r: Option<&S::Item>)
        ensures
            ki.index matches Some(i) ==> (r is Some == self.values_store().lookup(i) is Some && (r matches Some(
                v,
            ) ==> self.values_store().lookup(i) == Some(*v))),
            ki.index is None && lawful_keys::<K::Item>() ==> (r matches Some(v) ==> self.index_map().contains_key(
                ki.key,
            ) && self.values_store().lookup(self.index_map()[ki.key]) == Some(*v)),
            ki.index is None && lawful_keys::<K::Item>() && !self.index_map().contains_key(ki.key)
                ==> r is None,
    {
        if let Some(value) = ki.index_ref() {
            return self.storage.get(value);
        }
        match self.indices.get(&ki.key) {
            Some(index) => self.storage.get(index),
            None => None,
        }
    }

    /// The value `ki` reaches, for writing.
    pub fn get_mut(&mut self, ki: &KeyIdx<K::Item, S::Index>) -> (r: Option<&mut S::Item>)
        ensures
            ki.index matches Some(i) ==> (old(self).values_store().lookup(i) is None ==> r is None),
            ki.index matches Some(i) ==> (old(self).values_store().lookup(i) matches Some(v) ==> (r matches Some(
                m,
            ) && *m == v)),
    {
        if let Some(index) = ki.index_ref() {
            return self.storage.get_mut(index);
        }
        if let Some(index) = self.indices.get(&ki.key) {
            return self.storage.get_mut(index);
        }
        None
    }

    pub fn get_by_index(&self, index: &S::Index) -> (r: Option<&S::Item>)
        ensures
            r is Some == self.values_store().lookup(*index) is Some,
            r matches Some(v) ==> self.values_store().lookup(*index) == Some(*v),
    {
        self.storage.get(index)
    }

    pub fn get_by_index_mut(&mut self, index: &S::Index) -> (r: Option<&mut S::Item>)
        ensures
            old(self).values_store().lookup(*index) is None ==> r is None,
            old(self).values_store().lookup(*index) matches Some(v) ==> (r matches Some(m) && *m
                == v),
    {
        self.storage.get_mut(index)
    }

    pub fn get_by_key<Q>(&self, key: &Q) -> (r: Option<&S::Item>) where
        K::Item: Borrow<Q>,
        Q: Hash + Eq + ?Sized,
        ensures
            lawful_keys::<K::Item>() ==> (r matches Some(v) ==> exists|i: S::Index|
                maps_borrowed_key_to_value(self.index_map(), key, i) && self.values_store().lookup(i)
                    == Some(*v)),
    {
        match self.indices.get(key) {
            Some(index) => {
                let r = self.storage.get(index);
                proof {
                    if lawful_keys::<K::Item>() && r is Some {
                        assert(maps_borrowed_key_to_value(self.index_map(), key, *index));
                        assert(self.values_store().lookup(*index) == Some(*r->0));
                    }
                }
                r
            },
            None => None,
        }
    }

    pub fn get_by_key_mut<Q>(&mut self, key: &Q) -> (r: Option<&mut S::Item>) where
        K::Item: Borrow<Q>,
        Q: Hash + Eq + ?Sized,
    {
        match self.indices.get(key) {
            Some(index) => self.storage.get_mut(index),
            None => None,
        }
    }

    pub fn get_index<Q>(&self, key: &Q) -> (r: Option<&S::Index>) where
        K::Item: Borrow<Q>,
        Q: Hash + Eq + ?Sized,
        ensures
            lawful_keys::<K::Item>() ==> match r {
                Some(i) => maps_borrowed_key_to_value(self.index_map(), key, *i),
                None => !contains_borrowed_key(self.index_map(), key),
            },
    {
        self.indices.get(key)
    }

    /// The key stored for the value at `index`.
    pub fn get_key(&self, index: &S::Index) -> (r: Option<&K::Item>)
        ensures
            r matches Some(k) ==> exists|i: K::Index| self.keys_store().lookup(i) == Some(*k),
    {
        let i: K::Index = (*index).into();
        let r = self.keys.get(&i);
        proof {
            if r is Some {
                assert(self.keys_store().lookup(i) == Some(*r->0));
            }
        }
        r
    }

    /// Records in `ki` the index of its key's value, if the key is present.
    pub fn fill_key_idx(&self, ki: &mut KeyIdx<K::Item, S::Index>) -> (r: bool)
        ensures
            final(ki).key == old(ki).key,
            !r ==> *final(ki) == *old(ki),
            lawful_keys::<K::Item>() ==> r == self.index_map().contains_key(old(ki).key),
            lawful_keys::<K::Item>() && r ==> final(ki).index == Some(
                self.index_map()[old(ki).key],
            ),
    {
        match self.get_index(&ki.key) {
            Some(value) => {
                ki.index = Some(*value);
                true
            },
            None => false,
        }
    }

    /// Fills in the index of `ki` and returns the value there.
    pub fn fill_key_idx_get(&self, ki: &mut KeyIdx<K::Item, S::Index>) -> (r: Option<&S::Item>)
        ensures
            final(ki).key == old(ki).key,
            lawful_keys::<K::Item>() && !self.index_map().contains_key(old(ki).key) ==> r is None
                && *final(ki) == *old(ki),
            lawful_keys::<K::Item>() && self.index_map().contains_key(old(ki).key) ==> {
                let i = self.index_map()[old(ki).key];
                &&& final(ki).index == Some(i)
                &&& r is Some == self.values_store().lookup(i) is Some
                &&& r matches Some(v) ==> self.values_store().lookup(i) == Some(*v)
            },
    {
        if !self.fill_key_idx(ki) {
            return None;
        }
        match ki.index_ref() {
            Some(index) => self.get_by_index(index),
            None => None,
        }
    }

    /// Fills in the index of `ki` and returns the value there, for writing.
    pub fn fill_key_idx_get_mut(&mut self, ki: &mut KeyIdx<K::Item, S::Index>) -> (r: Option<
        &mut S::Item,
    >)
        ensures
            final(ki).key == old(ki).key,
            lawful_keys::<K::Item>() && !old(self).index_map().contains_key(old(ki).key) ==> r is None
                && *final(ki) == *old(ki),
    {
        if !self.fill_key_idx(ki) {
            return None;
        }
        match ki.index_ref() {
            Some(index) => self.get_by_index_mut(index),
            None => None,
        }
    }

    /// Stores `value` under `key`, pushing it into the storage; a value the
    /// key had before is taken out of the storage and returned.
    pub fn insert(&mut self, key: K::Item, value: S::Item) -> (r: (S::Index, Option<S::Item>)) where
        K::Item: Clone,
        requires
            old(self).wf(),
            old(self).values_store().can_push(),
            forall|i: K::Index| #[trigger] old(self).keys_store().can_insert(i),
        ensures
            final(self).wf(),
            lawful_keys::<K::Item>() ==> final(self).index_map() == old(self).index_map().insert(
                key,
                r.0,
            ),
            lawful_keys::<K::Item>() && !old(self).index_map().contains_key(key) ==> r.1 is None,
            lawful_keys::<K::Item>() ==> final(self).values_store().lookup(r.0) == Some(value) || (
            old(self).index_map().contains_key(key) && old(self).index_map()[key] == r.0),
    {
        let index = self.storage.push(value);
        let key_index: K::Index = index.into();
        assert(old(self).keys_store().can_insert(key_index));
        self.keys.insert(key_index, key.clone());
        match self.indices.insert(key, index) {
            Some(previous) => {
                let removed = self.storage.remove(&previous);
                (index, removed)
            },
            None => (index, None),
        }
    }

    /// Stores `value` under the key of `ki` and records the new index in `ki`.
    pub fn insert_replace_idx(&mut self, ki: &mut KeyIdx<K::Item, S::Index>, value: S::Item) -> (r:
        Option<S::Item>) where K::Item: Clone
        requires
            old(self).wf(),
            old(self).values_store().can_push(),
            forall|i: K::Index| #[trigger] old(self).keys_store().can_insert(i),
        ensures
            final(self).wf(),
            final(ki).key == old(ki).key,
            final(ki).index is Some,
    {
        let (index, removed) = self.insert(ki.key.clone(), value);
        ki.index = Some(index);
        removed
    }

    /// Removes the value at `index` together with its key.
    pub fn remove_with_index(&mut self, index: &S::Index) -> (r: Option<S::Item>)
        requires
            old(self).wf(),
        ensures
            final(self).wf(),
            r == old(self).values_store().lookup(*index),
            final(self).values_store().lookup(*index) is None,
    {
        let key_index: K::Index = (*index).into();
        if let Some(key) = self.keys.remove(&key_index) {
            self.indices.remove(&key);
        }
        self.storage.remove(index)
    }

    /// Removes the value that `ki` reaches, with its key.
    pub fn remove(&mut self, ki: &KeyIdx<K::Item, S::Index>) -> (r: Option<S::Item>)
        requires
            old(self).wf(),
        ensures
            final(self).wf(),
            ki.index matches Some(i) ==> r == old(self).values_store().lookup(i)
                && final(self).values_store().lookup(i) is None,
            ki.index is None && lawful_keys::<K::Item>() ==> !final(self).index_map().contains_key(
                ki.key,
            ),
            ki.index is None && lawful_keys::<K::Item>() && !old(self).index_map().contains_key(
                ki.key,
            ) ==> r is None,
    {
        if let Some(index) = ki.index_ref() {
            let index = *index;
            let key_index: K::Index = index.into();
            if let Some(key) = self.keys.remove(&key_index) {
                self.indices.remove(&key);
            }
            return self.storage.remove(&index);
        }
        match self.indices.remove(&ki.key) {
            Some(index) => self.storage.remove(&index),
            None => None,
        }
    }

    /// Keys, indices and values, in the order of the key map.
    pub fn iter(&self) -> (r: Vec<(&K::Item, &S::Index, &S::Item)>)
        requires
            lawful_keys::<K::Item>(),
        ensures
            forall|k: int|
                0 <= k < r@.len() ==> self.values_store().lookup(*r@[k].1) == Some(*r@[k].2),
            lawful_keys::<K::Item>() ==> forall|k: int|
                0 <= k < r@.len() ==> self.index_map().contains_key(*r@[k].0) && self.index_map()[*r@[k].0]
                    == *r@[k].1,
    {
        let mut r: Vec<(&K::Item, &S::Index, &S::Item)> = Vec::new();
        for entry in it: self.indices.iter()
            invariant
                forall|k: int|
                    0 <= k < r@.len() ==> self.values_store().lookup(*r@[k].1) == Some(*r@[k].2),
                lawful_keys::<K::Item>() ==> forall|k: int|
                    0 <= k < r@.len() ==> self.index_map().contains_key(*r@[k].0) && self.index_map()[*r@[k].0]
                        == *r@[k].1,
                lawful_keys::<K::Item>() ==> forall|k: int|
                    0 <= k < it.seq().len() ==> self.index_map().contains_key(*it.seq()[k].0)
                        && self.index_map()[*it.seq()[k].0] == *it.seq()[k].1,
        {
            let (key, idx) = entry;
            if let Some(value) = self.storage.get(idx) {
                r.push((key, idx, value));
            }
        }
        r
    }

    /// Values, in the order of the key map.
    pub fn values(&self) -> (r: Vec<&S::Item>)
        requires
            lawful_keys::<K::Item>(),
        ensures
            forall|k: int| 0 <= k < r@.len() ==> #[trigger] self.holds(*r@[k]),
    {
        let mut r: Vec<&S::Item> = Vec::new();
        for entry in self.indices.iter()
            invariant
                forall|k: int| 0 <= k < r@.len() ==> #[trigger] self.holds(*r@[k]),
        {
            let (_, idx) = entry;
            if let Some(value) = self.storage.get(idx) {
                proof {
                    assert(self.values_store().lookup(*idx) == Some(*value));
                }
                r.push(value);
            }
        }
        r
    }

    /// Keys and indices, in the order of the key map.
    pub fn indices(&self) -> (r: Vec<(&K::Item, &S::Index)>)
        requires
            lawful_keys::<K::Item>(),
        ensures
            lawful_keys::<K::Item>() ==> forall|k: int|
                0 <= k < r@.len() ==> self.index_map().contains_key(*r@[k].0) && self.index_map()[*r@[k].0]
                    == *r@[k].1,
    {
        let mut r: Vec<(&K::Item, &S::Index)> = Vec::new();
        for entry in it: self.indices.iter()
            invariant
                lawful_keys::<K::Item>() ==> forall|k: int|
                    0 <= k < r@.len() ==> self.index_map().contains_key(*r@[k].0) && self.index_map()[*r@[k].0]
                        == *r@[k].1,
                lawful_keys::<K::Item>() ==> forall|k: int|
                    0 <= k < it.seq().len() ==> self.index_map().contains_key(*it.seq()[k].0)
                        && self.index_map()[*it.seq()[k].0] == *it.seq()[k].1,
        {
            r.push(entry);
        }
        r
    }

    /// Keeps only the values for which `f` holds of index and value; keys
    /// whose value is gone are dropped as well.
    pub fn retain<F: Fn(&S::Index, &S::Item) -> bool>(&mut self, f: F) where K::Item: Clone
        requires
            old(self).wf(),
            lawful_keys::<K::Item>(),
            forall|i: &S::Index, v: &S::Item| #[trigger] f.requires((i, v)),
        ensures
            final(self).wf(),
            forall|i: S::Index|
                #[trigger] final(self).values_store().lookup(i) is Some ==> final(
                self).values_store().lookup(i) == old(self).values_store().lookup(i),
            forall|k: K::Item|
                #[trigger] old(self).index_map().contains_key(k) ==> (final(self).values_store().lookup(
                    old(self).index_map()[k],
                ) matches Some(v) ==> f.ensures((&old(self).index_map()[k], &v), true)),
            forall|x: S::Index|
                #[trigger] final(self).values_store().lookup(x) is None ==> (old(
                self).values_store().lookup(x) matches Some(v) ==> f.ensures((&x, &v), false)),
    {
        let mut entries: Vec<(K::Item, S::Index)> = Vec::new();
        for entry in it: self.indices.iter()
            invariant
                lawful_keys::<K::Item>(),
                entries@.len() == it.index(),
                forall|j: int| 0 <= j < it.index() ==> entries@[j].1 == *it.seq()[j].1,
                forall|k: K::Item|
                    #[trigger] self.index_map().contains_key(k) ==> exists|j: int|
                        0 <= j < it.seq().len() && *it.seq()[j].1 == self.index_map()[k],
        {
            let (key, idx) = entry;
            entries.push((key.clone(), *idx));
        }
        let n = entries.len();
        let mut i: usize = 0;
        while i < n
            invariant
                self.wf(),
                n == entries@.len(),
                0 <= i <= n,
                forall|i: &S::Index, v: &S::Item| #[trigger] f.requires((i, v)),
                forall|x: S::Index|
                    #[trigger] self.values_store().lookup(x) is Some ==> self.values_store().lookup(x)
                        == old(self).values_store().lookup(x),
                forall|j: int|
                    0 <= j < i ==> (self.values_store().lookup(#[trigger] entries@[j].1) matches Some(v)
                        ==> f.ensures((&entries@[j].1, &v), true)),
                forall|x: S::Index|
                    #[trigger] self.values_store().lookup(x) is None ==> (old(
                    self).values_store().lookup(x) matches Some(v) ==> f.ensures((&x, &v), false)),
            decreases n - i,
        {
            let idx = entries[i].1;
            let keep = match self.storage.get(&idx) {
                Some(item) => f(&idx, item),
                None => false,
            };
            if !keep {
                let key_index: K::Index = idx.into();
                self.keys.remove(&key_index);
                self.storage.remove(&idx);
                self.indices.remove(&entries[i].0);
            }
            i += 1;
        }
    }
}

} // verus!
