//! A `NoVec` whose values are also reachable by key.

use crate::map::lawful_keys;
use crate::novec::{occupied, NoVec};
use std::borrow::Borrow;
use std::collections::HashMap;
use std::hash::Hash;
use vstd::prelude::*;
use vstd::std_specs::hash::{contains_borrowed_key, maps_borrowed_key_to_value};

verus! {

broadcast use vstd::std_specs::hash::group_hash_axioms;

/// A way to name a value: by key, by index, or by both.
#[derive(Copy, Clone, Debug, PartialEq)]
pub enum KeyIdx<Q> {
    Key(Q),
    Index(usize),
    Both { key: Q, index: usize },
}

impl<Q> KeyIdx<Q> {
    /// The key named, if any.
    pub open spec fn key_of(self) -> Option<Q> {
        match self {
            KeyIdx::Key(k) => Some(k),
            KeyIdx::Both { key, .. } => Some(key),
            KeyIdx::Index(_) => None,
        }
    }

    /// The index named, if any.
    pub open spec fn index_of(self) -> Option<usize> {
        match self {
            KeyIdx::Index(i) => Some(i),
            KeyIdx::Both { index, .. } => Some(index),
            KeyIdx::Key(_) => None,
        }
    }

    pub fn new(key: Option<Q>, index: Option<usize>) -> (r: Option<KeyIdx<Q>>)
        ensures
            key is None && index is None ==> r is None,
            !(key is None && index is None) ==> (r matches Some(ki) && ki.key_of() == key
                && ki.index_of() == index),
    {
        match (key, index) {
            (Some(key), Some(index)) => Some(KeyIdx::Both { key, index }),
            (Some(key), None) => Some(KeyIdx::Key(key)),
            (None, Some(index)) => Some(KeyIdx::Index(index)),
            (None, None) => None,
        }
    }

    pub fn has_key(&self) -> (r: bool)
        ensures
            r == self.key_of() is Some,
    {
        match self {
            KeyIdx::Key(_) | KeyIdx::Both { .. } => true,
            _ => false,
        }
    }

    pub fn has_index(&self) -> (r: bool)
        ensures
            r == self.index_of() is Some,
    {
        match self {
            KeyIdx::Index(_) | KeyIdx::Both { .. } => true,
            _ => false,
        }
    }

    pub fn key(&self) -> (r: Option<&Q>)
        ensures
            r is Some == self.key_of() is Some,
            r matches Some(k) ==> self.key_of() == Some(*k),
    {
        match self {
            KeyIdx::Both { key, .. } => Some(key),
            KeyIdx::Key(key) => Some(key),
            _ => None,
        }
    }

    pub fn index(&self) -> (r: Option<usize>)
        ensures
            r == self.index_of(),
    {
        match self {
            KeyIdx::Both { index, .. } => Some(*index),
            KeyIdx::Index(index) => Some(*index),
            _ => None,
        }
    }
}

/// Values at stable indices, each also reachable by its key.
#[derive(Clone, Debug)]
pub struct MappedNovec<K, T> where K: Hash + Clone + Eq {
    map: HashMap<K, usize>,
    keys: Vec<Option<K>>,
    values: NoVec<T>,
}

impl<K, T> MappedNovec<K, T> where K: Hash + Clone + Eq {
    /// Index of each key's value.
    pub closed spec fn index_map(&self) -> Map<K, usize> {
        self.map@
    }

    /// The key kept for each index.
    pub closed spec fn key_slots(&self) -> Seq<Option<K>> {
        self.keys@
    }

    /// The values, by index.
    pub closed spec fn store(&self) -> NoVec<T> {
        self.values
    }

    /// Value at `index`, if any.
    pub open spec fn value_at(&self, index: int) -> Option<T> {
        if 0 <= index < self.store().entries().len() {
            self.store().entries()[index].data()
        } else {
            None
        }
    }

    /// Every stored value has its key kept at its index.
    pub closed spec fn wf(&self) -> bool {
        &&& self.values.wf()
        &&& self.keys@.len() >= self.values.entries().len()
        &&& forall|i: int|
            0 <= i < self.values.entries().len() && (#[trigger] self.values.entries()[i]) is Data
                ==> self.keys@[i] is Some
    }

    pub fn new() -> (r: Self)
        ensures
            r.wf(),
            r.store().entries().len() == 0,
            lawful_keys::<K>() ==> r.index_map() == Map::<K, usize>::empty(),
    {
        Self { map: HashMap::new(), keys: Vec::new(), values: NoVec::new() }
    }

    pub fn get_index<Q>(&self, key: &Q) -> (r: Option<usize>) where K: Borrow<Q>, Q: Hash + Eq
        ensures
            lawful_keys::<K>() ==> match r {
                Some(i) => maps_borrowed_key_to_value(self.index_map(), key, i),
                None => !contains_borrowed_key(self.index_map(), key),
            },
    {
        match self.map.get(key) {
            Some(index) => Some(*index),
            None => None,
        }
    }

    pub fn get_by_index(&self, index: usize) -> (r: Option<&T>)
        ensures
            r is Some == self.value_at(index as int) is Some,
            r matches Some(v) ==> self.value_at(index as int) == Some(*v),
    {
        self.values.get(index)
    }

    pub fn get_mut_by_index(&mut self, index: usize) -> (r: Option<&mut T>)
        ensures
            old(self).value_at(index as int) is None ==> r is None,
            old(self).value_at(index as int) matches Some(v) ==> (r matches Some(m) && *m == v),
    {
        self.values.get_mut(index)
    }

    /// The key kept at `index`.
    pub fn get_key(&self, index: usize) -> (r: Option<&K>)
        ensures
            r is Some == (index < self.key_slots().len() && self.key_slots()[index as int] is Some),
            r matches Some(k) ==> self.key_slots()[index as int] == Some(*k),
    {
        if index < self.keys.len() {
            self.keys[index].as_ref()
        } else {
            None
        }
    }

    pub fn get_by_key<Q>(&self, key: &Q) -> (r: Option<&T>) where K: Borrow<Q>, Q: Hash + Eq
        ensures
            r matches Some(v) ==> exists|i: int| #[trigger] self.value_at(i) == Some(*v),
    {
        match self.map.get(key) {
            Some(index) => {
                let r = self.values.get(*index);
                proof {
                    if r is Some {
                        assert(self.value_at(*index as int) == Some(*r->0));
                    }
                }
                r
            },
            None => None,
        }
    }

    pub fn get_mut_by_key<Q>(&mut self, key: &Q) -> (r: Option<&mut T>) where
        K: Borrow<Q>,
        Q: Hash + Eq,
    {
        match self.map.get(key) {
            Some(index) => {
                let index = *index;
                self.values.get_mut(index)
            },
            None => None,
        }
    }

    /// The value `map_index` names; an index is preferred over a key.
    pub fn get<Q>(&self, map_index: &KeyIdx<Q>) -> (r: Option<&T>) where K: Borrow<Q>, Q: Hash + Eq
        ensures
            map_index.index_of() matches Some(i) ==> (r is Some == self.value_at(i as int) is Some
                && (r matches Some(v) ==> self.value_at(i as int) == Some(*v))),
            r matches Some(v) ==> exists|i: int| #[trigger] self.value_at(i) == Some(*v),
    {
        match map_index {
            KeyIdx::Key(key) => self.get_by_key(key),
            KeyIdx::Index(index) => self.get_by_index(*index),
            KeyIdx::Both { index, .. } => self.get_by_index(*index),
        }
    }

    /// The value `map_index` names, for writing; an index is preferred over a key.
    pub fn get_mut<Q>(&mut self, map_index: &KeyIdx<Q>) -> (r: Option<&mut T>) where
        K: Borrow<Q>,
        Q: Hash + Eq,
        ensures
            map_index.index_of() matches Some(i) ==> (old(self).value_at(i as int) is None ==> r is None),
    {
        match map_index {
            KeyIdx::Key(key) => self.get_mut_by_key(key),
            KeyIdx::Index(index) => self.get_mut_by_index(*index),
            KeyIdx::Both { index, .. } => self.get_mut_by_index(*index),
        }
    }

    /// Stores `value` at the lowest free index and files it under `key`.
    pub fn insert(&mut self, key: K, value: T) -> (r: usize)
        requires
            old(self).wf(),
            old(self).store().entries().len() < usize::MAX,
            old(self).key_slots().len() < usize::MAX,
        ensures
            final(self).wf(),
            r == old(self).store().head(),
            final(self).value_at(r as int) == Some(value),
            forall|i: int| i != r ==> #[trigger] final(self).value_at(i) == old(self).value_at(i),
            final(self).key_slots()[r as int] is Some,
            lawful_keys::<K>() ==> final(self).index_map() == old(self).index_map().insert(key, r),
    {
        let index = self.values.push(value);
        let ghost pushed = self.values;
        while self.keys.len() <= index
            invariant
                self.values == pushed,
                self.map == old(self).map,
                index <= old(self).values.entries().len(),
                old(self).keys@.len() < usize::MAX,
                old(self).values.entries().len() < usize::MAX,
                self.keys@.len() >= old(self).keys@.len(),
                forall|i: int| 0 <= i < old(self).keys@.len() ==> #[trigger] self.keys@[i] == old(self).keys@[i],
            decreases index + 1 - self.keys@.len(),
        {
            self.keys.push(None);
        }
        self.keys.set(index, Some(key.clone()));
        self.map.insert(key, index);
        proof {
            assert forall|i: int|
                0 <= i < self.values.entries().len() && (#[trigger] self.values.entries()[i]) is Data
                    implies self.keys@[i] is Some by {
                if i != index {
                    assert(old(self).values.entries()[i] is Data);
                }
            }
        }
        index
    }

    /// Removes the value at `index` and its key.
    pub fn remove(&mut self, index: usize) -> (r: Option<(K, T)>)
        requires
            old(self).wf(),
        ensures
            final(self).wf(),
            old(self).value_at(index as int) is None ==> r is None,
            r matches Some(p) ==> old(self).value_at(index as int) == Some(p.1),
            final(self).value_at(index as int) is None,
            forall|i: int| i != index ==> #[trigger] final(self).value_at(i) == old(self).value_at(i),
    {
        let value = match self.values.remove(index) {
            Some(v) => v,
            None => return None,
        };
        let key = match self.keys[index].take() {
            Some(k) => k,
            None => return None,
        };
        self.map.remove(&key);
        proof {
            assert forall|i: int|
                0 <= i < self.values.entries().len() && (#[trigger] self.values.entries()[i]) is Data
                    implies self.keys@[i] is Some by {
                assert(old(self).values.entries()[i] is Data);
            }
        }
        Some((key, value))
    }

    /// Removes the value filed under `key`, with the key.
    pub fn remove_by_key<Q>(&mut self, key: &Q) -> (r: Option<(K, T)>) where K: Borrow<Q>, Q: Hash + Eq
        requires
            old(self).wf(),
        ensures
            final(self).wf(),
            r matches Some(p) ==> exists|i: int| #[trigger] old(self).value_at(i) == Some(p.1),
    {
        let index = match self.map.remove(key) {
            Some(i) => i,
            None => return None,
        };
        if index >= self.keys.len() {
            return None;
        }
        let r = self.remove(index);
        proof {
            if let Some(pair) = &r {
                assert(old(self).value_at(index as int) == Some(pair.1));
            }
        }
        r
    }

    /// Keys, indices and references to the values, in index order.
    pub fn iter(&self) -> (r: Vec<(&K, usize, &T)>)
        ensures
            forall|k: int|
                0 <= k < r@.len() ==> self.key_slots()[r@[k].1 as int] == Some(*r@[k].0)
                    && self.value_at(r@[k].1 as int) == Some(*r@[k].2),
    {
        let entries = self.values.iter();
        let mut r: Vec<(&K, usize, &T)> = Vec::new();
        let n = entries.len();
        let mut i: usize = 0;
        while i < n
            invariant
                n == entries@.len(),
                0 <= i <= n,
                forall|k: int|
                    0 <= k < entries@.len() ==> entries@[k].0 < self.values.entries().len()
                        && self.values.entries()[entries@[k].0 as int] == crate::novec::Entry::Data(
                        *entries@[k].1,
                    ),
                forall|k: int|
                    0 <= k < r@.len() ==> self.key_slots()[r@[k].1 as int] == Some(*r@[k].0)
                        && self.value_at(r@[k].1 as int) == Some(*r@[k].2),
            decreases n - i,
        {
            let (index, value) = entries[i];
            if index < self.keys.len() {
                if let Some(key) = self.keys[index].as_ref() {
                    r.push((key, index, value));
                }
            }
            i += 1;
        }
        r
    }

    /// References to the values, in index order.
    pub fn values(&self) -> (r: Vec<&T>)
        ensures
            r@.len() == occupied(self.store().entries()).len(),
            forall|k: int| 0 <= k < r@.len() ==> *r@[k] == occupied(self.store().entries())[k].1,
    {
        self.values.values()
    }
}

impl<K, T> MappedNovec<K, T> where K: Hash + Clone + Eq {
    /// Completes `key_index` with the index of its key or the key at its
    /// index. Returns `true` when nothing was added: the missing half was not
    /// found, or both halves were already there.
    pub fn fill_key_idx<Q>(&self, key_index: &mut KeyIdx<Q>) -> (r: bool) where
        K: Borrow<Q> + Into<Q>,
        Q: Hash + Eq,
        ensures
            r ==> *final(key_index) == *old(key_index),
            *old(key_index) is Both ==> r,
            *old(key_index) is Key && !r ==> final(key_index).key_of() == old(key_index).key_of()
                && final(key_index).index_of() is Some && (lawful_keys::<K>()
                ==> maps_borrowed_key_to_value(
                self.index_map(),
                &old(key_index).key_of()->0,
                final(key_index).index_of()->0,
            )),
            *old(key_index) is Key && lawful_keys::<K>() && contains_borrowed_key(
                self.index_map(),
                &old(key_index).key_of()->0,
            ) ==> !r && *final(key_index) is Both,
            *old(key_index) is Index && old(key_index).index_of()->0 < self.key_slots().len()
                && self.key_slots()[old(key_index).index_of()->0 as int] is Some ==> !r && *final(
            key_index) is Both && final(key_index).index_of() == old(key_index).index_of(),
            *old(key_index) is Index && !r ==> final(key_index).index_of() == old(
            key_index).index_of() && final(key_index).key_of() is Some
                && self.key_slots()[old(key_index).index_of()->0 as int] is Some,
    {
        let mut current = KeyIdx::Index(0);
        std::mem::swap(key_index, &mut current);
        let (next, result) = match current {
            KeyIdx::Key(key) => match self.get_index(&key) {
                Some(index) => (KeyIdx::Both { key, index }, false),
                None => (KeyIdx::Key(key), true),
            },
            KeyIdx::Index(index) => match self.get_key(index) {
                Some(key) => (KeyIdx::Both { key: key.clone().into(), index }, false),
                None => (KeyIdx::Index(index), true),
            },
            KeyIdx::Both { key, index } => (KeyIdx::Both { key, index }, true),
        };
        *key_index = next;
        result
    }
}

/// A key already present, with its index and its value.
#[derive(Debug)]
pub struct Occupied<'a, K: 'a, T: 'a> {
    key: &'a K,
    index: usize,
    value: &'a mut T,
}

/// A key not present yet, with the storage it would go into.
#[derive(Debug)]
pub struct VacantEntry<'a, K: 'a, T: 'a> where K: Hash + Clone + Eq {
    key: K,
    storage: &'a mut MappedNovec<K, T>,
}

/// The place of a key in a `MappedNovec`.
#[derive(Debug)]
pub enum Entry<'a, K: 'a, T: 'a> where K: Hash + Clone + Eq {
    Occupied(Occupied<'a, K, T>),
    VacantEntry(VacantEntry<'a, K, T>),
}

impl<'a, K: 'a, T: 'a> Entry<'a, K, T> where K: Hash + Clone + Eq {
    /// A vacant entry's storage accepts one more value.
    pub closed spec fn wf(&self) -> bool {
        match self {
            Entry::Occupied(_) => true,
            Entry::VacantEntry(v) => {
                &&& v.storage.wf()
                &&& v.storage.store().entries().len() < usize::MAX
                &&& v.storage.key_slots().len() < usize::MAX
            },
        }
    }

    /// The key of the entry.
    pub closed spec fn entry_key(&self) -> K {
        match self {
            Entry::Occupied(o) => *o.key,
            Entry::VacantEntry(v) => v.key,
        }
    }

    /// The value already there, if any.
    pub closed spec fn present(&self) -> Option<T> {
        match self {
            Entry::Occupied(o) => Some(*o.value),
            Entry::VacantEntry(_) => None,
        }
    }

    /// The value at the key, inserting `default` when there is none.
    pub fn or_insert(self, default: T) -> (r: (usize, &'a mut T))
        requires
            self.wf(),
        ensures
            *r.1 == match self.present() {
                Some(v) => v,
                None => default,
            },
    {
        match self {
            Entry::Occupied(Occupied { value, index, .. }) => (index, value),
            Entry::VacantEntry(VacantEntry { key, storage }) => {
                let index = storage.insert(key, default);
                match storage.get_mut_by_index(index) {
                    Some(value) => (index, value),
                    None => vstd::pervasive::unreached(),
                }
            },
        }
    }

    /// The value at the key, inserting the result of `default` when there is none.
    pub fn or_insert_with<F: FnOnce() -> T>(self, default: F) -> (r: (usize, &'a mut T))
        requires
            self.wf(),
            default.requires(()),
        ensures
            self.present() matches Some(v) ==> *r.1 == v,
    {
        self.or_insert(default())
    }

    /// Applies `f` to the value when the key is present.
    pub fn and_modify<F: FnOnce(&mut T)>(self, f: F) -> (r: Self)
        requires
            self.wf(),
            forall|v: &mut T| #[trigger] f.requires((v,)),
        ensures
            r.wf(),
            r.entry_key() == self.entry_key(),
            self.present() is None ==> r.present() is None,
    {
        let mut this = self;
        match &mut this {
            Entry::Occupied(Occupied { value, .. }) => f(value),
            _ => {},
        }
        this
    }

    pub fn key(&self) -> (r: &K)
        ensures
            *r == self.entry_key(),
    {
        match self {
            Entry::Occupied(Occupied { key, .. }) => key,
            Entry::VacantEntry(VacantEntry { key, .. }) => key,
        }
    }

    /// The value at the key, inserting `T::default()` when there is none.
    pub fn or_default(self) -> (r: (usize, &'a mut T)) where T: Default
        requires
            self.wf(),
        ensures
            self.present() matches Some(v) ==> *r.1 == v,
    {
        self.or_insert(T::default())
    }
}

impl<K, T> MappedNovec<K, T> where K: Hash + Clone + Eq {
    /// The place of `key`: its value if present, else room to insert one.
    pub fn entry<Q>(&mut self, key: K) -> (r: Entry<'_, K, T>)
        requires
            old(self).wf(),
            old(self).store().entries().len() < usize::MAX,
            old(self).key_slots().len() < usize::MAX,
        ensures
            r.wf(),
            r.entry_key() == key || r is Occupied,
            r.present() matches Some(v) ==> exists|i: int| #[trigger] old(self).value_at(i) == Some(v),
    {
        let found = match self.map.get(&key) {
            Some(index) => Some(*index),
            None => None,
        };
        if let Some(index) = found {
            if index < self.keys.len() && self.keys[index].is_some() && self.values.get(index).is_some() {
                let key_ref = self.keys[index].as_ref().unwrap();
                let value = self.values.get_mut(index).unwrap();
                proof {
                    assert(old(self).value_at(index as int) == Some(*value));
                }
                return Entry::Occupied(Occupied { key: key_ref, index, value });
            }
        }
        Entry::VacantEntry(VacantEntry { key, storage: self })
    }
}

impl<K, T> MappedNovec<K, T> where K: Hash + Clone + Eq {
    /// Keys, indices and mutable references to the values, in index order.
    pub fn iter_mut(&mut self) -> (r: Vec<(&K, usize, &mut T)>)
        ensures
            forall|k: int|
                0 <= k < r@.len() ==> old(self).key_slots()[r@[k].1 as int] == Some(*r@[k].0)
                    && old(self).value_at(r@[k].1 as int) == Some(*r@[k].2),
    {
        let keys = &self.keys;
        let mut entries = self.values.iter_mut();
        let ghost listed = entries@;
        let mut reversed: Vec<(usize, &mut T)> = Vec::new();
        while entries.len() > 0
            invariant
                entries@.len() + reversed@.len() == listed.len(),
                forall|k: int| 0 <= k < entries@.len() ==> entries@[k] == listed[k],
                forall|k: int|
                    0 <= k < reversed@.len() ==> reversed@[k] == listed[listed.len() - 1 - k],
            decreases entries@.len(),
        {
            let last = entries.pop().unwrap();
            reversed.push(last);
        }
        let mut r: Vec<(&K, usize, &mut T)> = Vec::new();
        while reversed.len() > 0
            invariant
                forall|k: int|
                    0 <= k < reversed@.len() ==> reversed@[k].0 < old(self).values.entries().len()
                        && old(self).values.entries()[reversed@[k].0 as int] == crate::novec::Entry::Data(
                        *reversed@[k].1,
                    ),
                forall|k: int|
                    0 <= k < r@.len() ==> old(self).keys@[r@[k].1 as int] == Some(*r@[k].0)
                        && old(self).value_at(r@[k].1 as int) == Some(*r@[k].2),
                *keys == old(self).keys,
            decreases reversed@.len(),
        {
            let (index, value) = reversed.pop().unwrap();
            if index < keys.len() {
                if let Some(key) = keys[index].as_ref() {
                    r.push((key, index, value));
                }
            }
        }
        r
    }

    /// Mutable references to the values, in index order.
    pub fn values_mut(&mut self) -> (r: Vec<&mut T>)
        ensures
            r@.len() == occupied(old(self).store().entries()).len(),
            forall|k: int| 0 <= k < r@.len() ==> *r@[k] == occupied(old(self).store().entries())[k].1,
    {
        self.values.values_mut()
    }
}

} // verus!
