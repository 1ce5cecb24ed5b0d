//! Typed storage containers: a block arena that hands out contiguous runs,
//! generational slot storages, vectors with stable indices, and a keyed
//! storage that maps keys to the indices of another storage.

pub mod any_storage;
pub mod block_storage;
pub mod generation;
pub mod idvec;
pub mod map;
pub mod mapped;
pub mod novec;
pub mod one_way_map;
pub mod oom;
pub mod persistant;

use vstd::prelude::*;

verus! {

/// A key, possibly together with the index it was last found at.
#[derive(Copy, Clone, Debug, PartialEq)]
pub struct KeyIdx<K, I> {
    pub key: K,
    pub index: Option<I>,
}

impl<K, I> KeyIdx<K, I> {
    pub fn new(key: K) -> (r: Self)
        ensures
            r.key == key,
            r.index is None,
    {
        Self { key, index: None }
    }

    pub fn as_ref(&self) -> (r: KeyIdx<&K, &I>)
        ensures
            *r.key == self.key,
            r.index is Some == self.index is Some,
            r.index matches Some(i) ==> self.index == Some(*i),
    {
        KeyIdx { key: &self.key, index: self.index.as_ref() }
    }

    pub fn key_ref(&self) -> (r: KeyIdx<&K, I>) where I: Copy
        ensures
            *r.key == self.key,
            r.index == self.index,
    {
        KeyIdx { key: &self.key, index: self.index }
    }

    pub fn mut_index(&mut self) -> (r: (&K, &mut Option<I>))
        ensures
            *r.0 == old(self).key,
            *r.1 == old(self).index,
            final(self).key == old(self).key,
            final(self).index == *final(r.1),
    {
        (&self.key, &mut self.index)
    }

    pub fn has_index(&self) -> (r: bool)
        ensures
            r == self.index is Some,
    {
        self.index.is_some()
    }

    pub fn is_only_key(&self) -> (r: bool)
        ensures
            r == self.index is None,
    {
        self.index.is_none()
    }

    pub fn index_ref(&self) -> (r: Option<&I>)
        ensures
            r is Some == self.index is Some,
            r matches Some(i) ==> self.index == Some(*i),
    {
        self.index.as_ref()
    }

    pub fn into_key(self) -> (r: K)
        ensures
            r == self.key,
    {
        self.key
    }

    pub fn into_index(self) -> (r: Option<I>)
        ensures
            r == self.index,
    {
        self.index
    }
}

impl<'a, K: ?Sized, I> From<(&'a K, &'a mut Option<I>)> for KeyIdx<&'a K, &'a I> {
    fn from(pair: (&'a K, &'a mut Option<I>)) -> (r: Self)
        ensures
            r.key == pair.0,
    {
        let (key, idx) = pair;
        let idx: &'a Option<I> = idx;
        Self { key, index: idx.as_ref() }
    }
}

impl<'a, K: ?Sized, I> vstd::std_specs::convert::FromSpecImpl<(&'a K, &'a mut Option<I>)> for KeyIdx<&'a K, &'a I> {
    open spec fn obeys_from_spec() -> bool {
        true
    }

    open spec fn from_spec(pair: (&'a K, &'a mut Option<I>)) -> Self {
        KeyIdx {
            key: pair.0,
            index: match *pair.1 {
                Some(i) => Some(&i),
                None => None,
            },
        }
    }
}

impl<'a, K: ?Sized, I> From<(&'a K, &'a Option<I>)> for KeyIdx<&'a K, &'a I> {
    fn from(pair: (&'a K, &'a Option<I>)) -> (r: Self)
        ensures
            r.key == pair.0,
            r.index is Some == pair.1 is Some,
            r.index matches Some(i) ==> *pair.1 == Some(*i),
    {
        let (key, idx) = pair;
        Self { key, index: idx.as_ref() }
    }
}

impl<'a, K: ?Sized, I> vstd::std_specs::convert::FromSpecImpl<(&'a K, &'a Option<I>)> for KeyIdx<&'a K, &'a I> {
    open spec fn obeys_from_spec() -> bool {
        true
    }

    open spec fn from_spec(pair: (&'a K, &'a Option<I>)) -> Self {
        KeyIdx {
            key: pair.0,
            index: match pair.1 {
                Some(i) => Some(i),
                None => None,
            },
        }
    }
}

impl<'a, K: ?Sized, I> From<(&'a K, Option<I>)> for KeyIdx<&'a K, I> {
    fn from(pair: (&'a K, Option<I>)) -> (r: Self)
        ensures
            r.key == pair.0,
            r.index == pair.1,
    {
        let (key, index) = pair;
        Self { key, index }
    }
}

impl<'a, K: ?Sized, I> vstd::std_specs::convert::FromSpecImpl<(&'a K, Option<I>)> for KeyIdx<&'a K, I> {
    open spec fn obeys_from_spec() -> bool {
        true
    }

    open spec fn from_spec(pair: (&'a K, Option<I>)) -> Self {
        KeyIdx { key: pair.0, index: pair.1 }
    }
}

/// Storage whose values are reached by an index chosen by the caller.
pub trait UnorderedStorage: Sized {
    type Index;
    type Item;

    /// The storage's own invariant.
    spec fn inv(&self) -> bool;

    /// Storing under `index` stays within machine limits.
    spec fn can_insert(&self, index: Self::Index) -> bool;

    /// The value that `index` reaches.
    spec fn lookup(&self, index: Self::Index) -> Option<Self::Item>;

    fn insert(&mut self, index: Self::Index, value: Self::Item) -> (r: Option<Self::Item>)
        requires
            old(self).inv(),
            old(self).can_insert(index),
        ensures
            final(self).inv(),
            final(self).lookup(index) == Some(value),
    ;

    fn remove(&mut self, index: &Self::Index) -> (r: Option<Self::Item>)
        requires
            old(self).inv(),
        ensures
            final(self).inv(),
            r == old(self).lookup(*index),
            final(self).lookup(*index) is None,
            forall|i: Self::Index| i != *index ==> #[trigger] final(self).lookup(i) == old(self).lookup(i),
    ;

    fn get(&self, index: &Self::Index) -> (r: Option<&Self::Item>)
        ensures
            r is Some == self.lookup(*index) is Some,
            r matches Some(v) ==> self.lookup(*index) == Some(*v),
    ;

    fn get_mut(&mut self, index: &Self::Index) -> (r: Option<&mut Self::Item>)
        ensures
            old(self).lookup(*index) is None ==> r is None,
            old(self).lookup(*index) matches Some(v) ==> (r matches Some(m) && *m == v),
    ;
}

/// Storage that also picks the index of a new value itself.
pub trait ExpandableStorage: UnorderedStorage {
    /// Pushing one more value stays within machine limits.
    spec fn can_push(&self) -> bool;

    fn push(&mut self, value: Self::Item) -> (r: Self::Index)
        requires
            old(self).inv(),
            old(self).can_push(),
        ensures
            final(self).inv(),
            final(self).lookup(r) == Some(value),
    ;
}

} // verus!
