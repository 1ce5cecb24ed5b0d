//! A vector addressed by plain indices whose positions may be empty.

use vstd::prelude::*;

verus! {

/// Position in an `IdVec`.
#[derive(Clone, Copy, Debug)]
pub struct IdVecIndex(pub usize);

impl From<usize> for IdVecIndex {
    fn from(value: usize) -> (r: Self)
        ensures
            r.0 == value,
    {
        IdVecIndex(value)
    }
}

impl vstd::std_specs::convert::FromSpecImpl<usize> for IdVecIndex {
    open spec fn obeys_from_spec() -> bool {
        true
    }

    open spec fn from_spec(v: usize) -> IdVecIndex {
        IdVecIndex(v)
    }
}

/// Optional values at fixed positions.
#[derive(Clone, Debug)]
pub struct IdVec<T> {
    container: Vec<Option<T>>,
}

/// Indices and values of the filled positions, in index order.
pub open spec fn filled<T>(slots: Seq<Option<T>>) -> Seq<(usize, T)>
    decreases slots.len(),
{
    if slots.len() == 0 {
        Seq::empty()
    } else {
        let rest = filled(slots.drop_last());
        match slots.last() {
            Some(v) => rest.push(((slots.len() - 1) as usize, v)),
            None => rest,
        }
    }
}

impl<T> IdVec<T> {
    pub closed spec fn slots(&self) -> Seq<Option<T>> {
        self.container@
    }

    /// Value at `index`, `None` when empty or out of range.
    pub open spec fn at(&self, index: int) -> Option<T> {
        if 0 <= index < self.slots().len() {
            self.slots()[index]
        } else {
            None
        }
    }

    pub fn new() -> (r: Self)
        ensures
            r.slots().len() == 0,
    {
        Self { container: Vec::new() }
    }

    pub fn clear(&mut self)
        ensures
            final(self).slots().len() == 0,
    {
        self.container.clear();
    }

    pub fn with_capacity(cap: usize) -> (r: Self)
        ensures
            r.slots().len() == 0,
    {
        Self { container: Vec::with_capacity(cap) }
    }

    /// Grows the vector to `size` positions with empty ones.
    pub fn fill_to(&mut self, size: usize)
        ensures
            final(self).slots().len() == if size > old(self).slots().len() {
                size as int
            } else {
                old(self).slots().len() as int
            },
            forall|i: int| #[trigger] final(self).at(i) == old(self).at(i),
    {
        let mut i = self.container.len();
        while i < size
            invariant
                old(self).container@.len() <= i,
                i <= size || i == old(self).container@.len(),
                self.container@.len() == i,
                forall|j: int|
                    0 <= j < old(self).container@.len() ==> #[trigger] self.container@[j] == old(
                    self).container@[j],
                forall|j: int| old(self).container@.len() <= j < i ==> #[trigger] self.container@[j] is None,
            decreases size - i,
        {
            self.container.push(None);
            i += 1;
        }
        proof {
            assert forall|j: int| #[trigger] self.at(j) == old(self).at(j) by {
                if 0 <= j < old(self).container@.len() {
                    assert(self.container@[j] == old(self).container@[j]);
                }
            }
        }
    }

    /// Stores `value` at `index`, growing the vector when needed, and gives
    /// back what was there.
    pub fn insert(&mut self, index: usize, value: T) -> (r: Option<T>)
        ensures
            r == old(self).at(index as int),
            final(self).at(index as int) == Some(value),
            forall|i: int| i != index ==> #[trigger] final(self).at(i) == old(self).at(i),
            final(self).slots().len() == if index < old(self).slots().len() {
                old(self).slots().len() as int
            } else {
                index + 1
            },
    {
        if index >= self.container.len() {
            self.fill_to(index);
            let ghost mid = *self;
            self.container.push(Some(value));
            proof {
                assert forall|i: int| i != index implies #[trigger] self.at(i) == old(self).at(i) by {
                    assert(mid.at(i) == old(self).at(i));
                }
            }
            return None;
        }
        let r = self.container[index].take();
        self.container.set(index, Some(value));
        r
    }

    /// Empties position `index` and gives back what was there.
    pub fn remove(&mut self, index: usize) -> (r: Option<T>)
        ensures
            r == old(self).at(index as int),
            final(self).at(index as int) is None,
            forall|i: int| i != index ==> #[trigger] final(self).at(i) == old(self).at(i),
            final(self).slots().len() == old(self).slots().len(),
    {
        if index >= self.container.len() {
            return None;
        }
        self.container[index].take()
    }

    pub fn get(&self, index: usize) -> (r: Option<&T>)
        ensures
            r is Some == self.at(index as int) is Some,
            r matches Some(v) ==> self.at(index as int) == Some(*v),
    {
        if index >= self.container.len() {
            return None;
        }
        self.container[index].as_ref()
    }

    pub fn get_mut(&mut self, index: usize) -> (r: Option<&mut T>)
        ensures
            old(self).at(index as int) is None ==> r is None && *final(self) == *old(self),
            old(self).at(index as int) matches Some(v) ==> (r matches Some(m) && *m == v && final(
            self).slots() == old(self).slots().update(index as int, Some(*final(m)))),
    {
        if index >= self.container.len() || self.container[index].is_none() {
            return None;
        }
        self.container[index].as_mut()
    }

    /// Indices and references to the stored values, in index order.
    pub fn iter(&self) -> (r: Vec<(usize, &T)>)
        ensures
            r@.len() == filled(self.slots()).len(),
            forall|k: int|
                0 <= k < r@.len() ==> r@[k].0 == filled(self.slots())[k].0 && *r@[k].1 == filled(
                    self.slots(),
                )[k].1,
    {
        let mut r: Vec<(usize, &T)> = Vec::new();
        let n = self.container.len();
        let mut i: usize = 0;
        while i < n
            invariant
                n == self.container@.len(),
                0 <= i <= n,
                r@.len() == filled(self.container@.subrange(0, i as int)).len(),
                forall|k: int|
                    0 <= k < r@.len() ==> r@[k].0 == filled(self.container@.subrange(0, i as int))[k].0
                        && *r@[k].1 == filled(self.container@.subrange(0, i as int))[k].1,
            decreases n - i,
        {
            proof {
                assert(self.container@.subrange(0, i + 1).drop_last() =~= self.container@.subrange(
                    0,
                    i as int,
                ));
            }
            if let Some(v) = self.container[i].as_ref() {
                r.push((i, v));
            }
            i += 1;
        }
        proof {
            assert(self.container@.subrange(0, n as int) =~= self.container@);
        }
        r
    }
}

impl<T> crate::UnorderedStorage for IdVec<T> {
    type Index = IdVecIndex;
    type Item = T;

    open spec fn inv(&self) -> bool {
        true
    }

    open spec fn can_insert(&self, index: IdVecIndex) -> bool {
        true
    }

    open spec fn lookup(&self, index: IdVecIndex) -> Option<T> {
        self.at(index.0 as int)
    }

    fn insert(&mut self, index: IdVecIndex, value: T) -> (r: Option<T>) {
        IdVec::insert(self, index.0, value)
    }

    fn remove(&mut self, index: &IdVecIndex) -> (r: Option<T>) {
        IdVec::remove(self, index.0)
    }

    fn get(&self, index: &IdVecIndex) -> (r: Option<&T>) {
        IdVec::get(self, index.0)
    }

    fn get_mut(&mut self, index: &IdVecIndex) -> (r: Option<&mut T>) {
        IdVec::get_mut(self, index.0)
    }
}

impl<T> Default for IdVec<T> {
    fn default() -> (r: Self)
        ensures
            r.slots().len() == 0,
    {
        IdVec::new()
    }
}

impl<T> IdVec<T> {
    /// Indices and mutable references to the stored values, in index order.
    pub fn iter_mut(&mut self) -> (r: Vec<(usize, &mut T)>)
        ensures
            r@.len() == filled(old(self).slots()).len(),
            forall|k: int|
                0 <= k < r@.len() ==> r@[k].0 == filled(old(self).slots())[k].0 && *r@[k].1 == filled(
                    old(self).slots(),
                )[k].1,
    {
        let mut r: Vec<(usize, &mut T)> = Vec::new();
        let mut rest: &mut [Option<T>] = self.container.as_mut_slice();
        let ghost all = old(self).container@;
        let n = rest.len();
        let mut i: usize = 0;
        while i < n
            invariant
                n == all.len(),
                0 <= i <= n,
                rest@ == all.subrange(i as int, n as int),
                r@.len() == filled(all.subrange(0, i as int)).len(),
                forall|k: int|
                    0 <= k < r@.len() ==> r@[k].0 == filled(all.subrange(0, i as int))[k].0
                        && *r@[k].1 == filled(all.subrange(0, i as int))[k].1,
            decreases n - i,
        {
            proof {
                assert(all.subrange(0, i + 1).drop_last() =~= all.subrange(0, i as int));
            }
            let (head, tail) = rest.split_at_mut(1);
            rest = tail;
            let first = head.first_mut().unwrap();
            if let Some(v) = first.as_mut() {
                r.push((i, v));
            }
            i += 1;
        }
        proof {
            assert(all.subrange(0, n as int) =~= all);
        }
        r
    }
}

} // verus!
