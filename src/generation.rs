//! Generational slot storage: every slot carries a generation, and an id only
//! reaches a value while the slot's generation still matches the id's.

use vstd::prelude::*;

verus! {

/// Identifies a value by slot index and slot generation.
#[derive(Clone, Copy, Debug, PartialEq, Eq, Hash, Structural)]
pub struct StorageId {
    pub index: usize,
    pub generation: u64,
}

/// The generation that follows `g`, wrapping around at the top.
pub open spec fn next_generation(g: u64) -> u64 {
    if g == u64::MAX {
        0
    } else {
        (g + 1) as u64
    }
}

/// One slot: a generation and possibly a value.
#[derive(Clone, Copy, Debug)]
pub struct StorageObject<T> {
    generation: u64,
    item: Option<T>,
}

impl<T> StorageObject<T> {
    pub closed spec fn gen(&self) -> u64 {
        self.generation
    }

    pub closed spec fn value(&self) -> Option<T> {
        self.item
    }

    pub fn new(item: T) -> (r: StorageObject<T>)
        ensures
            r.gen() == 0,
            r.value() == Some(item),
    {
        StorageObject { item: Some(item), generation: 0 }
    }

    pub fn empty(generation: u64) -> (r: StorageObject<T>)
        ensures
            r.gen() == generation,
            r.value() is None,
    {
        StorageObject { generation, item: None }
    }

    pub fn generation(&self) -> (r: u64)
        ensures
            r == self.gen(),
    {
        self.generation
    }

    pub fn increase_generation(&mut self)
        ensures
            final(self).gen() == next_generation(old(self).gen()),
            final(self).value() == old(self).value(),
    {
        self.generation = self.generation.wrapping_add(1);
    }

    pub fn is_some(&self) -> (r: bool)
        ensures
            r == self.value() is Some,
    {
        self.item.is_some()
    }

    pub fn is_none(&self) -> (r: bool)
        ensures
            r == self.value() is None,
    {
        self.item.is_none()
    }

    pub fn item(&self) -> (r: Option<&T>)
        ensures
            r == match self.value() {
                Some(v) => Some(&v),
                None => None::<&T>,
            },
    {
        self.item.as_ref()
    }

    pub fn item_mut(&mut self) -> (r: Option<&mut T>)
        ensures
            old(self).value() is None ==> r is None && *final(self) == *old(self),
            old(self).value() matches Some(v) ==> (r matches Some(m) && *m == v && final(self).gen()
                == old(self).gen() && final(self).value() == Some(*final(m))),
    {
        self.item.as_mut()
    }

    pub fn unwrap(self) -> (r: T)
        requires
            self.value() is Some,
        ensures
            Some(r) == self.value(),
    {
        self.item.unwrap()
    }

    pub fn unwrap_ref(&self) -> (r: &T)
        requires
            self.value() is Some,
        ensures
            Some(*r) == self.value(),
    {
        self.item.as_ref().unwrap()
    }

    pub fn unwrap_mut(&mut self) -> (r: &mut T)
        requires
            old(self).value() is Some,
        ensures
            Some(*r) == old(self).value(),
            final(self).gen() == old(self).gen(),
            final(self).value() == Some(*final(r)),
    {
        self.item.as_mut().unwrap()
    }

    /// Takes the value out, leaving the slot empty.
    pub fn remove(&mut self) -> (r: Option<T>)
        ensures
            r == old(self).value(),
            final(self).value() is None,
            final(self).gen() == old(self).gen(),
    {
        self.item.take()
    }

    /// Stores `item`, returning the value that was there.
    pub fn insert(&mut self, item: T) -> (r: Option<T>)
        ensures
            r == old(self).value(),
            final(self).value() == Some(item),
            final(self).gen() == old(self).gen(),
    {
        let to_return = self.item.take();
        self.item = Some(item);
        to_return
    }
}

/// Values of the occupied slots, in slot order.
pub open spec fn present_values<T>(objs: Seq<StorageObject<T>>) -> Seq<T>
    decreases objs.len(),
{
    if objs.len() == 0 {
        Seq::empty()
    } else {
        let rest = present_values(objs.drop_last());
        match objs.last().value() {
            Some(v) => rest.push(v),
            None => rest,
        }
    }
}

/// Ids and values of the occupied slots, in slot order.
pub open spec fn present_entries<T>(objs: Seq<StorageObject<T>>) -> Seq<(StorageId, T)>
    decreases objs.len(),
{
    if objs.len() == 0 {
        Seq::empty()
    } else {
        let rest = present_entries(objs.drop_last());
        match objs.last().value() {
            Some(v) => rest.push(
                (StorageId { index: (objs.len() - 1) as usize, generation: objs.last().gen() }, v),
            ),
            None => rest,
        }
    }
}

/// Indices of the occupied slots, in slot order.
pub open spec fn present_indices<T>(objs: Seq<StorageObject<T>>) -> Seq<usize>
    decreases objs.len(),
{
    if objs.len() == 0 {
        Seq::empty()
    } else {
        let rest = present_indices(objs.drop_last());
        if objs.last().value() is Some {
            rest.push((objs.len() - 1) as usize)
        } else {
            rest
        }
    }
}

/// The occupied slots, in slot order.
pub open spec fn present_objects<T>(objs: Seq<StorageObject<T>>) -> Seq<StorageObject<T>>
    decreases objs.len(),
{
    if objs.len() == 0 {
        Seq::empty()
    } else {
        let rest = present_objects(objs.drop_last());
        if objs.last().value() is Some {
            rest.push(objs.last())
        } else {
            rest
        }
    }
}

/// Slots addressed by generational ids, with a stack of free slot indices that
/// are reused before the storage grows.
#[derive(Clone, Debug)]
pub struct GenerationStorage<T> {
    objects: Vec<StorageObject<T>>,
    available: Vec<usize>,
}

impl<T> GenerationStorage<T> {
    pub closed spec fn objs(&self) -> Seq<StorageObject<T>> {
        self.objects@
    }

    /// Free slot indices; the last one is reused first.
    pub closed spec fn free(&self) -> Seq<usize> {
        self.available@
    }

    /// Every free index names a slot.
    pub closed spec fn wf(&self) -> bool {
        forall|i: int| 0 <= i < self.available@.len() ==> #[trigger] self.available@[i] < self.objects@.len()
    }

    /// The value that `id` reaches: present, in range, and of the same generation.
    pub open spec fn lookup(&self, id: StorageId) -> Option<T> {
        if id.index < self.objs().len() && self.objs()[id.index as int].gen() == id.generation {
            self.objs()[id.index as int].value()
        } else {
            None
        }
    }

    pub fn new() -> (r: GenerationStorage<T>)
        ensures
            r.wf(),
            r.objs().len() == 0,
            r.free().len() == 0,
    {
        GenerationStorage { objects: Vec::new(), available: Vec::new() }
    }

    /// The id that the `n`-th next push would return if nothing is removed meanwhile.
    pub fn nth_available(&self, n: usize) -> (r: StorageId)
        requires
            self.wf(),
            n >= self.free().len() ==> self.objs().len() + (n - self.free().len()) <= usize::MAX,
        ensures
            n < self.free().len() ==> r.index == self.free()[self.free().len() - 1 - n]
                && r.generation == next_generation(self.objs()[r.index as int].gen()),
            n >= self.free().len() ==> r.index == self.objs().len() + (n - self.free().len())
                && r.generation == 0,
    {
        if n < self.available.len() {
            let index = self.available[self.available.len() - 1 - n];
            let generation = self.objects[index].generation.wrapping_add(1);
            return StorageId { index, generation };
        }
        let overflow = n - self.available.len();
        let index = self.objects.len() + overflow;
        StorageId { index, generation: 0 }
    }

    /// Empties every occupied slot and marks it free.
    pub fn clear(&mut self)
        requires
            old(self).wf(),
        ensures
            final(self).wf(),
            final(self).objs().len() == old(self).objs().len(),
            forall|i: int|
                0 <= i < old(self).objs().len() ==> (#[trigger] final(self).objs()[i]).value() is None
                    && final(self).objs()[i].gen() == old(self).objs()[i].gen(),
            final(self).free() == old(self).free() + present_indices(old(self).objs()),
    {
        let n = self.objects.len();
        let mut i: usize = 0;
        while i < n
            invariant
                n == old(self).objs().len(),
                0 <= i <= n,
                self.objects@.len() == n,
                forall|j: int| 0 <= j < self.available@.len() ==> #[trigger] self.available@[j] < n,
                forall|j: int|
                    0 <= j < i ==> (#[trigger] self.objects@[j]).value() is None && self.objects@[j].gen()
                        == old(self).objs()[j].gen(),
                forall|j: int| i <= j < n ==> #[trigger] self.objects@[j] == old(self).objs()[j],
                self.available@ == old(self).free() + present_indices(
                    old(self).objs().subrange(0, i as int),
                ),
            decreases n - i,
        {
            proof {
                assert(old(self).objs().subrange(0, i + 1).drop_last() =~= old(self).objs().subrange(
                    0,
                    i as int,
                ));
            }
            if self.objects[i].is_some() {
                self.objects[i].remove();
                self.available.push(i);
                proof {
                    assert(self.available@ =~= old(self).free() + present_indices(
                        old(self).objs().subrange(0, i + 1),
                    ));
                }
            }
            i += 1;
        }
        proof {
            assert(old(self).objs().subrange(0, n as int) =~= old(self).objs());
        }
    }

    /// Stores `item` under exactly `id`, growing the storage when needed.
    pub fn insert(&mut self, id: StorageId, item: T) -> (r: Option<T>)
        requires
            old(self).wf(),
            id.index < usize::MAX,
        ensures
            final(self).wf(),
            r is None,
            final(self).objs().len() == if id.index < old(self).objs().len() {
                old(self).objs().len() as int
            } else {
                id.index + 1
            },
            final(self).objs()[id.index as int].value() == Some(item),
            final(self).objs()[id.index as int].gen() == id.generation,
            forall|j: int|
                0 <= j < old(self).objs().len() && j != id.index ==> #[trigger] final(self).objs()[j]
                    == old(self).objs()[j],
            final(self).lookup(id) == Some(item),
            id.index >= old(self).objs().len() ==> final(self).free() == old(self).free() + Seq::new(
                (id.index - old(self).objs().len()) as nat,
                |j: int| (old(self).objs().len() + j) as usize,
            ),
            id.index < old(self).objs().len() && !(old(self).objs()[id.index as int].value() is None
                && old(self).free().contains(id.index)) ==> final(self).free() == old(self).free(),
            id.index < old(self).objs().len() && old(self).objs()[id.index as int].value() is None
                && old(self).free().contains(id.index) ==> exists|k: int|
                0 <= k < old(self).free().len() && old(self).free()[k] == id.index && (forall|j: int|
                    0 <= j < k ==> old(self).free()[j] != id.index) && final(self).free() == old(
                self).free().update(k, old(self).free().last()).drop_last(),
    {
        if id.index >= self.objects.len() {
            self.fill_to(id.index + 1);
            self.available.pop();
            proof {
                assert(self.available@ =~= old(self).free() + Seq::new(
                    (id.index - old(self).objs().len()) as nat,
                    |j: int| (old(self).objs().len() + j) as usize,
                ));
            }
            let object = &mut self.objects[id.index];
            object.item = Some(item);
            object.generation = id.generation;
            return None;
        }
        if self.objects[id.index].is_none() {
            let mut k: usize = 0;
            let len = self.available.len();
            while k < len
                invariant
                    len == self.available@.len(),
                    0 <= k <= len,
                    forall|j: int| 0 <= j < k ==> self.available@[j] != id.index,
                ensures
                    0 <= k <= len,
                    forall|j: int| 0 <= j < k ==> self.available@[j] != id.index,
                    k < len ==> self.available@[k as int] == id.index,
                decreases len - k,
            {
                if self.available[k] == id.index {
                    break;
                }
                k += 1;
            }
            proof {
                if k == len {
                    assert(!old(self).free().contains(id.index));
                }
            }
            if k < len {
                self.available.swap_remove(k);
            }
        }
        let object = &mut self.objects[id.index];
        object.item = Some(item);
        object.generation = id.generation;
        None
    }

    /// Stores `item` in a free slot (bumping its generation) or in a new one.
    pub fn push(&mut self, item: T) -> (r: StorageId)
        requires
            old(self).wf(),
        ensures
            final(self).wf(),
            old(self).free().len() > 0 ==> r.index == old(self).free().last() && r.generation
                == next_generation(old(self).objs()[r.index as int].gen()) && final(self).free()
                == old(self).free().drop_last() && final(self).objs().len()
                == old(self).objs().len(),
            old(self).free().len() == 0 ==> r.index == old(self).objs().len() && r.generation == 0
                && final(self).free() == old(self).free() && final(self).objs().len()
                == old(self).objs().len() + 1,
            final(self).objs()[r.index as int].value() == Some(item),
            final(self).objs()[r.index as int].gen() == r.generation,
            forall|j: int|
                0 <= j < old(self).objs().len() && j != r.index ==> #[trigger] final(self).objs()[j]
                    == old(self).objs()[j],
            final(self).lookup(r) == Some(item),
    {
        match self.available.pop() {
            Some(id) => {
                self.objects[id].increase_generation();
                self.objects[id].insert(item);
                StorageId { index: id, generation: self.objects[id].generation() }
            },
            None => {
                let id = self.objects.len();
                let object = StorageObject::new(item);
                self.objects.push(object);
                StorageId { index: id, generation: 0 }
            },
        }
    }

    /// Empties slot `id` and marks it free; gives back what it held.
    pub fn remove(&mut self, id: usize) -> (r: Option<T>)
        requires
            old(self).wf(),
        ensures
            final(self).wf(),
            id >= old(self).objs().len() ==> r is None && *final(self) == *old(self),
            id < old(self).objs().len() ==> {
                &&& r == old(self).objs()[id as int].value()
                &&& final(self).objs().len() == old(self).objs().len()
                &&& final(self).objs()[id as int].value() is None
                &&& final(self).objs()[id as int].gen() == old(self).objs()[id as int].gen()
                &&& forall|j: int|
                    0 <= j < old(self).objs().len() && j != id ==> #[trigger] final(self).objs()[j]
                        == old(self).objs()[j]
                &&& final(self).free() == if r is Some {
                    old(self).free().push(id)
                } else {
                    old(self).free()
                }
            },
    {
        if id < self.objects.len() {
            if self.objects[id].is_some() {
                self.available.push(id);
            }
            return self.objects[id].remove();
        }
        None
    }

    /// Keeps only the values for which `f` holds.
    pub fn retain<F: Fn(&T) -> bool>(&mut self, f: F)
        requires
            old(self).wf(),
            forall|v: &T| #[trigger] f.requires((v,)),
        ensures
            final(self).wf(),
            final(self).objs().len() == old(self).objs().len(),
            forall|i: int|
                #![trigger final(self).objs()[i]]
                0 <= i < old(self).objs().len() ==> final(self).objs()[i].gen() == old(self).objs()[i].gen() && match old(self).objs()[i].value() {
                    None => final(self).objs()[i].value() is None,
                    Some(v) => (final(self).objs()[i].value() == Some(v) && f.ensures((&v,), true))
                        || (final(self).objs()[i].value() is None && f.ensures((&v,), false)),
                },
    {
        let n = self.objects.len();
        let mut id: usize = 0;
        while id < n
            invariant
                n == old(self).objs().len(),
                0 <= id <= n,
                self.objects@.len() == n,
                forall|v: &T| #[trigger] f.requires((v,)),
                forall|j: int| 0 <= j < self.available@.len() ==> #[trigger] self.available@[j] < n,
                forall|j: int| id <= j < n ==> #[trigger] self.objects@[j] == old(self).objs()[j],
                forall|i: int|
                    #![trigger self.objects@[i]]
                    0 <= i < id ==> self.objects@[i].gen() == old(self).objs()[i].gen() && match old(self).objs()[i].value() {
                        None => self.objects@[i].value() is None,
                        Some(v) => (self.objects@[i].value() == Some(v) && f.ensures((&v,), true)) || (
                        self.objects@[i].value() is None && f.ensures((&v,), false)),
                    },
            decreases n - id,
        {
            let keep = match self.objects[id].item() {
                Some(item) => f(item),
                None => true,
            };
            if !keep {
                self.objects[id].remove();
                self.available.push(id);
            }
            id += 1;
        }
    }

    /// Removes the value that `id` reaches, if any.
    pub fn remove_id(&mut self, id: StorageId) -> (r: Option<T>)
        requires
            old(self).wf(),
        ensures
            final(self).wf(),
            r == old(self).lookup(id),
            final(self).lookup(id) is None,
            r is None ==> *final(self) == *old(self),
            final(self).objs().len() == old(self).objs().len(),
            forall|j: int|
                0 <= j < old(self).objs().len() && j != id.index ==> #[trigger] final(self).objs()[j]
                    == old(self).objs()[j],
            id.index < old(self).objs().len() ==> final(self).objs()[id.index as int].gen() == old(
            self).objs()[id.index as int].gen(),
    {
        if self.contains(id) {
            return self.remove(id.index);
        }
        None
    }

    pub fn contains(&self, id: StorageId) -> (r: bool)
        ensures
            r == self.lookup(id) is Some,
    {
        self.get(id).is_some()
    }

    pub fn get(&self, id: StorageId) -> (r: Option<&T>)
        ensures
            r is Some == self.lookup(id) is Some,
            r matches Some(v) ==> self.lookup(id) == Some(*v),
    {
        if id.index >= self.objects.len() {
            return None;
        }
        let object = &self.objects[id.index];
        if object.is_some() && object.generation == id.generation {
            return object.item.as_ref();
        }
        None
    }

    pub fn get_mut(&mut self, id: StorageId) -> (r: Option<&mut T>)
        ensures
            old(self).lookup(id) is None ==> r is None && *final(self) == *old(self),
            old(self).lookup(id) matches Some(v) ==> (r matches Some(m) && *m == v && final(self).objs() == old(self).objs().update(
                id.index as int,
                old(self).objs()[id.index as int].with_value(Some(*final(m))),
            ) && final(self).free() == old(self).free()),
    {
        if id.index >= self.objects.len() {
            return None;
        }
        if self.objects[id.index].is_some() && self.objects[id.index].generation == id.generation {
            let object = &mut self.objects[id.index];
            return object.item.as_mut();
        }
        None
    }

    /// The value in slot `idx`, whatever its generation.
    pub fn get_unchecked(&self, idx: usize) -> (r: Option<&T>)
        ensures
            r is Some == (idx < self.objs().len() && self.objs()[idx as int].value() is Some),
            r matches Some(v) ==> self.objs()[idx as int].value() == Some(*v),
    {
        if idx >= self.objects.len() {
            return None;
        }
        self.objects[idx].item.as_ref()
    }

    /// The value in slot `idx`, whatever its generation, for writing.
    pub fn get_mut_unchecked(&mut self, idx: usize) -> (r: Option<&mut T>)
        ensures
            !(idx < old(self).objs().len() && old(self).objs()[idx as int].value() is Some) ==> r is None
                && *final(self) == *old(self),
            idx < old(self).objs().len() && old(self).objs()[idx as int].value() is Some ==> (r matches Some(
                m,
            ) && Some(*m) == old(self).objs()[idx as int].value() && final(self).objs() == old(self).objs().update(
                idx as int,
                old(self).objs()[idx as int].with_value(Some(*final(m))),
            ) && final(self).free() == old(self).free()),
    {
        if idx >= self.objects.len() || self.objects[idx].is_none() {
            return None;
        }
        let object = &mut self.objects[idx];
        object.item.as_mut()
    }

    /// Grows the storage to `size` empty slots of generation 0, each marked free.
    pub fn fill_to(&mut self, size: usize)
        requires
            old(self).wf(),
        ensures
            final(self).wf(),
            final(self).objs().len() == if size > old(self).objs().len() {
                size as int
            } else {
                old(self).objs().len() as int
            },
            forall|j: int|
                0 <= j < old(self).objs().len() ==> #[trigger] final(self).objs()[j] == old(self).objs()[j],
            forall|j: int|
                old(self).objs().len() <= j < final(self).objs().len() ==> (#[trigger] final(self).objs()[j]).value() is None && final(self).objs()[j].gen() == 0,
            final(self).free() == old(self).free() + Seq::new(
                (if size > old(self).objs().len() {
                    size - old(self).objs().len()
                } else {
                    0
                }) as nat,
                |j: int| (old(self).objs().len() + j) as usize,
            ),
    {
        let mut i = self.objects.len();
        while i < size
            invariant
                old(self).objs().len() <= i,
                i <= size || i == old(self).objs().len(),
                self.objects@.len() == if i > old(self).objs().len() { i as int } else { old(self).objs().len() as int },
                forall|j: int|
                    0 <= j < old(self).objs().len() ==> #[trigger] self.objects@[j] == old(self).objs()[j],
                forall|j: int|
                    old(self).objs().len() <= j < self.objects@.len() ==> (#[trigger] self.objects@[j]).value() is None
                        && self.objects@[j].gen() == 0,
                forall|j: int| 0 <= j < self.available@.len() ==> #[trigger] self.available@[j] < self.objects@.len(),
                self.available@ == old(self).free() + Seq::new(
                    (self.objects@.len() - old(self).objs().len()) as nat,
                    |j: int| (old(self).objs().len() + j) as usize,
                ),
            decreases size - i,
        {
            self.objects.push(StorageObject::empty(0));
            self.available.push(i);
            i += 1;
            proof {
                assert(self.available@ =~= old(self).free() + Seq::new(
                    (self.objects@.len() - old(self).objs().len()) as nat,
                    |j: int| (old(self).objs().len() + j) as usize,
                ));
            }
        }
        proof {
            assert(self.available@ =~= old(self).free() + Seq::new(
                (if size > old(self).objs().len() {
                    size - old(self).objs().len()
                } else {
                    0
                }) as nat,
                |j: int| (old(self).objs().len() + j) as usize,
            ));
        }
    }
}

impl<T> StorageObject<T> {
    /// This slot with its value replaced.
    pub closed spec fn with_value(self, v: Option<T>) -> StorageObject<T> {
        StorageObject { generation: self.generation, item: v }
    }
}

impl<T> GenerationStorage<T> {
    /// References to the stored values, in slot order.
    pub fn values(&self) -> (r: Vec<&T>)
        ensures
            r@.len() == present_values(self.objs()).len(),
            forall|k: int| 0 <= k < r@.len() ==> *r@[k] == present_values(self.objs())[k],
    {
        let mut r: Vec<&T> = Vec::new();
        let n = self.objects.len();
        let mut i: usize = 0;
        while i < n
            invariant
                n == self.objects@.len(),
                0 <= i <= n,
                r@.len() == present_values(self.objects@.subrange(0, i as int)).len(),
                forall|k: int|
                    0 <= k < r@.len() ==> *r@[k] == present_values(self.objects@.subrange(0, i as int))[k],
            decreases n - i,
        {
            proof {
                assert(self.objects@.subrange(0, i + 1).drop_last() =~= self.objects@.subrange(0, i as int));
            }
            if let Some(v) = self.objects[i].item() {
                r.push(v);
            }
            i += 1;
        }
        proof {
            assert(self.objects@.subrange(0, n as int) =~= self.objects@);
        }
        r
    }

    /// References to the occupied slots, in slot order.
    pub fn iter(&self) -> (r: Vec<&StorageObject<T>>)
        ensures
            r@.len() == present_objects(self.objs()).len(),
            forall|k: int| 0 <= k < r@.len() ==> *r@[k] == present_objects(self.objs())[k],
    {
        let mut r: Vec<&StorageObject<T>> = Vec::new();
        let n = self.objects.len();
        let mut i: usize = 0;
        while i < n
            invariant
                n == self.objects@.len(),
                0 <= i <= n,
                r@.len() == present_objects(self.objects@.subrange(0, i as int)).len(),
                forall|k: int|
                    0 <= k < r@.len() ==> *r@[k] == present_objects(self.objects@.subrange(0, i as int))[k],
            decreases n - i,
        {
            proof {
                assert(self.objects@.subrange(0, i + 1).drop_last() =~= self.objects@.subrange(0, i as int));
            }
            if self.objects[i].is_some() {
                r.push(&self.objects[i]);
            }
            i += 1;
        }
        proof {
            assert(self.objects@.subrange(0, n as int) =~= self.objects@);
        }
        r
    }

    /// Ids and references to the stored values, in slot order.
    pub fn iter_with_ids(&self) -> (r: Vec<(StorageId, &T)>)
        ensures
            r@.len() == present_entries(self.objs()).len(),
            forall|k: int|
                0 <= k < r@.len() ==> r@[k].0 == present_entries(self.objs())[k].0 && *r@[k].1
                    == present_entries(self.objs())[k].1,
    {
        let mut r: Vec<(StorageId, &T)> = Vec::new();
        let n = self.objects.len();
        let mut i: usize = 0;
        while i < n
            invariant
                n == self.objects@.len(),
                0 <= i <= n,
                r@.len() == present_entries(self.objects@.subrange(0, i as int)).len(),
                forall|k: int|
                    0 <= k < r@.len() ==> r@[k].0 == present_entries(self.objects@.subrange(0, i as int))[k].0
                        && *r@[k].1 == present_entries(self.objects@.subrange(0, i as int))[k].1,
            decreases n - i,
        {
            proof {
                assert(self.objects@.subrange(0, i + 1).drop_last() =~= self.objects@.subrange(0, i as int));
            }
            if let Some(v) = self.objects[i].item() {
                let id = StorageId { index: i, generation: self.objects[i].generation() };
                r.push((id, v));
            }
            i += 1;
        }
        proof {
            assert(self.objects@.subrange(0, n as int) =~= self.objects@);
        }
        r
    }
}

impl<T> crate::UnorderedStorage for GenerationStorage<T> {
    type Index = StorageId;
    type Item = T;

    open spec fn inv(&self) -> bool {
        self.wf()
    }

    open spec fn can_insert(&self, index: StorageId) -> bool {
        index.index < usize::MAX
    }

    open spec fn lookup(&self, index: StorageId) -> Option<T> {
        GenerationStorage::lookup(self, index)
    }

    fn insert(&mut self, index: StorageId, value: T) -> (r: Option<T>) {
        GenerationStorage::insert(self, index, value)
    }

    fn remove(&mut self, index: &StorageId) -> (r: Option<T>) {
        self.remove_id(*index)
    }

    fn get(&self, index: &StorageId) -> (r: Option<&T>) {
        GenerationStorage::get(self, *index)
    }

    fn get_mut(&mut self, index: &StorageId) -> (r: Option<&mut T>) {
        GenerationStorage::get_mut(self, *index)
    }
}

impl<T> crate::ExpandableStorage for GenerationStorage<T> {
    open spec fn can_push(&self) -> bool {
        true
    }

    fn push(&mut self, value: T) -> (r: StorageId) {
        GenerationStorage::push(self, value)
    }
}

impl From<StorageId> for crate::idvec::IdVecIndex {
    fn from(id: StorageId) -> (r: Self)
        ensures
            r.0 == id.index,
    {
        crate::idvec::IdVecIndex(id.index)
    }
}

impl vstd::std_specs::convert::FromSpecImpl<StorageId> for crate::idvec::IdVecIndex {
    open spec fn obeys_from_spec() -> bool {
        true
    }

    open spec fn from_spec(id: StorageId) -> crate::idvec::IdVecIndex {
        crate::idvec::IdVecIndex(id.index)
    }
}

impl<T> Default for GenerationStorage<T> {
    fn default() -> (r: Self)
        ensures
            r.wf(),
            r.objs().len() == 0,
            r.free().len() == 0,
    {
        GenerationStorage::new()
    }
}

impl<T> GenerationStorage<T> {
    /// Mutable references to the stored values, in slot order.
    pub fn values_mut(&mut self) -> (r: Vec<&mut T>)
        ensures
            r@.len() == present_values(old(self).objs()).len(),
            forall|k: int| 0 <= k < r@.len() ==> *r@[k] == present_values(old(self).objs())[k],
    {
        let mut r: Vec<&mut T> = Vec::new();
        let mut rest: &mut [StorageObject<T>] = self.objects.as_mut_slice();
        let ghost all = old(self).objects@;
        let n = rest.len();
        let mut i: usize = 0;
        while i < n
            invariant
                n == all.len(),
                0 <= i <= n,
                rest@ == all.subrange(i as int, n as int),
                r@.len() == present_values(all.subrange(0, i as int)).len(),
                forall|k: int|
                    0 <= k < r@.len() ==> *r@[k] == present_values(all.subrange(0, i as int))[k],
            decreases n - i,
        {
            proof {
                assert(all.subrange(0, i + 1).drop_last() =~= all.subrange(0, i as int));
            }
            let (head, tail) = rest.split_at_mut(1);
            rest = tail;
            let first = head.first_mut().unwrap();
            if first.is_some() {
                r.push(first.unwrap_mut());
            }
            i += 1;
        }
        proof {
            assert(all.subrange(0, n as int) =~= all);
        }
        r
    }

    /// Mutable references to the occupied slots, in slot order.
    pub fn iter_mut(&mut self) -> (r: Vec<&mut StorageObject<T>>)
        ensures
            r@.len() == present_objects(old(self).objs()).len(),
            forall|k: int| 0 <= k < r@.len() ==> *r@[k] == present_objects(old(self).objs())[k],
    {
        let mut r: Vec<&mut StorageObject<T>> = Vec::new();
        let mut rest: &mut [StorageObject<T>] = self.objects.as_mut_slice();
        let ghost all = old(self).objects@;
        let n = rest.len();
        let mut i: usize = 0;
        while i < n
            invariant
                n == all.len(),
                0 <= i <= n,
                rest@ == all.subrange(i as int, n as int),
                r@.len() == present_objects(all.subrange(0, i as int)).len(),
                forall|k: int|
                    0 <= k < r@.len() ==> *r@[k] == present_objects(all.subrange(0, i as int))[k],
            decreases n - i,
        {
            proof {
                assert(all.subrange(0, i + 1).drop_last() =~= all.subrange(0, i as int));
            }
            let (head, tail) = rest.split_at_mut(1);
            rest = tail;
            let first = head.first_mut().unwrap();
            if first.is_some() {
                r.push(first);
            }
            i += 1;
        }
        proof {
            assert(all.subrange(0, n as int) =~= all);
        }
        r
    }

    /// Ids and mutable references to the stored values, in slot order.
    pub fn iter_with_ids_mut(&mut self) -> (r: Vec<(StorageId, &mut T)>)
        ensures
            r@.len() == present_entries(old(self).objs()).len(),
            forall|k: int|
                0 <= k < r@.len() ==> r@[k].0 == present_entries(old(self).objs())[k].0 && *r@[k].1
                    == present_entries(old(self).objs())[k].1,
    {
        let mut r: Vec<(StorageId, &mut T)> = Vec::new();
        let mut rest: &mut [StorageObject<T>] = self.objects.as_mut_slice();
        let ghost all = old(self).objects@;
        let n = rest.len();
        let mut i: usize = 0;
        while i < n
            invariant
                n == all.len(),
                0 <= i <= n,
                rest@ == all.subrange(i as int, n as int),
                r@.len() == present_entries(all.subrange(0, i as int)).len(),
                forall|k: int|
                    0 <= k < r@.len() ==> r@[k].0 == present_entries(all.subrange(0, i as int))[k].0
                        && *r@[k].1 == present_entries(all.subrange(0, i as int))[k].1,
            decreases n - i,
        {
            proof {
                assert(all.subrange(0, i + 1).drop_last() =~= all.subrange(0, i as int));
            }
            let (head, tail) = rest.split_at_mut(1);
            rest = tail;
            let first = head.first_mut().unwrap();
            if first.is_some() {
                let id = StorageId { index: i, generation: first.generation() };
                r.push((id, first.unwrap_mut()));
            }
            i += 1;
        }
        proof {
            assert(all.subrange(0, n as int) =~= all);
        }
        r
    }
}

} // verus!
