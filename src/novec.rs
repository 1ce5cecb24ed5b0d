//! A vector with holes: removed positions are threaded into an ascending list
//! of free positions, and pushes fill the lowest free position first.

use vstd::prelude::*;

verus! {

/// A position of a `NoVec`: a value, or a free position with the next free one.
#[derive(Clone, Copy, Debug, PartialEq)]
pub enum Entry<T> {
    Data(T),
    Next(usize),
}

impl<T> Entry<T> {
    /// The value held, if any.
    pub open spec fn data(self) -> Option<T> {
        match self {
            Entry::Data(v) => Some(v),
            Entry::Next(_) => None,
        }
    }

    pub fn is_next(&self) -> (r: bool)
        ensures
            r == (*self is Next),
    {
        match self {
            Entry::Next(_) => true,
            _ => false,
        }
    }

    pub fn is_data(&self) -> (r: bool)
        ensures
            r == (*self is Data),
    {
        match self {
            Entry::Data(_) => true,
            _ => false,
        }
    }

    pub fn next_ref_mut(&mut self) -> (r: &mut usize)
        requires
            *old(self) is Next,
        ensures
            *old(self) == Entry::<T>::Next(*r),
            *final(self) == Entry::<T>::Next(*final(r)),
    {
        match self {
            Entry::Next(next) => next,
            Entry::Data(_) => vstd::pervasive::unreached(),
        }
    }

    pub fn data_ref(&self) -> (r: &T)
        requires
            *self is Data,
        ensures
            self.data() == Some(*r),
    {
        self.option_ref().unwrap()
    }

    pub fn data_ref_mut(&mut self) -> (r: &mut T)
        requires
            *old(self) is Data,
        ensures
            old(self).data() == Some(*r),
            *final(self) == Entry::Data(*final(r)),
    {
        self.option_ref_mut().unwrap()
    }

    pub fn unwrap_next(&self) -> (r: usize)
        requires
            *self is Next,
        ensures
            *self == Entry::<T>::Next(r),
    {
        match self {
            Entry::Next(next) => *next,
            Entry::Data(_) => vstd::pervasive::unreached(),
        }
    }

    pub fn unwrap_data(self) -> (r: T)
        requires
            self is Data,
        ensures
            self.data() == Some(r),
    {
        self.option().unwrap()
    }

    /// Turns the entry into a free position pointing at `next`, giving back
    /// the value it held.
    pub fn swap_next(&mut self, next: usize) -> (r: Option<T>)
        ensures
            r == old(self).data(),
            *final(self) == Entry::<T>::Next(next),
    {
        let mut other = Entry::Next(next);
        std::mem::swap(self, &mut other);
        other.option()
    }

    /// Stores `input`, giving back the value the entry held.
    pub fn swap_data(&mut self, input: T) -> (r: Option<T>)
        ensures
            r == old(self).data(),
            *final(self) == Entry::Data(input),
    {
        let mut other = Entry::Data(input);
        std::mem::swap(self, &mut other);
        other.option()
    }

    pub fn insert_data(&mut self, data: T)
        ensures
            *final(self) == Entry::Data(data),
    {
        *self = Entry::Data(data)
    }

    pub fn set_next(&mut self, next: usize)
        ensures
            *final(self) == Entry::<T>::Next(next),
    {
        *self = Entry::Next(next)
    }

    pub fn option(self) -> (r: Option<T>)
        ensures
            r == self.data(),
    {
        match self {
            Entry::Data(data) => Some(data),
            Entry::Next(_) => None,
        }
    }

    pub fn option_ref(&self) -> (r: Option<&T>)
        ensures
            r is Some == self is Data,
            r matches Some(v) ==> self.data() == Some(*v),
    {
        match self {
            Entry::Data(data) => Some(data),
            Entry::Next(_) => None,
        }
    }

    pub fn option_ref_mut(&mut self) -> (r: Option<&mut T>)
        ensures
            *old(self) is Next ==> r is None && *final(self) == *old(self),
            *old(self) is Data ==> (r matches Some(m) && old(self).data() == Some(*m) && *final(self)
                == Entry::Data(*final(m))),
    {
        match self {
            Entry::Data(data) => Some(data),
            Entry::Next(_) => None,
        }
    }
}

/// Positions that keep their index for life; freed positions are reused,
/// lowest first.
#[derive(Clone, Debug)]
pub struct NoVec<T> {
    next: usize,
    entries: Vec<Entry<T>>,
}

/// Value of each position, `None` where the position is free.
pub open spec fn values_of<T>(entries: Seq<Entry<T>>) -> Seq<Option<T>> {
    entries.map_values(|e: Entry<T>| e.data())
}

/// Indices and values of the occupied positions, in index order.
pub open spec fn occupied<T>(entries: Seq<Entry<T>>) -> Seq<(usize, T)>
    decreases entries.len(),
{
    if entries.len() == 0 {
        Seq::empty()
    } else {
        let rest = occupied(entries.drop_last());
        match entries.last() {
            Entry::Data(v) => rest.push(((entries.len() - 1) as usize, v)),
            Entry::Next(_) => rest,
        }
    }
}

impl<T> NoVec<T> {
    pub closed spec fn entries(&self) -> Seq<Entry<T>> {
        self.entries@
    }

    /// Lowest free position (the length when none is free).
    pub closed spec fn head(&self) -> int {
        self.next as int
    }

    /// The free positions form an ascending chain that starts at the head,
    /// visits every free position, and ends at the length.
    pub closed spec fn wf(&self) -> bool {
        let n = self.entries@.len();
        &&& self.next <= n
        &&& self.next < n ==> self.entries@[self.next as int] is Next
        &&& forall|i: int| 0 <= i < self.next ==> #[trigger] self.entries@[i] is Data
        &&& forall|i: int| 0 <= i < n ==> #[trigger] self.link_ok(i)
    }

    /// A free position points at the next free one, or at the length.
    pub closed spec fn link_ok(&self, i: int) -> bool {
        let n = self.entries@.len();
        match self.entries@[i] {
            Entry::Next(k) => {
                &&& i < k <= n
                &&& k < n ==> self.entries@[k as int] is Next
                &&& forall|j: int| i < j < k ==> #[trigger] self.entries@[j] is Data
            },
            Entry::Data(_) => true,
        }
    }

    pub fn with_capacity(cap: usize) -> (r: NoVec<T>)
        ensures
            r.wf(),
            r.entries().len() == 0,
            r.head() == 0,
    {
        let entries = Vec::with_capacity(cap);
        NoVec { next: 0, entries }
    }

    pub fn new() -> (r: NoVec<T>)
        ensures
            r.wf(),
            r.entries().len() == 0,
            r.head() == 0,
    {
        NoVec { next: 0, entries: Vec::new() }
    }

    /// The index the next push will use.
    pub fn next_id(&self) -> (r: usize)
        ensures
            r == self.head(),
    {
        self.next
    }

    pub fn get(&self, index: usize) -> (r: Option<&T>)
        ensures
            r is Some == (index < self.entries().len() && self.entries()[index as int] is Data),
            r matches Some(v) ==> self.entries()[index as int] == Entry::Data(*v),
    {
        if index >= self.entries.len() {
            return None;
        }
        self.entries[index].option_ref()
    }

    pub fn get_mut(&mut self, index: usize) -> (r: Option<&mut T>)
        ensures
            !(index < old(self).entries().len() && old(self).entries()[index as int] is Data) ==> r is None
                && *final(self) == *old(self),
            index < old(self).entries().len() && old(self).entries()[index as int] is Data ==> (r matches Some(m)
                && old(self).entries()[index as int] == Entry::Data(*m) && final(self).entries()
                == old(self).entries().update(index as int, Entry::Data(*final(m))) && final(self).head()
                == old(self).head()),
    {
        if index >= self.entries.len() || self.entries[index].is_next() {
            return None;
        }
        self.entries[index].option_ref_mut()
    }

    /// Stores `value` at the lowest free position and returns that position.
    pub fn push(&mut self, value: T) -> (r: usize)
        requires
            old(self).wf(),
            old(self).entries().len() < usize::MAX,
        ensures
            final(self).wf(),
            r == old(self).head(),
            r <= old(self).entries().len(),
            final(self).entries() == if r < old(self).entries().len() {
                old(self).entries().update(r as int, Entry::Data(value))
            } else {
                old(self).entries().push(Entry::Data(value))
            },
            r < old(self).entries().len() ==> old(self).entries()[r as int] is Next,
            final(self).head() == if r < old(self).entries().len() {
                match old(self).entries()[r as int] {
                    Entry::Next(k) => k as int,
                    Entry::Data(_) => r as int,
                }
            } else {
                r + 1
            },
    {
        let output = self.next;
        if self.next >= self.entries.len() {
            self.entries.push(Entry::Data(value));
            self.next += 1;
            proof {
                assert forall|i: int| 0 <= i < self.entries@.len() implies #[trigger] self.link_ok(i) by {
                    if i < output {
                        assert(old(self).entries@[i] is Data);
                    }
                }
                assert(self.entries@.len() == old(self).entries@.len() + 1);
                assert forall|i: int| 0 <= i < self.next implies #[trigger] self.entries@[i] is Data by {
                    if i < output {
                        assert(old(self).entries@[i] is Data);
                    }
                }
                assert(self.wf());
            }
        } else {
            let next = self.entries[self.next].unwrap_next();
            self.entries.set(self.next, Entry::Data(value));
            self.next = next;
            proof {
                assert(old(self).link_ok(output as int));
                assert forall|i: int| 0 <= i < self.entries@.len() implies #[trigger] self.link_ok(i) by {
                    assert(old(self).link_ok(i));
                    if i != output {
                        if let Entry::Next(k) = old(self).entries@[i] {
                            assert(i > output);
                        }
                    }
                }
                assert forall|i: int| 0 <= i < self.next implies #[trigger] self.entries@[i] is Data by {
                    if i < output {
                        assert(old(self).entries@[i] is Data);
                    } else if i > output {
                        assert(old(self).entries@[i] is Data);
                    }
                }
                assert(self.wf());
            }
        }
        output
    }

    /// Frees position `index` and gives back its value; a free or missing
    /// position gives nothing and changes nothing.
    pub fn remove(&mut self, index: usize) -> (r: Option<T>)
        requires
            old(self).wf(),
        ensures
            final(self).wf(),
            final(self).entries().len() == old(self).entries().len(),
            !(index < old(self).entries().len() && old(self).entries()[index as int] is Data) ==> r is None
                && *final(self) == *old(self),
            index < old(self).entries().len() && old(self).entries()[index as int] is Data ==> {
                &&& r == old(self).entries()[index as int].data()
                &&& final(self).entries()[index as int] is Next
                &&& forall|j: int|
                    0 <= j < old(self).entries().len() && j != index ==> (#[trigger] final(self).entries()[j]).data()
                        == old(self).entries()[j].data()
                &&& final(self).head() == if index < old(self).head() {
                    index as int
                } else {
                    old(self).head()
                }
            },
    {
        if index >= self.entries.len() {
            return None;
        }
        if self.entries[index].is_next() {
            return None;
        }
        let n = self.entries.len();
        if index < self.next {
            let value = self.entries[index].swap_next(self.next);
            proof {
                assert forall|i: int| 0 <= i < n implies #[trigger] self.link_ok(i) by {
                    assert(old(self).link_ok(i));
                    if let Entry::Next(k) = old(self).entries@[i] {
                        assert(i >= old(self).next);
                    }
                }
            }
            self.next = index;
            proof {
                assert forall|i: int| 0 <= i < n implies #[trigger] self.link_ok(i) by {
                    assert(old(self).link_ok(i));
                }
            }
            return value;
        }
        let mut next = self.next;
        let mut prev_val = next;
        while next <= index
            invariant
                *self == *old(self),
                self.wf(),
                n == self.entries@.len(),
                index < n,
                self.entries@[index as int] is Data,
                self.next <= prev_val <= index,
                self.next <= next <= n,
                next <= index ==> self.entries@[next as int] is Next,
                next > self.next ==> self.entries@[prev_val as int] == Entry::<T>::Next(next),
                next > self.next ==> prev_val < next,
                next == self.next ==> prev_val == next,
            decreases n - next,
        {
            prev_val = next;
            proof {
                assert(self.link_ok(next as int));
            }
            next = self.entries[next].unwrap_next();
        }
        proof {
            assert(self.link_ok(prev_val as int));
        }
        let value = self.entries[index].swap_next(next);
        self.entries[prev_val].set_next(index);
        proof {
            assert forall|i: int| 0 <= i < n implies #[trigger] self.link_ok(i) by {
                assert(old(self).link_ok(i));
                if let Entry::Next(k) = old(self).entries@[i] {
                    if i != prev_val && i < index && k > index {
                        assert(old(self).link_ok(prev_val as int));
                        if i < prev_val {
                            assert(old(self).entries@[prev_val as int] is Data);
                        } else {
                            assert(old(self).entries@[i] is Data);
                        }
                    }
                }
            }
        }
        value
    }

    /// Grows the vector to `size` positions; the new positions are free.
    pub fn fill_to(&mut self, size: usize)
        requires
            old(self).wf(),
        ensures
            final(self).wf(),
            final(self).head() == old(self).head(),
            final(self).entries().len() == if size > old(self).entries().len() {
                size as int
            } else {
                old(self).entries().len() as int
            },
            forall|j: int|
                0 <= j < old(self).entries().len() ==> #[trigger] final(self).entries()[j] == old(
                self).entries()[j],
            forall|j: int|
                old(self).entries().len() <= j < final(self).entries().len() ==> #[trigger] final(
                self).entries()[j] == Entry::<T>::Next((j + 1) as usize),
    {
        let len = self.entries.len();
        if len >= size {
            return;
        }
        let mut i = len;
        while i < size
            invariant
                len <= i <= size,
                len == old(self).entries@.len(),
                self.next == old(self).next,
                self.entries@.len() == i,
                forall|j: int| 0 <= j < len ==> #[trigger] self.entries@[j] == old(self).entries@[j],
                forall|j: int| len <= j < i ==> #[trigger] self.entries@[j] == Entry::<T>::Next((j + 1) as usize),
                old(self).wf(),
            decreases size - i,
        {
            self.entries.push(Entry::Next(i + 1));
            i += 1;
        }
        proof {
            assert forall|k: int| 0 <= k < size implies #[trigger] self.link_ok(k) by {
                if k < len {
                    assert(old(self).link_ok(k));
                }
            }
        }
    }

    /// Stores `value` at exactly `index`, growing the vector when needed, and
    /// gives back the value that was there.
    pub fn insert_at(&mut self, index: usize, value: T) -> (r: Option<T>)
        requires
            old(self).wf(),
            index < usize::MAX - 1,
            old(self).entries().len() < usize::MAX,
        ensures
            final(self).wf(),
            r == if index < old(self).entries().len() {
                old(self).entries()[index as int].data()
            } else {
                None
            },
            final(self).entries()[index as int] == Entry::Data(value),
            forall|j: int|
                0 <= j < old(self).entries().len() && j != index ==> (#[trigger] final(self).entries()[j]).data()
                    == old(self).entries()[j].data(),
            final(self).entries().len() == if index < old(self).entries().len() {
                old(self).entries().len() as int
            } else {
                index + 1
            },
    {
        if index == self.next {
            proof {
                if index < self.entries@.len() {
                    assert(old(self).entries@[index as int] is Next);
                }
            }
            self.push(value);
            return None;
        }
        if index >= self.entries.len() {
            self.fill_to(index + 1);
        }
        let ghost mid = *self;
        if self.entries[index].is_data() {
            let replaced = self.entries[index].swap_data(value);
            proof {
                assert forall|i: int| 0 <= i < self.entries@.len() implies #[trigger] self.link_ok(i) by {
                    assert(mid.link_ok(i));
                }
            }
            return replaced;
        }
        let next = self.entries[index].unwrap_next();
        proof {
            assert(index > self.next);
        }
        let mut i = index;
        while i > 0
            invariant
                *self == mid,
                mid.wf(),
                i <= index,
                index < mid.entries@.len(),
                index > mid.next,
                forall|j: int| i <= j < index ==> #[trigger] mid.entries@[j] is Data,
            ensures
                i <= index,
                forall|j: int| i <= j < index ==> #[trigger] mid.entries@[j] is Data,
                i > 0 ==> mid.entries@[i - 1] is Next,
            decreases i,
        {
            if self.entries[i - 1].is_next() {
                break;
            }
            i -= 1;
        }
        proof {
            assert(mid.entries@[mid.next as int] is Next);
            assert(i > 0);
        }
        let prev = i - 1;
        proof {
            assert(mid.link_ok(prev as int));
            assert(mid.link_ok(index as int));
        }
        self.entries[prev].swap_next(next);
        self.entries.set(index, Entry::Data(value));
        proof {
            assert forall|k: int| 0 <= k < self.entries@.len() implies #[trigger] self.link_ok(k) by {
                assert(mid.link_ok(k));
                if let Entry::Next(kk) = mid.entries@[k] {
                    if k != prev as int && k < index && kk > index {
                        assert(mid.entries@[prev as int] is Data);
                    }
                    if k != prev as int && kk == index {
                        if k < prev {
                            assert(mid.entries@[prev as int] is Data);
                        }
                    }
                    if k < prev && kk > prev {
                        assert(mid.entries@[prev as int] is Data);
                    }
                    if prev < k < index {
                        assert(mid.entries@[k] is Data);
                    }
                    if k == prev as int {
                        assert forall|j: int| prev < j < next implies #[trigger] self.entries@[j] is Data by {
                            if j < index {
                                assert(mid.entries@[j] is Data);
                            } else if j > index {
                                assert(mid.entries@[j] is Data);
                            }
                        }
                    }
                }
            }
            assert forall|j: int|
                0 <= j < old(self).entries().len() && j != index implies (#[trigger] self.entries()[j]).data()
                == old(self).entries()[j].data() by {
                assert(mid.entries()[j] == old(self).entries()[j]);
            }
        }
        None
    }
}

impl<T> NoVec<T> {
    /// Indices and references to the stored values, in index order.
    pub fn iter(&self) -> (r: Vec<(usize, &T)>)
        ensures
            r@.len() == occupied(self.entries()).len(),
            forall|k: int|
                0 <= k < r@.len() ==> r@[k].0 < self.entries().len() && self.entries()[r@[k].0 as int]
                    == Entry::Data(*r@[k].1),
            forall|k: int|
                0 <= k < r@.len() ==> r@[k].0 == occupied(self.entries())[k].0 && *r@[k].1
                    == occupied(self.entries())[k].1,
    {
        let mut r: Vec<(usize, &T)> = Vec::new();
        let n = self.entries.len();
        let mut i: usize = 0;
        while i < n
            invariant
                n == self.entries@.len(),
                0 <= i <= n,
                r@.len() == occupied(self.entries@.subrange(0, i as int)).len(),
                forall|k: int|
                    0 <= k < r@.len() ==> r@[k].0 == occupied(self.entries@.subrange(0, i as int))[k].0
                        && *r@[k].1 == occupied(self.entries@.subrange(0, i as int))[k].1,
            decreases n - i,
        {
            proof {
                assert(self.entries@.subrange(0, i + 1).drop_last() =~= self.entries@.subrange(0, i as int));
            }
            if let Some(v) = self.entries[i].option_ref() {
                r.push((i, v));
            }
            i += 1;
        }
        proof {
            assert(self.entries@.subrange(0, n as int) =~= self.entries@);
            assert forall|k: int| 0 <= k < r@.len() implies r@[k].0 < self.entries().len()
                && self.entries()[r@[k].0 as int] == Entry::Data(*r@[k].1) by {
                lemma_occupied_at(self.entries@, k);
            }
        }
        r
    }

    /// References to the stored values, in index order.
    pub fn values(&self) -> (r: Vec<&T>)
        ensures
            r@.len() == occupied(self.entries()).len(),
            forall|k: int| 0 <= k < r@.len() ==> *r@[k] == occupied(self.entries())[k].1,
    {
        let mut r: Vec<&T> = Vec::new();
        let n = self.entries.len();
        let mut i: usize = 0;
        while i < n
            invariant
                n == self.entries@.len(),
                0 <= i <= n,
                r@.len() == occupied(self.entries@.subrange(0, i as int)).len(),
                forall|k: int|
                    0 <= k < r@.len() ==> *r@[k] == occupied(self.entries@.subrange(0, i as int))[k].1,
            decreases n - i,
        {
            proof {
                assert(self.entries@.subrange(0, i + 1).drop_last() =~= self.entries@.subrange(0, i as int));
            }
            if let Some(v) = self.entries[i].option_ref() {
                r.push(v);
            }
            i += 1;
        }
        proof {
            assert(self.entries@.subrange(0, n as int) =~= self.entries@);
        }
        r
    }
}

impl<T> crate::UnorderedStorage for NoVec<T> {
    type Index = usize;
    type Item = T;

    open spec fn inv(&self) -> bool {
        self.wf()
    }

    open spec fn can_insert(&self, index: usize) -> bool {
        index < usize::MAX - 1 && self.entries().len() < usize::MAX
    }

    open spec fn lookup(&self, index: usize) -> Option<T> {
        if index < self.entries().len() {
            self.entries()[index as int].data()
        } else {
            None
        }
    }

    fn insert(&mut self, index: usize, value: T) -> (r: Option<T>) {
        NoVec::insert_at(self, index, value)
    }

    fn remove(&mut self, index: &usize) -> (r: Option<T>) {
        NoVec::remove(self, *index)
    }

    fn get(&self, index: &usize) -> (r: Option<&T>) {
        NoVec::get(self, *index)
    }

    fn get_mut(&mut self, index: &usize) -> (r: Option<&mut T>) {
        NoVec::get_mut(self, *index)
    }
}

impl<T> crate::ExpandableStorage for NoVec<T> {
    open spec fn can_push(&self) -> bool {
        self.entries().len() < usize::MAX
    }

    fn push(&mut self, value: T) -> (r: usize) {
        NoVec::push(self, value)
    }
}

impl<T> Default for NoVec<T> {
    fn default() -> (r: Self)
        ensures
            r.wf(),
            r.entries().len() == 0,
            r.head() == 0,
    {
        NoVec::new()
    }
}

/// Each entry of `occupied(entries)` names an occupied position and its value.
proof fn lemma_occupied_at<T>(entries: Seq<Entry<T>>, k: int)
    requires
        0 <= k < occupied(entries).len(),
        entries.len() <= usize::MAX,
    ensures
        occupied(entries)[k].0 < entries.len(),
        entries[occupied(entries)[k].0 as int] == Entry::Data(occupied(entries)[k].1),
    decreases entries.len(),
{
    let rest = entries.drop_last();
    if k < occupied(rest).len() {
        lemma_occupied_at(rest, k);
    }
}

impl<T> NoVec<T> {
    /// Indices and mutable references to the stored values, in index order.
    pub fn iter_mut(&mut self) -> (r: Vec<(usize, &mut T)>)
        ensures
            r@.len() == occupied(old(self).entries()).len(),
            forall|k: int|
                0 <= k < r@.len() ==> r@[k].0 < old(self).entries().len() && old(self).entries()[r@[k].0 as int]
                    == Entry::Data(*r@[k].1),
            forall|k: int|
                0 <= k < r@.len() ==> r@[k].0 == occupied(old(self).entries())[k].0 && *r@[k].1
                    == occupied(old(self).entries())[k].1,
    {
        let mut r: Vec<(usize, &mut T)> = Vec::new();
        let mut rest: &mut [Entry<T>] = self.entries.as_mut_slice();
        let ghost all = old(self).entries@;
        let n = rest.len();
        let mut i: usize = 0;
        while i < n
            invariant
                n == all.len(),
                0 <= i <= n,
                rest@ == all.subrange(i as int, n as int),
                r@.len() == occupied(all.subrange(0, i as int)).len(),
                forall|k: int|
                    0 <= k < r@.len() ==> r@[k].0 == occupied(all.subrange(0, i as int))[k].0
                        && *r@[k].1 == occupied(all.subrange(0, i as int))[k].1,
            decreases n - i,
        {
            proof {
                assert(all.subrange(0, i + 1).drop_last() =~= all.subrange(0, i as int));
            }
            let (head, tail) = rest.split_at_mut(1);
            rest = tail;
            let first = head.first_mut().unwrap();
            if let Some(v) = first.option_ref_mut() {
                r.push((i, v));
            }
            i += 1;
        }
        proof {
            assert(all.subrange(0, n as int) =~= all);
        }
        proof {
            assert forall|k: int| 0 <= k < r@.len() implies r@[k].0 < all.len() && all[r@[k].0 as int]
                == Entry::Data(*r@[k].1) by {
                lemma_occupied_at(all, k);
            }
        }
        r
    }

    /// Mutable references to the stored values, in index order.
    pub fn values_mut(&mut self) -> (r: Vec<&mut T>)
        ensures
            r@.len() == occupied(old(self).entries()).len(),
            forall|k: int| 0 <= k < r@.len() ==> *r@[k] == occupied(old(self).entries())[k].1,
    {
        let mut r: Vec<&mut T> = Vec::new();
        let mut rest: &mut [Entry<T>] = self.entries.as_mut_slice();
        let ghost all = old(self).entries@;
        let n = rest.len();
        let mut i: usize = 0;
        while i < n
            invariant
                n == all.len(),
                0 <= i <= n,
                rest@ == all.subrange(i as int, n as int),
                r@.len() == occupied(all.subrange(0, i as int)).len(),
                forall|k: int| 0 <= k < r@.len() ==> *r@[k] == occupied(all.subrange(0, i as int))[k].1,
            decreases n - i,
        {
            proof {
                assert(all.subrange(0, i + 1).drop_last() =~= all.subrange(0, i as int));
            }
            let (head, tail) = rest.split_at_mut(1);
            rest = tail;
            let first = head.first_mut().unwrap();
            if let Some(v) = first.option_ref_mut() {
                r.push(v);
            }
            i += 1;
        }
        proof {
            assert(all.subrange(0, n as int) =~= all);
        }
        r
    }
}

} // verus!
