//! A sequence that stores no allocation for zero or one element.

use vstd::prelude::*;

verus! {

/// Zero, one, or many values.
#[derive(Clone, Debug)]
pub enum OneOrMany<T> {
    Empty,
    One(T),
    Many(Vec<T>),
}

impl<T> OneOrMany<T> {
    /// The values, in order.
    pub open spec fn items(&self) -> Seq<T> {
        match self {
            OneOrMany::Empty => Seq::empty(),
            OneOrMany::One(v) => seq![*v],
            OneOrMany::Many(vec) => vec@,
        }
    }

    /// Holds the values of `items`, with no allocation for fewer than two.
    pub fn new(items: Vec<T>) -> (r: OneOrMany<T>)
        ensures
            r.items() == items@,
            items@.len() == 0 ==> r is Empty,
            items@.len() == 1 ==> r is One,
    {
        let ghost given = items@;
        let mut items = items;
        if items.len() == 0 {
            return OneOrMany::Empty;
        }
        if items.len() == 1 {
            let first = items.pop().unwrap();
            proof {
                assert(seq![first] =~= given);
            }
            return OneOrMany::One(first);
        }
        OneOrMany::Many(items)
    }

    pub fn take_one(self) -> (r: T)
        requires
            self is One,
        ensures
            self.items() == seq![r],
    {
        match self {
            OneOrMany::One(value) => value,
            _ => vstd::pervasive::unreached(),
        }
    }

    /// Appends `item`.
    pub fn push(&mut self, item: T)
        ensures
            final(self).items() == old(self).items().push(item),
    {
        let mut current = OneOrMany::Empty;
        std::mem::swap(self, &mut current);
        let next = match current {
            OneOrMany::Empty => OneOrMany::One(item),
            OneOrMany::One(first) => {
                let v = vec![first, item];
                proof {
                    assert(v@ =~= seq![first].push(item));
                }
                OneOrMany::Many(v)
            },
            OneOrMany::Many(mut vec) => {
                vec.push(item);
                OneOrMany::Many(vec)
            },
        };
        *self = next;
        proof {
            assert(self.items() =~= old(self).items().push(item));
        }
    }

    /// A cursor over the values, from the first.
    pub fn iter(&self) -> (r: OneOrManyIter<'_, T>)
        ensures
            r.rest() == self.items(),
    {
        OneOrManyIter { index: 0, values: self }
    }
}

/// Cursor over the values of a `OneOrMany`.
pub struct OneOrManyIter<'a, T> {
    index: usize,
    values: &'a OneOrMany<T>,
}

impl<'a, T> OneOrManyIter<'a, T> {
    /// The values not yet returned.
    pub closed spec fn rest(&self) -> Seq<T> {
        let all = self.values.items();
        if self.index <= all.len() {
            all.subrange(self.index as int, all.len() as int)
        } else {
            Seq::empty()
        }
    }

    /// The next value, if any.
    pub fn next(&mut self) -> (r: Option<&'a T>)
        ensures
            old(self).rest().len() == 0 ==> r is None && final(self).rest().len() == 0,
            old(self).rest().len() > 0 ==> (r matches Some(v) && *v == old(self).rest()[0]
                && final(self).rest() == old(self).rest().drop_first()),
    {
        match self.values {
            OneOrMany::Empty => None,
            OneOrMany::One(value) => {
                if self.index == 0 {
                    self.index = 1;
                    Some(value)
                } else {
                    None
                }
            },
            OneOrMany::Many(vec) => {
                if self.index < vec.len() {
                    let to_return = &vec[self.index];
                    self.index += 1;
                    proof {
                        assert(self.rest() =~= old(self).rest().drop_first());
                    }
                    Some(to_return)
                } else {
                    None
                }
            },
        }
    }
}

/// Cursor over mutable references to the values of a `OneOrMany`.
pub enum OneOrManyIterMut<'a, T> {
    Empty,
    One(Option<&'a mut T>),
    /// The references not yet returned, last one first.
    Many(Vec<&'a mut T>),
}

impl<'a, T> OneOrManyIterMut<'a, T> {
    /// Values behind the references not yet returned, in order.
    pub closed spec fn rest(&self) -> Seq<T> {
        match self {
            OneOrManyIterMut::Empty => Seq::empty(),
            OneOrManyIterMut::One(Some(v)) => seq![**v],
            OneOrManyIterMut::One(None) => Seq::empty(),
            OneOrManyIterMut::Many(refs) => Seq::new(refs@.len(), |k: int| *refs@[refs@.len() - 1 - k]),
        }
    }

    /// The next reference, if any.
    pub fn next(&mut self) -> (r: Option<&'a mut T>)
        ensures
            old(self).rest().len() == 0 ==> r is None,
            old(self).rest().len() > 0 ==> (r matches Some(v) && *v == old(self).rest()[0]),
    {
        match self {
            OneOrManyIterMut::Empty => None,
            OneOrManyIterMut::One(slot) => slot.take(),
            OneOrManyIterMut::Many(refs) => refs.pop(),
        }
    }
}

impl<T> OneOrMany<T> {
    /// A cursor over mutable references to the values, from the first.
    pub fn iter_mut(&mut self) -> (r: OneOrManyIterMut<'_, T>)
        ensures
            r.rest() == old(self).items(),
    {
        match self {
            OneOrMany::Empty => OneOrManyIterMut::Empty,
            OneOrMany::One(item) => {
                let r = OneOrManyIterMut::One(Some(item));
                proof {
                    assert(r.rest() =~= old(self).items());
                }
                r
            },
            OneOrMany::Many(vec) => {
                let ghost all = vec@;
                let mut rest: &mut [T] = vec.as_mut_slice();
                let n = rest.len();
                let mut forward: Vec<&mut T> = Vec::new();
                let mut i: usize = 0;
                while i < n
                    invariant
                        n == all.len(),
                        0 <= i <= n,
                        rest@ == all.subrange(i as int, n as int),
                        forward@.len() == i,
                        forall|k: int| 0 <= k < i ==> *forward@[k] == all[k],
                    decreases n - i,
                {
                    let (head, tail) = rest.split_at_mut(1);
                    rest = tail;
                    forward.push(head.first_mut().unwrap());
                    i += 1;
                }
                let mut reversed: Vec<&mut T> = Vec::new();
                while forward.len() > 0
                    invariant
                        forward@.len() + reversed@.len() == n,
                        forall|k: int| 0 <= k < forward@.len() ==> *forward@[k] == all[k],
                        forall|k: int| 0 <= k < reversed@.len() ==> *reversed@[k] == all[n - 1 - k],
                    decreases forward@.len(),
                {
                    let last = forward.pop().unwrap();
                    reversed.push(last);
                }
                let r = OneOrManyIterMut::Many(reversed);
                proof {
                    assert(r.rest() =~= all);
                }
                r
            },
        }
    }
}

} // verus!
