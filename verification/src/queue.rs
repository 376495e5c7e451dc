//! A bounded double-ended queue.
//!
//! Wraps a `VecDeque` together with a configured bound. Pushing onto a
//! full queue silently evicts from the opposite end, unless the bound is
//! zero, in which case the pushed item itself is handed back. The bound
//! can grow over the queue's lifetime through [`BoundedVecDeque::extend_with`].
use std::collections::VecDeque;
use vstd::prelude::*;

verus! {

#[derive(Clone, Debug)]
pub struct BoundedVecDeque<T> {
    pub inner: VecDeque<T>,
    pub size: usize,
}

impl<T> BoundedVecDeque<T> {
    /// The items held, front first.
    pub open spec fn spec_items(self) -> Seq<T> {
        self.inner@
    }

    /// The configured bound.
    pub open spec fn spec_bound(self) -> usize {
        self.size
    }

    /// The ring-buffer invariant: the queue never holds more items than
    /// its bound allows. Established at construction and preserved by
    /// every operation.
    pub open spec fn wf(self) -> bool {
        self.spec_items().len() <= self.spec_bound()
    }

    /// An empty queue bounded at `size` items.
    pub fn new(size: usize) -> (r: BoundedVecDeque<T>)
        ensures
            r.wf(),
            r.spec_items() == Seq::<T>::empty(),
            r.spec_bound() == size,
    {
        BoundedVecDeque { inner: VecDeque::with_capacity(size), size }
    }

    /// The number of items currently held.
    pub fn len(&self) -> (r: usize)
        ensures
            r == self.spec_items().len(),
    {
        self.inner.len()
    }

    /// Removes and returns the item at `index`, shifting what follows;
    /// `None` when `index` is out of range.
    pub fn remove(&mut self, index: usize) -> (r: Option<T>)
        ensures
            old(self).wf() ==> final(self).wf(),
            final(self).spec_bound() == old(self).spec_bound(),
            match r {
                Some(x) => {
                    &&& index < old(self).spec_items().len()
                    &&& x == old(self).spec_items()[index as int]
                    &&& final(self).spec_items() == old(self).spec_items().remove(index as int)
                },
                None => {
                    &&& index >= old(self).spec_items().len()
                    &&& final(self).spec_items() == old(self).spec_items()
                },
            },
    {
        self.inner.remove(index)
    }

    /// Grows the queue by one: appends `item` at the back and raises the
    /// bound accordingly, so nothing is evicted.
    pub fn extend_with(&mut self, item: T)
        requires
            old(self).spec_bound() < usize::MAX,
        ensures
            old(self).wf() ==> final(self).wf(),
            final(self).spec_items() == old(self).spec_items().push(item),
            final(self).spec_bound() == old(self).spec_bound() + 1,
    {
        self.inner.push_back(item);
        self.size = self.size + 1;
    }

    /// Whether the queue holds as many items as its bound allows.
    pub fn is_full(&self) -> (r: bool)
        ensures
            r == (self.spec_items().len() == self.spec_bound()),
    {
        self.inner.len() == self.size
    }

    /// The configured bound.
    pub fn capacity(&self) -> (r: usize)
        ensures
            r == self.spec_bound(),
    {
        self.size
    }

    /// Removes and returns the front item, if any.
    pub fn pop_front(&mut self) -> (r: Option<T>)
        ensures
            old(self).wf() ==> final(self).wf(),
            final(self).spec_bound() == old(self).spec_bound(),
            match r {
                Some(x) => {
                    &&& old(self).spec_items().len() > 0
                    &&& x == old(self).spec_items()[0]
                    &&& final(self).spec_items() == old(self).spec_items().subrange(
                        1,
                        old(self).spec_items().len() as int,
                    )
                },
                None => {
                    &&& old(self).spec_items().len() == 0
                    &&& final(self).spec_items() == old(self).spec_items()
                },
            },
    {
        self.inner.pop_front()
    }

    /// Removes and returns the back item, if any.
    pub fn pop_back(&mut self) -> (r: Option<T>)
        ensures
            old(self).wf() ==> final(self).wf(),
            final(self).spec_bound() == old(self).spec_bound(),
            match r {
                Some(x) => {
                    &&& old(self).spec_items().len() > 0
                    &&& x == old(self).spec_items()[old(self).spec_items().len() - 1]
                    &&& final(self).spec_items() == old(self).spec_items().subrange(
                        0,
                        old(self).spec_items().len() - 1,
                    )
                },
                None => {
                    &&& old(self).spec_items().len() == 0
                    &&& final(self).spec_items() == old(self).spec_items()
                },
            },
    {
        self.inner.pop_back()
    }

    /// Appends at the back. On a full queue the front item is evicted
    /// and returned; with a bound of zero the pushed item itself is
    /// rejected and returned.
    pub fn push_back(&mut self, item: T) -> (r: Option<T>)
        ensures
            old(self).wf() ==> final(self).wf(),
            final(self).spec_bound() == old(self).spec_bound(),
            old(self).spec_items().len() != old(self).spec_bound() ==> {
                &&& r is None
                &&& final(self).spec_items() == old(self).spec_items().push(item)
            },
            old(self).spec_items().len() == old(self).spec_bound() && old(self).spec_bound() == 0
                ==> {
                &&& r == Some(item)
                &&& final(self).spec_items() == old(self).spec_items()
            },
            old(self).spec_items().len() == old(self).spec_bound() && old(self).spec_bound() > 0
                ==> {
                &&& old(self).spec_items().len() > 0
                &&& r == Some(old(self).spec_items()[0])
                &&& final(self).spec_items() == old(self).spec_items().subrange(
                    1,
                    old(self).spec_items().len() as int,
                ).push(item)
            },
    {
        let existing = if self.is_full() {
            if self.capacity() == 0 {
                return Some(item);
            } else {
                self.pop_front()
            }
        } else {
            None
        };
        self.inner.push_back(item);
        existing
    }

    /// Appends at the front. On a full queue the back item is evicted
    /// and returned; with a bound of zero the pushed item itself is
    /// rejected and returned.
    pub fn push_front(&mut self, item: T) -> (r: Option<T>)
        ensures
            old(self).wf() ==> final(self).wf(),
            final(self).spec_bound() == old(self).spec_bound(),
            old(self).spec_items().len() != old(self).spec_bound() ==> {
                &&& r is None
                &&& final(self).spec_items() == seq![item] + old(self).spec_items()
            },
            old(self).spec_items().len() == old(self).spec_bound() && old(self).spec_bound() == 0
                ==> {
                &&& r == Some(item)
                &&& final(self).spec_items() == old(self).spec_items()
            },
            old(self).spec_items().len() == old(self).spec_bound() && old(self).spec_bound() > 0
                ==> {
                &&& old(self).spec_items().len() > 0
                &&& r == Some(old(self).spec_items()[old(self).spec_items().len() - 1])
                &&& final(self).spec_items() == seq![item] + old(self).spec_items().subrange(
                    0,
                    old(self).spec_items().len() - 1,
                )
            },
    {
        let existing = if self.is_full() {
            if self.capacity() == 0 {
                return Some(item);
            } else {
                self.pop_back()
            }
        } else {
            None
        };
        self.inner.push_front(item);
        existing
    }

    /// The item at `index`, or `None` out of range.
    pub fn get(&self, index: usize) -> (r: Option<&T>)
        ensures
            match r {
                Some(x) => index < self.spec_items().len() && *x == self.spec_items()[index as int],
                None => index >= self.spec_items().len(),
            },
    {
        if index < self.inner.len() {
            Some(&self.inner[index])
        } else {
            None
        }
    }

    /// The backing deque, for iteration front to back.
    pub fn iter(&self) -> (r: &VecDeque<T>)
        ensures
            r@ == self.spec_items(),
    {
        &self.inner
    }
}

} // verus!
