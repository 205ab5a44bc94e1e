//! A small resizable-array wrapper: push, pop, checked removal, indexed
//! access, and resizing with a fill value.

use vstd::prelude::*;

verus! {

/// An ordered, growable collection.
pub struct Vector<T> {
    items: Vec<T>,
}

impl<T> View for Vector<T> {
    type V = Seq<T>;

    closed spec fn view(&self) -> Seq<T> {
        self.items@
    }
}

impl<T: Clone> Vector<T> {
    /// An empty vector.
    pub fn new() -> (v: Vector<T>)
        ensures
            v@ == Seq::<T>::empty(),
    {
        Vector { items: Vec::new() }
    }

    /// An empty vector; the capacity is an allocation hint only.
    pub fn with_capacity(capacity: usize) -> (v: Vector<T>)
        ensures
            v@ == Seq::<T>::empty(),
    {
        Vector { items: Vec::with_capacity(capacity) }
    }

    /// Appends a value at the tail.
    pub fn push(&mut self, value: T)
        ensures
            final(self)@ == old(self)@.push(value),
    {
        self.items.push(value);
    }

    /// Removes and returns the last value, or `None` when empty.
    pub fn pop(&mut self) -> (r: Option<T>)
        ensures
            old(self)@.len() > 0 ==> r == Some(old(self)@.last()) && final(self)@ == old(
                self,
            )@.drop_last(),
            old(self)@.len() == 0 ==> r is None && final(self)@ == old(self)@,
    {
        self.items.pop()
    }

    /// Removes and returns the value at `index`, shifting the tail left;
    /// `None` when the index is out of range.
    pub fn remove(&mut self, index: usize) -> (r: Option<T>)
        ensures
            index < old(self)@.len() ==> r == Some(old(self)@[index as int]) && final(self)@ == old(
                self,
            )@.remove(index as int),
            index >= old(self)@.len() ==> r is None && final(self)@ == old(self)@,
    {
        if index >= self.items.len() {
            None
        } else {
            Some(self.items.remove(index))
        }
    }

    /// The value at `index`, or `None` when the index is out of range.
    pub fn get(&self, index: usize) -> (r: Option<&T>)
        ensures
            index < self@.len() ==> (match r {
                Some(value) => *value == self@[index as int],
                None => false,
            }),
            index >= self@.len() ==> r is None,
    {
        if index < self.items.len() {
            Some(&self.items[index])
        } else {
            None
        }
    }

    /// Grows or shrinks to exactly `new_size` values: a prefix of the old
    /// contents is kept, and any new slots hold clones of `value`.
    pub fn resize(&mut self, new_size: usize, value: T)
        ensures
            final(self)@.len() == new_size,
            forall|i: int|
                0 <= i < new_size && i < old(self)@.len() ==> final(self)@[i] == old(self)@[i],
            forall|i: int|
                old(self)@.len() <= i < new_size ==> vstd::pervasive::cloned::<T>(
                    value,
                    final(self)@[i],
                ),
    {
        self.items.resize(new_size, value);
    }
}

} // verus!
