//! A bag of values that one owner fills and empties in a single sweep.

use vstd::prelude::*;

verus! {

/// Values pushed one at a time and taken back newest first, or all at once with `swap_out`.
pub struct DrainQueue<T> {
    items: Vec<T>,
}

impl<T> DrainQueue<T> {
    /// The values, oldest first.
    pub closed spec fn view(&self) -> Seq<T> {
        self.items@
    }

    /// An empty queue.
    pub fn new() -> (r: DrainQueue<T>)
        ensures
            r.view() == Seq::<T>::empty(),
    {
        DrainQueue { items: Vec::new() }
    }

    /// Adds `item`.
    pub fn push(&mut self, item: T)
        ensures
            final(self).view() == old(self).view().push(item),
    {
        self.items.push(item);
    }

    /// Takes every value out, leaving this queue empty.
    pub fn swap_out(&mut self) -> (r: DrainQueue<T>)
        ensures
            r.view() == old(self).view(),
            final(self).view() == Seq::<T>::empty(),
    {
        let mut taken: Vec<T> = Vec::new();
        std::mem::swap(&mut self.items, &mut taken);
        DrainQueue { items: taken }
    }

    /// Takes out the newest value, if any.
    pub fn pop(&mut self) -> (r: Option<T>)
        ensures
            old(self).view().len() == 0 ==> r is None && final(self).view() == old(self).view(),
            old(self).view().len() > 0 ==> r == Some(old(self).view().last()) && final(self).view()
                == old(self).view().drop_last(),
    {
        self.items.pop()
    }

    /// Number of values.
    pub fn len(&self) -> (r: usize)
        ensures
            r == self.view().len(),
    {
        self.items.len()
    }
}

} // verus!
