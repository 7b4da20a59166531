//! The garbage queue: a first-in first-out queue of sealed bags.

use std::collections::VecDeque;
use vstd::prelude::*;

verus! {

/// A first-in first-out queue. A head that was taken off but is not ready yet can be returned to
/// the front without disturbing the order.
pub struct Queue<T> {
    items: VecDeque<T>,
}

impl<T> Queue<T> {
    /// The queued values, head first.
    pub closed spec fn view(&self) -> Seq<T> {
        self.items@
    }

    /// An empty queue.
    pub fn new() -> (r: Queue<T>)
        ensures
            r.view() == Seq::<T>::empty(),
    {
        Queue { items: VecDeque::new() }
    }

    /// Appends `value` at the tail.
    pub fn push(&mut self, value: T)
        ensures
            final(self).view() == old(self).view().push(value),
    {
        self.items.push_back(value);
    }

    /// Returns `value` to the head.
    pub fn push_front(&mut self, value: T)
        ensures
            final(self).view() == seq![value] + old(self).view(),
    {
        self.items.push_front(value);
    }

    /// Takes the head off, if there is one.
    pub fn pop(&mut self) -> (r: Option<T>)
        ensures
            old(self).view().len() == 0 ==> r is None && final(self).view() == old(self).view(),
            old(self).view().len() > 0 ==> r == Some(old(self).view()[0]) && final(self).view()
                == old(self).view().drop_first(),
    {
        self.items.pop_front()
    }

    /// Takes the head off if `f` accepts it; otherwise leaves the queue as it is.
    pub fn pop_if<F: Fn(&T) -> bool>(&mut self, f: F) -> (r: Option<T>)
        requires
            old(self).view().len() > 0 ==> f.requires((&old(self).view()[0],)),
        ensures
            old(self).view().len() == 0 ==> r is None && final(self).view() == old(self).view(),
            old(self).view().len() > 0 && r is Some ==> r == Some(old(self).view()[0])
                && final(self).view() == old(self).view().drop_first() && f.ensures(
                (&old(self).view()[0],),
                true,
            ),
            old(self).view().len() > 0 && r is None ==> final(self).view() == old(self).view()
                && f.ensures((&old(self).view()[0],), false),
    {
        match self.items.pop_front() {
            Some(head) => {
                if f(&head) {
                    Some(head)
                } else {
                    self.items.push_front(head);
                    assert(self.items@ =~= old(self).items@);
                    None
                }
            },
            None => None,
        }
    }

    /// Number of queued values.
    pub fn len(&self) -> (r: usize)
        ensures
            r == self.view().len(),
    {
        self.items.len()
    }

    /// Whether the queue is empty.
    pub fn is_empty(&self) -> (r: bool)
        ensures
            r == (self.view().len() == 0),
    {
        self.items.len() == 0
    }
}

} // verus!
