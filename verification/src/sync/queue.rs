//! A first-in, first-out queue.

use std::collections::VecDeque;
use vstd::prelude::*;

verus! {

/// A first-in, first-out queue.
pub struct Queue<T> {
    pub items: VecDeque<T>,
}

impl<T> View for Queue<T> {
    type V = Seq<T>;

    /// The items, from the one that comes out first.
    open spec fn view(&self) -> Seq<T> {
        self.items@
    }
}

impl<T> Queue<T> {
    /// An empty queue.
    pub fn new() -> (r: Self)
        ensures
            r@ == Seq::<T>::empty(),
    {
        Queue { items: VecDeque::new() }
    }

    /// Puts an item behind all others.
    pub fn push(&mut self, item: T)
        ensures
            final(self)@ == old(self)@.push(item),
    {
        self.items.push_back(item);
    }

    /// Takes the item that has been there the longest.
    pub fn try_pop(&mut self) -> (r: Option<T>)
        ensures
            old(self)@.len() == 0 ==> r is None,
            old(self)@.len() == 0 ==> final(self)@ == old(self)@,
            old(self)@.len() > 0 ==> r == Some(old(self)@[0]),
            old(self)@.len() > 0 ==> final(self)@ == old(self)@.subrange(
                1,
                old(self)@.len() as int,
            ),
    {
        self.items.pop_front()
    }
}

} // verus!
