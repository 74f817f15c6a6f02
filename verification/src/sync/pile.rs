//! A list that is taken as a whole.

use vstd::prelude::*;

verus! {

/// A linked list that can be taken (deleted) as a whole at once.
pub struct Pile<T> {
    /// The items, with the head of the list at the end.
    items: Vec<T>,
}

impl<T> View for Pile<T> {
    type V = Seq<T>;

    /// The items, from the head of the list.
    closed spec fn view(&self) -> Seq<T> {
        self.items@.reverse()
    }
}

impl<T> Pile<T> {
    /// Returns a new, empty pile.
    pub fn new() -> (r: Self)
        ensures
            r@ == Seq::<T>::empty(),
    {
        let r = Pile { items: Vec::new() };
        assert(r@ =~= Seq::<T>::empty());
        r
    }

    /// Pushes the batch of elements into the head of the pile: the first of them becomes the new
    /// head.
    pub fn push_batch(&mut self, batch: Vec<T>)
        ensures
            final(self)@ == batch@ + old(self)@,
    {
        let mut batch = batch;
        let ghost whole = batch@;
        while batch.len() > 0
            invariant
                batch@.len() <= whole.len(),
                batch@ == whole.subrange(0, batch@.len() as int),
                self@ == whole.subrange(batch@.len() as int, whole.len() as int) + old(self)@,
            decreases batch@.len(),
        {
            let ghost before = self@;
            match batch.pop() {
                Some(item) => {
                    self.items.push(item);
                    assert(self@ =~= seq![item] + before);
                    assert(self@ =~= whole.subrange(batch@.len() as int, whole.len() as int) + old(self)@);
                },
                None => {},
            }
        }
        assert(self@ =~= whole + old(self)@);
    }

    /// Pushes the element into the head of the pile.
    pub fn push(&mut self, item: T)
        ensures
            final(self)@ == seq![item] + old(self)@,
    {
        self.items.push(item);
        assert(self@ =~= seq![item] + old(self)@);
    }

    /// Takes all elements, from the head of the pile, and leaves it empty.
    pub fn take(&mut self) -> (r: Vec<T>)
        ensures
            r@ == old(self)@,
            final(self)@ == Seq::<T>::empty(),
    {
        let mut taken: Vec<T> = Vec::new();
        while self.items.len() > 0
            invariant
                taken@ + self@ == old(self)@,
            decreases self.items@.len(),
        {
            let ghost before = self@;
            match self.items.pop() {
                Some(item) => {
                    taken.push(item);
                    assert(before =~= seq![item] + self@);
                    assert(taken@ + self@ =~= old(self)@);
                },
                None => {},
            }
        }
        assert(self@ =~= Seq::<T>::empty());
        assert(taken@ =~= old(self)@);
        taken
    }
}

/// What is pushed last is taken first: taking a pile after two pushes gives the later element,
/// then the earlier one, then what was there.
pub proof fn law_pile_order<T>(before: Seq<T>, a: T, b: T)
    ensures
        seq![b] + (seq![a] + before) =~= seq![b, a] + before,
{
}

} // verus!
