//! The queue of mark tasks of a participant.

use crossbeam::deque::{Steal, Worker};
use vstd::prelude::*;

verus! {

/// `crossbeam::deque::Worker`, the owner's end of a work-stealing queue.
#[verifier::external_type_specification]
#[verifier::external_body]
#[verifier::reject_recursive_types(T)]
pub struct ExWorker<T>(Worker<T>);

/// What a queue holds, from its front to its back.
pub uninterp spec fn worker_items(w: Worker<u64>) -> Seq<u64>;

/// The queue was made to be popped at its front.
pub uninterp spec fn worker_is_fifo(w: Worker<u64>) -> bool;

/// `Worker::new_fifo` makes an empty queue that is popped at its front.
#[verifier::external_body]
fn worker_new() -> (r: Worker<u64>)
    ensures
        worker_items(r) == Seq::<u64>::empty(),
        worker_is_fifo(r),
{
    Worker::new_fifo()
}

/// `Worker::push` puts the item at the back of the queue.
#[verifier::external_body]
fn worker_push(w: &mut Worker<u64>, item: u64)
    ensures
        worker_items(*final(w)) == worker_items(*old(w)).push(item),
        worker_is_fifo(*final(w)) == worker_is_fifo(*old(w)),
{
    w.push(item)
}

/// `Worker::pop` takes the item at the front of a queue that `Worker::new_fifo` made, and nothing
/// from an empty one.
#[verifier::external_body]
fn worker_pop(w: &mut Worker<u64>) -> (r: Option<u64>)
    requires
        worker_is_fifo(*old(w)),
    ensures
        worker_is_fifo(*final(w)),
        worker_items(*old(w)).len() == 0 ==> r is None,
        worker_items(*old(w)).len() == 0 ==> worker_items(*final(w)) == worker_items(*old(w)),
        worker_items(*old(w)).len() > 0 ==> r == Some(worker_items(*old(w))[0]),
        worker_items(*old(w)).len() > 0 ==> worker_items(*final(w)) == worker_items(
            *old(w),
        ).subrange(1, worker_items(*old(w)).len() as int),
{
    w.pop()
}

/// `Worker::len` is the number of items in the queue.
#[verifier::external_body]
fn worker_len(w: &Worker<u64>) -> (r: usize)
    ensures
        r == worker_items(*w).len(),
{
    w.len()
}

/// `Worker::is_empty` says whether the queue holds nothing.
#[verifier::external_body]
fn worker_is_empty(w: &Worker<u64>) -> (r: bool)
    ensures
        r == (worker_items(*w).len() == 0),
{
    w.is_empty()
}

/// What came of an attempt to steal from a queue.
#[derive(Clone, Copy, Debug, PartialEq, Eq, Structural)]
pub enum Stolen {
    /// The queue was empty.
    Empty,
    /// The item at the front of the queue.
    Success(u64),
    /// Somebody else was at the queue.
    Retry,
}

/// How many items go along with the first when `len` items are there to be stolen.
pub open spec fn stolen_batch(len: nat, limit: usize) -> int {
    if (len - 1) / 2 <= limit - 1 {
        (len - 1) / 2
    } else {
        limit - 1
    }
}

/// `Stealer::steal_batch_with_limit_and_pop`, from one queue that `Worker::new_fifo` made to
/// another, with nobody else at either of them. The front item of the source is handed back, and
/// up to half of the rest, or up to `limit` items in all, go from the front of the source to the
/// back of the destination in their order. It panics on a limit of zero, and asks for a retry
/// only where another thread was at the source meanwhile.
#[verifier::external_body]
fn worker_steal(source: &mut Worker<u64>, dest: &mut Worker<u64>, limit: usize) -> (r: Stolen)
    requires
        worker_is_fifo(*old(source)),
        worker_is_fifo(*old(dest)),
        limit > 0,
    ensures
        worker_is_fifo(*final(source)),
        worker_is_fifo(*final(dest)),
        worker_items(*old(source)).len() == 0 ==> r == Stolen::Empty,
        worker_items(*old(source)).len() == 0 ==> worker_items(*final(source)) == worker_items(
            *old(source),
        ) && worker_items(*final(dest)) == worker_items(*old(dest)),
        worker_items(*old(source)).len() > 0 ==> {
            let items = worker_items(*old(source));
            let n = 1 + stolen_batch(items.len(), limit);
            &&& r == Stolen::Success(items[0])
            &&& worker_items(*final(source)) == items.subrange(n, items.len() as int)
            &&& worker_items(*final(dest)) == worker_items(*old(dest)) + items.subrange(1, n)
        },
{
    match source.stealer().steal_batch_with_limit_and_pop(dest, limit) {
        Steal::Empty => Stolen::Empty,
        Steal::Success(item) => Stolen::Success(item),
        Steal::Retry => Stolen::Retry,
    }
}

/// A first-in, first-out queue of addresses of objects to be marked.
pub struct MarkQueue {
    worker: Worker<u64>,
}

impl MarkQueue {
    /// The queue is popped at its front.
    pub closed spec fn wf(self) -> bool {
        worker_is_fifo(self.worker)
    }

    /// The addresses in the queue, in their order.
    pub closed spec fn items(self) -> Seq<u64> {
        worker_items(self.worker)
    }

    /// An empty queue.
    pub fn new() -> (r: Self)
        ensures
            r.wf(),
            r.items() == Seq::<u64>::empty(),
    {
        MarkQueue { worker: worker_new() }
    }

    /// Puts an address at the back.
    pub fn push(&mut self, item: u64)
        ensures
            final(self).wf() == old(self).wf(),
            final(self).items() == old(self).items().push(item),
    {
        worker_push(&mut self.worker, item);
    }

    /// Takes the address at the front.
    pub fn pop(&mut self) -> (r: Option<u64>)
        requires
            old(self).wf(),
        ensures
            final(self).wf(),
            old(self).items().len() == 0 ==> r is None,
            old(self).items().len() == 0 ==> final(self).items() == old(self).items(),
            old(self).items().len() > 0 ==> r == Some(old(self).items()[0]),
            old(self).items().len() > 0 ==> final(self).items() == old(self).items().subrange(
                1,
                old(self).items().len() as int,
            ),
    {
        worker_pop(&mut self.worker)
    }

    /// The number of addresses in the queue.
    pub fn len(&self) -> (r: usize)
        ensures
            r == self.items().len(),
    {
        worker_len(&self.worker)
    }

    /// Returns `true` if the queue holds nothing.
    pub fn is_empty(&self) -> (r: bool)
        ensures
            r == (self.items().len() == 0),
    {
        worker_is_empty(&self.worker)
    }

    /// Takes the address at the front of another queue, and moves up to half of what is left
    /// there, at most `limit` addresses with the first, to the back of this one.
    pub fn steal_batch_and_pop(&mut self, source: &mut MarkQueue, limit: usize) -> (r: Option<u64>)
        requires
            limit > 0,
            old(self).wf(),
            old(source).wf(),
        ensures
            final(self).wf(),
            final(source).wf(),
            old(source).items().len() == 0 ==> r is None,
            old(source).items().len() == 0 ==> final(source).items() == old(source).items()
                && final(self).items() == old(self).items(),
            old(source).items().len() > 0 ==> {
                let items = old(source).items();
                let n = 1 + stolen_batch(items.len(), limit);
                &&& r == Some(items[0])
                &&& final(source).items() == items.subrange(n, items.len() as int)
                &&& final(self).items() == old(self).items() + items.subrange(1, n)
            },
    {
        match worker_steal(&mut source.worker, &mut self.worker, limit) {
            Stolen::Success(item) => Some(item),
            _ => None,
        }
    }
}

/// Stealing loses nothing and invents nothing: what was in the source is now handed back, in the
/// destination or still in the source.
pub proof fn law_steal_moves_items(items: Seq<u64>, limit: usize)
    requires
        items.len() > 0,
        limit > 0,
    ensures
        ({
            let n = 1 + stolen_batch(items.len(), limit);
            &&& 1 <= n <= items.len()
            &&& n <= limit
            &&& items =~= seq![items[0]] + items.subrange(1, n) + items.subrange(
                n,
                items.len() as int,
            )
        }),
{
}

} // verus!
