//! Slots that are handed out, given back and handed out again.

use vstd::prelude::*;

verus! {

/// A slot and what it holds. What it holds outlives its use.
pub struct Node<T> {
    pub using: bool,
    pub item: T,
}

impl<T: Default> Node<T> {
    /// A slot in use, with a default item.
    pub fn new_using() -> (r: Self)
        ensures
            r.using,
            call_ensures(T::default, (), r.item),
    {
        Node { using: true, item: T::default() }
    }
}

/// How many of the slots are in use.
pub open spec fn using_count<T>(nodes: Seq<Node<T>>) -> nat
    decreases nodes.len(),
{
    if nodes.len() == 0 {
        0
    } else {
        using_count(nodes.drop_last()) + (if nodes.last().using {
            1nat
        } else {
            0nat
        })
    }
}

/// The index is that of the first slot that is not in use, or the end.
pub open spec fn is_first_free<T>(nodes: Seq<Node<T>>, i: int) -> bool {
    &&& 0 <= i <= nodes.len()
    &&& forall|j: int| 0 <= j < i ==> (#[trigger] nodes[j]).using
    &&& i < nodes.len() ==> !nodes[i].using
}

proof fn lemma_using_count_update<T>(nodes: Seq<Node<T>>, i: int, n: Node<T>)
    requires
        0 <= i < nodes.len(),
    ensures
        using_count(nodes.update(i, n)) + (if nodes[i].using {
            1nat
        } else {
            0nat
        }) == using_count(nodes) + (if n.using {
            1nat
        } else {
            0nat
        }),
        using_count(nodes) <= nodes.len(),
        !nodes[i].using ==> using_count(nodes) < nodes.len(),
        nodes[i].using ==> using_count(nodes) > 0,
    decreases nodes.len(),
{
    let t = nodes.update(i, n);
    if i == nodes.len() - 1 {
        assert(t.drop_last() =~= nodes.drop_last());
        lemma_using_count_bound(nodes.drop_last());
    } else {
        assert(t.drop_last() =~= nodes.drop_last().update(i, n));
        lemma_using_count_update(nodes.drop_last(), i, n);
    }
}

proof fn lemma_using_count_bound<T>(nodes: Seq<Node<T>>)
    ensures
        using_count(nodes) <= nodes.len(),
    decreases nodes.len(),
{
    if nodes.len() > 0 {
        lemma_using_count_bound(nodes.drop_last());
    }
}

/// The count depends on the use of the slots alone.
pub proof fn lemma_using_same<T>(a: Seq<Node<T>>, b: Seq<Node<T>>)
    requires
        a.len() == b.len(),
        forall|i: int| 0 <= i < a.len() ==> (#[trigger] a[i]).using == b[i].using,
    ensures
        using_count(a) == using_count(b),
    decreases a.len(),
{
    if a.len() > 0 {
        lemma_using_same(a.drop_last(), b.drop_last());
    }
}

/// Slots that are handed out, given back and handed out again.
pub struct ReusableSlots<T> {
    pub nodes: Vec<Node<T>>,
    pub active_count: usize,
}

impl<T> Default for ReusableSlots<T> {
    /// No slots.
    fn default() -> (r: Self)
        ensures
            r.wf(),
            r.nodes@ == Seq::<Node<T>>::empty(),
            r.active_count == 0,
    {
        ReusableSlots { nodes: Vec::new(), active_count: 0 }
    }
}

impl<T> ReusableSlots<T> {
    /// The count is that of the slots in use.
    pub open spec fn wf(self) -> bool {
        self.active_count == using_count(self.nodes@)
    }

    /// Hands out a slot: the first that is not in use, with what it holds, or else a new one with
    /// a default item.
    pub fn acquire_or_default(&mut self) -> (r: usize) where T: Default
        requires
            old(self).wf(),
        ensures
            final(self).wf(),
            is_first_free(old(self).nodes@, r as int),
            final(self).active_count == old(self).active_count + 1,
            r < old(self).nodes@.len() ==> final(self).nodes@ == old(self).nodes@.update(
                r as int,
                (Node { using: true, item: old(self).nodes@[r as int].item }),
            ),
            r == old(self).nodes@.len() ==> {
                &&& final(self).nodes@.len() == r + 1
                &&& final(self).nodes@.drop_last() == old(self).nodes@
                &&& final(self).nodes@[r as int].using
                &&& call_ensures(T::default, (), final(self).nodes@[r as int].item)
            },
    {
        let mut i: usize = 0;
        while i < self.nodes.len()
            invariant
                *self == *old(self),
                self.wf(),
                i <= self.nodes@.len(),
                forall|j: int| 0 <= j < i ==> (#[trigger] self.nodes@[j]).using,
            decreases self.nodes@.len() - i,
        {
            if !self.nodes[i].using {
                let ghost before = self.nodes@;
                self.nodes[i].using = true;
                proof {
                    let n = Node { using: true, item: before[i as int].item };
                    assert(self.nodes@ =~= before.update(i as int, n));
                    lemma_using_count_update(before, i as int, n);
                }
                self.active_count = self.active_count + 1;
                return i;
            }
            i = i + 1;
        }
        let node = Node::<T>::new_using();
        let ghost before = self.nodes@;
        self.nodes.push(node);
        proof {
            assert(self.nodes@.drop_last() =~= before);
            lemma_using_count_bound(before);
            assert(self.nodes@.len() == self.nodes.len());
        }
        self.active_count = self.active_count + 1;
        i
    }

    /// Takes a slot back. It keeps what it holds.
    pub fn release(&mut self, i: usize)
        requires
            old(self).wf(),
            i < old(self).nodes@.len(),
            old(self).nodes@[i as int].using,
        ensures
            final(self).wf(),
            final(self).active_count == old(self).active_count - 1,
            final(self).nodes@ == old(self).nodes@.update(
                i as int,
                (Node { using: false, item: old(self).nodes@[i as int].item }),
            ),
    {
        let ghost before = self.nodes@;
        self.nodes[i].using = false;
        proof {
            let n = Node { using: false, item: before[i as int].item };
            assert(self.nodes@ =~= before.update(i as int, n));
            lemma_using_count_update(before, i as int, n);
        }
        self.active_count = self.active_count - 1;
    }

    /// How many slots are in use.
    pub fn active_count(&self) -> (r: usize)
        requires
            self.wf(),
        ensures
            r == using_count(self.nodes@),
    {
        self.active_count
    }
}

/// A slot that is given back is handed out again, with what it held, before any slot behind it.
pub proof fn law_released_slot_is_reused<T>(nodes: Seq<Node<T>>, i: int, r: int)
    requires
        0 <= i < nodes.len(),
        is_first_free(nodes.update(i, (Node { using: false, item: nodes[i].item })), r),
    ensures
        r <= i,
        forall|j: int| 0 <= j < i && #[trigger] nodes[j].using ==> j != r,
{
    let t = nodes.update(i, (Node { using: false, item: nodes[i].item }));
    assert(!t[i].using);
}

/// The slot that is handed out is the first of those that are not in use. There is exactly one
/// such place: where all slots are in use, it is behind them.
pub proof fn law_the_first_free_slot<T>(nodes: Seq<Node<T>>, i: int, j: int)
    requires
        is_first_free(nodes, i),
    ensures
        0 <= i <= nodes.len(),
        i < nodes.len() ==> !nodes[i].using,
        0 <= j < nodes.len() && !nodes[j].using ==> i <= j,
        i == nodes.len() ==> forall|k: int| 0 <= k < nodes.len() ==> (#[trigger] nodes[k]).using,
        is_first_free(nodes, j) ==> i == j,
{
    if i < j && is_first_free(nodes, j) {
        assert(nodes[i].using);
    }
    if j < i && is_first_free(nodes, j) {
        assert(nodes[j].using);
    }
}

/// There is always a place to hand out.
pub proof fn law_there_is_a_first_free_slot<T>(nodes: Seq<Node<T>>) -> (i: int)
    ensures
        is_first_free(nodes, i),
    decreases nodes.len(),
{
    if nodes.len() == 0 {
        0
    } else {
        let i = law_there_is_a_first_free_slot(nodes.drop_last());
        if i < nodes.len() - 1 {
            assert forall|j: int| 0 <= j < i implies (#[trigger] nodes[j]).using by {
                assert(nodes.drop_last()[j].using);
            }
            i
        } else {
            assert forall|j: int| 0 <= j < nodes.len() - 1 implies (#[trigger] nodes[j]).using by {
                assert(nodes.drop_last()[j].using);
            }
            if nodes.last().using {
                nodes.len() as int
            } else {
                nodes.len() - 1
            }
        }
    }
}

/// The slots in use are those that say so.
pub proof fn law_slots_in_use_are_counted<T>(nodes: Seq<Node<T>>)
    ensures
        using_count(nodes) == nodes.filter(|n: Node<T>| n.using).len(),
    decreases nodes.len(),
{
    reveal(Seq::filter);
    if nodes.len() > 0 {
        law_slots_in_use_are_counted(nodes.drop_last());
    }
}

} // verus!
