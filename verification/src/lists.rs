//! The lists of objects: batches of addresses, in queues by color and shard.

use crate::bags::{
    bag_sum, lemma_bag_sum_empty, lemma_bag_sum_first, lemma_bag_sum_push, lemma_bag_sum_update,
};
use crate::epoch::Color;
use crate::shards::OBJ_BATCHES_SHARD;
use crate::sync::queue::Queue;
use vstd::multiset::Multiset;
use vstd::prelude::*;

verus! {

/// How many objects a batch holds.
pub const OBJ_BATCH_SIZE: usize = 64;

/// A batch of objects, which does not grow beyond its capacity.
pub struct ObjBatch {
    pub items: Vec<u64>,
    pub capacity: usize,
}

impl View for ObjBatch {
    type V = Seq<u64>;

    /// The addresses of the objects.
    open spec fn view(&self) -> Seq<u64> {
        self.items@
    }
}

impl ObjBatch {
    /// The batch is within its capacity.
    pub open spec fn wf(self) -> bool {
        self.items@.len() <= self.capacity
    }

    /// The batch has the usual capacity, and does not exceed it.
    pub open spec fn is_usual(self) -> bool {
        self.wf() && self.capacity == OBJ_BATCH_SIZE
    }

    /// The objects in the batch.
    pub open spec fn bag(self) -> Multiset<u64> {
        self.items@.to_multiset()
    }

    /// An empty batch with room for the given number of objects.
    pub fn with_capacity(capacity: usize) -> (r: Self)
        ensures
            r.wf(),
            r@ == Seq::<u64>::empty(),
            r.capacity == capacity,
    {
        ObjBatch { items: Vec::with_capacity(capacity), capacity }
    }

    /// Adds an object if there is room, and hands it back if there is not.
    pub fn push_within_capacity(&mut self, item: u64) -> (r: Result<(), u64>)
        ensures
            final(self).capacity == old(self).capacity,
            old(self).wf() ==> final(self).wf(),
            old(self)@.len() < old(self).capacity ==> r == Ok::<(), u64>(()),
            old(self)@.len() < old(self).capacity ==> final(self)@ == old(self)@.push(item),
            old(self)@.len() >= old(self).capacity ==> r == Err::<(), u64>(item),
            old(self)@.len() >= old(self).capacity ==> *final(self) == *old(self),
    {
        if self.items.len() < self.capacity {
            self.items.push(item);
            Ok(())
        } else {
            Err(item)
        }
    }

    /// Returns `true` if there is nothing in the batch.
    pub fn is_empty(&self) -> (r: bool)
        ensures
            r == (self@.len() == 0),
    {
        self.items.len() == 0
    }
}

impl Default for ObjBatch {
    /// An empty batch of the usual size.
    fn default() -> (r: Self)
        ensures
            r.wf(),
            r@ == Seq::<u64>::empty(),
            r.capacity == OBJ_BATCH_SIZE,
    {
        Self::with_capacity(OBJ_BATCH_SIZE)
    }
}

/// The objects in a sequence of batches.
pub open spec fn batches_bag(s: Seq<ObjBatch>) -> Multiset<u64> {
    bag_sum(s.map_values(|b: ObjBatch| b.bag()))
}

/// The objects in a sequence of queues of batches.
pub open spec fn queues_bag(s: Seq<Queue<ObjBatch>>) -> Multiset<u64> {
    bag_sum(s.map_values(|q: Queue<ObjBatch>| batches_bag(q@)))
}

/// Two lists of objects, one by color, in shards.
pub struct ObjLists {
    pub shards: Vec<Vec<Queue<ObjBatch>>>,
}

impl ObjLists {
    pub open spec fn wf(self) -> bool {
        &&& self.shards@.len() == 2
        &&& forall|c: int| 0 <= c < 2 ==> (#[trigger] self.shards@[c])@.len() == OBJ_BATCHES_SHARD
        &&& forall|c: Color, q: int, k: int|
            0 <= q < OBJ_BATCHES_SHARD && 0 <= k < self.shard(c, q).len() ==> (
            #[trigger] self.shard(c, q)[k]).is_usual()
    }

    /// The objects in the list of a color.
    pub open spec fn bag(self, c: Color) -> Multiset<u64> {
        queues_bag(self.shards@[c.code() as int]@)
    }

    /// The batches in a shard.
    pub open spec fn shard(self, c: Color, q: int) -> Seq<ObjBatch> {
        self.shards@[c.code() as int]@[q]@
    }

    /// The number of batches in the list of a color.
    pub open spec fn batches(self, c: Color) -> nat {
        self.shard(c, 0).len() + self.shard(c, 1).len() + self.shard(c, 2).len() + self.shard(
            c,
            3,
        ).len() + self.shard(c, 4).len() + self.shard(c, 5).len() + self.shard(c, 6).len()
            + self.shard(c, 7).len()
    }

    /// The lists with another sequence of batches in one shard.
    pub open spec fn shard_set(self, before: ObjLists, c: Color, q: int, s: Seq<ObjBatch>) -> bool {
        &&& self.shard(c, q) == s
        &&& forall|d: Color, k: int|
            0 <= k < OBJ_BATCHES_SHARD && (d != c || k != q) ==> #[trigger] self.shard(d, k)
                == before.shard(d, k)
    }

    /// Empty lists.
    pub fn new() -> (r: Self)
        ensures
            r.wf(),
            r.bag(Color::C0) == Multiset::<u64>::empty(),
            r.bag(Color::C1) == Multiset::<u64>::empty(),
            forall|c: Color, q: int|
                0 <= q < OBJ_BATCHES_SHARD ==> #[trigger] r.shard(c, q) == Seq::<ObjBatch>::empty(),
    {
        let r = ObjLists { shards: vec![Self::new_shards(), Self::new_shards()] };
        proof {
            lemma_empty_queues(r.shards@[0]@);
            lemma_empty_queues(r.shards@[1]@);
        }
        r
    }

    fn new_shards() -> (r: Vec<Queue<ObjBatch>>)
        ensures
            r@.len() == OBJ_BATCHES_SHARD,
            forall|q: int| 0 <= q < r@.len() ==> (#[trigger] r@[q])@ == Seq::<ObjBatch>::empty(),
    {
        let mut shards: Vec<Queue<ObjBatch>> = Vec::new();
        while shards.len() < OBJ_BATCHES_SHARD
            invariant
                shards@.len() <= OBJ_BATCHES_SHARD,
                forall|q: int|
                    0 <= q < shards@.len() ==> (#[trigger] shards@[q])@ == Seq::<ObjBatch>::empty(),
            decreases OBJ_BATCHES_SHARD - shards@.len(),
        {
            shards.push(Queue::new());
        }
        shards
    }

    /// Adds a batch to a shard of the list of a color.
    pub fn push(&mut self, color: Color, shard: usize, batch: ObjBatch)
        requires
            old(self).wf(),
            shard < OBJ_BATCHES_SHARD,
            batch.is_usual(),
        ensures
            final(self).wf(),
            final(self).bag(color) == old(self).bag(color).add(batch.bag()),
            final(self).bag(color.flipped()) == old(self).bag(color.flipped()),
            final(self).shard_set(
                *old(self),
                color,
                shard as int,
                old(self).shard(color, shard as int).push(batch),
            ),
    {
        let c: usize = color.index();
        let ghost before = self.shards@[c as int]@;
        self.shards[c][shard].push(batch);
        proof {
            let after = self.shards@[c as int]@;
            let q = shard as int;
            assert(after =~= before.update(q, after[q]));
            lemma_queue_pushed(before[q]@, batch);
            lemma_queues_updated(before, q, after[q]);
            assert(self.bag(color) =~= old(self).bag(color).add(batch.bag()));
            assert forall|d: Color, p: int, k: int|
                0 <= p < OBJ_BATCHES_SHARD && 0 <= k < self.shard(d, p).len() implies (
            #[trigger] self.shard(d, p)[k]).is_usual() by {
                if k < old(self).shard(d, p).len() {
                    assert(self.shard(d, p)[k] == old(self).shard(d, p)[k]);
                }
            }
        }
    }

    /// Returns `true` if a shard of the list of a color has no batches.
    pub fn is_shard_empty(&self, color: Color, shard: usize) -> (r: bool)
        requires
            self.wf(),
            shard < OBJ_BATCHES_SHARD,
        ensures
            r == (self.shard(color, shard as int).len() == 0),
    {
        let c: usize = color.index();
        self.shards[c][shard].items.len() == 0
    }

    /// Returns `true` if the list of a color has no batches.
    pub fn is_list_empty(&self, color: Color) -> (r: bool)
        requires
            self.wf(),
        ensures
            r == (self.batches(color) == 0),
    {
        self.is_shard_empty(color, 0) && self.is_shard_empty(color, 1) && self.is_shard_empty(
            color,
            2,
        ) && self.is_shard_empty(color, 3) && self.is_shard_empty(color, 4) && self.is_shard_empty(
            color,
            5,
        ) && self.is_shard_empty(color, 6) && self.is_shard_empty(color, 7)
    }

    /// Takes the oldest batch of a shard of the list of a color.
    pub fn try_pop(&mut self, color: Color, shard: usize) -> (r: Option<ObjBatch>)
        requires
            old(self).wf(),
            shard < OBJ_BATCHES_SHARD,
        ensures
            final(self).wf(),
            final(self).bag(color.flipped()) == old(self).bag(color.flipped()),
            r is None <==> old(self).shard(color, shard as int).len() == 0,
            r is None ==> *final(self) == *old(self),
            r matches Some(batch) ==> {
                &&& batch == old(self).shard(color, shard as int)[0]
                &&& batch.is_usual()
                &&& batch.bag().subset_of(old(self).bag(color))
                &&& final(self).bag(color) == old(self).bag(color).sub(batch.bag())
                &&& final(self).shard_set(
                    *old(self),
                    color,
                    shard as int,
                    old(self).shard(color, shard as int).subrange(
                        1,
                        old(self).shard(color, shard as int).len() as int,
                    ),
                )
            },
    {
        let c: usize = color.index();
        let ghost before = self.shards@[c as int]@;
        if self.shards[c][shard].items.len() == 0 {
            return None;
        }
        let r = self.shards[c][shard].try_pop();
        proof {
            let after = self.shards@[c as int]@;
            let q = shard as int;
            assert(after =~= before.update(q, after[q]));
            lemma_queue_popped(before[q]@);
            lemma_queues_updated(before, q, after[q]);
            let b = r->0.bag();
            assert forall|x: u64| #[trigger] b.count(x) <= old(self).bag(color).count(x) by {
                assert(b.count(x) <= batches_bag(before[q]@).count(x));
            }
            assert(self.bag(color) =~= old(self).bag(color).sub(r->0.bag()));
            assert(old(self).shard(color, q)[0].is_usual());
            assert forall|d: Color, p: int, k: int|
                0 <= p < OBJ_BATCHES_SHARD && 0 <= k < self.shard(d, p).len() implies (
            #[trigger] self.shard(d, p)[k]).is_usual() by {
                if d == color && p == q {
                    assert(self.shard(d, p)[k] == old(self).shard(d, p)[k + 1]);
                } else {
                    assert(self.shard(d, p)[k] == old(self).shard(d, p)[k]);
                }
            }
        }
        r
    }
}

proof fn lemma_empty_queues(s: Seq<Queue<ObjBatch>>)
    requires
        forall|q: int| 0 <= q < s.len() ==> (#[trigger] s[q])@ == Seq::<ObjBatch>::empty(),
    ensures
        queues_bag(s) == Multiset::<u64>::empty(),
{
    let m = s.map_values(|q: Queue<ObjBatch>| batches_bag(q@));
    assert forall|i: int| 0 <= i < m.len() implies #[trigger] m[i]
        == Multiset::<u64>::empty() by {
        assert(s[i]@ == Seq::<ObjBatch>::empty());
        lemma_no_batches(s[i]@);
    }
    lemma_bag_sum_empty(m);
}

/// A list whose shards are empty holds no objects.
pub proof fn lemma_list_empty(l: ObjLists, c: Color)
    requires
        l.wf(),
        forall|q: int| 0 <= q < OBJ_BATCHES_SHARD ==> #[trigger] l.shard(c, q).len() == 0,
    ensures
        l.bag(c) == Multiset::<u64>::empty(),
{
    let s = l.shards@[c.code() as int]@;
    assert forall|q: int| 0 <= q < s.len() implies (#[trigger] s[q])@
        == Seq::<ObjBatch>::empty() by {
        assert(l.shard(c, q).len() == 0);
        assert(s[q]@ =~= Seq::<ObjBatch>::empty());
    }
    lemma_empty_queues(s);
}

/// A shard with one batch less is a list with one batch less.
pub proof fn lemma_batches_popped(before: ObjLists, after: ObjLists, c: Color, q: int)
    requires
        0 <= q < OBJ_BATCHES_SHARD,
        before.shard(c, q).len() > 0,
        after.shard_set(
            before,
            c,
            q,
            before.shard(c, q).subrange(1, before.shard(c, q).len() as int),
        ),
    ensures
        after.batches(c) + 1 == before.batches(c),
{
    assert(forall|k: int|
        0 <= k < OBJ_BATCHES_SHARD && k != q ==> #[trigger] after.shard(c, k) == before.shard(c, k));
    assert(after.shard(c, q).len() + 1 == before.shard(c, q).len());
    assert(q == 0 || q == 1 || q == 2 || q == 3 || q == 4 || q == 5 || q == 6 || q == 7);
}

proof fn lemma_no_batches(s: Seq<ObjBatch>)
    requires
        s.len() == 0,
    ensures
        batches_bag(s) == Multiset::<u64>::empty(),
{
    assert(s.map_values(|b: ObjBatch| b.bag()).len() == 0);
}

proof fn lemma_queue_pushed(s: Seq<ObjBatch>, b: ObjBatch)
    ensures
        batches_bag(s.push(b)) == batches_bag(s).add(b.bag()),
{
    let f = |b: ObjBatch| b.bag();
    assert(s.push(b).map_values(f) =~= s.map_values(f).push(b.bag()));
    lemma_bag_sum_push(s.map_values(f), b.bag());
}

proof fn lemma_queue_popped(s: Seq<ObjBatch>)
    requires
        s.len() > 0,
    ensures
        batches_bag(s) == s[0].bag().add(batches_bag(s.subrange(1, s.len() as int))),
{
    let f = |b: ObjBatch| b.bag();
    assert(s.map_values(f).subrange(1, s.len() as int) =~= s.subrange(
        1,
        s.len() as int,
    ).map_values(f));
    lemma_bag_sum_first(s.map_values(f));
}

proof fn lemma_queues_updated(s: Seq<Queue<ObjBatch>>, q: int, v: Queue<ObjBatch>)
    requires
        0 <= q < s.len(),
    ensures
        forall|x: u64| #[trigger]
            queues_bag(s.update(q, v)).count(x) + batches_bag(s[q]@).count(x) == queues_bag(
                s,
            ).count(x) + batches_bag(v@).count(x),
        forall|x: u64| #[trigger] batches_bag(s[q]@).count(x) <= queues_bag(s).count(x),
{
    let f = |q: Queue<ObjBatch>| batches_bag(q@);
    assert(s.update(q, v).map_values(f) =~= s.map_values(f).update(q, batches_bag(v@)));
    assert forall|x: u64|
        queues_bag(s.update(q, v)).count(x) + batches_bag(s[q]@).count(x) == queues_bag(s).count(x)
            + batches_bag(v@).count(x) && batches_bag(s[q]@).count(x) <= queues_bag(s).count(x) by {
        lemma_bag_sum_update(s.map_values(f), q, batches_bag(v@), x);
    }
}

} // verus!
