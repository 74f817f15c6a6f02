//! Batches of new objects, and how they get to the lists.

use crate::accounts::{lemma_books_noted, lemma_books_published, lemma_books_same, wrapped, Books};
use crate::bags::lemma_bag_sum_update;
use crate::epoch::Color;
use crate::global::{lemma_fits_local, lemma_node_update, parts_of, pending_of, Global};
use crate::heap::ManObj;
use crate::internal::Local;
use crate::lists::ObjBatch;
use crate::model::GcModel;
use crate::shards::OBJ_BATCHES_SHARD;
use crate::sync::reusable_slots::Node;
use crate::trace::TraceObj;
use vstd::prelude::*;

verus! {

/// One more object that has not been looked at.
pub open spec fn add_young(s: GcModel, c: Color, x: u64) -> GcModel {
    let i = c.code() as int;
    GcModel { young: s.young.update(i, s.young[i].insert(x)), ..s }
}

/// What has not been published of a color changes with the batch of a participant.
pub proof fn lemma_pending_update(nodes: Seq<Node<Local>>, l: int, n: Node<Local>, c: Color)
    requires
        0 <= l < nodes.len(),
    ensures
        forall|x: u64| #[trigger]
            pending_of(nodes.update(l, n), c).count(x)
                + nodes[l].item.objs@[c.code() as int].0.bag().count(x) == pending_of(
                nodes,
                c,
            ).count(x) + n.item.objs@[c.code() as int].0.bag().count(x),
        forall|x: u64| #[trigger]
            pending_of(nodes, c).count(x) >= nodes[l].item.objs@[c.code() as int].0.bag().count(x),
{
    let f = |n: Node<Local>| n.item.objs@[c.code() as int].0.bag();
    assert(nodes.update(l, n).map_values(f) =~= nodes.map_values(f).update(l, f(n)));
    assert forall|x: u64|
        #[trigger] pending_of(nodes.update(l, n), c).count(x) + f(nodes[l]).count(x) == pending_of(
            nodes,
            c,
        ).count(x) + f(n).count(x) && pending_of(nodes, c).count(x) >= f(nodes[l]).count(x) by {
        lemma_bag_sum_update(nodes.map_values(f), l, f(n), x);
    }
    assert forall|x: u64| #[trigger] pending_of(nodes, c).count(x) >= f(nodes[l]).count(x) by {
        lemma_bag_sum_update(nodes.map_values(f), l, f(n), x);
    }
}

impl<T: TraceObj> Global<T> {
    /// Nothing differs but the batches of one participant, its choice of shards, the list of
    /// fresh objects and the count of allocated bytes.
    pub open spec fn only_batches(self, before: Self, l: int) -> bool {
        &&& self == (Global {
            locals: self.locals,
            fresh_objs: self.fresh_objs,
            stats: self.stats,
            ..before
        })
        &&& self.locals.active_count == before.locals.active_count
        &&& self.nodes() == before.nodes().update(
            l,
            (Node { using: before.nodes()[l].using, item: self.local(l) }),
        )
        &&& self.local(l) == (Local {
            objs: self.local(l).objs,
            picker: self.local(l).picker,
            ..before.local(l)
        })
        &&& self.stats.total_reclaimed == before.stats.total_reclaimed
    }

    /// Adds a batch to a shard of the list of fresh objects, and counts its bytes as allocated.
    pub fn push_fresh_objs(
        &mut self,
        batch: ObjBatch,
        size_bytes: usize,
        alloc_color: Color,
        shard_index: usize,
    )
        requires
            old(self).fits(),
            shard_index < OBJ_BATCHES_SHARD,
            batch.is_usual(),
        ensures
            final(self).fits(),
            *final(self) == (Global {
                fresh_objs: final(self).fresh_objs,
                stats: final(self).stats,
                ..*old(self)
            }),
            final(self).fresh_objs.bag(alloc_color) == old(self).fresh_objs.bag(alloc_color).add(
                batch.bag(),
            ),
            final(self).fresh_objs.bag(alloc_color.flipped()) == old(self).fresh_objs.bag(
                alloc_color.flipped(),
            ),
            final(self).fresh_objs.shard_set(
                old(self).fresh_objs,
                alloc_color,
                shard_index as int,
                old(self).fresh_objs.shard(alloc_color, shard_index as int).push(batch),
            ),
            final(self).stats.total_reclaimed == old(self).stats.total_reclaimed,
            final(self).stats.total_allocated == old(self).stats.total_allocated.wrapping_add(
                size_bytes,
            ),
    {
        self.fresh_objs.push(alloc_color, shard_index, batch);
        self.stats.total_allocated = self.stats.total_allocated.wrapping_add(size_bytes);
    }

    /// Publishes the batch of a participant in its allocation color.
    pub fn flush_objs(&mut self, lid: usize)
        requires
            old(self).fits(),
            lid < old(self).nodes().len(),
            old(self).local(lid as int).epoch.valid(),
        ensures
            final(self).fits(),
            final(self).abs() == old(self).abs(),
            final(self).only_batches(*old(self), lid as int),
            ({
                let l = lid as int;
                let c = old(self).local(l).alloc_color().code() as int;
                let d = old(self).local(l).alloc_color().flipped().code() as int;
                let bytes: usize = if old(self).local(l).objs@[c].0@.len() == 0 {
                    0
                } else {
                    old(self).local(l).objs@[c].1
                };
                &&& final(self).local(l).objs@[c].0@ == Seq::<u64>::empty()
                &&& final(self).local(l).objs@[d] == old(self).local(l).objs@[d]
                &&& final(self).stats.total_allocated == old(
                    self).stats.total_allocated.wrapping_add(bytes)
            }),
            final(self).books() == old(self).books(),
            final(self).books_kept(*old(self)),
    {
        let ghost before = *self;
        let ghost l = lid as int;
        assert(self.nodes()[l].item.wf());
        let alloc_color: Color = self.locals.nodes[lid].item.pinned_alloc_color();
        match self.locals.nodes[lid].item.take_obj_batch(alloc_color) {
            Some((batch, size_bytes)) => {
                let shard: usize = self.locals.nodes[lid].item.picker.select_obj_shard();
                let ghost taken = *self;
                proof {
                    assert(self.nodes() =~= before.nodes().update(l, self.nodes()[l]));
                    lemma_fits_local(before, taken, l);
                }
                self.push_fresh_objs(batch, size_bytes, alloc_color, shard);
                proof {
                    lemma_node_update(before.nodes(), l, taken.nodes()[l]);
                    lemma_pending_update(
                        before.nodes(),
                        l,
                        taken.nodes()[l],
                        alloc_color,
                    );
                    assert(parts_of(self.nodes()) =~= parts_of(before.nodes()));
                    broadcast use vstd::seq_lib::group_to_multiset_ensures;

                    assert(self.young(alloc_color) =~= before.young(alloc_color));
                    assert(self.young(alloc_color.flipped()) =~= before.young(
                        alloc_color.flipped(),
                    ));
                    assert(self.abs() =~= before.abs());
                    lemma_books_published(before, *self, l, alloc_color, size_bytes);
                }
            },
            None => {
                proof {
                    lemma_books_same(before, *self);
                    assert(self.nodes() =~= before.nodes().update(l, self.nodes()[l]));
                    assert(self.abs() =~= before.abs()) by {
                        lemma_node_update(before.nodes(), l, self.nodes()[l]);
                    }
                    lemma_fits_local(before, *self, l);
                }
            },
        }
    }

    /// The bytes that an object is counted as.
    pub open spec fn obj_size() -> usize {
        vstd::layout::size_of::<ManObj<T>>() as usize
    }

    /// Publishes the batch of a participant in its allocation color if it is full.
    fn make_room(&mut self, lid: usize)
        requires
            old(self).fits(),
            lid < old(self).nodes().len(),
            old(self).local(lid as int).epoch.valid(),
        ensures
            final(self).fits(),
            final(self).abs() == old(self).abs(),
            final(self).only_batches(*old(self), lid as int),
            final(self).books() == old(self).books(),
            ({
                let l = lid as int;
                let c = old(self).local(l).alloc_color().code() as int;
                final(self).local(l).objs@[c].0@.len() < final(self).local(l).objs@[c].0.capacity
            }),
    {
        let ghost before = *self;
        let ghost l = lid as int;
        assert(self.nodes()[l].item.wf());
        let color: Color = self.locals.nodes[lid].item.pinned_alloc_color();
        if self.locals.nodes[lid].item.batch_full(color) {
            self.flush_objs(lid);
            assert(self.nodes()[l].item.wf());
        } else {
            proof {
                assert(self.nodes() =~= before.nodes().update(l, self.nodes()[l]));
            }
        }
    }

    /// Adds an object to the batch of a participant in its allocation color, publishing the batch
    /// first if it is full. The bytes of a newly allocated object will be counted as allocated
    /// when the batch is published.
    pub fn push_fresh_obj(&mut self, lid: usize, addr: u64, newly_allocated: bool)
        requires
            old(self).fits(),
            lid < old(self).nodes().len(),
            old(self).local(lid as int).epoch.valid(),
        ensures
            final(self).fits(),
            final(self).only_batches(*old(self), lid as int),
            final(self).abs() == add_young(
                old(self).abs(),
                old(self).local(lid as int).alloc_color(),
                addr,
            ),
            final(self).books() == (Books {
                allocated: wrapped(
                    old(self).books().allocated + (if newly_allocated {
                        Self::obj_size()
                    } else {
                        0
                    }),
                ),
                ..old(self).books()
            }),
            // What is counted is the size of the object.
            newly_allocated ==> final(self).books().allocated == wrapped(
                old(self).books().allocated + vstd::layout::size_of::<ManObj<T>>(),
            ),
    {
        let ghost before = *self;
        let ghost l = lid as int;
        assert(self.nodes()[l].item.wf());
        let obj_size: usize = std::mem::size_of::<ManObj<T>>();
        let color: Color = self.locals.nodes[lid].item.pinned_alloc_color();
        self.make_room(lid);
        let ghost mid = *self;
        assert(self.nodes()[l].item.wf());
        let bytes: usize = if newly_allocated {
            obj_size
        } else {
            0
        };
        self.locals.nodes[lid].item.push_obj(color, addr, bytes);
        proof {
            lemma_obj_pushed(mid, *self, l, color, addr, bytes);
            assert(self.nodes() =~= before.nodes().update(l, self.nodes()[l]));
        }
    }
}

/// An object has been added to the batch of a participant.
proof fn lemma_obj_pushed<T: TraceObj>(
    mid: Global<T>,
    after: Global<T>,
    l: int,
    color: Color,
    addr: u64,
    bytes: usize,
)
    requires
        mid.fits(),
        0 <= l < mid.nodes().len(),
        after == (Global { locals: after.locals, ..mid }),
        after.locals.active_count == mid.locals.active_count,
        after.nodes() =~= mid.nodes().update(
            l,
            (Node { using: mid.nodes()[l].using, item: after.local(l) }),
        ),
        after.local(l) == (Local { objs: after.local(l).objs, ..mid.local(l) }),
        after.local(l).wf(),
        after.local(l).objs@[color.code() as int].0@ == mid.local(l).objs@[color.code()
            as int].0@.push(addr),
        after.local(l).objs@[color.flipped().code() as int] == mid.local(
            l,
        ).objs@[color.flipped().code() as int],
        after.local(l).objs@[color.code() as int].1 == mid.local(l).objs@[color.code()
            as int].1.wrapping_add(bytes),
    ensures
        after.fits(),
        after.abs() == add_young(mid.abs(), color, addr),
        after.books() == (Books {
            allocated: wrapped(mid.books().allocated + bytes),
            ..mid.books()
        }),
{
    broadcast use vstd::seq_lib::group_to_multiset_ensures;

    let c = color.code() as int;
    let n = after.nodes()[l];
    lemma_node_update(mid.nodes(), l, n);
    lemma_pending_update(mid.nodes(), l, n, color);
    lemma_fits_local(mid, after, l);
    assert(parts_of(after.nodes()) =~= parts_of(mid.nodes()));
    assert(n.item.objs@[c].0.bag() =~= mid.local(l).objs@[c].0.bag().insert(addr));
    assert(after.young(color) =~= mid.young(color).insert(addr));
    assert(after.young(color.flipped()) =~= mid.young(color.flipped()));
    assert(after.abs() =~= add_young(mid.abs(), color, addr));
    assert(after.nodes() =~= mid.nodes().update(l, n));
    lemma_books_noted(mid, after, l, color, bytes);
}

} // verus!
