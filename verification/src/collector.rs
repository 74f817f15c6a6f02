//! The collection cycle.

use crate::accounts::{
    lemma_books_none, lemma_books_on, lemma_books_published, lemma_books_same, lemma_color_counted,
    pending_bytes_of, wrapped,
};
use crate::draining::lemma_traces_on;
use crate::epoch::{Color, Epoch, Phase, TIMESTAMP_LIMIT};
use crate::global::{
    lemma_fits_local, lemma_node_update, lemma_part_changed, parts_of, pending_of, tasks_of, Global,
};
use crate::guards::Handle;
use crate::hazards::AddressSet;
use crate::internal::{part_of, Local};
use crate::lists::{lemma_list_empty, ObjBatch};
use crate::man_ptr::{clear_meta, lemma_meta};
use crate::model::GcModel;
use crate::pinning::barrier_due;
use crate::publishing::lemma_pending_update;
use crate::roots::lemma_same_white;
use crate::scanning::{traces_within, within};
use crate::shards::{shard_range, OBJ_BATCHES_SHARD};
use crate::steps::{
    caught_up, is_next_epoch, keeps_protected, lemma_pinned_epoch, lemma_shape_on,
    lemma_surviving_on, lemma_to_completion, lemma_to_normal, lemma_to_root_tracing, same_shape,
    set_epoch, surviving,
};
use crate::survival::{lemma_shape_spares, lemma_spares_on, lemma_sweeps_spares, spares};
use crate::sweeping::{lemma_sweeps_surviving, sweeps};
use crate::sync::reusable_slots::Node;
use crate::trace::TraceObj;
use vstd::multiset::Multiset;
use vstd::prelude::*;

verus! {

impl<T: TraceObj> Global<T> {
    /// Returns `true` if every pinned participant is pinned at the given timestamp, which is the
    /// current one, or a later one.
    pub fn all_mutators_unpinned(&self, new_ts: u64) -> (r: bool)
        requires
            self.wf(),
            new_ts == self.epoch.data.ts(),
        ensures
            r == caught_up(self.abs()),
    {
        let ghost s = self.abs();
        let mut i: usize = 0;
        while i < self.locals.nodes.len()
            invariant
                self.wf(),
                s == self.abs(),
                new_ts == s.epoch.ts(),
                i <= self.nodes().len(),
                forall|l: int|
                    0 <= l < i && (#[trigger] s.parts[l]).pinned() ==> s.parts[l].epoch.ts()
                        == s.epoch.ts(),
            decreases self.nodes().len() - i,
        {
            proof {
                assert(s.part_ok(s.parts[i as int]));
                assert(s.parts[i as int] == part_of(self.nodes()[i as int]));
                lemma_pinned_epoch(s.epoch);
            }
            if self.locals.nodes[i].using {
                let local_epoch: Epoch = self.locals.nodes[i].item.epoch;
                if local_epoch.is_pinned() && local_epoch.timestamp() < new_ts {
                    assert(s.parts[i as int].pinned());
                    return false;
                }
            }
            i = i + 1;
        }
        true
    }

    /// Moves the global epoch to another phase, with the next timestamp.
    fn phase_trans(&mut self, new: Phase)
        requires
            old(self).epoch.data.ts() + 1 < TIMESTAMP_LIMIT,
            !old(self).epoch.data.pinned_flag(),
        ensures
            *final(self) == (Global { epoch: final(self).epoch, ..*old(self) }),
            is_next_epoch(
                old(self).epoch.data,
                new,
                old(self).epoch.data.white(),
                final(self).epoch.data,
            ),
    {
        let epoch: Epoch = self.epoch.load();
        let new_epoch: Epoch = epoch.with_timestamp(epoch.timestamp() + 1).with_phase(new);
        self.epoch.store(new_epoch);
    }

    /// Publishes the batch of a color of one participant.
    #[verifier::rlimit(40)]
    fn publish_one(&mut self, lid: usize, i: usize, color: Color)
        requires
            old(self).fits(),
            lid < old(self).nodes().len(),
            i < old(self).nodes().len(),
        ensures
            final(self).fits(),
            final(self).abs() == old(self).abs(),
            final(self).only_publishes(*old(self)),
            final(self).local(i as int).objs@[color.code() as int].0@.len() == 0,
            forall|k: int|
                0 <= k < old(self).nodes().len() && k != i ==> (
                #[trigger] final(self).nodes()[k]).item.objs == old(self).nodes()[k].item.objs,
            final(self).local(i as int).objs@[color.flipped().code() as int] == old(self).local(
                i as int,
            ).objs@[color.flipped().code() as int],
    {
        let ghost mid = *self;
        let ghost k = i as int;
        let ghost l = lid as int;
        assert(self.nodes()[k].item.wf());
        match self.locals.nodes[i].item.take_obj_batch(color) {
            Some((batch, size_bytes)) => {
                let ghost taken = *self;
                proof {
                    assert(self.nodes() =~= mid.nodes().update(k, self.nodes()[k]));
                    lemma_fits_local(mid, taken, k);
                    assert(taken.nodes()[l].item.wf());
                }
                let shard: usize = self.locals.nodes[lid].item.picker.select_obj_shard();
                let ghost picked = *self;
                proof {
                    assert(self.nodes() =~= taken.nodes().update(l, self.nodes()[l]));
                    lemma_part_changed(taken, picked, l);
                    assert(picked.abs() =~= taken.abs());
                }
                self.push_fresh_objs(batch, size_bytes, color, shard);
                proof {
                    lemma_published(mid, taken, picked, *self, k, batch, color);
                    lemma_books_published(mid, *self, k, color, size_bytes);
                }
            },
            None => {
                proof {
                    assert(self.nodes() =~= mid.nodes().update(k, self.nodes()[k]));
                    lemma_node_update(mid.nodes(), k, self.nodes()[k]);
                    lemma_fits_local(mid, *self, k);
                    assert(self.abs() =~= mid.abs());
                    lemma_books_same(mid, *self);
                }
            },
        }
    }

    /// The batches of a color that participants have not published are published.
    fn publish_pending(&mut self, lid: usize, color: Color)
        requires
            old(self).wf(),
            lid < old(self).nodes().len(),
        ensures
            final(self).wf(),
            final(self).abs() == old(self).abs(),
            final(self).only_publishes(*old(self)),
            pending_of(final(self).nodes(), color) == Multiset::<u64>::empty(),
            final(self).stats.total_allocated == wrapped(
                old(self).stats.total_allocated + pending_bytes_of(old(self).nodes(), color),
            ),
    {
        let ghost before = *self;
        let mut i: usize = 0;
        while i < self.locals.nodes.len()
            invariant
                before == *old(self),
                lid < before.nodes().len(),
                i <= before.nodes().len(),
                self.fits(),
                self.abs() == before.abs(),
                self.only_publishes(before),
                forall|k: int|
                    0 <= k < i ==> (#[trigger] self.nodes()[k]).item.objs@[color.code()
                        as int].0@.len() == 0,
                forall|k: int|
                    0 <= k < before.nodes().len() ==> (
                    #[trigger] self.nodes()[k]).item.objs@[color.flipped().code() as int]
                        == before.nodes()[k].item.objs@[color.flipped().code() as int],
            decreases before.nodes().len() - i,
        {
            let ghost mid = *self;
            self.publish_one(lid, i, color);
            proof {
                assert forall|k: int| 0 <= k < before.nodes().len() implies #[trigger] self.nodes()[k]
                    == (Node {
                    using: before.nodes()[k].using,
                    item: Local {
                        objs: self.local(k).objs,
                        picker: self.local(k).picker,
                        ..before.local(k)
                    },
                }) by {
                    assert(mid.nodes()[k].using == before.nodes()[k].using);
                }
            }
            i = i + 1;
        }
        proof {
            broadcast use vstd::seq_lib::group_to_multiset_ensures;

            let f = |n: Node<Local>| n.item.objs@[color.code() as int].0.bag();
            let bags = self.nodes().map_values(f);
            assert forall|k: int| 0 <= k < bags.len() implies #[trigger] bags[k] == Multiset::<
                u64,
            >::empty() by {
                let items = self.nodes()[k].item.objs@[color.code() as int].0@;
                assert(items.len() == 0);
                assert(items.to_multiset() =~= Multiset::<u64>::empty());
            }
            crate::bags::lemma_bag_sum_empty(bags);
            assert forall|k: int| 0 <= k < before.nodes().len() implies (
            #[trigger] self.nodes()[k]).item.objs@[color.code() as int].1 == 0 by {
                assert(self.nodes()[k].item.wf());
            }
            lemma_color_counted(before, *self, color);
        }
    }

    /// Nothing differs but batches, which have gone from participants to the list of fresh
    /// objects, the choice of shards and the count of allocated bytes.
    pub open spec fn only_publishes(self, before: Self) -> bool {
        &&& self == (Global {
            locals: self.locals,
            fresh_objs: self.fresh_objs,
            stats: self.stats,
            ..before
        })
        &&& self.nodes().len() == before.nodes().len()
        &&& forall|k: int|
            0 <= k < before.nodes().len() ==> #[trigger] self.nodes()[k] == (Node {
                using: before.nodes()[k].using,
                item: Local {
                    objs: self.local(k).objs,
                    picker: self.local(k).picker,
                    ..before.local(k)
                },
            })
        &&& self.stats.total_reclaimed == before.stats.total_reclaimed
        &&& self.books() == before.books()
    }
}

/// The batch of a participant has been published.
proof fn lemma_published<T: TraceObj>(
    mid: Global<T>,
    taken: Global<T>,
    picked: Global<T>,
    after: Global<T>,
    k: int,
    batch: ObjBatch,
    color: Color,
)
    requires
        mid.fits(),
        0 <= k < mid.nodes().len(),
        taken == (Global { locals: taken.locals, ..mid }),
        taken.nodes() == mid.nodes().update(k, taken.nodes()[k]),
        taken.local(k) == (Local { objs: taken.local(k).objs, ..mid.local(k) }),
        taken.nodes()[k].using == mid.nodes()[k].using,
        batch == mid.local(k).objs@[color.code() as int].0,
        taken.local(k).objs@[color.code() as int].0@ == Seq::<u64>::empty(),
        taken.local(k).objs@[color.flipped().code() as int] == mid.local(
            k,
        ).objs@[color.flipped().code() as int],
        picked == (Global { locals: picked.locals, ..taken }),
        picked.abs() == taken.abs(),
        after == (Global { fresh_objs: after.fresh_objs, stats: after.stats, ..picked }),
        after.fresh_objs.bag(color) == mid.fresh_objs.bag(color).add(batch.bag()),
        after.fresh_objs.bag(color.flipped()) == mid.fresh_objs.bag(color.flipped()),
    ensures
        after.abs() == mid.abs(),
{
    broadcast use vstd::seq_lib::group_to_multiset_ensures;

    lemma_node_update(mid.nodes(), k, taken.nodes()[k]);
    lemma_pending_update(mid.nodes(), k, taken.nodes()[k], color);
    assert(parts_of(taken.nodes()) =~= parts_of(mid.nodes()));
    assert(taken.local(k).objs@[color.code() as int].0.bag() =~= Multiset::<u64>::empty());
    assert forall|c: Color| #[trigger] picked.young(c) == taken.young(c) by {
        match c {
            Color::C0 => {
                assert(picked.abs().young[0] == taken.abs().young[0]);
            },
            Color::C1 => {
                assert(picked.abs().young[1] == taken.abs().young[1]);
            },
        }
    }
    assert forall|x: u64| #[trigger] after.young(color).count(x) == mid.young(color).count(x) by {
        assert(after.young(color).count(x) == after.fresh_objs.bag(color).count(x) + pending_of(
            picked.nodes(),
            color,
        ).count(x));
        assert(picked.young(color).count(x) == picked.fresh_objs.bag(color).count(x) + pending_of(
            picked.nodes(),
            color,
        ).count(x));
        assert(taken.young(color).count(x) == mid.fresh_objs.bag(color).count(x) + pending_of(
            taken.nodes(),
            color,
        ).count(x));
    }
    assert(after.young(color) =~= mid.young(color));
    let d = color.flipped();
    assert forall|x: u64| #[trigger] after.young(d).count(x) == mid.young(d).count(x) by {
        assert(after.young(d).count(x) == after.fresh_objs.bag(d).count(x) + pending_of(
            picked.nodes(),
            d,
        ).count(x));
        assert(picked.young(d).count(x) == picked.fresh_objs.bag(d).count(x) + pending_of(
            picked.nodes(),
            d,
        ).count(x));
        assert(taken.young(d).count(x) == mid.fresh_objs.bag(d).count(x) + pending_of(
            taken.nodes(),
            d,
        ).count(x));
    }
    assert(after.young(d) =~= mid.young(d));
    assert(after.abs() =~= mid.abs());
}

impl Local {
    /// Nothing of another participant differs but batches, tasks and the choice of shards.
    pub open spec fn same_but_lists(self, before: Local) -> bool {
        self == (Local {
            objs: self.objs,
            picker: self.picker,
            mark_tasks: self.mark_tasks,
            ..before
        })
    }

    /// The participant of the collector protects what it did, and has allocated nothing.
    pub open spec fn same_protection(self, before: Local) -> bool {
        &&& self.alloc_count == before.alloc_count
        &&& self.is_helping_normal == before.is_helping_normal
        &&& self.is_helping_root_tracing == before.is_helping_root_tracing
        &&& self.is_helping_draining_mark_tasks == before.is_helping_draining_mark_tasks
        &&& self.hazards == before.hazards
        &&& self.hazards_marker == before.hazards_marker
        &&& self.available_hids == before.available_hids
    }
}

impl<T: TraceObj> Global<T> {
    /// There are the same participants, and nothing of the others differs but batches, tasks and
    /// the choice of shards. So they have the guards and the hazard pointers that they had.
    pub open spec fn others_stay(self, before: Self, l: int) -> bool {
        &&& self.nodes().len() == before.nodes().len()
        &&& forall|k: int|
            0 <= k < before.nodes().len() ==> (#[trigger] self.nodes()[k]).using
                == before.nodes()[k].using
        &&& forall|k: int|
            0 <= k < before.nodes().len() && k != l ==> (
            #[trigger] self.nodes()[k]).item.same_but_lists(before.local(k))
    }

    /// Nothing differs that is not the business of the collector, which has the given
    /// participant.
    pub open spec fn only_collecting(self, before: Self, l: int) -> bool {
        &&& self == (Global {
            heap: self.heap,
            locals: self.locals,
            epoch: self.epoch,
            fresh_objs: self.fresh_objs,
            marked_objs: self.marked_objs,
            stats: self.stats,
            ..before
        })
        &&& self.others_stay(before, l)
        &&& self.local(l).same_protection(before.local(l))
        &&& self.keeps_payloads(before)
        &&& self.books_kept(before)
    }

    /// The hazards are those of the participants, whoever has yet to come to the current phase.
    pub open spec fn has_hazards(self, hazards: Set<u64>) -> bool {
        &&& self.abs().covers(hazards)
        &&& forall|x: u64|
            x != 0 ==> (#[trigger] hazards.contains(x) <==> is_hazardous(self.abs(), x))
    }

    /// A scan has got somewhere: what has been looked at is in the list for that, and marked if it
    /// has roots or a hazard pointer protects it.
    pub open spec fn scanned_some(self, before: Self, l: int) -> bool {
        let s = before.abs();
        let t = self.abs();
        let w = s.white();
        &&& self.wf()
        &&& self.only_collecting(before, l)
        &&& self.local(l).guard_count == before.local(l).guard_count
        &&& t.epoch == s.epoch
        &&& t.parts == s.parts
        &&& pending_of(self.nodes(), w) == Multiset::<u64>::empty()
        &&& self.stats.total_allocated == wrapped(
            before.stats.total_allocated + pending_bytes_of(before.nodes(), w),
        )
        &&& same_shape(s, t)
        &&& traces_within(s, t, Set::empty())
        &&& keeps_protected(s, t)
        &&& t.young_of(w).subset_of(s.young_of(w))
        &&& t.young_of(w.flipped()) == s.young_of(w.flipped())
        &&& t.scanned_of(w.flipped()) == s.scanned_of(w.flipped())
        &&& t.scanned_of(w).add(t.young_of(w)) =~= s.scanned_of(w).add(s.young_of(w))
        &&& forall|x: u64| #[trigger] s.is_black(x) ==> t.is_black(x)
        &&& forall|x: u64|
            #![trigger t.is_black(x)]
            s.young_of(w).count(x) > 0 && t.young_of(w).count(x) == 0 && (s.objs[x].rc > 0
                || is_hazardous(s, x)) ==> t.is_black(x)
    }

    /// Scans all objects that have not been looked at since the tracing phase began: marks those
    /// that have roots or that hazard pointers protect.
    fn scan_allocated_objs(&mut self, lid: usize, gid: u64)
        requires
            old(self).wf(),
            old(self).abs().epoch.ph() == Phase::RT,
            old(self).abs().synced(),
            old(self).pinned(lid as int),
        ensures
            final(self).wf(),
            final(self).pinned(lid as int),
            final(self).local(lid as int).guard_count == old(self).local(lid as int).guard_count,
            final(self).only_collecting(*old(self), lid as int),
            final(self).abs().epoch == old(self).abs().epoch,
            final(self).abs().parts == old(self).abs().parts,
            same_shape(old(self).abs(), final(self).abs()),
            traces_within(old(self).abs(), final(self).abs(), Set::empty()),
            keeps_protected(old(self).abs(), final(self).abs()),
            ({
                let s = old(self).abs();
                let t = final(self).abs();
                let w = s.white();
                &&& t.young_of(w) == Multiset::<u64>::empty()
                &&& t.scanned_of(w) == s.scanned_of(w).add(s.young_of(w))
                &&& t.young_of(w.flipped()) == s.young_of(w.flipped())
                &&& t.scanned_of(w.flipped()) == s.scanned_of(w.flipped())
                &&& forall|x: u64|
                    #![trigger t.is_black(x)]
                    s.young_of(w).count(x) > 0 && (s.objs[x].rc > 0 || is_hazardous(s, x))
                        ==> t.is_black(x)
                &&& forall|x: u64| #[trigger] s.is_black(x) ==> t.is_black(x)
                // What was pending has been counted as allocated.
                &&& final(self).stats.total_allocated == wrapped(
                    old(self).stats.total_allocated + pending_bytes_of(old(self).nodes(), w),
                )
                &&& final(self).stats.total_reclaimed == old(self).stats.total_reclaimed
            }),
    {
        let ghost before = *self;
        let ghost s = self.abs();
        let ghost l = lid as int;
        let ghost w = s.white();
        proof {
            assert(s.parts[l].pinned());
            lemma_same_white(s, l);
        }
        let white: Color = self.locals.nodes[lid].item.epoch.color();
        self.publish_pending(lid, white);
        let hazards: AddressSet = self.collect_hps();
        let num_threads: usize = self.collector_threads;
        let mut t: usize = 0;
        proof {
            assert(self.abs() == s);
            assert(same_shape(s, s));
            lemma_pending_heap(before, *self);
            lemma_hps_found(*self, hazards@);
            assert(before.has_hazards(hazards@));
            assert(self.scanned_some(before, l));
        }
        assert(crate::shards::shard_start(0, num_threads as int) == 0) by (nonlinear_arith)
            requires
                1 <= num_threads,
        ;
        while t < num_threads
            invariant
                s == before.abs(),
                w == s.white(),
                white == w,
                l == lid,
                s.epoch.ph() == Phase::RT,
                s.synced(),
                s.sound(),
                before.pinned(l),
                1 <= num_threads <= OBJ_BATCHES_SHARD,
                t <= num_threads,
                before.has_hazards(hazards@),
                self.scanned_some(before, l),
                self.stats.total_reclaimed == before.stats.total_reclaimed,
                forall|q: int|
                    0 <= q < OBJ_BATCHES_SHARD && (q < crate::shards::shard_start(
                        t as int,
                        num_threads as int,
                    ) || t == num_threads) ==> #[trigger] self.fresh_objs.shard(w, q).len() == 0,
            decreases num_threads - t,
        {
            let (start, end): (usize, usize) = shard_range(t, num_threads);
            let mut q: usize = start;
            while q < end
                invariant
                    s == before.abs(),
                    w == s.white(),
                    white == w,
                    l == lid,
                    s.epoch.ph() == Phase::RT,
                    s.synced(),
                    s.sound(),
                    before.pinned(l),
                    start <= q <= end,
                    end <= OBJ_BATCHES_SHARD,
                    before.has_hazards(hazards@),
                    self.scanned_some(before, l),
                    self.stats.total_reclaimed == before.stats.total_reclaimed,
                    forall|p: int|
                        0 <= p < q ==> #[trigger] self.fresh_objs.shard(w, p).len() == 0,
                decreases end - q,
            {
                let mut more = true;
                while more
                    invariant
                        s == before.abs(),
                        w == s.white(),
                        white == w,
                        l == lid,
                        s.epoch.ph() == Phase::RT,
                        s.synced(),
                        s.sound(),
                        before.pinned(l),
                        q < OBJ_BATCHES_SHARD,
                        before.has_hazards(hazards@),
                        self.scanned_some(before, l),
                        self.stats.total_reclaimed == before.stats.total_reclaimed,
                        forall|p: int|
                            0 <= p < q ==> #[trigger] self.fresh_objs.shard(w, p).len() == 0,
                        !more ==> self.fresh_objs.shard(w, q as int).len() == 0,
                    decreases
                        self.fresh_objs.shard(w, q as int).len(),
                        if more {
                            1nat
                        } else {
                            0nat
                        },
                {
                    let ghost mid = *self;
                    proof {
                        lemma_same_parts(s, mid.abs(), hazards@);
                        assert(mid.abs().parts[l].pinned());
                    }
                    more = self.scan_one(lid, gid, q, &hazards);
                    proof {
                        if more {
                            lemma_scanned_more(
                                before,
                                mid,
                                *self,
                                l,
                                hazards@,
                                mid.fresh_objs.shard(w, q as int)[0],
                            );
                        }
                    }
                }
                q = q + 1;
            }
            proof {
                let n = num_threads as int;
                let ti = t as int;
                assert(end == crate::shards::shard_end(ti, n));
                assert forall|p: int|
                    0 <= p < OBJ_BATCHES_SHARD && (p < crate::shards::shard_start(ti + 1, n) || ti + 1
                        == n) implies #[trigger] self.fresh_objs.shard(w, p).len() == 0 by {
                    if ti + 1 == n {
                        assert(end == 8);
                    }
                }
            }
            t = t + 1;
        }
        proof {
            lemma_list_empty(self.fresh_objs, w);
            assert(self.young(w) =~= Multiset::<u64>::empty());
            match w {
                Color::C0 => {
                    assert(self.abs().young[0] == self.young(w));
                },
                Color::C1 => {
                    assert(self.abs().young[1] == self.young(w));
                },
            }
            let u = self.abs();
            assert(u.scanned_of(w).add(u.young_of(w)) =~= u.scanned_of(w));
            assert forall|x: u64|
                #![trigger u.is_black(x)]
                s.young_of(w).count(x) > 0 && (s.objs[x].rc > 0 || is_hazardous(
                    s,
                    x,
                )) implies u.is_black(x) by {
                assert(u.young_of(w).count(x) == 0);
            }
        }
    }
}

/// A hazard pointer protects the object.
pub open spec fn is_hazardous(s: GcModel, x: u64) -> bool {
    exists|k: int|
        0 <= k < s.parts.len() && (#[trigger] s.parts[k]).using && s.parts[k].hazards.contains(x)
}

/// The addresses that have been collected from hazard pointers are the hazards.
proof fn lemma_hps_found<T: TraceObj>(g: Global<T>, h: Set<u64>)
    requires
        g.abs().covers(h),
        forall|x: u64| #[trigger]
            h.contains(x) <==> exists|l: int|
                0 <= l < g.nodes().len() && (#[trigger] g.nodes()[l]).using
                    && g.nodes()[l].item.hazards@.contains(x),
    ensures
        g.has_hazards(h),
{
    let s = g.abs();
    assert forall|x: u64| x != 0 implies (#[trigger] h.contains(x) <==> is_hazardous(s, x)) by {
        if h.contains(x) {
            let k = choose|l: int|
                0 <= l < g.nodes().len() && (#[trigger] g.nodes()[l]).using
                    && g.nodes()[l].item.hazards@.contains(x);
            assert(s.parts[k] == part_of(g.nodes()[k]));
            assert(s.parts[k].using && s.parts[k].hazards.contains(x));
        }
        if is_hazardous(s, x) {
            let k = choose|k: int|
                0 <= k < s.parts.len() && (#[trigger] s.parts[k]).using
                    && s.parts[k].hazards.contains(x);
            assert(s.parts[k] == part_of(g.nodes()[k]));
            assert(g.nodes()[k].using && g.nodes()[k].item.hazards@.contains(x));
        }
    }
}

/// One more batch has been looked at.
proof fn lemma_scanned_more<T: TraceObj>(
    a: Global<T>,
    b: Global<T>,
    c: Global<T>,
    l: int,
    h: Set<u64>,
    batch: ObjBatch,
)
    requires
        0 <= l < a.nodes().len(),
        a.has_hazards(h),
        b.scanned_some(a, l),
        c.wf(),
        c.only_tracing(b, l),
        c.abs().epoch == b.abs().epoch,
        c.abs().parts == b.abs().parts,
        traces_within(b.abs(), c.abs(), h),
        keeps_protected(b.abs(), c.abs()),
        ({
            let s = b.abs();
            let t = c.abs();
            let w = a.abs().white();
            &&& batch.bag().subset_of(s.young_of(w))
            &&& t.young_of(w) == s.young_of(w).sub(batch.bag())
            &&& t.scanned_of(w) == s.scanned_of(w).add(batch.bag())
            &&& t.young_of(w.flipped()) == s.young_of(w.flipped())
            &&& t.scanned_of(w.flipped()) == s.scanned_of(w.flipped())
            &&& forall|x: u64| #[trigger]
                batch@.contains(x) && (s.objs[x].rc > 0 || h.contains(x)) ==> t.is_black(x)
            &&& forall|x: u64| #[trigger] s.is_black(x) ==> t.is_black(x)
        }),
    ensures
        c.scanned_some(a, l),
        c.stats == b.stats,
{
    broadcast use vstd::seq_lib::group_to_multiset_ensures;

    let s = a.abs();
    let mid = b.abs();
    let t = c.abs();
    let w = s.white();
    let m = batch.bag();
    lemma_shape_on(s, mid, t);
    assert forall|x: u64| x != 0 && #[trigger] h.contains(x) implies exists|k: int|
        0 <= k < s.parts.len() && #[trigger] s.parts[k].hazards.contains(x) by {
        assert(is_hazardous(s, x));
    }
    lemma_scan_exact(s, mid, t, h);
    lemma_collecting_tracing(a, b, c, l);
    lemma_node_update(b.nodes(), l, c.nodes()[l]);
    assert(pending_of(c.nodes(), w) == pending_of(b.nodes(), w));
    assert forall|x: u64| #[trigger] t.young_of(w).count(x) <= s.young_of(w).count(x) by {
        assert(mid.young_of(w).count(x) <= s.young_of(w).count(x));
    }
    assert forall|x: u64| #[trigger] t.scanned_of(w).add(t.young_of(w)).count(x) == s.scanned_of(
        w,
    ).add(s.young_of(w)).count(x) by {
        assert(m.count(x) <= mid.young_of(w).count(x));
        assert(mid.scanned_of(w).add(mid.young_of(w)).count(x) == s.scanned_of(w).add(
            s.young_of(w),
        ).count(x));
    }
    assert forall|x: u64|
        #![trigger t.is_black(x)]
        s.young_of(w).count(x) > 0 && t.young_of(w).count(x) == 0 && (s.objs[x].rc > 0
            || is_hazardous(s, x)) implies t.is_black(x) by {
        if mid.young_of(w).count(x) == 0 {
            assert(mid.is_black(x));
        } else {
            assert(m.count(x) > 0);
            assert(batch@.contains(x));
            crate::scanning::lemma_listed(mid, x);
            assert(mid.objs.contains_key(x));
            assert(x != 0);
            assert(mid.objs[x].rc == s.objs[x].rc);
        }
    }
}

/// Publishing leaves everything else as it was.
proof fn lemma_pending_heap<T: TraceObj>(before: Global<T>, after: Global<T>)
    requires
        after.only_publishes(before),
    ensures
        forall|l: int|
            0 <= l < before.nodes().len() ==> #[trigger] after.only_collecting(before, l),
{
    assert forall|l: int| 0 <= l < before.nodes().len() implies #[trigger] after.only_collecting(
        before,
        l,
    ) by {
        assert forall|k: int| 0 <= k < before.nodes().len() implies (
        #[trigger] after.nodes()[k]).using == before.nodes()[k].using
            && after.nodes()[k].item.same_but_lists(before.local(k)) by {}
        assert(after.nodes()[l].using == before.nodes()[l].using);
        lemma_books_none(before.books(), Global::<T>::obj_size() as int);
    }
}

/// The hazards and the epochs of the participants are all that matters.
proof fn lemma_same_parts(s: GcModel, t: GcModel, h: Set<u64>)
    requires
        t.epoch == s.epoch,
        t.parts == s.parts,
    ensures
        s.covers(h) ==> t.covers(h),
        s.synced() ==> t.synced(),
{
    if s.covers(h) {
        assert forall|l: int, x: u64|
            0 <= l < t.parts.len() && t.unobserved(t.parts[l])
                && #[trigger] t.parts[l].hazards.contains(x) implies h.contains(x) by {
            assert(s.parts[l].hazards.contains(x));
        }
    }
}

/// A scan with the hazards that there are marks nothing that need not be kept.
proof fn lemma_scan_exact(s: GcModel, t: GcModel, u: GcModel, h: Set<u64>)
    requires
        t.sound(),
        traces_within(s, t, Set::empty()),
        traces_within(t, u, h),
        t.parts == s.parts,
        !t.live(0),
        forall|x: u64| x != 0 && #[trigger] h.contains(x) ==> exists|k: int|
            0 <= k < s.parts.len() && #[trigger] s.parts[k].hazards.contains(x),
    ensures
        traces_within(s, u, Set::empty()),
{
    assert forall|r: Set<u64>| #[trigger]
        within(s, r) && (forall|x: u64|
            s.live(x) && #[trigger] Set::<u64>::empty().contains(x) ==> r.contains(
                x,
            )) implies within(u, r) by {
        assert(within(t, r));
        assert forall|x: u64| t.live(x) && #[trigger] h.contains(x) implies r.contains(x) by {
            assert(x != 0);
            let k = choose|k: int|
                0 <= k < s.parts.len() && #[trigger] s.parts[k].hazards.contains(x);
            assert(t.parts[k].hazards.contains(x));
        }
    }
}

/// Tracing is the business of the collector.
proof fn lemma_collecting_tracing<T: TraceObj>(a: Global<T>, b: Global<T>, c: Global<T>, l: int)
    requires
        0 <= l < a.nodes().len(),
        b.only_collecting(a, l),
        c.only_tracing(b, l),
    ensures
        c.only_collecting(a, l),
{
    assert forall|k: int| 0 <= k < a.nodes().len() implies (#[trigger] c.nodes()[k]).using
        == a.nodes()[k].using by {
        assert(c.nodes()[k].using == b.nodes()[k].using);
    }
    assert forall|k: int| 0 <= k < a.nodes().len() && k != l implies (
    #[trigger] c.nodes()[k]).item.same_but_lists(a.local(k)) by {
        assert(c.nodes()[k] == b.nodes()[k]);
        assert(b.nodes()[k].item.same_but_lists(a.local(k)));
    }
    crate::helping::lemma_books_traced(b, c, l);
    lemma_books_on(a.books(), b.books(), c.books(), Global::<T>::obj_size() as int);
}

impl<T: TraceObj> Global<T> {
    /// Some participant has modified its mark queue in the current epoch.
    pub open spec fn tasks_touched(self) -> bool {
        exists|l: int|
            0 <= l < self.nodes().len() && (#[trigger] self.nodes()[l]).item.mt_modified_ts
                == self.epoch.data.ts()
    }

    fn is_tasks_touched(&self, curr_ts: u64) -> (r: bool)
        requires
            curr_ts == self.epoch.data.ts(),
        ensures
            r == self.tasks_touched(),
    {
        let mut i: usize = 0;
        while i < self.locals.nodes.len()
            invariant
                curr_ts == self.epoch.data.ts(),
                i <= self.nodes().len(),
                forall|l: int|
                    0 <= l < i ==> (#[trigger] self.nodes()[l]).item.mt_modified_ts != curr_ts,
            decreases self.nodes().len() - i,
        {
            if self.locals.nodes[i].item.mt_modified_ts == curr_ts {
                assert(self.nodes()[i as int].item.mt_modified_ts == curr_ts);
                return true;
            }
            i = i + 1;
        }
        false
    }

    /// Returns `true` if tracing is complete: no mark queue has been modified in the current
    /// epoch, and none has anything in it.
    pub fn try_confirm_completion(&self) -> (r: bool)
        requires
            self.wf(),
        ensures
            r == (!self.tasks_touched() && self.abs().tasks == Set::<u64>::empty()),
    {
        let curr_ts: u64 = self.epoch.load().timestamp();
        if self.is_tasks_touched(curr_ts) {
            return false;
        }
        let mut i: usize = 0;
        while i < self.locals.nodes.len()
            invariant
                i <= self.nodes().len(),
                forall|l: int|
                    0 <= l < i ==> (#[trigger] self.nodes()[l]).item.mark_tasks.items().len() == 0,
            decreases self.nodes().len() - i,
        {
            if !self.locals.nodes[i].item.mark_tasks.is_empty() {
                proof {
                    let x = self.nodes()[i as int].item.mark_tasks.items()[0];
                    assert(self.nodes()[i as int].item.mark_tasks.items().contains(x));
                    assert(self.abs().tasks.contains(x));
                }
                return false;
            }
            i = i + 1;
        }
        proof {
            assert forall|x: u64| !tasks_of(self.nodes()).contains(x) by {
                if tasks_of(self.nodes()).contains(x) {
                    let k = choose|k: int|
                        0 <= k < self.nodes().len() && (
                        #[trigger] self.nodes()[k]).item.mark_tasks.items().contains(x);
                    assert(self.nodes()[k].item.mark_tasks.items().len() == 0);
                }
            }
            assert(self.abs().tasks =~= Set::<u64>::empty());
        }
        !self.is_tasks_touched(curr_ts)
    }
}

/// The participants are as much in use and protect the same.
pub open spec fn same_hazards(s: GcModel, t: GcModel) -> bool {
    &&& t.parts.len() == s.parts.len()
    &&& forall|k: int|
        0 <= k < s.parts.len() ==> (#[trigger] t.parts[k]).hazards == s.parts[k].hazards
            && t.parts[k].using == s.parts[k].using
}

/// Tracing has gone on, and no further than it has to.
pub open spec fn traced(s: GcModel, t: GcModel) -> bool {
    &&& t.epoch.white() == s.epoch.white()
    &&& same_shape(s, t)
    &&& traces_within(s, t, Set::empty())
    &&& same_hazards(s, t)
}

pub proof fn lemma_traced_on(s: GcModel, t: GcModel, u: GcModel)
    requires
        traced(s, t),
        traced(t, u),
    ensures
        traced(s, u),
{
    lemma_shape_on(s, t, u);
    lemma_traces_on(s, t, u, Set::empty());
    assert forall|k: int| 0 <= k < s.parts.len() implies (#[trigger] u.parts[k]).hazards
        == s.parts[k].hazards && u.parts[k].using == s.parts[k].using by {
        assert(t.parts[k].hazards == s.parts[k].hazards);
    }
}

/// Where nothing but lists and participants differs, and the participants protect the same.
pub proof fn lemma_traced_parts(s: GcModel, t: GcModel)
    requires
        t.low == s.low,
        t.objs == s.objs,
        t.tasks == s.tasks,
        t.epoch.white() == s.epoch.white(),
        same_hazards(s, t),
    ensures
        traced(s, t),
{
    assert forall|r: Set<u64>| #[trigger] within(s, r) implies within(t, r) by {
        assert forall|x: u64| #[trigger] t.is_black(x) implies r.contains(x) by {
            assert(s.is_black(x));
        }
        assert forall|l: int, x: u64|
            0 <= l < t.parts.len() && #[trigger] t.parts[l].hazards.contains(
                x,
            ) implies r.contains(x) by {
            assert(t.parts[l].hazards == s.parts[l].hazards);
            assert(s.parts[l].hazards.contains(x));
        }
    }
}

impl<T: TraceObj> Global<T> {
    /// Pins the participant of the collector, and returns the number of the guard.
    fn enter(&mut self, lid: usize) -> (r: u64)
        requires
            old(self).wf(),
            lid < old(self).nodes().len(),
            old(self).nodes()[lid as int].using,
            !old(self).pinned(lid as int),
        ensures
            final(self).wf(),
            final(self).pinned(lid as int),
            final(self).local(lid as int).guard_count == 1,
            final(self).only_collecting(*old(self), lid as int),
            final(self).epoch == old(self).epoch,
            !barrier_due(old(self).abs(), lid as int) ==> final(self).abs().young == old(
                self).abs().young && final(self).abs().scanned == old(self).abs().scanned && final(
                self).abs().tasks == old(self).abs().tasks,
            !barrier_due(final(self).abs(), lid as int),
            traced(old(self).abs(), final(self).abs()),
            caught_up(old(self).abs()) ==> caught_up(final(self).abs()),
            keeps_protected(old(self).abs(), final(self).abs()),
    {
        let ghost before = *self;
        let ghost s = self.abs();
        let ghost l = lid as int;
        assert(self.nodes()[l].item.wf());
        let gid: u64 = self.pin_inner(lid);
        proof {
            let t = self.abs();
            lemma_pinned_epoch(s.epoch);
            assert(same_hazards(s, t)) by {
                assert forall|k: int| 0 <= k < s.parts.len() implies (
                #[trigger] t.parts[k]).hazards == s.parts[k].hazards && t.parts[k].using
                    == s.parts[k].using by {}
            }
            if caught_up(s) {
                assert forall|k: int|
                    0 <= k < t.parts.len() && (#[trigger] t.parts[k]).pinned() implies t.parts[k].epoch.ts()
                    == t.epoch.ts() by {
                    if k != l {
                        assert(s.parts[k].pinned());
                    }
                }
            }
            assert forall|k: int| 0 <= k < before.nodes().len() implies (
            #[trigger] self.nodes()[k]).using == before.nodes()[k].using by {}
            assert forall|k: int| 0 <= k < before.nodes().len() && k != l implies (
            #[trigger] self.nodes()[k]).item.same_but_lists(before.local(k)) by {}
            assert(t.parts[l] == part_of(self.nodes()[l]));
            assert(s.parts[l] == part_of(before.nodes()[l]));
        }
        gid
    }
}

/// The collector goes on with its business.
proof fn lemma_collecting_on<T: TraceObj>(a: Global<T>, b: Global<T>, c: Global<T>, l: int)
    requires
        0 <= l < a.nodes().len(),
        b.only_collecting(a, l),
        c.only_collecting(b, l),
    ensures
        c.only_collecting(a, l),
{
    assert forall|k: int| 0 <= k < a.nodes().len() implies (#[trigger] c.nodes()[k]).using
        == a.nodes()[k].using by {
        assert(c.nodes()[k].using == b.nodes()[k].using);
        assert(b.nodes()[k].using == a.nodes()[k].using);
    }
    assert forall|k: int| 0 <= k < a.nodes().len() && k != l implies (
    #[trigger] c.nodes()[k]).item.same_but_lists(a.local(k)) by {
        assert(c.nodes()[k].item.same_but_lists(b.local(k)));
        assert(b.nodes()[k].item.same_but_lists(a.local(k)));
    }
    assert forall|x: u64| #[trigger]
        c.heap.payloads().contains_key(x) implies a.heap.payloads().contains_key(x) && c.heap.payloads()[x] == a.heap.payloads()[x] by {
        assert(b.heap.payloads().contains_key(x));
    }
    lemma_books_on(a.books(), b.books(), c.books(), Global::<T>::obj_size() as int);
}

/// Where everybody has caught up with a tracing phase, nobody is in a normal one.
proof fn lemma_caught_up_synced(s: GcModel)
    requires
        s.sound(),
        s.tracing(),
        caught_up(s),
    ensures
        s.synced(),
{
    assert forall|l: int|
        0 <= l < s.parts.len() && (#[trigger] s.parts[l]).pinned() implies s.parts[l].epoch.ph()
        != Phase::N by {
        assert(s.part_ok(s.parts[l]));
        lemma_pinned_epoch(s.epoch);
    }
}

/// Whether everybody has caught up depends on the participants alone.
pub proof fn lemma_caught_up_same(s: GcModel, t: GcModel)
    requires
        t.epoch == s.epoch,
        t.parts == s.parts,
    ensures
        caught_up(t) == caught_up(s),
{
    if caught_up(s) {
        assert forall|l: int|
            0 <= l < t.parts.len() && (#[trigger] t.parts[l]).pinned() implies t.parts[l].epoch.ts()
            == t.epoch.ts() by {
            assert(s.parts[l].pinned());
        }
    }
    if caught_up(t) {
        assert forall|l: int|
            0 <= l < s.parts.len() && (#[trigger] s.parts[l]).pinned() implies s.parts[l].epoch.ts()
            == s.epoch.ts() by {
            assert(t.parts[l].pinned());
        }
    }
}

/// What was protected from others stays so while the participant of the collector, which was
/// not pinned, comes and goes.
proof fn lemma_protected_on<T: TraceObj>(a: Global<T>, b: Global<T>, c: Global<T>, l: int)
    requires
        0 <= l < a.nodes().len(),
        !a.pinned(l),
        b.only_collecting(a, l),
        c.only_collecting(b, l),
        keeps_protected(a.abs(), b.abs()),
        keeps_protected(b.abs(), c.abs()),
    ensures
        keeps_protected(a.abs(), c.abs()),
{
    assert forall|k: int, x: u64|
        0 <= k < a.abs().parts.len() && a.abs().parts[k].pinned() && c.abs().parts[k].epoch
            == a.abs().parts[k].epoch && #[trigger] a.abs().protected(
            k,
            x,
        ) implies c.abs().protected(k, x) by {
        assert(a.abs().parts[k] == part_of(a.nodes()[k]));
        assert(k != l);
        assert(b.nodes()[k].item.same_but_lists(a.local(k)));
        assert(c.nodes()[k].item.same_but_lists(b.local(k)));
        assert(b.abs().parts[k] == part_of(b.nodes()[k]));
        assert(c.abs().parts[k] == part_of(c.nodes()[k]));
        assert(b.abs().protected(k, x));
    }
}

/// Doing tasks is the business of the collector.
proof fn lemma_collecting_drained<T: TraceObj>(a: Global<T>, b: Global<T>, l: int)
    requires
        0 <= l < a.nodes().len(),
        b.drained_from(a, l),
    ensures
        b.only_collecting(a, l),
{
    assert forall|k: int| 0 <= k < a.nodes().len() implies (#[trigger] b.nodes()[k]).using
        == a.nodes()[k].using by {
        if k != l {
            assert(b.nodes()[k].item == (Local {
                mark_tasks: b.local(k).mark_tasks,
                ..a.local(k)
            }));
        }
    }
    assert forall|k: int| 0 <= k < a.nodes().len() && k != l implies (
    #[trigger] b.nodes()[k]).item.same_but_lists(a.local(k)) by {}
    crate::guards::lemma_books_pinned(a, b);
}

impl<T: TraceObj> Global<T> {
    /// Unpins the participant of the collector. Where its guard has been asked for help, nothing is
    /// lost: the collector goes on to do all tasks itself.
    fn leave(&mut self, lid: usize, gid: u64)
        requires
            old(self).wf(),
            old(self).pinned(lid as int),
            old(self).local(lid as int).guard_count == 1,
        ensures
            final(self).wf(),
            !final(self).pinned(lid as int),
            final(self).only_collecting(*old(self), lid as int),
            final(self).epoch == old(self).epoch,
            final(self).abs().objs == old(self).abs().objs,
            final(self).abs().young == old(self).abs().young,
            final(self).abs().scanned == old(self).abs().scanned,
            final(self).abs().tasks == old(self).abs().tasks,
            traced(old(self).abs(), final(self).abs()),
            caught_up(old(self).abs()) ==> caught_up(final(self).abs()),
            !barrier_due(old(self).abs(), lid as int) ==> !barrier_due(
                final(self).abs(),
                lid as int,
            ),
            keeps_protected(old(self).abs(), final(self).abs()),
    {
        let ghost before = *self;
        let ghost s = self.abs();
        let ghost l = lid as int;
        assert(self.nodes()[l].item.wf());
        self.locals.nodes[lid].item.take_helping(gid);
        proof {
            assert(self.nodes() =~= before.nodes().update(l, self.nodes()[l]));
            lemma_part_changed(before, *self, l);
            assert(self.abs() =~= s);
        }
        let ghost mid = *self;
        self.unpin_inner(lid);
        proof {
            let t = self.abs();
            assert forall|k: int| 0 <= k < before.nodes().len() implies (
            #[trigger] self.nodes()[k]).using == before.nodes()[k].using by {}
            assert forall|k: int| 0 <= k < before.nodes().len() && k != l implies (
            #[trigger] self.nodes()[k]).item.same_but_lists(before.local(k)) by {
                assert(self.nodes()[k] == mid.nodes()[k]);
            }
            assert forall|k: int| 0 <= k < s.parts.len() implies (#[trigger] t.parts[k]).hazards
                == s.parts[k].hazards && t.parts[k].using == s.parts[k].using by {}
            lemma_traced_parts(s, t);
            lemma_books_same(before, *self);
            if caught_up(s) {
                assert forall|k: int|
                    0 <= k < t.parts.len() && (#[trigger] t.parts[k]).pinned() implies t.parts[k].epoch.ts()
                    == t.epoch.ts() by {
                    assert(s.parts[k].pinned());
                }
            }
        }
    }

    /// Does all tasks, and those that come of them. Returns `true` if there were any.
    fn drain_mark_tasks(&mut self, lid: usize) -> (r: bool)
        requires
            old(self).wf(),
            lid < old(self).nodes().len(),
            old(self).nodes()[lid as int].using,
            !old(self).pinned(lid as int),
            !barrier_due(old(self).abs(), lid as int),
        ensures
            final(self).wf(),
            !final(self).pinned(lid as int),
            final(self).only_collecting(*old(self), lid as int),
            final(self).epoch == old(self).epoch,
            final(self).abs().young == old(self).abs().young,
            final(self).abs().scanned == old(self).abs().scanned,
            final(self).abs().tasks == Set::<u64>::empty(),
            traced(old(self).abs(), final(self).abs()),
            caught_up(old(self).abs()) ==> caught_up(final(self).abs()),
            keeps_protected(old(self).abs(), final(self).abs()),
    {
        let ghost before = *self;
        let ghost l = lid as int;
        assert(self.nodes()[l].item.wf());
        let gid: u64 = self.enter(lid);
        let ghost entered = *self;
        proof {
            assert(entered.nodes()[l].item.wf());
        }
        let r: bool = self.drain_tasks(lid, gid);
        let ghost drained = *self;
        proof {
            lemma_collecting_drained(entered, drained, l);
            lemma_collecting_on(before, entered, drained, l);
            assert(traced(entered.abs(), drained.abs())) by {
                assert forall|k: int| 0 <= k < entered.abs().parts.len() implies (
                #[trigger] drained.abs().parts[k]).hazards == entered.abs().parts[k].hazards
                    && drained.abs().parts[k].using == entered.abs().parts[k].using by {}
            }
            lemma_traced_on(before.abs(), entered.abs(), drained.abs());
            lemma_caught_up_same(entered.abs(), drained.abs());
        }
        self.leave(lid, gid);
        proof {
            lemma_collecting_on(before, drained, *self, l);
            lemma_traced_on(before.abs(), drained.abs(), self.abs());
            lemma_protected_on(before, entered, drained, l);
            lemma_protected_on(before, drained, *self, l);
        }
        r
    }

    /// Marks all objects that have roots or that hazard pointers protect, and all that comes of
    /// them, once everybody has caught up with the root tracing phase.
    fn root_tracing(&mut self, lid: usize)
        requires
            old(self).wf(),
            old(self).abs().epoch.ph() == Phase::RT,
            caught_up(old(self).abs()),
            lid < old(self).nodes().len(),
            old(self).nodes()[lid as int].using,
            !old(self).pinned(lid as int),
        ensures
            final(self).wf(),
            !final(self).pinned(lid as int),
            final(self).only_collecting(*old(self), lid as int),
            final(self).epoch == old(self).epoch,
            final(self).abs().young_of(old(self).abs().white()) == Multiset::<u64>::empty(),
            final(self).abs().tasks == Set::<u64>::empty(),
            traced(old(self).abs(), final(self).abs()),
            caught_up(final(self).abs()),
            keeps_protected(old(self).abs(), final(self).abs()),
    {
        let ghost before = *self;
        let ghost l = lid as int;
        assert(self.nodes()[l].item.wf());
        let gid: u64 = self.enter(lid);
        let ghost entered = *self;
        proof {
            assert(entered.nodes()[l].item.wf());
            lemma_caught_up_synced(entered.abs());
        }
        self.scan_allocated_objs(lid, gid);
        let ghost scanned = *self;
        proof {
            lemma_collecting_on(before, entered, scanned, l);
            assert(traced(entered.abs(), scanned.abs())) by {
                assert forall|k: int| 0 <= k < entered.abs().parts.len() implies (
                #[trigger] scanned.abs().parts[k]).hazards == entered.abs().parts[k].hazards
                    && scanned.abs().parts[k].using == entered.abs().parts[k].using by {}
            }
            lemma_traced_on(before.abs(), entered.abs(), scanned.abs());
            lemma_caught_up_same(entered.abs(), scanned.abs());
        }
        self.leave(lid, gid);
        let ghost left = *self;
        proof {
            lemma_collecting_on(before, scanned, left, l);
            lemma_traced_on(before.abs(), scanned.abs(), left.abs());
            lemma_protected_on(before, entered, scanned, l);
            lemma_protected_on(before, scanned, left, l);
        }
        self.drain_mark_tasks(lid);
        proof {
            lemma_collecting_on(before, left, *self, l);
            lemma_traced_on(before.abs(), left.abs(), self.abs());
            lemma_protected_on(before, left, *self, l);
        }
    }
}

/// An object has to be kept: every set that has all roots, all that hazard pointers protect, and
/// with an object all that it has edges to, has the object.
pub open spec fn reachable(s: GcModel, x: u64) -> bool {
    s.live(x) && forall|r: Set<u64>| #[trigger] holds_roots(s, r) ==> r.contains(x)
}

/// The set has all roots, all that hazard pointers protect, and with an object all that it has
/// edges to.
pub open spec fn holds_roots(s: GcModel, r: Set<u64>) -> bool {
    &&& forall|x: u64, y: u64| #[trigger] s.edge(x, y) && r.contains(x) ==> r.contains(y)
    &&& forall|x: u64|
        #![trigger s.objs.contains_key(x)]
        s.live(x) && s.objs[x].rc > 0 ==> r.contains(x)
    &&& forall|l: int, x: u64|
        0 <= l < s.parts.len() && #[trigger] s.parts[l].hazards.contains(x) ==> r.contains(x)
}

/// The collector is between two cycles: nothing is left to sweep, and everybody who is pinned has
/// come to the current phase.
pub open spec fn at_rest(s: GcModel) -> bool {
    &&& s.epoch.ph() == Phase::N
    &&& s.scanned_of(s.black()) == Multiset::<u64>::empty()
    &&& caught_up(s)
}

/// What is left of the objects is what has to be kept, and it is as it was.
pub open spec fn reclaimed_exactly(s: GcModel, t: GcModel) -> bool {
    &&& forall|x: u64| #[trigger] t.objs.contains_key(x) <==> reachable(s, x)
    &&& forall|x: u64| #[trigger]
        t.objs.contains_key(x) ==> t.objs[x].rc == s.objs[x].rc && t.objs[x].tid == s.objs[x].tid && t.objs[x].kinds
            == s.objs[x].kinds
            && t.objs[x].links.len() == s.objs[x].links.len()
    &&& forall|x: u64, i: int|
        #![trigger t.objs[x].links[i]]
        t.objs.contains_key(x) && 0 <= i < t.objs[x].links.len() ==> clear_meta(
            t.objs[x].links[i],
        ) == clear_meta(s.objs[x].links[i])
}

/// Between two cycles there is nothing black and no task.
pub proof fn lemma_at_rest_white(s: GcModel, r: Set<u64>)
    requires
        s.sound(),
        at_rest(s),
    ensures
        forall|x: u64| s.live(x) ==> #[trigger] s.is_white(x),
        holds_roots(s, r) ==> within(s, r),
{
    assert forall|x: u64| s.live(x) implies #[trigger] s.is_white(x) by {
        crate::sweeping::lemma_dead_listed(s, x);
        crate::model::lemma_two_colors(s, x);
    }
}

/// What is left is within any set that has everything that was to be kept when the cycle was at a
/// certain point: everything black, scheduled, rooted or protected, and with an object all that
/// it has edges to.
pub open spec fn leaves_within(s: GcModel, t: GcModel) -> bool {
    forall|r: Set<u64>, x: u64|
        #![trigger within(s, r), t.objs.contains_key(x)]
        within(s, r) && t.objs.contains_key(x) ==> r.contains(x)
}

/// A cycle that was in a tracing phase has gone on as far as it gets, and has ended if the result
/// is `true`.
///
/// It waits for those who have yet to come to the current epoch. Where there are none, it gets to
/// a later epoch, whoever is pinned. Once tracing is complete, the colors change their roles and
/// nothing is left that was not to be kept.
pub open spec fn goes_on(s: GcModel, t: GcModel, r: bool) -> bool {
    &&& !caught_up(s) ==> !r && t == s
    &&& caught_up(s) ==> t.epoch.ts() > s.epoch.ts()
    &&& r ==> !t.tracing()
    &&& t.tracing() ==> traced(s, t)
    &&& !t.tracing() ==> t.white() == s.white().flipped() && t.scanned_of(t.black()) == Multiset::<
        u64,
    >::empty() && leaves_within(s, t)
    &&& !t.tracing() ==> r == caught_up(t)
}

/// Tracing has gone on as far as it gets, and has ended if the result is `true`.
///
/// It waits for those who have yet to come to the current epoch. Where there are none, it gets to
/// a later epoch, whoever is pinned. Once it is complete, the colors change their roles, and what
/// is white then had to be kept.
pub open spec fn traces_on(s: GcModel, t: GcModel, r: bool) -> bool {
    &&& !caught_up(s) ==> t == s
    &&& caught_up(s) ==> t.epoch.ts() > s.epoch.ts()
    &&& r == !t.tracing()
    &&& t.tracing() ==> traced(s, t)
    &&& !t.tracing() ==> t.white() == s.white().flipped() && same_shape(s, t) && same_hazards(
        s,
        t,
    ) && (forall|q: Set<u64>, x: u64|
        #![trigger within(s, q), t.is_white(x)]
        within(s, q) && t.is_white(x) ==> q.contains(x))
}

/// Where tracing has ended and all is swept, nothing is left that was not to be kept.
pub proof fn lemma_ended(s: GcModel, n: GcModel, u: GcModel)
    requires
        traces_on(s, n, true),
        sweeps(n, u),
        u.scanned_of(n.black()) == Multiset::<u64>::empty(),
    ensures
        leaves_within(s, u),
{
    assert forall|r: Set<u64>, x: u64|
        #![trigger within(s, r), u.objs.contains_key(x)]
        within(s, r) && u.objs.contains_key(x) implies r.contains(x) by {
        assert(n.live(x) && (n.is_white(x) || u.scanned_of(n.black()).count(x) > 0));
        assert(u.scanned_of(n.black()).count(x) == 0);
        assert(n.is_white(x));
    }
}

/// Where tracing has ended within its bounds, what is white from then on had to be kept.
proof fn lemma_flipped(s: GcModel, t: GcModel, e: Epoch)
    requires
        traced(s, t),
        e.white() == t.black(),
    ensures
        forall|q: Set<u64>, x: u64|
            #![trigger within(s, q), set_epoch(t, e).is_white(x)]
            within(s, q) && set_epoch(t, e).is_white(x) ==> q.contains(x),
{
    let n = set_epoch(t, e);
    assert forall|q: Set<u64>, x: u64|
        #![trigger within(s, q), n.is_white(x)]
        within(s, q) && n.is_white(x) implies q.contains(x) by {
        assert(within(t, q));
        assert(t.is_black(x));
    }
}

/// A cycle that begins in a normal phase, once the last one has been swept, and comes to its end
/// leaves exactly what has to be kept.
proof fn lemma_cycle(s: GcModel, t: GcModel, u: GcModel)
    requires
        s.sound(),
        !s.tracing(),
        sweeps(s, set_epoch(t, s.epoch)),
        t.scanned_of(s.black()) == Multiset::<u64>::empty(),
        t.white() == s.white(),
        leaves_within(t, u),
        spares(s, u),
        surviving(s, u),
    ensures
        reclaimed_exactly(s, u),
{
    let m = set_epoch(t, s.epoch);
    assert forall|x: u64| #[trigger] t.objs.contains_key(x) implies s.live(x) && t.objs[x]
        == s.objs[x] && !t.is_black(x) by {
        assert(m.objs.contains_key(x));
        assert(m.scanned_of(s.black()).count(x) == 0);
    }
    assert forall|x: u64| #[trigger] u.objs.contains_key(x) <==> reachable(s, x) by {
        if u.objs.contains_key(x) {
            assert(s.live(x));
            assert forall|r: Set<u64>| #[trigger] holds_roots(s, r) implies r.contains(x) by {
                assert forall|y: u64, z: u64| #[trigger] t.edge(y, z) && r.contains(
                    y,
                ) implies r.contains(z) by {
                    assert(t.objs.contains_key(y));
                    assert(s.edge(y, z));
                }
                assert forall|y: u64| #[trigger] t.is_black(y) implies r.contains(y) by {
                    assert(t.objs.contains_key(y));
                }
                assert(within(t, r));
            }
        }
    }
}

/// Heaps of the same shape have the same edges.
pub proof fn lemma_shape_edge(s: GcModel, t: GcModel, x: u64, y: u64)
    requires
        same_shape(s, t),
    ensures
        s.edge(x, y) ==> t.edge(x, y),
        t.edge(x, y) ==> s.edge(x, y),
{
    assert(t.objs.contains_key(x) == s.live(x));
    if s.live(x) {
        assert forall|i: int| 0 <= i < t.objs[x].links.len() implies s.addr(
            #[trigger] t.objs[x].links[i],
        ) == s.addr(s.objs[x].links[i]) by {
            let a = t.objs[x].links[i];
            let b = s.objs[x].links[i];
            assert(clear_meta(a) == clear_meta(b));
            lemma_meta(s.low, a);
            lemma_meta(s.low, b);
        }
        if s.edge(x, y) {
            let i = choose|i: int|
                0 <= i < s.objs[x].links.len() && s.addr(#[trigger] s.objs[x].links[i]) == y;
            assert(s.addr(t.objs[x].links[i]) == y);
        }
        if t.edge(x, y) {
            let i = choose|i: int|
                0 <= i < t.objs[x].links.len() && s.addr(#[trigger] t.objs[x].links[i]) == y;
            assert(s.addr(s.objs[x].links[i]) == y);
        }
    }
}

impl<T: TraceObj> Global<T> {
    /// Begins root tracing, once the sweep of the last cycle is done and everybody has come to
    /// the normal phase.
    pub fn begin_root_tracing(&mut self)
        requires
            old(self).wf(),
            at_rest(old(self).abs()),
            old(self).epoch.data.ts() + 1 < TIMESTAMP_LIMIT,
        ensures
            final(self).wf(),
            *final(self) == (Global { epoch: final(self).epoch, ..*old(self) }),
            final(self).abs() == set_epoch(old(self).abs(), final(self).epoch.data),
            is_next_epoch(
                old(self).epoch.data,
                Phase::RT,
                old(self).abs().white(),
                final(self).epoch.data,
            ),
            keeps_protected(old(self).abs(), final(self).abs()),
    {
        let ghost s = self.abs();
        self.phase_trans(Phase::RT);
        proof {
            assert(self.abs() =~= set_epoch(s, self.epoch.data));
            lemma_to_root_tracing(s, self.epoch.data);
            lemma_fits_epoch(*old(self), *self);
        }
    }

    /// Begins completion tracing, once everybody has come to the tracing phase and every object
    /// has been looked at.
    pub fn begin_completion_tracing(&mut self)
        requires
            old(self).wf(),
            old(self).abs().tracing(),
            old(self).abs().young_of(old(self).abs().white()) == Multiset::<u64>::empty(),
            caught_up(old(self).abs()),
            old(self).epoch.data.ts() + 1 < TIMESTAMP_LIMIT,
        ensures
            final(self).wf(),
            *final(self) == (Global { epoch: final(self).epoch, ..*old(self) }),
            final(self).abs() == set_epoch(old(self).abs(), final(self).epoch.data),
            is_next_epoch(
                old(self).epoch.data,
                Phase::CT,
                old(self).abs().white(),
                final(self).epoch.data,
            ),
            !final(self).tasks_touched(),
            traced(old(self).abs(), final(self).abs()),
            keeps_protected(old(self).abs(), final(self).abs()),
    {
        let ghost s = self.abs();
        self.phase_trans(Phase::CT);
        proof {
            assert(self.abs() =~= set_epoch(s, self.epoch.data));
            lemma_to_completion(s, self.epoch.data);
            lemma_fits_epoch(*old(self), *self);
            assert(same_hazards(s, self.abs()));
            lemma_traced_parts(s, self.abs());
            assert forall|l: int| 0 <= l < self.nodes().len() implies (
            #[trigger] self.nodes()[l]).item.mt_modified_ts != self.epoch.data.ts() by {
                assert(old(self).nodes()[l].item.clock_ok(old(self).epoch.data.ts()));
            }
        }
    }

    /// Ends tracing, once there is nothing left to trace: what is black counts as white from now
    /// on, and what is white is dead and has to be swept.
    pub fn next_normal(&mut self)
        requires
            old(self).wf(),
            old(self).abs().epoch.ph() == Phase::CT,
            old(self).abs().tasks == Set::<u64>::empty(),
            caught_up(old(self).abs()),
            old(self).epoch.data.ts() + 1 < TIMESTAMP_LIMIT,
        ensures
            final(self).wf(),
            *final(self) == (Global { epoch: final(self).epoch, ..*old(self) }),
            final(self).abs() == set_epoch(old(self).abs(), final(self).epoch.data),
            is_next_epoch(
                old(self).epoch.data,
                Phase::N,
                old(self).abs().black(),
                final(self).epoch.data,
            ),
            keeps_protected(old(self).abs(), final(self).abs()),
    {
        let ghost s = self.abs();
        let prev_epoch: Epoch = self.epoch.load();
        let new_epoch: Epoch = prev_epoch.with_timestamp(prev_epoch.timestamp() + 1).with_phase(
            Phase::N,
        ).with_color(prev_epoch.color().flip());
        self.epoch.store(new_epoch);
        proof {
            assert(self.abs() =~= set_epoch(s, self.epoch.data));
            lemma_to_normal(s, self.epoch.data);
            lemma_fits_epoch(*old(self), *self);
        }
    }

    /// Traces to the end, in as many rounds of completion tracing as it takes. Returns `false` if
    /// somebody has to unpin first.
    fn completion_tracing(&mut self, lid: usize) -> (r: bool)
        requires
            old(self).wf(),
            old(self).abs().epoch.ph() == Phase::CT,
            lid < old(self).nodes().len(),
            old(self).nodes()[lid as int].using,
            !old(self).pinned(lid as int),
            old(self).epoch.data.ts() + 1 < TIMESTAMP_LIMIT,
        ensures
            final(self).wf(),
            !final(self).pinned(lid as int),
            final(self).only_collecting(*old(self), lid as int),
            final(self).abs().epoch.ph() == Phase::CT,
            final(self).epoch.data.ts() <= old(self).epoch.data.ts() + 1,
            traced(old(self).abs(), final(self).abs()),
            keeps_protected(old(self).abs(), final(self).abs()),
            r ==> caught_up(final(self).abs()) && final(self).abs().tasks == Set::<u64>::empty(),
            nobody_pinned(old(self).abs()) ==> r && nobody_pinned(final(self).abs()),
            !caught_up(old(self).abs()) ==> !r,
            caught_up(old(self).abs()) && !r ==> final(self).epoch.data.ts()
                == old(self).epoch.data.ts() + 1,
            final(self).epoch.data.ts() >= old(self).epoch.data.ts(),
    {
        let ghost before = *self;
        let ghost s = self.abs();
        let ghost l = lid as int;
        proof {
            lemma_traced_parts(s, s);
            lemma_pending_heap(before, *self);
        }
        if !self.all_mutators_unpinned(self.epoch.load().timestamp()) {
            proof {
                lemma_nobody_caught_up(s);
            }
            return false;
        }
        if self.try_confirm_completion() {
            return true;
        }
        self.drain_mark_tasks(lid);
        let ghost drained = *self;
        self.begin_completion_tracing();
        let ghost begun = *self;
        proof {
            lemma_only_epoch(before, drained, begun, l);
            lemma_traced_on(s, drained.abs(), begun.abs());
            lemma_protected_epoch(before, drained, begun, l);
            if nobody_pinned(s) {
                lemma_nobody_pinned_on(before, begun, l);
                lemma_nobody_caught_up(begun.abs());
            }
        }
        if !self.all_mutators_unpinned(self.epoch.load().timestamp()) {
            return false;
        }
        self.try_confirm_completion()
    }
}

/// Nobody is pinned.
pub open spec fn nobody_pinned(s: GcModel) -> bool {
    forall|l: int| 0 <= l < s.parts.len() ==> !(#[trigger] s.parts[l]).pinned()
}

proof fn lemma_nobody_caught_up(s: GcModel)
    ensures
        nobody_pinned(s) ==> caught_up(s),
{
}

/// A later epoch is later for all clocks.
proof fn lemma_fits_epoch<T: TraceObj>(a: Global<T>, b: Global<T>)
    requires
        a.fits(),
        b == (Global { epoch: b.epoch, ..a }),
        a.epoch.data.ts() <= b.epoch.data.ts(),
    ensures
        b.fits(),
{
    assert forall|k: int| 0 <= k < b.nodes().len() implies (#[trigger] b.nodes()[k]).item.wf()
        && b.nodes()[k].item.clock_ok(b.epoch.data.ts()) by {
        assert(a.nodes()[k].item.wf());
    }
}

/// A change of the epoch is the business of the collector.
proof fn lemma_only_epoch<T: TraceObj>(a: Global<T>, b: Global<T>, c: Global<T>, l: int)
    requires
        0 <= l < a.nodes().len(),
        b.only_collecting(a, l),
        c == (Global { epoch: c.epoch, ..b }),
    ensures
        c.only_collecting(a, l),
        c.only_collecting(b, l),
{
    assert forall|k: int| 0 <= k < a.nodes().len() && k != l implies (
    #[trigger] c.nodes()[k]).item.same_but_lists(a.local(k)) by {
        assert(b.nodes()[k].item.same_but_lists(a.local(k)));
    }
    assert forall|k: int| 0 <= k < a.nodes().len() implies (#[trigger] c.nodes()[k]).using
        == a.nodes()[k].using by {
        assert(b.nodes()[k].using == a.nodes()[k].using);
    }
    assert forall|x: u64| #[trigger]
        c.heap.payloads().contains_key(x) implies a.heap.payloads().contains_key(x) && c.heap.payloads()[x] == a.heap.payloads()[x] by {
        assert(b.heap.payloads().contains_key(x));
    }
    lemma_books_same(b, c);
    lemma_books_on(a.books(), b.books(), c.books(), Global::<T>::obj_size() as int);
}

proof fn lemma_protected_epoch<T: TraceObj>(a: Global<T>, b: Global<T>, c: Global<T>, l: int)
    requires
        0 <= l < a.nodes().len(),
        !a.pinned(l),
        b.only_collecting(a, l),
        c == (Global { epoch: c.epoch, ..b }),
        keeps_protected(a.abs(), b.abs()),
        keeps_protected(b.abs(), c.abs()),
    ensures
        keeps_protected(a.abs(), c.abs()),
{
    lemma_only_epoch(a, b, c, l);
    lemma_protected_on(a, b, c, l);
}

/// The collector pins nobody else.
proof fn lemma_nobody_pinned_on<T: TraceObj>(a: Global<T>, b: Global<T>, l: int)
    requires
        0 <= l < a.nodes().len(),
        b.only_collecting(a, l),
        !b.pinned(l),
    ensures
        nobody_pinned(a.abs()) ==> nobody_pinned(b.abs()),
{
    if nobody_pinned(a.abs()) {
        assert forall|k: int| 0 <= k < b.abs().parts.len() implies !(
        #[trigger] b.abs().parts[k]).pinned() by {
            assert(b.abs().parts[k] == part_of(b.nodes()[k]));
            if k != l {
                assert(b.nodes()[k].item.same_but_lists(a.local(k)));
                assert(a.abs().parts[k] == part_of(a.nodes()[k]));
                assert(!a.abs().parts[k].pinned());
            }
        }
    }
}

impl<T: TraceObj> Global<T> {
    /// Traces to the end, from where the cycle is, and then lets the colors change their roles.
    /// Returns `false` if it cannot go on because somebody has yet to unpin; the next call then
    /// goes on from there.
    #[verifier::rlimit(40)]
    pub fn finish_tracing(&mut self, handle: &Handle) -> (r: bool)
        requires
            old(self).wf(),
            old(self).abs().tracing(),
            old(self).knows(*handle),
            !old(self).pinned(handle.lid as int),
            old(self).epoch.data.ts() + 3 < TIMESTAMP_LIMIT,
        ensures
            final(self).wf(),
            final(self).knows(*handle),
            !final(self).pinned(handle.lid as int),
            final(self).only_collecting(*old(self), handle.lid as int),
            final(self).epoch.data.ts() <= old(self).epoch.data.ts() + 3,
            keeps_protected(old(self).abs(), final(self).abs()),
            traces_on(old(self).abs(), final(self).abs(), r),
            !caught_up(old(self).abs()) ==> *final(self) == *old(self),
            nobody_pinned(old(self).abs()) ==> r && nobody_pinned(final(self).abs()),
    {
        let ghost before = *self;
        let ghost s = self.abs();
        let lid: usize = handle.lid;
        let ghost l = lid as int;
        proof {
            lemma_traced_parts(s, s);
            lemma_pending_heap(before, *self);
            lemma_nobody_caught_up(s);
        }
        if !self.all_mutators_unpinned(self.epoch.load().timestamp()) {
            return false;
        }
        if self.epoch.load().phase() == Phase::RT {
            self.root_tracing(lid);
            let ghost rooted = *self;
            self.begin_completion_tracing();
            proof {
                lemma_only_epoch(before, rooted, *self, l);
                lemma_protected_epoch(before, rooted, *self, l);
                lemma_traced_on(s, rooted.abs(), self.abs());
                if nobody_pinned(s) {
                    lemma_nobody_pinned_on(before, *self, l);
                }
            }
        }
        let ghost completing = *self;
        let completed: bool = self.completion_tracing(lid);
        let ghost done = *self;
        proof {
            lemma_collecting_on(before, completing, done, l);
            lemma_protected_on(before, completing, done, l);
            lemma_traced_on(s, completing.abs(), done.abs());
        }
        if !completed {
            return false;
        }
        self.next_normal();
        proof {
            lemma_only_epoch(before, done, *self, l);
            lemma_protected_epoch(before, done, *self, l);
            lemma_flipped(s, done.abs(), self.epoch.data);
            assert(same_shape(s, self.abs()));
            lemma_nobody_pinned_on(before, *self, l);
        }
        true
    }

    /// Goes on with a collection cycle, from where it is to its end. Returns `false` if it cannot
    /// go on because somebody has yet to unpin; the next call then goes on from there. In a normal
    /// phase the cycle ends once all is swept and everybody has come to that phase.
    #[verifier::rlimit(40)]
    pub fn continue_cycle(&mut self, handle: &Handle) -> (r: bool)
        requires
            old(self).wf(),
            old(self).knows(*handle),
            !old(self).pinned(handle.lid as int),
            old(self).epoch.data.ts() + 3 < TIMESTAMP_LIMIT,
        ensures
            final(self).wf(),
            final(self).knows(*handle),
            !final(self).pinned(handle.lid as int),
            final(self).only_collecting(*old(self), handle.lid as int),
            final(self).epoch.data.ts() <= old(self).epoch.data.ts() + 3,
            keeps_protected(old(self).abs(), final(self).abs()),
            same_hazards(old(self).abs(), final(self).abs()),
            surviving(old(self).abs(), final(self).abs()),
            spares(old(self).abs(), final(self).abs()),
            r ==> at_rest(final(self).abs()),
            nobody_pinned(old(self).abs()) ==> r,
            old(self).abs().tracing() ==> goes_on(old(self).abs(), final(self).abs(), r),
            old(self).abs().tracing() && !caught_up(old(self).abs()) ==> *final(self) == *old(self),
            // A cycle that has come to its normal phase only has to end. No other one begins.
            !old(self).abs().tracing() ==> {
                &&& final(self).epoch == old(self).epoch
                &&& final(self).abs().scanned_of(old(self).abs().black())
                    == Multiset::<u64>::empty()
                &&& sweeps(old(self).abs(), final(self).abs())
                &&& r == caught_up(old(self).abs())
            },
    {
        let ghost before = *self;
        let ghost s = self.abs();
        let lid: usize = handle.lid;
        let ghost l = lid as int;
        proof {
            lemma_traced_parts(s, s);
            lemma_pending_heap(before, *self);
            lemma_nobody_caught_up(s);
        }
        if self.epoch.load().phase() != Phase::N {
            let ended: bool = self.finish_tracing(handle);
            proof {
                assert(same_hazards(s, self.abs()));
                assert(surviving(s, self.abs()));
                lemma_shape_spares(s, self.abs());
            }
            if !ended {
                return false;
            }
        } else {
            proof {
                lemma_shape_spares(s, s);
            }
        }
        let ghost normal = *self;
        self.sweep(lid);
        proof {
            lemma_collecting_swept(normal, *self, l);
            lemma_collecting_on(before, normal, *self, l);
            lemma_protected_on(before, normal, *self, l);
            lemma_sweeps_surviving(normal.abs(), self.abs());
            lemma_surviving_on(s, normal.abs(), self.abs());
            lemma_sweeps_spares(normal.abs(), self.abs());
            lemma_spares_on(s, normal.abs(), self.abs());
            lemma_caught_up_same(normal.abs(), self.abs());
            if s.tracing() {
                lemma_ended(s, normal.abs(), self.abs());
            }
            if nobody_pinned(s) {
                lemma_nobody_caught_up(normal.abs());
            }
        }
        self.all_mutators_unpinned(self.epoch.load().timestamp())
    }

    /// Begins a cycle in a normal phase, once the last one has been swept. Returns `false` if it
    /// cannot because somebody has yet to come to that phase.
    pub fn begin_cycle(&mut self, handle: &Handle) -> (r: bool)
        requires
            old(self).wf(),
            !old(self).abs().tracing(),
            old(self).knows(*handle),
            !old(self).pinned(handle.lid as int),
            old(self).epoch.data.ts() + 1 < TIMESTAMP_LIMIT,
        ensures
            final(self).wf(),
            final(self).knows(*handle),
            !final(self).pinned(handle.lid as int),
            final(self).only_collecting(*old(self), handle.lid as int),
            keeps_protected(old(self).abs(), final(self).abs()),
            same_hazards(old(self).abs(), final(self).abs()),
            surviving(old(self).abs(), final(self).abs()),
            spares(old(self).abs(), final(self).abs()),
            r == caught_up(old(self).abs()),
            sweeps(old(self).abs(), set_epoch(final(self).abs(), old(self).epoch.data)),
            final(self).abs().scanned_of(old(self).abs().black()) == Multiset::<u64>::empty(),
            !r ==> final(self).epoch == old(self).epoch,
            r ==> is_next_epoch(
                old(self).epoch.data,
                Phase::RT,
                old(self).abs().white(),
                final(self).epoch.data,
            ),
            at_rest(old(self).abs()) ==> traced(old(self).abs(), final(self).abs()),
            nobody_pinned(old(self).abs()) ==> r && nobody_pinned(final(self).abs()),
            r && !nobody_pinned(old(self).abs()) ==> !caught_up(final(self).abs()),
    {
        let ghost before = *self;
        let ghost s = self.abs();
        let lid: usize = handle.lid;
        let ghost l = lid as int;
        proof {
            lemma_nobody_caught_up(s);
        }
        self.sweep(lid);
        let ghost swept = *self;
        proof {
            assert(set_epoch(swept.abs(), s.epoch) =~= swept.abs());
            lemma_collecting_swept(before, swept, l);
            lemma_sweeps_surviving(s, swept.abs());
            lemma_sweeps_spares(s, swept.abs());
            lemma_caught_up_same(s, swept.abs());
            if at_rest(s) {
                lemma_swept_nothing(s, swept.abs());
                lemma_traced_parts(s, swept.abs());
            }
        }
        if !self.all_mutators_unpinned(self.epoch.load().timestamp()) {
            return false;
        }
        self.begin_root_tracing();
        proof {
            assert(set_epoch(self.abs(), s.epoch) =~= swept.abs());
            lemma_only_epoch(before, swept, *self, l);
            lemma_protected_epoch(before, swept, *self, l);
            assert(same_hazards(swept.abs(), self.abs()));
            lemma_traced_parts(swept.abs(), self.abs());
            lemma_shape_spares(swept.abs(), self.abs());
            lemma_spares_on(s, swept.abs(), self.abs());
            lemma_hazards_on(s, swept.abs(), self.abs());
            assert(surviving(s, self.abs()));
            if at_rest(s) {
                lemma_traced_on(s, swept.abs(), self.abs());
            }
            if nobody_pinned(s) {
                lemma_nobody_pinned_on(before, *self, l);
            } else {
                lemma_lagging(s, self.abs());
            }
        }
        true
    }

    /// Runs a collection cycle: begins one in a normal phase, and goes on with the one there is in
    /// a tracing phase. Returns `false` if it cannot go on because somebody has yet to unpin.
    pub fn collect_once(&mut self, handle: &Handle) -> (r: bool)
        requires
            old(self).wf(),
            old(self).knows(*handle),
            !old(self).pinned(handle.lid as int),
            old(self).epoch.data.ts() + 4 < TIMESTAMP_LIMIT,
        ensures
            final(self).wf(),
            final(self).knows(*handle),
            !final(self).pinned(handle.lid as int),
            final(self).only_collecting(*old(self), handle.lid as int),
            final(self).epoch.data.ts() <= old(self).epoch.data.ts() + 4,
            keeps_protected(old(self).abs(), final(self).abs()),
            same_hazards(old(self).abs(), final(self).abs()),
            surviving(old(self).abs(), final(self).abs()),
            spares(old(self).abs(), final(self).abs()),
            r ==> at_rest(final(self).abs()),
            // The cycle gets on wherever nobody holds it up, whoever is pinned.
            caught_up(old(self).abs()) ==> final(self).epoch.data.ts() > old(self).epoch.data.ts(),
            !caught_up(old(self).abs()) ==> !r && final(self).epoch == old(self).epoch,
            old(self).abs().tracing() ==> goes_on(old(self).abs(), final(self).abs(), r),
            // The colors change their roles when the cycle has traced to the end.
            r ==> final(self).abs().white() == old(self).abs().white().flipped(),
            final(self).abs().tracing() ==> final(self).abs().white() == old(self).abs().white(),
            // A whole cycle runs exactly where nobody is pinned, and reclaims exactly what need
            // not be kept.
            !old(self).abs().tracing() ==> r == nobody_pinned(old(self).abs()),
            !old(self).abs().tracing() && r ==> reclaimed_exactly(
                old(self).abs(),
                final(self).abs(),
            ),
            !old(self).abs().tracing() && caught_up(old(self).abs()) && !r ==> final(
                self).abs().epoch.ph() == Phase::RT,
            at_rest(old(self).abs()) && !r ==> traced(old(self).abs(), final(self).abs()),
            nobody_pinned(old(self).abs()) ==> r,
    {
        let ghost before = *self;
        let ghost s = self.abs();
        let ghost l = handle.lid as int;
        if self.epoch.load().phase() != Phase::N {
            return self.continue_cycle(handle);
        }
        if !self.begin_cycle(handle) {
            return false;
        }
        let ghost started = *self;
        proof {
            if nobody_pinned(s) {
                lemma_nobody_caught_up(started.abs());
            }
        }
        let r: bool = self.continue_cycle(handle);
        proof {
            lemma_collecting_on(before, started, *self, l);
            lemma_protected_on(before, started, *self, l);
            lemma_hazards_on(s, started.abs(), self.abs());
            assert(surviving(s, started.abs()));
            lemma_surviving_on(s, started.abs(), self.abs());
            lemma_spares_on(s, started.abs(), self.abs());
            if r {
                lemma_cycle(s, started.abs(), self.abs());
            }
        }
        r
    }
}

/// Sweeping is the business of the collector.
proof fn lemma_collecting_swept<T: TraceObj>(a: Global<T>, b: Global<T>, l: int)
    requires
        0 <= l < a.nodes().len(),
        b.only_swept(a, l),
        b.books_kept(a),
    ensures
        b.only_collecting(a, l),
        b.local(l).epoch == a.local(l).epoch,
{
    assert forall|k: int| 0 <= k < a.nodes().len() implies (#[trigger] b.nodes()[k]).using
        == a.nodes()[k].using by {}
    assert forall|k: int| 0 <= k < a.nodes().len() && k != l implies (
    #[trigger] b.nodes()[k]).item.same_but_lists(a.local(k)) by {}
}

/// Between two cycles there is nothing to sweep.
pub proof fn lemma_swept_nothing(s: GcModel, t: GcModel)
    requires
        s.sound(),
        at_rest(s),
        sweeps(s, t),
    ensures
        t.objs == s.objs,
        same_hazards(s, t),
{
    assert forall|x: u64| #[trigger] t.objs.contains_key(x) == s.objs.contains_key(x) by {
        lemma_at_rest_white(s, Set::empty());
        assert(s.live(x) ==> s.is_white(x));
    }
    assert(t.objs =~= s.objs);
}

/// Whoever was pinned when the epoch changes has not caught up.
proof fn lemma_lagging(s: GcModel, t: GcModel)
    requires
        s.sound(),
        !nobody_pinned(s),
        t.parts == s.parts,
        t.epoch.ts() > s.epoch.ts(),
    ensures
        !caught_up(t),
{
    let l = choose|l: int| 0 <= l < s.parts.len() && (#[trigger] s.parts[l]).pinned();
    assert(s.part_ok(s.parts[l]));
    assert(t.parts[l].pinned());
}

proof fn lemma_hazards_on(s: GcModel, t: GcModel, u: GcModel)
    requires
        same_hazards(s, t),
        same_hazards(t, u),
    ensures
        same_hazards(s, u),
{
    assert forall|k: int| 0 <= k < s.parts.len() implies (#[trigger] u.parts[k]).hazards
        == s.parts[k].hazards && u.parts[k].using == s.parts[k].using by {
        assert(t.parts[k].hazards == s.parts[k].hazards);
    }
}
} // verus!
