//! Scanning: objects with roots and objects that hazard pointers protect are marked.

use crate::epoch::{Color, Phase};
use crate::global::{is_prefix, lemma_asks_none, lemma_asks_on, lemma_part_changed, Global};
use crate::hazards::AddressSet;
use crate::internal::part_of;
use crate::lists::ObjBatch;
use crate::marking::tasks_marked;
use crate::model::GcModel;
use crate::pinning::{lemma_marked, marked};
use crate::roots::lemma_same_white;
use crate::shards::OBJ_BATCHES_SHARD;
use crate::steps::{
    keeps_protected, lemma_mark_shape, lemma_scan_batch, lemma_shape_on, same_shape, scan_batch,
    scan_done,
};
use crate::sweeping::with_limbo;
use crate::sync::reusable_slots::Node;
use crate::trace::TraceObj;
use vstd::multiset::Multiset;
use vstd::prelude::*;

verus! {

/// The set has everything that is black, scheduled, rooted or protected by a hazard pointer, and
/// with an object all that it has edges to.
pub open spec fn within(s: GcModel, r: Set<u64>) -> bool {
    &&& forall|x: u64, y: u64| #[trigger] s.edge(x, y) && r.contains(x) ==> r.contains(y)
    &&& forall|x: u64| #[trigger] s.is_black(x) ==> r.contains(x)
    &&& forall|x: u64| #[trigger] s.tasks.contains(x) ==> r.contains(x)
    &&& forall|x: u64|
        #![trigger s.objs.contains_key(x)]
        s.live(x) && s.objs[x].rc > 0 ==> r.contains(x)
    &&& forall|l: int, x: u64|
        0 <= l < s.parts.len() && #[trigger] s.parts[l].hazards.contains(x) ==> r.contains(x)
}

/// Tracing goes no further than it has to: what it marks and schedules is within any set that has
/// what was to be traced and the additional objects.
pub open spec fn traces_within(s: GcModel, t: GcModel, also: Set<u64>) -> bool {
    forall|r: Set<u64>| #[trigger]
        within(s, r) && (forall|x: u64| s.live(x) && #[trigger] also.contains(x) ==> r.contains(x))
            ==> within(t, r)
}

/// Marking an object of the set stays within the set.
pub proof fn lemma_marked_within(s: GcModel, a: u64, r: Set<u64>)
    requires
        s.live(a),
        within(s, r),
        r.contains(a),
    ensures
        within(marked(s, a), r),
{
    let t = marked(s, a);
    crate::steps::lemma_mark_edges(s, a, tasks_marked(s, a));
    assert forall|x: u64, y: u64| #[trigger] t.edge(x, y) && r.contains(x) implies r.contains(
        y,
    ) by {
        assert(s.edge(x, y));
    }
    assert forall|x: u64| #[trigger] t.is_black(x) implies r.contains(x) by {
        if x != a {
            assert(s.is_black(x));
        }
    }
    assert forall|x: u64|
        #![trigger t.objs.contains_key(x)]
        t.live(x) && t.objs[x].rc > 0 implies r.contains(x) by {
        assert(s.objs.contains_key(x));
    }
    assert forall|l: int, x: u64|
        0 <= l < t.parts.len() && #[trigger] t.parts[l].hazards.contains(x) implies r.contains(
        x,
    ) by {
        assert(s.parts[l].hazards.contains(x));
    }
}

/// Marking does not depend on the lists.
proof fn lemma_limbo_marked(s: GcModel, c: Color, m: Multiset<u64>, a: u64)
    requires
        s.young.len() == 2,
    ensures
        marked(with_limbo(s, c, m), a) == with_limbo(marked(s, a), c, m),
{
    assert(tasks_marked(with_limbo(s, c, m), a) =~= tasks_marked(s, a));
    assert(marked(with_limbo(s, c, m), a) =~= with_limbo(marked(s, a), c, m));
}

impl<T: TraceObj> Global<T> {
    /// Nothing differs but colors of objects and edges, the lists, and what one participant has
    /// scheduled.
    pub open spec fn only_tracing(self, before: Self, l: int) -> bool {
        &&& self == (Global {
            heap: self.heap,
            locals: self.locals,
            fresh_objs: self.fresh_objs,
            marked_objs: self.marked_objs,
            ..before
        })
        &&& self.locals.active_count == before.locals.active_count
        &&& self.nodes() == before.nodes().update(
            l,
            (Node { using: before.nodes()[l].using, item: self.local(l) }),
        )
        &&& self.local(l).same_but_work(before.local(l))
        &&& same_shape(before.abs(), self.abs())
        &&& self.heap.payloads() == before.heap.payloads()
        &&& self.heap.has_room() == before.heap.has_room()
    }

    /// The addresses in the hazard pointers of all participants in use.
    pub fn collect_hps(&self) -> (r: AddressSet)
        requires
            self.wf(),
        ensures
            forall|x: u64| #[trigger]
                r@.contains(x) <==> exists|l: int|
                    0 <= l < self.nodes().len() && (#[trigger] self.nodes()[l]).using
                        && self.nodes()[l].item.hazards@.contains(x),
            self.abs().covers(r@),
            forall|x: u64| x != 0 && #[trigger] r@.contains(x) ==> exists|l: int|
                0 <= l < self.abs().parts.len() && #[trigger] self.abs().parts[l].hazards.contains(
                    x,
                ),
    {
        let mut set: AddressSet = AddressSet::new();
        let mut i: usize = 0;
        while i < self.locals.nodes.len()
            invariant
                i <= self.nodes().len(),
                forall|x: u64| #[trigger]
                    set@.contains(x) <==> exists|l: int|
                        0 <= l < i && (#[trigger] self.nodes()[l]).using
                            && self.nodes()[l].item.hazards@.contains(x),
            decreases self.nodes().len() - i,
        {
            let ghost before = set@;
            if self.locals.nodes[i].using {
                set.extend(&self.locals.nodes[i].item.hazards);
            }
            proof {
                assert forall|x: u64| #[trigger] set@.contains(x) <==> exists|l: int|
                    0 <= l < i + 1 && (#[trigger] self.nodes()[l]).using
                        && self.nodes()[l].item.hazards@.contains(x) by {
                    if set@.contains(x) {
                        if before.contains(x) {
                            let l = choose|l: int|
                                0 <= l < i && (#[trigger] self.nodes()[l]).using
                                    && self.nodes()[l].item.hazards@.contains(x);
                            assert(0 <= l < i + 1 && self.nodes()[l].using);
                        } else {
                            assert(self.nodes()[i as int].using
                                && self.nodes()[i as int].item.hazards@.contains(x));
                        }
                    }
                }
            }
            i = i + 1;
        }
        proof {
            let s = self.abs();
            assert forall|l: int, x: u64|
                0 <= l < s.parts.len() && s.unobserved(s.parts[l])
                    && #[trigger] s.parts[l].hazards.contains(x) implies set@.contains(x) by {
                assert(s.part_ok(s.parts[l]));
                assert(s.parts[l].using);
                assert(self.nodes()[l].using && self.nodes()[l].item.hazards@.contains(x));
            }
            assert forall|x: u64| x != 0 && #[trigger] set@.contains(x) implies exists|l: int|
                0 <= l < s.parts.len() && #[trigger] s.parts[l].hazards.contains(x) by {
                let l = choose|l: int|
                    0 <= l < self.nodes().len() && (#[trigger] self.nodes()[l]).using
                        && self.nodes()[l].item.hazards@.contains(x);
                assert(s.parts[l].hazards.contains(x));
            }
        }
        set
    }

    /// Scans the oldest batch of a shard of the fresh objects that are white: marks those that
    /// have roots or are among the given hazards, and moves the batch to the list of objects that
    /// have been looked at. Returns `true` if there was one.
    pub fn scan_one(
        &mut self,
        lid: usize,
        gid: u64,
        q_idx: usize,
        hazards: &AddressSet,
    ) -> (r: bool)
        requires
            old(self).wf(),
            old(self).abs().epoch.ph() == Phase::RT,
            old(self).abs().synced(),
            old(self).takes_part(lid as int),
            old(self).abs().covers(hazards@),
            q_idx < OBJ_BATCHES_SHARD,
        ensures
            final(self).wf(),
            final(self).only_tracing(*old(self), lid as int),
            final(self).abs().epoch == old(self).abs().epoch,
            final(self).abs().parts == old(self).abs().parts,
            traces_within(old(self).abs(), final(self).abs(), hazards@),
            keeps_protected(old(self).abs(), final(self).abs()),
            final(self).asks(*old(self), lid as int, gid),
            is_prefix(
                old(self).local(lid as int).mark_tasks.items(),
                final(self).local(lid as int).mark_tasks.items(),
            ),
            ({
                let w = old(self).abs().white();
                let before = old(self).fresh_objs.shard(w, q_idx as int);
                &&& r == (before.len() > 0)
                &&& r ==> final(self).fresh_objs.shard_set(
                    old(self).fresh_objs,
                    w,
                    q_idx as int,
                    before.subrange(1, before.len() as int),
                )
                &&& !r ==> *final(self) == *old(self)
                // The objects of the batch have been looked at, and those with roots and those
                // among the hazards are marked.
                &&& r ==> {
                    let s = old(self).abs();
                    let t = final(self).abs();
                    let batch = before[0];
                    &&& batch.bag().subset_of(s.young_of(w))
                    &&& t.young_of(w) == s.young_of(w).sub(batch.bag())
                    &&& t.scanned_of(w) == s.scanned_of(w).add(batch.bag())
                    &&& t.young_of(w.flipped()) == s.young_of(w.flipped())
                    &&& t.scanned_of(w.flipped()) == s.scanned_of(w.flipped())
                    &&& forall|x: u64| #[trigger]
                        batch@.contains(x) && (s.objs[x].rc > 0 || hazards@.contains(x))
                            ==> t.is_black(x)
                }
            }),
            forall|x: u64| #[trigger]
                old(self).abs().is_black(x) ==> final(self).abs().is_black(x),
    {
        let ghost s = self.abs();
        let ghost before = *self;
        let ghost l = lid as int;
        let ghost w = s.white();
        proof {
            assert(s.parts[l] == part_of(self.nodes()[l]));
            lemma_same_white(s, l);
            lemma_asks_none(before, before, l, gid);
            assert(self.nodes() =~= before.nodes().update(l, self.nodes()[l]));
        }
        let white: Color = self.locals.nodes[lid].item.epoch.color();
        let batch: ObjBatch = match self.fresh_objs.try_pop(white, q_idx) {
            Some(batch) => batch,
            None => {
                return false;
            },
        };
        let ghost m = batch.bag();
        let ghost popped = *self;
        let mut i: usize = 0;
        proof {
            assert(m.subset_of(s.young_of(w)));
            assert(with_limbo(self.abs(), w, m).young[w.code() as int] =~= s.young_of(w));
            assert(with_limbo(self.abs(), w, m) =~= s);
        }
        while i < batch.items.len()
            invariant
                before == *old(self),
                s == before.abs(),
                s.sound(),
                s.epoch.ph() == Phase::RT,
                s.synced(),
                s.covers(hazards@),
                w == s.white(),
                l == lid,
                before.takes_part(l),
                before.local(l).epoch.white() == w,
                self.asks(before, l, gid),
                m == batch.bag(),
                m.subset_of(s.young_of(w)),
                i <= batch@.len(),
                popped.fresh_objs.wf(),
                self.fits(),
                self.fresh_objs == popped.fresh_objs,
                self.marked_objs == before.marked_objs,
                self.only_tracing(before, l),
                is_prefix(before.local(l).mark_tasks.items(), self.local(l).mark_tasks.items()),
                with_limbo(self.abs(), w, m).sound(),
                keeps_protected(s, with_limbo(self.abs(), w, m)),
                traces_within(s, with_limbo(self.abs(), w, m), hazards@),
                self.abs().parts == s.parts,
                self.abs().epoch == s.epoch,
                self.abs().scanned == s.scanned,
                with_limbo(self.abs(), w, m).young == s.young,
                forall|x: u64| #[trigger] self.abs().objs.contains_key(x) == s.live(x),
                forall|x: u64| #[trigger]
                    self.abs().objs.contains_key(x) ==> self.abs().objs[x].rc == s.objs[x].rc,
                forall|j: int|
                    0 <= j < i ==> scan_done(
                        with_limbo(self.abs(), w, m),
                        #[trigger] batch@[j],
                    ),
                forall|x: u64| #[trigger] s.is_black(x) ==> self.abs().is_black(x),
                forall|j: int|
                    0 <= j < i && (s.objs[#[trigger] batch@[j]].rc > 0 || hazards@.contains(
                        batch@[j],
                    )) ==> self.abs().is_black(batch@[j]),
            decreases batch@.len() - i,
        {
            let a: u64 = batch.items[i];
            let ghost mid = *self;
            let ghost t = self.abs();
            let ghost u = with_limbo(t, w, m);
            proof {
                broadcast use vstd::seq_lib::group_to_multiset_ensures;

                assert(batch@.contains(a));
                assert(m.count(a) > 0);
                assert(m.count(a) <= s.young_of(w).count(a));
                lemma_listed(s, a);
                assert(t.objs.contains_key(a));
                assert(t.colors_ok()) by {
                    assert(u.colors_ok());
                }
                assert(u.low == t.low);
                assert forall|x: u64, y: u64| #[trigger] t.edge(x, y) implies t.live(y) by {
                    assert(u.tracing_ok());
                    assert(u.edge(x, y));
                }
            }
            if self.heap.get(a).header.load().root_count() > 0 || hazards.contains(a) {
                self.mark_forced(a, lid, gid);
                proof {
                    lemma_mark_shape(t, a, tasks_marked(t, a));
                    lemma_shape_on(s, t, self.abs());
                    lemma_limbo_marked(t, w, m, a);
                    lemma_marked(u, a);
                    let v = with_limbo(self.abs(), w, m);
                    assert(v == marked(u, a));
                    assert(self.asks(mid, l, gid));
                    lemma_asks_on(before, mid, *self, l, gid);
                    assert(self.nodes() =~= before.nodes().update(l, self.nodes()[l]));
                    assert forall|r: Set<u64>| #[trigger]
                        within(s, r) && (forall|x: u64|
                            s.live(x) && #[trigger] hazards@.contains(x) ==> r.contains(
                                x,
                            )) implies within(v, r) by {
                        assert(within(u, r));
                        assert(u.objs.contains_key(a));
                        lemma_marked_within(u, a, r);
                    }
                    assert forall|j: int| 0 <= j < i implies scan_done(
                        v,
                        #[trigger] batch@[j],
                    ) by {
                        assert(scan_done(u, batch@[j]));
                        assert(u.is_black(batch@[j]) ==> v.is_black(batch@[j]));
                    }
                    assert forall|x: u64| #[trigger] t.is_black(x) implies self.abs().is_black(x) by {}
                    assert(self.abs().is_black(a));
                }
            } else {
                proof {
                    assert(u.objs[a].rc == 0);
                    assert forall|k: int|
                        0 <= k < u.parts.len() && u.unobserved(
                            #[trigger] u.parts[k],
                        ) implies !u.parts[k].hazards.contains(a) by {
                        if u.parts[k].hazards.contains(a) {
                            assert(s.parts[k].hazards.contains(a));
                            assert(hazards@.contains(a));
                        }
                    }
                    assert(scan_done(u, a));
                }
            }
            i = i + 1;
        }
        let ghost t = self.abs();
        let ghost u = with_limbo(t, w, m);
        let ghost looped = *self;
        assert(self.nodes()[l].item.wf());
        let shard: usize = self.locals.nodes[lid].item.picker.select_obj_shard();
        proof {
            assert(self.nodes() =~= looped.nodes().update(l, self.nodes()[l]));
            assert(self.nodes() =~= before.nodes().update(l, self.nodes()[l]));
            lemma_part_changed(looped, *self, l);
            lemma_asks_none(looped, *self, l, gid);
            lemma_asks_on(before, looped, *self, l, gid);
            assert(self.abs() =~= t);
        }
        self.marked_objs.push(white, shard, batch);
        proof {
            broadcast use vstd::seq_lib::group_to_multiset_ensures;

            assert(self.fits());
            assert forall|x: u64| #[trigger] m.count(x) > 0 implies scan_done(u, x) by {
                assert(batch@.contains(x));
                let j = choose|j: int| 0 <= j < batch@.len() && batch@[j] == x;
                assert(scan_done(u, batch@[j]));
            }
            assert(u.synced()) by {
                assert forall|k: int|
                    0 <= k < u.parts.len() && (#[trigger] u.parts[k]).pinned() implies u.parts[k].epoch.ph()
                    != Phase::N by {
                    assert(s.parts[k].pinned());
                }
            }
            lemma_scan_batch(u, m);
            let wi = w.code() as int;
            assert(u.young[wi].sub(m) =~= t.young[wi]);
            assert(self.abs().scanned[wi] =~= t.scanned[wi].add(m));
            assert(self.abs() =~= scan_batch(u, m));
            assert forall|r: Set<u64>| #[trigger]
                within(s, r) && (forall|x: u64|
                    s.live(x) && #[trigger] hazards@.contains(x) ==> r.contains(x)) implies within(
                self.abs(),
                r,
            ) by {
                assert(within(u, r));
                lemma_within_lists(u, self.abs(), r);
            }
            assert forall|x: u64| #[trigger]
                batch@.contains(x) && (s.objs[x].rc > 0 || hazards@.contains(
                    x,
                )) implies self.abs().is_black(x) by {
                let j = choose|j: int| 0 <= j < batch@.len() && batch@[j] == x;
                assert(t.is_black(batch@[j]));
            }
            assert(t.young_of(w) =~= s.young_of(w).sub(m));
        }
        true
    }
}

/// The lists do not matter for what tracing stays within.
pub proof fn lemma_within_lists(s: GcModel, t: GcModel, r: Set<u64>)
    requires
        within(s, r),
        t.low == s.low,
        t.objs == s.objs,
        t.tasks == s.tasks,
        t.parts == s.parts,
        t.epoch.white() == s.epoch.white(),
    ensures
        within(t, r),
{
    assert forall|x: u64| #[trigger] t.is_black(x) implies r.contains(x) by {
        assert(s.is_black(x));
    }
    assert forall|l: int, x: u64|
        0 <= l < t.parts.len() && #[trigger] t.parts[l].hazards.contains(x) implies r.contains(
        x,
    ) by {
        assert(s.parts[l].hazards.contains(x));
    }
}

/// What is in a list is in the heap.
pub proof fn lemma_listed(s: GcModel, x: u64)
    requires
        s.sound(),
    ensures
        s.young[0].count(x) > 0 ==> s.live(x),
        s.young[1].count(x) > 0 ==> s.live(x),
        s.scanned[0].count(x) > 0 ==> s.live(x),
        s.scanned[1].count(x) > 0 ==> s.live(x),
{
    assert(s.young[0].count(x) + s.young[1].count(x) + s.scanned[0].count(x) + s.scanned[1].count(
        x,
    ) == (if s.objs.contains_key(x) {
        1nat
    } else {
        0nat
    }));
}

} // verus!
