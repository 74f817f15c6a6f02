//! Entering and leaving critical sections.

use crate::accounts::{lemma_books_on, lemma_books_same};
use crate::barriers::mark_shades;
use crate::epoch::{Epoch, Phase};
use crate::global::{lemma_part_changed, Global};
use crate::guards::{lemma_books_pinned, Guard};
use crate::helping::{cached_within, lemma_helping_on, lemma_trace_on, trace_step, within_cached};
use crate::internal::{part_of, Local};
use crate::marking::{lemma_mark_black, tasks_marked};
use crate::model::{GcModel, PartModel};
use crate::scanning::{lemma_marked_within, within};
use crate::steps::{
    keeps_protected, lemma_mark_obj, lemma_mark_shape, lemma_parts_frame, lemma_pin_part,
    lemma_pinned_epoch, lemma_shape_on, lemma_unpin_part, mark_obj, pin_part, safe_step, same_shape,
    set_part, unpin_part,
};
use crate::trace::TraceObj;
use vstd::prelude::*;

verus! {

/// An object is marked, and what it leads to is scheduled.
pub open spec fn marked(s: GcModel, a: u64) -> GcModel {
    mark_obj(s, a, tasks_marked(s, a))
}

/// Marking is a safe step.
pub proof fn lemma_marked(s: GcModel, a: u64)
    requires
        s.sound(),
        s.tracing(),
        s.live(a),
    ensures
        safe_step(s, marked(s, a)),
        marked(s, a).is_black(a),
        marked(s, a).parts == s.parts,
        marked(s, a).epoch == s.epoch,
        marked(s, a).young == s.young,
        marked(s, a).scanned == s.scanned,
        forall|x: u64| #[trigger] s.is_black(x) ==> marked(s, a).is_black(x),
        forall|x: u64| #[trigger] marked(s, a).objs.contains_key(x) == s.live(x),
        forall|x: u64| #[trigger] s.kept(x) ==> marked(s, a).kept(x),
{
    lemma_mark_obj(s, a, tasks_marked(s, a));
    if s.is_black(a) {
        lemma_mark_black(s, a);
    }
}

/// A participant that is not pinned has to run the phase barrier when it pins itself: it is in a
/// root tracing phase that is new to it.
pub open spec fn barrier_due(s: GcModel, l: int) -> bool {
    s.epoch.ph() == Phase::RT && s.unobserved(s.parts[l])
}

/// A participant has been pinned. Where it had to run the phase barrier, what it marked and helped
/// to mark is within any set that has what had to be kept, and what its hazard pointers protect is
/// black. Otherwise nothing else has happened.
pub open spec fn entered(s: GcModel, t: GcModel, l: int) -> bool {
    &&& t.epoch == s.epoch
    &&& same_shape(s, t)
    &&& t.parts == s.parts.update(
        l,
        PartModel { cached: t.parts[l].cached, ..pin_part(s, l).parts[l] },
    )
    &&& forall|r: Set<u64>| #[trigger] within(s, r) ==> within(t, r)
    &&& forall|x: u64| #[trigger] s.is_black(x) ==> t.is_black(x)
    &&& barrier_due(s, l) ==> forall|x: u64| #[trigger]
        s.parts[l].hazards.contains(x) ==> t.is_black(x)
    &&& !barrier_due(s, l) ==> t == pin_part(s, l)
}

/// What a participant has on its way in: it has come to the current epoch, and has forgotten the
/// hazards that it collected in an earlier one.
pub open spec fn coming_in(s: GcModel, l: int) -> GcModel {
    set_part(s, l, PartModel { epoch: s.epoch, cached: None, ..s.parts[l] })
}

/// Coming in is a safe step.
proof fn lemma_coming_in(s: GcModel, l: int)
    requires
        s.sound(),
        0 <= l < s.parts.len(),
        s.epoch.ph() == Phase::RT,
        !s.parts[l].pinned(),
    ensures
        safe_step(s, coming_in(s, l)),
        forall|r: Set<u64>| #[trigger] within(s, r) ==> within(coming_in(s, l), r),
{
    let t = coming_in(s, l);
    lemma_parts_frame(s, t);
    assert(t.parts_ok()) by {
        assert forall|k: int| 0 <= k < t.parts.len() implies t.part_ok(#[trigger] t.parts[k]) by {
            assert(s.part_ok(s.parts[k]));
        }
    }
    assert forall|k: int, x: u64|
        0 <= k < t.parts.len() && #[trigger] t.parts[k].hazards.contains(
            x,
        ) implies s.parts[k].hazards.contains(x) by {}
    assert(t.synced() == s.synced()) by {
        if s.synced() {
            assert forall|k: int|
                0 <= k < t.parts.len() && (#[trigger] t.parts[k]).pinned() implies t.parts[k].epoch.ph()
                != Phase::N by {
                assert(s.parts[k].pinned());
            }
        }
        if t.synced() {
            assert forall|k: int|
                0 <= k < s.parts.len() && (#[trigger] s.parts[k]).pinned() implies s.parts[k].epoch.ph()
                != Phase::N by {
                assert(t.parts[k].pinned());
            }
        }
    }
    assert forall|h: Set<u64>| #[trigger] s.covers(h) implies t.covers(h) by {}
    assert forall|k: int| 0 <= k < t.parts.len() implies t.cached_ok(
        (#[trigger] t.parts[k]).cached,
    ) by {
        assert(s.cached_ok(s.parts[k].cached));
    }
    assert(t.root_tracing_ok());
    assert forall|r: Set<u64>| #[trigger] within(s, r) implies within(t, r) by {
        assert forall|x: u64| #[trigger] t.is_black(x) implies r.contains(x) by {
            assert(s.is_black(x));
        }
    }
}

/// A hazard has been marked in the name of a guard, which has then helped if it was asked to, and
/// of which nothing is left.
pub open spec fn hazard_marked<T: TraceObj>(
    before: Global<T>,
    after: Global<T>,
    guard: Guard,
    x: u64,
) -> bool {
    exists|done: Global<T>, helped: Global<T>|
        #![trigger guard.has_helped_if_asked(done, helped), guard.has_taken_request(helped, after)]
        done.abs() == marked(before.abs(), x) && done.only_barriers(
            before,
            guard.lid as int,
            guard.gid,
            mark_shades(before.abs(), x),
        ) && guard.has_helped_if_asked(done, helped) && guard.has_taken_request(helped, after)
}

/// A hazard has been marked. Zero stands for none.
pub open spec fn hazard_seen_to<T: TraceObj>(
    before: Global<T>,
    after: Global<T>,
    guard: Guard,
    x: u64,
) -> bool {
    if x == 0 {
        after == before
    } else {
        hazard_marked(before, after, guard, x)
    }
}

/// Hazards have been marked one after the other.
pub open spec fn hazards_marked<T: TraceObj>(
    before: Global<T>,
    after: Global<T>,
    guard: Guard,
    addrs: Seq<u64>,
) -> bool
    decreases addrs.len(),
{
    if addrs.len() == 0 {
        after == before
    } else {
        exists|mid: Global<T>|
            hazards_marked(before, mid, guard, addrs.drop_last()) && #[trigger] hazard_seen_to(
                mid,
                after,
                guard,
                addrs.last(),
            )
    }
}

impl Guard {
    /// The guard's participant has begun to pin itself. The guard has the next number, and has not
    /// been asked for help. Where the phase barrier is due, the participant has come to the
    /// current epoch.
    pub open spec fn has_begun<T: TraceObj>(self, before: Global<T>, after: Global<T>) -> bool {
        let l = self.lid as int;
        let local = before.local(l);
        let due = !before.pinned(l) && barrier_due(before.abs(), l);
        &&& after.only_local(before, l)
        &&& after.local(l) == (Local {
            next_guard: self.gid.wrapping_add(1),
            should_help: after.local(l).should_help,
            epoch: if due {
                before.epoch.data
            } else {
                local.epoch
            },
            cached_hazards: if due {
                None
            } else {
                local.cached_hazards
            },
            ..local
        })
        &&& self.is_not_asked(before, after)
    }

    /// The guard counts. Its participant is pinned at the current epoch if it had no other guard.
    pub open spec fn has_counted<T: TraceObj>(self, before: Global<T>, after: Global<T>) -> bool {
        let l = self.lid as int;
        let local = before.local(l);
        let first = local.guard_count == 0;
        &&& after.only_local(before, l)
        &&& after.local(l) == (Local {
            guard_count: (local.guard_count + 1) as usize,
            epoch: if first {
                before.epoch.data.pin_of()
            } else {
                local.epoch
            },
            last_observed: if first {
                before.epoch.data
            } else {
                local.last_observed
            },
            ..local
        })
    }

    /// Where the phase barrier is due, the guard's participant has come to the current epoch.
    spec fn has_come<T: TraceObj>(self, before: Global<T>, after: Global<T>) -> bool {
        let l = self.lid as int;
        let local = before.local(l);
        let due = barrier_due(before.abs(), l);
        &&& after.only_local(before, l)
        &&& after.local(l) == (Local {
            epoch: if due {
                before.epoch.data
            } else {
                local.epoch
            },
            cached_hazards: if due {
                None
            } else {
                local.cached_hazards
            },
            ..local
        })
    }

    /// Where the phase barrier is due, the guard's participant has run it on its way in.
    spec fn has_come_in<T: TraceObj>(self, before: Global<T>, after: Global<T>) -> bool {
        let l = self.lid as int;
        exists|begun: Global<T>| #[trigger]
            self.has_come(before, begun) && (if barrier_due(before.abs(), l) {
                hazards_marked(begun, after, self, before.local(l).hazards@)
            } else {
                after == begun
            })
    }

    /// The guard's participant, which was not pinned, has been.
    spec fn has_entered_freshly<T: TraceObj>(self, before: Global<T>, after: Global<T>) -> bool {
        exists|run: Global<T>|
            #![trigger self.has_come_in(before, run), self.has_counted(run, after)]
            self.has_come_in(before, run) && self.has_counted(run, after)
    }

    /// The guard's participant has been pinned once more. Where the phase barrier was due, it has
    /// been run.
    pub open spec fn has_entered<T: TraceObj>(self, before: Global<T>, after: Global<T>) -> bool {
        let l = self.lid as int;
        exists|begun: Global<T>, run: Global<T>|
            #![trigger self.has_begun(before, begun), self.has_counted(run, after)]
            self.has_begun(before, begun) && (if !before.pinned(l) && barrier_due(before.abs(), l) {
                hazards_marked(begun, run, self, before.local(l).hazards@)
            } else {
                run == begun
            }) && self.has_counted(run, after)
    }
}

impl<T: TraceObj> Global<T> {
    /// Nothing differs that is not the collector's business but the guards of one participant.
    pub open spec fn only_pins(self, before: Self, l: int) -> bool {
        &&& self == (Global {
            heap: self.heap,
            locals: self.locals,
            fresh_objs: self.fresh_objs,
            marked_objs: self.marked_objs,
            stats: self.stats,
            ..before
        })
        &&& self.nodes().len() == before.nodes().len()
        &&& forall|k: int|
            0 <= k < self.nodes().len() && k != l ==> #[trigger] self.nodes()[k]
                == before.nodes()[k]
        &&& self.nodes()[l].using == before.nodes()[l].using
        &&& self.local(l).same_but_pin(before.local(l))
        &&& self.heap.payloads() == before.heap.payloads()
        &&& self.heap.has_room() == before.heap.has_room()
        &&& self.books_kept(before)
    }

    /// One guard of a participant has gone, and the participant is not pinned if it was the last
    /// one.
    pub open spec fn is_unpinned(self, before: Self, l: int) -> bool {
        &&& self.only_local(before, l)
        &&& self.local(l) == (Local {
            guard_count: (before.local(l).guard_count - 1) as usize,
            epoch: if before.local(l).guard_count == 1 {
                Epoch { data: 0 }
            } else {
                before.local(l).epoch
            },
            ..before.local(l)
        })
    }

    /// Marks what a hazard pointer of a participant on its way in protects, in the name of a guard
    /// that is there for this alone and that helps, if it has been asked to, before it goes.
    fn mark_hazard(&mut self, a: u64, lid: usize, gid: u64)
        requires
            old(self).wf(),
            old(self).abs().epoch.ph() == Phase::RT,
            old(self).takes_part(lid as int),
            old(self).local(lid as int).epoch == old(self).epoch.data,
            old(self).abs().parts[lid as int].hazards.contains(a),
        ensures
            final(self).wf(),
            final(self).only_helping(*old(self), lid as int),
            trace_step(old(self).abs(), final(self).abs(), lid as int),
            keeps_protected(old(self).abs(), final(self).abs()),
            final(self).abs().is_black(a),
            hazard_marked(*old(self), *final(self), (Guard { lid, gid }), a),
            (Guard { lid, gid }).is_not_asked(*old(self), *final(self)),
    {
        let ghost before = *self;
        let ghost s = self.abs();
        let ghost l = lid as int;
        let ghost guard = Guard { lid, gid };
        proof {
            assert(s.live(a));
            assert(self.heap.has(a));
            lemma_marked(s, a);
            lemma_mark_shape(s, a, tasks_marked(s, a));
        }
        self.mark(a, lid, gid);
        let ghost done = *self;
        proof {
            lemma_hazard_traced(s, l, a);
            lemma_books_pinned(before, done);
            lemma_marked_helping(before, done, l, gid, mark_shades(s, a));
        }
        self.help_tracing_if_asked(lid, gid);
        let ghost helped = *self;
        proof {
            assert(done.abs().is_black(a));
            lemma_trace_on(s, done.abs(), helped.abs(), l);
            lemma_helping_on(before, done, helped, l);
        }
        self.take_request(lid, gid);
        proof {
            assert(guard.has_helped_if_asked(done, helped));
            assert(guard.has_taken_request(helped, *self));
            lemma_books_same(helped, *self);
            lemma_helping_on(before, helped, *self, l);
        }
    }

    /// Marks what the hazard pointers of a participant on its way in protect.
    pub fn phase_barrier(&mut self, lid: usize, gid: u64)
        requires
            old(self).wf(),
            old(self).abs().epoch.ph() == Phase::RT,
            old(self).takes_part(lid as int),
            old(self).local(lid as int).epoch == old(self).epoch.data,
        ensures
            final(self).wf(),
            final(self).only_helping(*old(self), lid as int),
            trace_step(old(self).abs(), final(self).abs(), lid as int),
            keeps_protected(old(self).abs(), final(self).abs()),
            forall|x: u64| #[trigger]
                old(self).abs().parts[lid as int].hazards.contains(x) ==> final(
                    self).abs().is_black(x),
            hazards_marked(
                *old(self),
                *final(self),
                (Guard { lid, gid }),
                old(self).local(lid as int).hazards@,
            ),
            // No guard is asked for help that was not, and the one is not.
            forall|g: u64| #[trigger]
                final(self).local(lid as int).should_help@.contains(g) ==> old(self).local(
                    lid as int,
                ).should_help@.contains(g),
            forall|g: u64|
                g != gid ==> (#[trigger] final(self).local(lid as int).should_help@.contains(g)
                    <==> old(self).local(lid as int).should_help@.contains(g)),
    {
        let ghost before = *self;
        let ghost s = self.abs();
        let ghost l = lid as int;
        let ghost guard = Guard { lid, gid };
        let ghost hazards = self.local(l).hazards@;
        let n: usize = self.locals.nodes[lid].item.hazards.len();
        let mut i: usize = 0;
        proof {
            assert(hazards.take(0) =~= Seq::<u64>::empty());
            lemma_books_same(before, before);
        }
        while i < n
            invariant
                before == *old(self),
                s == before.abs(),
                s.epoch.ph() == Phase::RT,
                l == lid,
                guard == (Guard { lid, gid }),
                before.wf(),
                before.takes_part(l),
                before.local(l).epoch == before.epoch.data,
                hazards == before.local(l).hazards@,
                n == hazards.len(),
                i <= n,
                self.wf(),
                self.only_helping(before, l),
                trace_step(s, self.abs(), l),
                keeps_protected(s, self.abs()),
                hazards_marked(before, *self, guard, hazards.take(i as int)),
                forall|j: int|
                    0 <= j < i && #[trigger] hazards[j] != 0 ==> self.abs().is_black(hazards[j]),
                forall|g: u64| #[trigger]
                    self.local(l).should_help@.contains(g) ==> before.local(
                        l,
                    ).should_help@.contains(g),
                forall|g: u64|
                    g != gid ==> (#[trigger] self.local(l).should_help@.contains(g)
                        <==> before.local(l).should_help@.contains(g)),
            decreases n - i,
        {
            let ghost mid = *self;
            let a: u64 = self.locals.nodes[lid].item.hazards[i];
            proof {
                assert(hazards.take(i + 1).drop_last() =~= hazards.take(i as int));
                assert(hazards.take(i + 1).last() == a);
            }
            if a != 0 {
                proof {
                    assert(mid.abs().parts[l] == part_of(mid.nodes()[l]));
                    assert(mid.abs().parts[l].hazards.contains(a));
                }
                self.mark_hazard(a, lid, gid);
                assert(hazard_marked(mid, *self, guard, a));
                proof {
                    lemma_trace_on(s, mid.abs(), self.abs(), l);
                    lemma_helping_on(before, mid, *self, l);
                    assert forall|j: int|
                        0 <= j < i + 1 && #[trigger] hazards[j] != 0 implies self.abs().is_black(
                        hazards[j],
                    ) by {
                        if j < i {
                            assert(mid.abs().is_black(hazards[j]));
                        }
                    }
                }
            }
            assert(hazard_seen_to(mid, *self, guard, hazards.take(i + 1).last()));
            i = i + 1;
        }
        proof {
            assert(hazards.take(n as int) =~= hazards);
            assert forall|x: u64| #[trigger]
                s.parts[l].hazards.contains(x) implies self.abs().is_black(x) by {
                assert(s.parts[l] == part_of(before.nodes()[l]));
                let j = choose|j: int| 0 <= j < hazards.len() && hazards[j] == x;
                assert(hazards[j] != 0);
            }
        }
    }

    /// Pins a participant once more, and returns the number of its new guard.
    pub fn pin_inner(&mut self, lid: usize) -> (r: u64)
        requires
            old(self).wf(),
            lid < old(self).nodes().len(),
            old(self).nodes()[lid as int].using,
            old(self).local(lid as int).guard_count < usize::MAX,
        ensures
            final(self).wf(),
            r == old(self).local(lid as int).next_guard,
            (Guard { lid, gid: r }).has_entered(*old(self), *final(self)),
            (Guard { lid, gid: r }).is_not_asked(*old(self), *final(self)),
            final(self).local(lid as int).guard_count == old(self).local(lid as int).guard_count
                + 1,
            final(self).only_pins(*old(self), lid as int),
            final(self).pinned(lid as int),
            old(self).pinned(lid as int) ==> final(self).abs() == old(self).abs(),
            !old(self).pinned(lid as int) ==> entered(
                old(self).abs(),
                final(self).abs(),
                lid as int,
            ),
            keeps_protected(old(self).abs(), final(self).abs()),
            same_shape(old(self).abs(), final(self).abs()),
    {
        let ghost before = *self;
        let ghost s = self.abs();
        let ghost l = lid as int;
        assert(self.nodes()[l].item.wf());
        let gid: u64 = self.locals.nodes[lid].item.next_guard;
        let ghost guard = Guard { lid, gid };
        let guard_count: usize = self.locals.nodes[lid].item.guard_count;
        self.locals.nodes[lid].item.next_guard = gid.wrapping_add(1);
        self.locals.nodes[lid].item.take_helping(gid);
        proof {
            assert(self.nodes() =~= before.nodes().update(l, self.nodes()[l]));
            lemma_part_changed(before, *self, l);
            assert(self.abs() =~= s);
            lemma_books_same(before, *self);
            assert(s.parts[l] == part_of(before.nodes()[l]));
        }
        if guard_count == 0 {
            let ghost numbered = *self;
            self.pin_freshly(lid, gid);
            proof {
                lemma_pinned_numbered(before, numbered, *self, guard);
            }
        } else {
            let ghost begun = *self;
            self.locals.nodes[lid].item.guard_count = guard_count + 1;
            proof {
                assert(self.nodes() =~= begun.nodes().update(l, self.nodes()[l]));
                assert(self.nodes() =~= before.nodes().update(l, self.nodes()[l]));
                lemma_part_changed(begun, *self, l);
                assert(self.abs() =~= s);
                lemma_books_same(before, *self);
                assert(guard.has_begun(before, begun));
                assert(guard.has_counted(begun, *self));
            }
        }
        gid
    }

    /// Runs the phase barrier for a participant that is not pinned, in a root tracing phase that is
    /// new to it. The participant is on its way in until its hazards are marked.
    fn come_in(&mut self, lid: usize, gid: u64)
        requires
            old(self).wf(),
            lid < old(self).nodes().len(),
            !old(self).pinned(lid as int),
            !old(self).local(lid as int).should_help@.contains(gid),
        ensures
            final(self).wf(),
            final(self).only_pins(*old(self), lid as int),
            on_its_way(old(self).abs(), final(self).abs(), lid as int),
            keeps_protected(old(self).abs(), final(self).abs()),
            final(self).local(lid as int).guard_count == old(self).local(lid as int).guard_count,
            final(self).local(lid as int).next_guard == old(self).local(lid as int).next_guard,
            (Guard { lid, gid }).has_come_in(*old(self), *final(self)),
            forall|g: u64| #[trigger]
                final(self).local(lid as int).should_help@.contains(g) <==> old(self).local(
                    lid as int,
                ).should_help@.contains(g),
    {
        let ghost before = *self;
        let ghost s = self.abs();
        let ghost l = lid as int;
        let ghost guard = Guard { lid, gid };
        assert(self.nodes()[l].item.wf());
        assert(s.parts[l] == part_of(before.nodes()[l]));
        let curr_epoch: Epoch = self.epoch.load();
        if self.locals.nodes[lid].item.last_observed.timestamp() == curr_epoch.timestamp()
            || curr_epoch.phase() != Phase::RT {
            proof {
                lemma_stays_out(before, l);
                assert(guard.has_come(before, before));
            }
            return ;
        }
        self.locals.nodes[lid].item.epoch = curr_epoch;
        self.locals.nodes[lid].item.cached_hazards = None;
        let ghost begun = *self;
        proof {
            assert(self.nodes() =~= before.nodes().update(l, self.nodes()[l]));
            lemma_part_changed(before, *self, l);
            assert(self.abs() =~= coming_in(s, l));
            lemma_coming_in(s, l);
            lemma_books_same(before, *self);
            assert(guard.has_come(before, begun));
        }
        self.phase_barrier(lid, gid);
        proof {
            lemma_run_from(before, begun, *self, l);
        }
    }

    /// Pins a participant that is not pinned at the global epoch, and runs the phase barrier in a
    /// root tracing phase that is new to it.
    fn pin_freshly(&mut self, lid: usize, gid: u64)
        requires
            old(self).wf(),
            lid < old(self).nodes().len(),
            old(self).nodes()[lid as int].using,
            old(self).local(lid as int).guard_count == 0,
            !old(self).local(lid as int).should_help@.contains(gid),
        ensures
            final(self).wf(),
            final(self).only_pins(*old(self), lid as int),
            final(self).local(lid as int).guard_count == 1,
            final(self).local(lid as int).next_guard == old(self).local(lid as int).next_guard,
            final(self).pinned(lid as int),
            entered(old(self).abs(), final(self).abs(), lid as int),
            keeps_protected(old(self).abs(), final(self).abs()),
            (Guard { lid, gid }).has_entered_freshly(*old(self), *final(self)),
            forall|g: u64| #[trigger]
                final(self).local(lid as int).should_help@.contains(g) <==> old(self).local(
                    lid as int,
                ).should_help@.contains(g),
    {
        let ghost before = *self;
        let ghost l = lid as int;
        let ghost guard = Guard { lid, gid };
        assert(self.nodes()[l].item.wf());
        self.come_in(lid, gid);
        let ghost run = *self;
        let ghost t = self.abs();
        assert(self.nodes()[l].item.wf());
        let curr_epoch: Epoch = self.epoch.load();
        self.locals.nodes[lid].item.guard_count = 1;
        self.locals.nodes[lid].item.epoch = curr_epoch.pinned();
        self.locals.nodes[lid].item.last_observed = curr_epoch;
        proof {
            lemma_pinned_epoch(curr_epoch);
            assert(before.abs().parts[l] == part_of(before.nodes()[l]));
            assert(t.parts[l] == part_of(run.nodes()[l]));
            assert(self.nodes() =~= run.nodes().update(l, self.nodes()[l]));
            lemma_part_changed(run, *self, l);
            assert(self.abs() =~= pin_part(t, l));
            lemma_pin_part(t, l);
            lemma_books_same(run, *self);
            assert(guard.has_come_in(before, run));
            assert(guard.has_counted(run, *self));
            lemma_counted_in(before, run, *self, l);
        }
    }

    /// Takes back one pin of a participant.
    pub fn unpin_inner(&mut self, lid: usize)
        requires
            old(self).wf(),
            old(self).pinned(lid as int),
        ensures
            final(self).wf(),
            final(self).is_unpinned(*old(self), lid as int),
            final(self).local(lid as int).guard_count == old(self).local(lid as int).guard_count
                - 1,
            final(self).pinned(lid as int) <==> old(self).local(lid as int).guard_count > 1,
            final(self).pinned(lid as int) ==> final(self).abs() == old(self).abs(),
            !final(self).pinned(lid as int) ==> final(self).abs() == unpin_part(
                old(self).abs(),
                lid as int,
                (Epoch { data: 0 }),
            ),
            keeps_protected(old(self).abs(), final(self).abs()),
    {
        let ghost before = *self;
        let ghost l = lid as int;
        assert(self.nodes()[l].item.wf());
        let guard_count: usize = self.locals.nodes[lid].item.guard_count;
        self.locals.nodes[lid].item.guard_count = guard_count - 1;
        if guard_count == 1 {
            self.locals.nodes[lid].item.epoch = Epoch::starting();
        }
        proof {
            assert(self.nodes() =~= before.nodes().update(l, self.nodes()[l]));
            lemma_part_changed(before, *self, l);
            if guard_count == 1 {
                lemma_unpin_part(before.abs(), l, Epoch { data: 0 });
                assert(self.abs() =~= unpin_part(before.abs(), l, Epoch { data: 0 }));
            } else {
                assert(self.abs() =~= before.abs());
            }
        }
    }
}

/// Marking what a hazard pointer protects is no more than tracing has to do.
proof fn lemma_hazard_traced(s: GcModel, l: int, a: u64)
    requires
        s.sound(),
        s.epoch.ph() == Phase::RT,
        0 <= l < s.parts.len(),
        s.parts[l].hazards.contains(a),
    ensures
        trace_step(s, marked(s, a), l),
{
    let t = marked(s, a);
    assert(s.live(a));
    lemma_marked(s, a);
    lemma_mark_shape(s, a, tasks_marked(s, a));
    assert forall|r: Set<u64>| #[trigger] within_cached(s, l, r) implies within_cached(t, l, r) by {
        lemma_marked_within(s, a, r);
        if t.parts[l].cached is Some {
            let c = (t.parts[l].cached->0).0;
            assert(cached_within(s, s.parts[l].cached, r));
            assert forall|x: u64| t.live(x) && #[trigger] c.contains(x) implies r.contains(x) by {
                assert(t.objs.contains_key(x));
            }
        }
    }
}

/// Marking is no more than a helper may do.
proof fn lemma_marked_helping<T: TraceObj>(
    a: Global<T>,
    b: Global<T>,
    l: int,
    gid: u64,
    tasks: Seq<u64>,
)
    requires
        0 <= l < a.nodes().len(),
        b.only_barriers(a, l, gid, tasks),
        b.books_kept(a),
    ensures
        b.only_helping(a, l),
{
}

/// What a participant has on its way in is that of before, and what it may have traced.
spec fn on_its_way(s: GcModel, t: GcModel, l: int) -> bool {
    &&& t.epoch == s.epoch
    &&& same_shape(s, t)
    &&& t.parts == s.parts.update(
        l,
        PartModel { epoch: t.parts[l].epoch, cached: t.parts[l].cached, ..s.parts[l] },
    )
    &&& !t.parts[l].pinned()
    &&& forall|r: Set<u64>| #[trigger] within(s, r) ==> within(t, r)
    &&& forall|x: u64| #[trigger] s.is_black(x) ==> t.is_black(x)
    &&& barrier_due(s, l) ==> forall|x: u64| #[trigger]
        s.parts[l].hazards.contains(x) ==> t.is_black(x)
    &&& !barrier_due(s, l) ==> t == s
}

/// Where no phase barrier is due, nothing happens on the way in.
proof fn lemma_stays_out<T: TraceObj>(gc: Global<T>, l: int)
    requires
        0 <= l < gc.nodes().len(),
        !gc.pinned(l),
        !barrier_due(gc.abs(), l),
    ensures
        gc.only_pins(gc, l),
        gc.only_local(gc, l),
        on_its_way(gc.abs(), gc.abs(), l),
{
    let s = gc.abs();
    assert(s.parts[l] == part_of(gc.nodes()[l]));
    assert(gc.nodes() =~= gc.nodes().update(l, gc.nodes()[l]));
    assert(s.parts =~= s.parts.update(
        l,
        PartModel { epoch: s.parts[l].epoch, cached: s.parts[l].cached, ..s.parts[l] },
    ));
    lemma_books_same(gc, gc);
}

/// The phase barrier has been run by a participant on its way in.
proof fn lemma_run_from<T: TraceObj>(before: Global<T>, begun: Global<T>, run: Global<T>, l: int)
    requires
        before.wf(),
        run.wf(),
        0 <= l < before.nodes().len(),
        !before.pinned(l),
        barrier_due(before.abs(), l),
        begun.only_local(before, l),
        begun.local(l) == (Local {
            epoch: before.epoch.data,
            cached_hazards: None,
            ..before.local(l)
        }),
        begun.abs() == coming_in(before.abs(), l),
        begun.books_kept(before),
        keeps_protected(before.abs(), begun.abs()),
        forall|r: Set<u64>| #[trigger] within(before.abs(), r) ==> within(begun.abs(), r),
        run.only_helping(begun, l),
        trace_step(begun.abs(), run.abs(), l),
        keeps_protected(begun.abs(), run.abs()),
        forall|x: u64| #[trigger]
            begun.abs().parts[l].hazards.contains(x) ==> run.abs().is_black(x),
    ensures
        run.only_pins(before, l),
        on_its_way(before.abs(), run.abs(), l),
        keeps_protected(before.abs(), run.abs()),
{
    let s = before.abs();
    let m = begun.abs();
    let t = run.abs();
    assert(s.parts[l] == part_of(before.nodes()[l]));
    assert forall|k: int| 0 <= k < run.nodes().len() && k != l implies #[trigger] run.nodes()[k]
        == before.nodes()[k] by {
        assert(run.nodes()[k] == begun.nodes()[k]);
    }
    lemma_books_on(before.books(), begun.books(), run.books(), Global::<T>::obj_size() as int);
    assert(t.parts =~= s.parts.update(
        l,
        PartModel { epoch: t.parts[l].epoch, cached: t.parts[l].cached, ..s.parts[l] },
    )) by {
        assert forall|k: int| 0 <= k < s.parts.len() implies #[trigger] t.parts[k] == (if k == l {
            PartModel { epoch: t.parts[l].epoch, cached: t.parts[l].cached, ..s.parts[l] }
        } else {
            s.parts[k]
        }) by {
            assert(t.parts[k] == (if k == l {
                PartModel { cached: t.parts[k].cached, ..m.parts[k] }
            } else {
                m.parts[k]
            }));
        }
    }
    assert(same_shape(s, m));
    lemma_shape_on(s, m, t);
    assert forall|r: Set<u64>| #[trigger] within(s, r) implies within(t, r) by {
        assert(within(m, r));
        assert(within_cached(m, l, r));
        assert(within_cached(t, l, r));
    }
    assert forall|x: u64| #[trigger] s.is_black(x) implies t.is_black(x) by {
        assert(m.is_black(x));
    }
    assert(m.parts[l].hazards == s.parts[l].hazards);
    assert(run.heap.objs().dom() =~= before.heap.objs().dom()) by {
        assert forall|x: u64| #[trigger] run.heap.objs().contains_key(x)
            == before.heap.objs().contains_key(x) by {
            assert(t.objs.contains_key(x) == s.live(x));
        }
    }
    assert(run.heap.objs().dom() =~= run.heap.payloads().dom());
    assert(before.heap.objs().dom() =~= before.heap.payloads().dom());
    assert(run.heap.payloads() =~= before.heap.payloads());
}

/// A participant on its way in is pinned.
proof fn lemma_counted_in<T: TraceObj>(before: Global<T>, run: Global<T>, after: Global<T>, l: int)
    requires
        0 <= l < before.nodes().len(),
        before.local(l).guard_count == 0,
        run.only_pins(before, l),
        on_its_way(before.abs(), run.abs(), l),
        after.only_local(run, l),
        after.local(l) == (Local {
            guard_count: after.local(l).guard_count,
            epoch: after.local(l).epoch,
            last_observed: after.local(l).last_observed,
            ..run.local(l)
        }),
        after.abs() == pin_part(run.abs(), l),
        after.books_kept(run),
    ensures
        after.only_pins(before, l),
        entered(before.abs(), after.abs(), l),
{
    let s = before.abs();
    let m = run.abs();
    let t = after.abs();
    assert forall|k: int| 0 <= k < after.nodes().len() && k != l implies #[trigger] after.nodes()[k]
        == before.nodes()[k] by {
        assert(after.nodes()[k] == run.nodes()[k]);
    }
    lemma_books_on(before.books(), run.books(), after.books(), Global::<T>::obj_size() as int);
    assert(t.parts =~= s.parts.update(
        l,
        PartModel { cached: t.parts[l].cached, ..pin_part(s, l).parts[l] },
    ));
    assert(same_shape(m, t));
    lemma_shape_on(s, m, t);
    assert forall|r: Set<u64>| #[trigger] within(s, r) implies within(t, r) by {
        assert(within(m, r));
        assert forall|k: int, x: u64|
            0 <= k < t.parts.len() && #[trigger] t.parts[k].hazards.contains(
                x,
            ) implies r.contains(x) by {
            assert(m.parts[k].hazards.contains(x));
        }
        assert forall|x: u64| #[trigger] t.is_black(x) implies r.contains(x) by {
            assert(m.is_black(x));
        }
    }
    assert forall|x: u64| #[trigger] s.is_black(x) implies t.is_black(x) by {
        assert(m.is_black(x));
    }
    if barrier_due(s, l) {
        assert forall|x: u64| #[trigger] s.parts[l].hazards.contains(x) implies t.is_black(x) by {
            assert(m.is_black(x));
        }
    }
}

/// A participant has been pinned after its guard was given a number.
proof fn lemma_pinned_numbered<T: TraceObj>(
    before: Global<T>,
    numbered: Global<T>,
    after: Global<T>,
    guard: Guard,
)
    requires
        guard.lid < before.nodes().len(),
        !before.pinned(guard.lid as int),
        numbered.abs() == before.abs(),
        numbered.only_local(before, guard.lid as int),
        numbered.local(guard.lid as int) == (Local {
            next_guard: guard.gid.wrapping_add(1),
            should_help: numbered.local(guard.lid as int).should_help,
            ..before.local(guard.lid as int)
        }),
        guard.is_not_asked(before, numbered),
        numbered.books_kept(before),
        after.only_pins(numbered, guard.lid as int),
        guard.has_entered_freshly(numbered, after),
        forall|g: u64| #[trigger]
            after.local(guard.lid as int).should_help@.contains(g) <==> numbered.local(
                guard.lid as int,
            ).should_help@.contains(g),
    ensures
        guard.has_entered(before, after),
        guard.is_not_asked(before, after),
        after.only_pins(before, guard.lid as int),
{
    let l = guard.lid as int;
    let run = choose|run: Global<T>|
        #![trigger guard.has_come_in(numbered, run), guard.has_counted(run, after)]
        guard.has_come_in(numbered, run) && guard.has_counted(run, after);
    let begun = choose|begun: Global<T>| #[trigger]
        guard.has_come(numbered, begun) && (if barrier_due(numbered.abs(), l) {
            hazards_marked(begun, run, guard, numbered.local(l).hazards@)
        } else {
            run == begun
        });
    assert(begun.nodes() =~= before.nodes().update(l, begun.nodes()[l]));
    assert(guard.has_begun(before, begun));
    assert(guard.has_counted(run, after));
    assert forall|k: int| 0 <= k < after.nodes().len() && k != l implies #[trigger] after.nodes()[k]
        == before.nodes()[k] by {
        assert(after.nodes()[k] == numbered.nodes()[k]);
    }
    lemma_books_on(
        before.books(),
        numbered.books(),
        after.books(),
        Global::<T>::obj_size() as int,
    );
}

} // verus!
