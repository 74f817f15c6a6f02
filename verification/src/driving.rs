//! When a collection cycle runs, and who runs it.

use crate::accounts::{lemma_books_none, lemma_books_on, lemma_books_same};
use crate::collector::{
    at_rest, goes_on, lemma_caught_up_same, lemma_swept_nothing, nobody_pinned, reclaimed_exactly,
    traced, traces_on,
};
use crate::config::{mode_of, CollectionMode};
use crate::epoch::{Color, Epoch, Phase, TIMESTAMP_LIMIT};
use crate::global::Global;
use crate::guards::{helped, Guard, Handle};
use crate::settings::lemma_settings;
use crate::stats::CollectionStats;
use crate::steps::{
    caught_up, is_next_epoch, keeps_protected, lemma_surviving_on, set_epoch, surviving, unpin_part,
};
use crate::survival::{lemma_helped_spares, lemma_shape_spares, lemma_spares_on, spares};
use crate::model::GcModel;
use crate::sweeping::{lemma_sweeps_surviving, sweeps};
use crate::trace::TraceObj;
use vstd::multiset::Multiset;
use vstd::prelude::*;

verus! {

/// What the statistics say of the need for a collection: the heap is over its limit, or would be
/// before a collection ends.
pub open spec fn pressing(c: CollectionStats, usage: usize) -> bool {
    let limit = c.desired_heap_limit;
    let rate = c.alloc_per_ms_smooth - c.reclm_per_ms_smooth;
    if limit < usage {
        true
    } else if rate < 0 {
        usage >= limit
    } else if rate == 0 {
        false
    } else {
        (limit - usage) / rate <= c.coll_time_ms_smooth
    }
}

impl<T: TraceObj> Global<T> {
    /// A collection is called for.
    pub open spec fn collection_due(self) -> bool {
        self.collection_enabled && (self.collection_requested || pressing(
            self.cstats,
            self.heap_usage(),
        ))
    }

    /// Returns `true` if a collection is called for.
    pub fn is_collection_necessary(&self) -> (r: bool)
        ensures
            r == self.collection_due(),
    {
        if !self.collection_enabled {
            return false;
        }
        if self.collection_requested {
            return true;
        }
        let heap_usage: usize = self.estimate_heap_usage();
        let heap_limit: usize = self.cstats.desired_heap_limit;
        if heap_limit < heap_usage {
            return true;
        }
        let alloc_rate: usize = self.cstats.alloc_per_ms_smooth;
        let reclm_rate: usize = self.cstats.reclm_per_ms_smooth;
        if alloc_rate < reclm_rate {
            return heap_usage >= heap_limit;
        }
        let pure_alloc_rate: usize = alloc_rate - reclm_rate;
        if pure_alloc_rate == 0 {
            return false;
        }
        let oom_time_ms: usize = (heap_limit - heap_usage) / pure_alloc_rate;
        oom_time_ms <= self.cstats.coll_time_ms_smooth
    }

    /// The settings are the same, and so are the statistics that the limit of the heap comes of.
    pub open spec fn same_settings(self, before: Self) -> bool {
        &&& self.collection_enabled == before.collection_enabled
        &&& self.headroom == before.headroom
        &&& self.collector_threads == before.collector_threads
        &&& self.collection_mode == before.collection_mode
        &&& self.registry == before.registry
        &&& self.has_threads == before.has_threads
        &&& self.hbstats == before.hbstats
        &&& self.cstats == before.cstats
    }

    /// What a participant that runs a collection cycle may have changed.
    pub open spec fn only_driving(self, before: Self, l: int) -> bool {
        (Global {
            collection_requested: before.collection_requested,
            driving: before.driving,
            ..self
        }).only_collecting(before, l)
    }

    /// A cycle can begin or go on: somebody else does not run one already, and the last one is
    /// over.
    pub open spec fn can_drive(self) -> bool {
        !self.driving && (self.abs().tracing() || caught_up(self.abs()))
    }

    /// A cycle has been run if one was called for and could be, as far as it gets. It stays to be
    /// resumed if somebody holds it up.
    pub open spec fn has_driven(self, before: Self) -> bool {
        let s = before.abs();
        let t = self.abs();
        let ran = before.collection_due() && before.can_drive();
        &&& !ran ==> self == before
        &&& ran ==> !self.collection_requested
        &&& ran && !self.driving ==> at_rest(t) && t.white() == s.white().flipped()
        &&& ran && t.tracing() ==> t.white() == s.white()
        &&& ran && caught_up(s) ==> t.epoch.ts() > s.epoch.ts()
        &&& ran && s.tracing() ==> goes_on(s, t, !self.driving)
        &&& ran && nobody_pinned(s) ==> !self.driving
        &&& ran && !s.tracing() && nobody_pinned(s) ==> reclaimed_exactly(s, t)
        &&& ran && !s.tracing() && !nobody_pinned(s) ==> self.driving && t.epoch.ph() == Phase::RT
        &&& ran && at_rest(s) && !nobody_pinned(s) ==> traced(s, t)
    }

    /// Runs a collection cycle if one is called for and nobody runs one already. Returns `true`
    /// if it did. Where somebody has to unpin before the cycle can end, the caller has to wait and
    /// to go on with [`resume_collection`](Self::resume_collection) until it does.
    pub fn drive_collection_if_necessary(&mut self, handle: &Handle) -> (r: bool)
        requires
            old(self).wf(),
            old(self).knows(*handle),
            !old(self).pinned(handle.lid as int),
            old(self).epoch.data.ts() + 4 < TIMESTAMP_LIMIT,
        ensures
            final(self).wf(),
            final(self).knows(*handle),
            !final(self).pinned(handle.lid as int),
            final(self).only_driving(*old(self), handle.lid as int),
            final(self).same_settings(*old(self)),
            keeps_protected(old(self).abs(), final(self).abs()),
            surviving(old(self).abs(), final(self).abs()),
            spares(old(self).abs(), final(self).abs()),
            final(self).epoch.data.ts() <= old(self).epoch.data.ts() + 4,
            r == (old(self).collection_due() && old(self).can_drive()),
            final(self).has_driven(*old(self)),
    {
        let ghost before = *self;
        let ghost l = handle.lid as int;
        proof {
            lemma_driving_none(before, *self, l);
            lemma_shape_spares(before.abs(), before.abs());
        }
        if !self.is_collection_necessary() {
            return false;
        }
        if self.driving {
            return false;
        }
        let epoch: Epoch = self.epoch.load();
        if epoch.phase() == Phase::N && !self.all_mutators_unpinned(epoch.timestamp()) {
            return false;
        }
        self.driving = true;
        self.collection_requested = false;
        let ghost begun = *self;
        proof {
            lemma_settings(before, begun);
        }
        let finished: bool = self.collect_once(handle);
        let ghost done = *self;
        if finished {
            self.driving = false;
        }
        proof {
            lemma_settings(done, *self);
            lemma_driving(before, begun, done, *self, l);
        }
        true
    }

    /// Goes on with a cycle that could not end. Returns `true` if there is none, or once it has
    /// ended. No other cycle begins, and nothing happens while collection is paused.
    pub fn resume_collection(&mut self, handle: &Handle) -> (r: bool)
        requires
            old(self).wf(),
            old(self).knows(*handle),
            !old(self).pinned(handle.lid as int),
            old(self).epoch.data.ts() + 4 < TIMESTAMP_LIMIT,
        ensures
            final(self).wf(),
            final(self).knows(*handle),
            !final(self).pinned(handle.lid as int),
            final(self).only_driving(*old(self), handle.lid as int),
            final(self).collection_requested == old(self).collection_requested,
            final(self).same_settings(*old(self)),
            keeps_protected(old(self).abs(), final(self).abs()),
            surviving(old(self).abs(), final(self).abs()),
            spares(old(self).abs(), final(self).abs()),
            final(self).epoch.data.ts() <= old(self).epoch.data.ts() + 4,
            r == !final(self).driving,
            !old(self).driving || !old(self).collection_enabled ==> *final(self) == *old(self),
            old(self).driving && r ==> at_rest(final(self).abs()),
            ({
                let s = old(self).abs();
                let t = final(self).abs();
                let goes = old(self).driving && old(self).collection_enabled;
                &&& goes && nobody_pinned(s) ==> r
                &&& goes && s.tracing() ==> goes_on(s, t, r)
                // The cycle has come to its normal phase and only has to end.
                &&& goes && !s.tracing() ==> r == caught_up(s) && final(self).epoch == old(
                    self).epoch && sweeps(s, t)
            }),
    {
        let ghost before = *self;
        let ghost l = handle.lid as int;
        proof {
            lemma_driving_none(before, *self, l);
            lemma_shape_spares(before.abs(), before.abs());
        }
        if !self.driving {
            return true;
        }
        if !self.collection_enabled {
            return false;
        }
        let finished: bool = self.continue_cycle(handle);
        let ghost done = *self;
        if finished {
            self.driving = false;
        }
        proof {
            lemma_settings(done, *self);
            lemma_driving(before, before, done, *self, l);
        }
        finished
    }

    /// A cycle has been begun if one was called for and could be. Where one was in a tracing phase,
    /// it is to be gone on with.
    pub open spec fn has_begun_cycle(self, before: Self) -> bool {
        let s = before.abs();
        let began = before.collection_due() && before.can_drive();
        &&& !began ==> self == before
        &&& began ==> self.driving && !self.collection_requested
        &&& began && s.tracing() ==> self == (Global {
            driving: true,
            collection_requested: false,
            ..before
        })
        &&& began && !s.tracing() ==> is_next_epoch(
            before.epoch.data,
            Phase::RT,
            s.white(),
            self.epoch.data,
        ) && sweeps(s, set_epoch(self.abs(), before.epoch.data)) && self.abs().scanned_of(s.black())
            == Multiset::<u64>::empty()
    }

    /// A cycle that is being run has been taken a stage further.
    pub open spec fn has_advanced(self, before: Self) -> bool {
        let s = before.abs();
        let t = self.abs();
        let goes = before.driving && before.collection_enabled;
        &&& !goes ==> self == before
        &&& goes && s.tracing() ==> self.driving && traces_on(s, t, !t.tracing())
        &&& goes && s.tracing() && nobody_pinned(s) ==> !t.tracing() && nobody_pinned(t)
        &&& goes && !s.tracing() ==> self.driving == !caught_up(s) && self.epoch == before.epoch
            && sweeps(s, t) && t.scanned_of(s.black()) == Multiset::<u64>::empty()
    }

    /// Begins a cycle if one is called for and nobody runs one already, and leaves it to be gone
    /// on with. Returns `true` if it did.
    pub fn begin_collection(&mut self, handle: &Handle) -> (r: bool)
        requires
            old(self).wf(),
            old(self).knows(*handle),
            !old(self).pinned(handle.lid as int),
            old(self).epoch.data.ts() + 1 < TIMESTAMP_LIMIT,
        ensures
            final(self).wf(),
            final(self).knows(*handle),
            !final(self).pinned(handle.lid as int),
            final(self).only_driving(*old(self), handle.lid as int),
            final(self).same_settings(*old(self)),
            keeps_protected(old(self).abs(), final(self).abs()),
            surviving(old(self).abs(), final(self).abs()),
            spares(old(self).abs(), final(self).abs()),
            r == (old(self).collection_due() && old(self).can_drive()),
            final(self).has_begun_cycle(*old(self)),
    {
        let ghost before = *self;
        let ghost l = handle.lid as int;
        proof {
            lemma_driving_none(before, *self, l);
            lemma_shape_spares(before.abs(), before.abs());
        }
        if !self.is_collection_necessary() || self.driving {
            return false;
        }
        let epoch: Epoch = self.epoch.load();
        if epoch.phase() == Phase::N && !self.all_mutators_unpinned(epoch.timestamp()) {
            return false;
        }
        self.driving = true;
        self.collection_requested = false;
        let ghost begun = *self;
        proof {
            lemma_settings(before, begun);
            lemma_driving_none(before, begun, l);
        }
        if epoch.phase() == Phase::N {
            self.begin_cycle(handle);
            proof {
                lemma_driving(before, begun, *self, *self, l);
            }
        }
        true
    }

    /// A participant that is not pinned can get a cycle on by helping: there are batches to be
    /// swept or scanned, or it has tasks left.
    pub open spec fn pieces_left(self, l: int) -> bool {
        let s = self.abs();
        if s.tracing() {
            s.synced() && ((s.epoch.ph() == Phase::RT && self.fresh_objs.batches(s.white()) > 0)
                || self.local(l).mark_tasks.items().len() > 0)
        } else {
            self.marked_objs.batches(s.black()) > 0
        }
    }

    /// Returns `true` if a participant that is not pinned can get a cycle on by helping.
    pub fn has_pieces(&self, handle: &Handle) -> (r: bool)
        requires
            self.wf(),
            self.knows(*handle),
        ensures
            r == self.pieces_left(handle.lid as int),
    {
        let epoch: Epoch = self.epoch.load();
        let white: Color = epoch.color();
        assert(self.nodes()[handle.lid as int].item.wf());
        if epoch.phase() == Phase::N {
            return !self.marked_objs.is_list_empty(white.flip());
        }
        if !self.is_tracing_synced() {
            return false;
        }
        if epoch.phase() == Phase::RT && !self.fresh_objs.is_list_empty(white) {
            return true;
        }
        !self.locals.nodes[handle.lid].item.mark_tasks.is_empty()
    }

    /// Takes a cycle that is being run a stage further: traces to the end, or sweeps what is left
    /// and ends the cycle. What has been done of a stage in small pieces, by helping, is not done
    /// again. Returns `true` if there is no cycle, or once it has ended. Nothing happens while
    /// collection is paused.
    pub fn advance_collection(&mut self, handle: &Handle) -> (r: bool)
        requires
            old(self).wf(),
            old(self).knows(*handle),
            !old(self).pinned(handle.lid as int),
            old(self).epoch.data.ts() + 3 < TIMESTAMP_LIMIT,
        ensures
            final(self).wf(),
            final(self).knows(*handle),
            !final(self).pinned(handle.lid as int),
            final(self).only_driving(*old(self), handle.lid as int),
            final(self).collection_requested == old(self).collection_requested,
            final(self).same_settings(*old(self)),
            keeps_protected(old(self).abs(), final(self).abs()),
            surviving(old(self).abs(), final(self).abs()),
            spares(old(self).abs(), final(self).abs()),
            final(self).epoch.data.ts() <= old(self).epoch.data.ts() + 3,
            r == !final(self).driving,
            final(self).has_advanced(*old(self)),
    {
        let ghost before = *self;
        let ghost l = handle.lid as int;
        proof {
            lemma_driving_none(before, *self, l);
            lemma_shape_spares(before.abs(), before.abs());
        }
        if !self.driving {
            return true;
        }
        if !self.collection_enabled {
            return false;
        }
        if self.epoch.load().phase() != Phase::N {
            self.finish_tracing(handle);
            proof {
                lemma_driving(before, before, *self, *self, l);
                assert(surviving(before.abs(), self.abs()));
                lemma_shape_spares(before.abs(), self.abs());
            }
            return false;
        }
        let finished: bool = self.continue_cycle(handle);
        let ghost done = *self;
        if finished {
            self.driving = false;
        }
        proof {
            lemma_settings(done, *self);
            lemma_driving(before, before, done, *self, l);
        }
        finished
    }

    /// Asks for a collection. Where mutators drive collection themselves and the caller is not
    /// pinned, it takes place now. Where somebody else has to unpin before it can end, the caller
    /// has to wait and to go on with [`resume_collection`](Self::resume_collection) until it does.
    pub fn request_collection(&mut self, handle: &Handle)
        requires
            old(self).wf(),
            old(self).knows(*handle),
            old(self).epoch.data.ts() + 4 < TIMESTAMP_LIMIT,
        ensures
            final(self).wf(),
            final(self).knows(*handle),
            final(self).pinned(handle.lid as int) == old(self).pinned(handle.lid as int),
            final(self).only_driving(*old(self), handle.lid as int),
            final(self).same_settings(*old(self)),
            keeps_protected(old(self).abs(), final(self).abs()),
            surviving(old(self).abs(), final(self).abs()),
            spares(old(self).abs(), final(self).abs()),
            final(self).epoch.data.ts() <= old(self).epoch.data.ts() + 4,
            ({
                let now = mode_of(old(self).collection_mode) == CollectionMode::Cooperative && !old(
                    self).pinned(handle.lid as int) && old(self).collection_enabled && old(
                    self).can_drive();
                let s = old(self).abs();
                let t = final(self).abs();
                &&& !now ==> *final(self) == (Global { collection_requested: true, ..*old(self) })
                &&& now ==> !final(self).collection_requested
                &&& now && nobody_pinned(s) ==> at_rest(t) && !final(self).driving && t.white()
                    == s.white().flipped()
                &&& now && !s.tracing() && nobody_pinned(s) ==> reclaimed_exactly(s, t)
                &&& now ==> final(self).has_driven(
                    (Global { collection_requested: true, ..*old(self) }),
                )
            }),
    {
        let ghost before = *self;
        let ghost l = handle.lid as int;
        self.collection_requested = true;
        let ghost asked = *self;
        proof {
            lemma_settings(before, asked);
            lemma_driving_none(before, asked, l);
            lemma_shape_spares(before.abs(), before.abs());
        }
        if self.collection_mode() == CollectionMode::Cooperative && !handle.is_pinned(self) {
            self.drive_collection_if_necessary(handle);
            proof {
                lemma_driving_on(before, asked, *self, l);
            }
        }
    }
}

/// A cycle has been run.
proof fn lemma_driving<T: TraceObj>(
    before: Global<T>,
    begun: Global<T>,
    done: Global<T>,
    after: Global<T>,
    l: int,
)
    requires
        0 <= l < before.nodes().len(),
        begun == (Global {
            collection_requested: begun.collection_requested,
            driving: begun.driving,
            ..before
        }),
        done.only_collecting(begun, l),
        after == (Global { driving: after.driving, ..done }),
    ensures
        after.only_driving(before, l),
{
    let a = Global {
        collection_requested: before.collection_requested,
        driving: before.driving,
        ..after
    };
    assert forall|k: int| 0 <= k < before.nodes().len() implies (#[trigger] a.nodes()[k]).using
        == before.nodes()[k].using by {
        assert(done.nodes()[k].using == begun.nodes()[k].using);
    }
    assert forall|k: int| 0 <= k < before.nodes().len() && k != l implies (
    #[trigger] a.nodes()[k]).item.same_but_lists(before.local(k)) by {
        assert(done.nodes()[k].item.same_but_lists(begun.local(k)));
    }
    assert forall|x: u64| #[trigger]
        a.heap.payloads().contains_key(x) implies before.heap.payloads().contains_key(x) && a.heap.payloads()[x] == before.heap.payloads()[x] by {
        assert(done.heap.payloads().contains_key(x));
    }
}

/// No cycle has been run.
proof fn lemma_driving_none<T: TraceObj>(before: Global<T>, after: Global<T>, l: int)
    requires
        0 <= l < before.nodes().len(),
        after == (Global {
            collection_requested: after.collection_requested,
            driving: after.driving,
            ..before
        }),
    ensures
        after.only_driving(before, l),
{
    lemma_books_none(before.books(), Global::<T>::obj_size() as int);
}

/// A cycle has been run after it has been asked for.
proof fn lemma_driving_on<T: TraceObj>(before: Global<T>, asked: Global<T>, after: Global<T>, l: int)
    requires
        0 <= l < before.nodes().len(),
        asked == (Global { collection_requested: asked.collection_requested, ..before }),
        after.only_driving(asked, l),
    ensures
        after.only_driving(before, l),
{
    let a = Global {
        collection_requested: before.collection_requested,
        driving: before.driving,
        ..after
    };
    let b = Global {
        collection_requested: asked.collection_requested,
        driving: asked.driving,
        ..after
    };
    assert forall|k: int| 0 <= k < before.nodes().len() implies (#[trigger] a.nodes()[k]).using
        == before.nodes()[k].using by {
        assert(b.nodes()[k].using == asked.nodes()[k].using);
    }
    assert forall|k: int| 0 <= k < before.nodes().len() && k != l implies (
    #[trigger] a.nodes()[k]).item.same_but_lists(before.local(k)) by {
        assert(b.nodes()[k].item.same_but_lists(asked.local(k)));
    }
    assert forall|x: u64| #[trigger]
        a.heap.payloads().contains_key(x) implies before.heap.payloads().contains_key(x) && a.heap.payloads()[x] == before.heap.payloads()[x] by {
        assert(b.heap.payloads().contains_key(x));
    }
}

/// What is left of a state when one of the guards of a participant leaves.
pub open spec fn left_by(s: GcModel, l: int, last: bool) -> GcModel {
    if last {
        unpin_part(s, l, Epoch { data: 0 })
    } else {
        s
    }
}

/// Help does not change who is pinned.
proof fn lemma_left_pinned(s: GcModel, t: GcModel, l: int)
    requires
        helped(s, t, l),
        0 <= l < s.parts.len(),
    ensures
        nobody_pinned(left_by(t, l, true)) == nobody_pinned(left_by(s, l, true)),
        caught_up(left_by(t, l, true)) == caught_up(left_by(s, l, true)),
        left_by(t, l, true).epoch == s.epoch,
{
    let u = left_by(s, l, true);
    let v = left_by(t, l, true);
    assert(v.parts.len() == u.parts.len());
    assert forall|k: int| 0 <= k < u.parts.len() implies (#[trigger] u.parts[k]).epoch
        == v.parts[k].epoch && u.parts[k].pinned() == v.parts[k].pinned() by {}
    if nobody_pinned(u) {
        assert forall|k: int| 0 <= k < v.parts.len() implies !(#[trigger] v.parts[k]).pinned() by {
            assert(!u.parts[k].pinned());
        }
    }
    if nobody_pinned(v) {
        assert forall|k: int| 0 <= k < u.parts.len() implies !(#[trigger] u.parts[k]).pinned() by {
            assert(!v.parts[k].pinned());
        }
    }
    if caught_up(u) {
        assert forall|k: int|
            0 <= k < v.parts.len() && (#[trigger] v.parts[k]).pinned() implies v.parts[k].epoch.ts()
            == v.epoch.ts() by {
            assert(u.parts[k].pinned());
        }
    }
    if caught_up(v) {
        assert forall|k: int|
            0 <= k < u.parts.len() && (#[trigger] u.parts[k]).pinned() implies u.parts[k].epoch.ts()
            == u.epoch.ts() by {
            assert(v.parts[k].pinned());
        }
    }
}

/// Between two cycles, help finds nothing to do, and it stays so when somebody leaves.
proof fn lemma_rest_left(s: GcModel, t: GcModel, u: GcModel)
    requires
        s.sound(),
        t.sound(),
        at_rest(s),
        sweeps(s, t),
        u.objs == t.objs,
        u.epoch == t.epoch,
        u.scanned == t.scanned,
        u.parts.len() == t.parts.len(),
        forall|k: int|
            0 <= k < t.parts.len() ==> (#[trigger] u.parts[k]) == t.parts[k] || !u.parts[k].pinned(),
    ensures
        at_rest(u),
        u.objs == s.objs,
{
    lemma_swept_nothing(s, t);
    lemma_caught_up_same(s, t);
    assert(t.scanned_of(s.black()) =~= Multiset::<u64>::empty());
    assert forall|l: int|
        0 <= l < u.parts.len() && (#[trigger] u.parts[l]).pinned() implies u.parts[l].epoch.ts()
        == u.epoch.ts() by {
        assert(t.parts[l].pinned());
    }
}

/// Running a cycle does not touch hazard pointers.
proof fn lemma_hps_driven<T: TraceObj>(a: Global<T>, b: Global<T>, c: Global<T>, l: int)
    requires
        0 <= l < a.nodes().len(),
        b.keeps_hps(a),
        c.only_driving(b, l),
        b.others_stay(a, l),
    ensures
        c.keeps_hps(a),
        c.others_stay(a, l),
{
    let d = Global {
        collection_requested: b.collection_requested,
        driving: b.driving,
        ..c
    };
    assert forall|k: int| 0 <= k < a.nodes().len() implies (#[trigger] c.nodes()[k]).using
        == a.nodes()[k].using && c.nodes()[k].item.same_protection(a.local(k)) by {
        assert(b.nodes()[k].using == a.nodes()[k].using);
        assert(d.nodes()[k].using == b.nodes()[k].using);
        if k != l {
            assert(d.nodes()[k].item.same_but_lists(b.local(k)));
        }
    }
    assert forall|k: int| 0 <= k < a.nodes().len() && k != l implies (
    #[trigger] c.nodes()[k]).item.same_but_lists(a.local(k)) by {
        assert(b.nodes()[k].item.same_but_lists(a.local(k)));
        assert(d.nodes()[k].item.same_but_lists(b.local(k)));
    }
}

impl Guard {
    /// The guard has left: it has helped if it was asked to, and its participant is no longer
    /// pinned if it was its last guard.
    pub open spec fn has_left<T: TraceObj>(self, before: Global<T>, after: Global<T>) -> bool {
        let l = self.lid as int;
        let last = before.local(l).guard_count == 1;
        &&& after.wf()
        &&& after == (Global {
            heap: after.heap,
            locals: after.locals,
            fresh_objs: after.fresh_objs,
            marked_objs: after.marked_objs,
            stats: after.stats,
            ..before
        })
        &&& after.nodes().len() == before.nodes().len()
        &&& forall|k: int|
            0 <= k < before.nodes().len() && k != l ==> #[trigger] after.nodes()[k]
                == before.nodes()[k]
        &&& after.local(l).guard_count == before.local(l).guard_count - 1
        &&& after.pinned(l) == !last
        &&& after.keeps_payloads(before)
        &&& after.keeps_hps(before)
        &&& after.books_kept(before)
        &&& spares(before.abs(), after.abs())
        &&& exists|mid: Global<T>| #[trigger]
            self.has_helped_if_asked(before, mid) && self.has_gone(mid, after)
    }

    /// The guard no longer counts, and nothing is left of it. Its participant is no longer pinned
    /// if it was its last guard.
    pub open spec fn has_gone<T: TraceObj>(self, before: Global<T>, after: Global<T>) -> bool {
        let l = self.lid as int;
        exists|forgotten: Global<T>| #[trigger]
            self.has_taken_request(before, forgotten) && after.is_unpinned(forgotten, l)
    }

    /// The guard has been given back: it has left, and a collection has taken place where it was
    /// the last one, mutators drive collection and one was called for then.
    pub open spec fn has_released<T: TraceObj>(self, before: Global<T>, after: Global<T>) -> bool {
        exists|mid: Global<T>| #[trigger]
            self.has_left(before, mid) && (if !mid.pinned(self.lid as int) && mode_of(
                mid.collection_mode,
            ) == CollectionMode::Cooperative {
                after.has_driven(mid)
            } else {
                after == mid
            })
    }

    /// Gives the guard back. It first helps the collector if it has been asked to. Where mutators
    /// drive collection themselves, leaving the last critical section is where a collection takes
    /// place that is called for.
    #[verifier::rlimit(40)]
    pub fn release<T: TraceObj>(self, gc: &mut Global<T>)
        requires
            old(gc).wf(),
            old(gc).guarded(self),
            old(gc).epoch.data.ts() + 4 < TIMESTAMP_LIMIT,
        ensures
            final(gc).wf(),
            final(gc).pinned(self.lid as int) == (old(gc).local(self.lid as int).guard_count > 1),
            final(gc).local(self.lid as int).guard_count == old(gc).local(
                self.lid as int,
            ).guard_count - 1,
            final(gc).keeps_payloads(*old(gc)),
            final(gc).books_kept(*old(gc)),
            final(gc).others_stay(*old(gc), self.lid as int),
            keeps_protected(old(gc).abs(), final(gc).abs()),
            surviving(old(gc).abs(), final(gc).abs()),
            spares(old(gc).abs(), final(gc).abs()),
            final(gc).keeps_hps(*old(gc)),
            final(gc).epoch.data.ts() <= old(gc).epoch.data.ts() + 4,
            final(gc).same_settings(*old(gc)),
            ({
                let l = self.lid as int;
                let asked = old(gc).local(l).should_help@.contains(self.gid);
                let last = old(gc).local(l).guard_count == 1;
                let left = left_by(old(gc).abs(), l, true);
                let drives = last && mode_of(old(gc).collection_mode) == CollectionMode::Cooperative;
                let open = !old(gc).driving && (left.tracing() || caught_up(left));
                let collects = drives && old(gc).collection_due() && open;
                let requested = drives && old(gc).collection_enabled && old(
                    gc).collection_requested && open;
                let b = old(gc).abs().black();
                &&& !asked && !last ==> final(gc).abs() == old(gc).abs()
                &&& !asked && last && !collects ==> final(gc).abs() == left
                &&& (requested || !asked && collects) && nobody_pinned(left) ==> at_rest(
                    final(gc).abs(),
                ) && !final(gc).collection_requested && !final(gc).driving && final(gc).abs().white()
                    == left.white().flipped()
                &&& !asked && collects && nobody_pinned(left) && !left.tracing()
                    ==> reclaimed_exactly(left, final(gc).abs())
                &&& !drives ==> final(gc).epoch == old(gc).epoch
                &&& !drives && at_rest(old(gc).abs()) ==> at_rest(final(gc).abs()) && final(
                    gc).abs().objs == old(gc).abs().objs
                &&& !drives && !old(gc).abs().tracing() ==> final(gc).marked_objs.batches(b)
                    <= old(gc).marked_objs.batches(b)
            }),
            self.has_released(*old(gc), *final(gc)),
    {
        let ghost before = *gc;
        let ghost l = self.lid as int;
        self.help_collect_if_scheduled(gc);
        let ghost helped_gc = *gc;
        gc.take_request(self.lid, self.gid);
        let ghost forgotten = *gc;
        gc.unpin_inner(self.lid);
        let ghost unpinned = *gc;
        let handle = Handle { lid: self.lid };
        proof {
            assert(before.abs().part_ok(before.abs().parts[l]));
            assert(before.abs().parts[l] == crate::internal::part_of(before.nodes()[l]));
            assert(unpinned.nodes()[l].item.wf());
            if !before.abs().tracing() {
                lemma_sweeps_surviving(before.abs(), helped_gc.abs());
            }
            assert(surviving(before.abs(), helped_gc.abs()));
            assert(surviving(helped_gc.abs(), unpinned.abs()));
            lemma_surviving_on(before.abs(), helped_gc.abs(), unpinned.abs());
            lemma_helped_spares(before.abs(), helped_gc.abs(), l);
            assert forall|k: int| 0 <= k < helped_gc.abs().parts.len() implies (
            #[trigger] unpinned.abs().parts[k]).hazards == helped_gc.abs().parts[k].hazards
                && unpinned.abs().parts[k].using == helped_gc.abs().parts[k].using by {
                assert(unpinned.abs().parts[k] == crate::internal::part_of(unpinned.nodes()[k]));
                assert(helped_gc.abs().parts[k] == crate::internal::part_of(helped_gc.nodes()[k]));
            }
            lemma_shape_spares(helped_gc.abs(), unpinned.abs());
            lemma_spares_on(before.abs(), helped_gc.abs(), unpinned.abs());
            assert(unpinned.keeps_hps(before));
            if at_rest(before.abs()) {
                lemma_rest_left(before.abs(), helped_gc.abs(), unpinned.abs());
            }
            lemma_books_same(helped_gc, unpinned);
            lemma_books_on(
                before.books(),
                helped_gc.books(),
                unpinned.books(),
                Global::<T>::obj_size() as int,
            );
            let last = before.local(l).guard_count == 1;
            assert(unpinned.abs() == left_by(helped_gc.abs(), l, last));
            assert(self.has_helped_if_asked(before, helped_gc));
            assert(self.has_taken_request(helped_gc, forgotten));
            assert(unpinned.is_unpinned(forgotten, l));
            assert(self.has_gone(helped_gc, unpinned));
            assert(self.has_left(before, unpinned));
            lemma_left_pinned(before.abs(), helped_gc.abs(), l);
        }
        if !handle.is_pinned(gc) && gc.collection_mode() == CollectionMode::Cooperative {
            gc.drive_collection_if_necessary(&handle);
            proof {
                lemma_surviving_on(before.abs(), unpinned.abs(), gc.abs());
                lemma_spares_on(before.abs(), unpinned.abs(), gc.abs());
                lemma_hps_driven(before, unpinned, *gc, l);
                lemma_books_on(
                    before.books(),
                    unpinned.books(),
                    gc.books(),
                    Global::<T>::obj_size() as int,
                );
            }
        }
    }
}

impl Handle {
    /// The participant has been pinned, has helped, and its guard has been given back.
    pub open spec fn has_helped_along<T: TraceObj>(
        self,
        before: Global<T>,
        after: Global<T>,
    ) -> bool {
        exists|guard: Guard, pinned: Global<T>, helped: Global<T>|
            #![trigger self.has_pinned(before, guard, pinned), guard.has_released(helped, after)]
            self.has_pinned(before, guard, pinned) && guard.has_helped(pinned, helped)
                && guard.has_released(helped, after)
    }

    /// Voluntarily assists the collector with pending work. The participant is pinned meanwhile.
    pub fn help_collect<T: TraceObj>(&self, gc: &mut Global<T>)
        requires
            old(gc).wf(),
            old(gc).knows(*self),
            old(gc).local(self.lid as int).guard_count < usize::MAX,
            old(gc).epoch.data.ts() + 4 < TIMESTAMP_LIMIT,
        ensures
            final(gc).wf(),
            final(gc).local(self.lid as int).guard_count == old(gc).local(
                self.lid as int,
            ).guard_count,
            keeps_protected(old(gc).abs(), final(gc).abs()),
            surviving(old(gc).abs(), final(gc).abs()),
            final(gc).keeps_payloads(*old(gc)),
            final(gc).books_kept(*old(gc)),
            spares(old(gc).abs(), final(gc).abs()),
            final(gc).keeps_hps(*old(gc)),
            final(gc).others_stay(*old(gc), self.lid as int),
            final(gc).same_settings(*old(gc)),
            final(gc).epoch.data.ts() <= old(gc).epoch.data.ts() + 4,
            ({
                let l = self.lid as int;
                let b = old(gc).abs().black();
                let dead = old(gc).marked_objs.batches(b);
                !old(gc).pinned(l) && !old(gc).abs().tracing() && !old(gc).local(l).is_helping_normal
                    && mode_of(old(gc).collection_mode) == CollectionMode::Threaded && dead > 0
                    ==> final(gc).marked_objs.batches(b) < dead
            }),
            self.has_helped_along(*old(gc), *final(gc)),
    {
        let ghost before = *gc;
        proof {
            crate::steps::lemma_pinned_epoch(gc.epoch.data);
        }
        let guard: Guard = self.pin(gc);
        let ghost pinned = *gc;
        proof {
            let l = self.lid as int;
            assert(gc.abs().parts[l] == crate::internal::part_of(gc.nodes()[l]));
        }
        guard.help_collect(gc);
        proof {
            if !pinned.abs().tracing() {
                lemma_sweeps_surviving(pinned.abs(), gc.abs());
            }
            assert(surviving(before.abs(), pinned.abs()));
            assert(surviving(pinned.abs(), gc.abs()));
            lemma_surviving_on(before.abs(), pinned.abs(), gc.abs());
            assert forall|k: int| 0 <= k < before.abs().parts.len() implies (
            #[trigger] pinned.abs().parts[k]).hazards == before.abs().parts[k].hazards
                && pinned.abs().parts[k].using == before.abs().parts[k].using by {
                assert(pinned.abs().parts[k] == crate::internal::part_of(pinned.nodes()[k]));
                assert(before.abs().parts[k] == crate::internal::part_of(before.nodes()[k]));
            }
            lemma_shape_spares(before.abs(), pinned.abs());
            lemma_helped_spares(pinned.abs(), gc.abs(), self.lid as int);
            lemma_spares_on(before.abs(), pinned.abs(), gc.abs());
            assert(gc.keeps_hps(before));
        }
        let ghost helped_gc = *gc;
        let ghost g = guard;
        guard.release(gc);
        proof {
            assert(self.has_pinned(before, g, pinned));
            assert(g.has_released(helped_gc, *gc));
            let size = Global::<T>::obj_size() as int;
            lemma_surviving_on(before.abs(), helped_gc.abs(), gc.abs());
            lemma_spares_on(before.abs(), helped_gc.abs(), gc.abs());
            lemma_books_on(before.books(), pinned.books(), helped_gc.books(), size);
            lemma_books_on(before.books(), helped_gc.books(), gc.books(), size);
        }
    }
}

impl<T: TraceObj> Global<T> {
    /// Does a little of the work of a collection: begins a cycle if one is called for, or gets the
    /// one that is being run on by helping, or takes it a stage further where no help gets it on.
    /// Returns `true` if a cycle came to its end. Nothing happens while the participant is pinned
    /// or while collection is paused.
    pub fn collect_piece(&mut self, handle: &Handle) -> (r: bool)
        requires
            old(self).wf(),
            old(self).knows(*handle),
            old(self).epoch.data.ts() + 4 < TIMESTAMP_LIMIT,
        ensures
            final(self).wf(),
            final(self).knows(*handle),
            final(self).pinned(handle.lid as int) == old(self).pinned(handle.lid as int),
            keeps_protected(old(self).abs(), final(self).abs()),
            surviving(old(self).abs(), final(self).abs()),
            spares(old(self).abs(), final(self).abs()),
            final(self).keeps_payloads(*old(self)),
            final(self).books_kept(*old(self)),
            final(self).keeps_hps(*old(self)),
            final(self).others_stay(*old(self), handle.lid as int),
            final(self).same_settings(*old(self)),
            final(self).epoch.data.ts() <= old(self).epoch.data.ts() + 4,
            ({
                let l = handle.lid as int;
                let idle = old(self).pinned(l) || !old(self).collection_enabled;
                let helps = old(self).driving && old(self).pieces_left(l);
                &&& r == (!idle && old(self).driving && !helps && !final(self).driving)
                &&& idle ==> *final(self) == *old(self)
                &&& !idle && !old(self).driving ==> final(self).has_begun_cycle(*old(self))
                &&& !idle && helps ==> handle.has_helped_along(*old(self), *final(self))
                &&& !idle && old(self).driving && !helps ==> final(self).has_advanced(*old(self))
            }),
    {
        let ghost before = *self;
        proof {
            lemma_driving_none(before, *self, handle.lid as int);
            lemma_shape_spares(before.abs(), before.abs());
            assert(self.nodes()[handle.lid as int].item.wf());
        }
        if handle.is_pinned(self) || !self.collection_enabled {
            return false;
        }
        if !self.driving {
            self.begin_collection(handle);
            return false;
        }
        if self.has_pieces(handle) {
            handle.help_collect(self);
            return false;
        }
        self.advance_collection(handle)
    }
}

} // verus!
