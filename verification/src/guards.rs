//! Handles and guards: how threads take part in the collection.

use crate::accounts::{lemma_books_on, lemma_books_same};
use crate::config::{lemma_latch, mode_latched, mode_of, CollectionMode, MODE_LATCH};
use crate::draining::{has_done_share, lemma_share_done};
use crate::epoch::{Color, Epoch, Phase};
use crate::global::{
    lemma_asks_none, lemma_asks_on, lemma_part_changed, parts_of, pending_of, tasks_of, Global,
};
use crate::internal::{hazard_set, part_of, Local};
use crate::helping::{
    hazards_within, lemma_trace_more, trace_step, within_cached, HELP_NORMAL_MAX_TRIAL,
    HELP_TRACING_MAX_TRIAL,
};
use crate::model::GcModel;
use crate::pinning::entered;
use crate::steps::{
    add_part, keeps_protected, lemma_add_part, lemma_pinned_epoch, lemma_set_using,
    lemma_shape_on, lemma_surviving_on, same_shape, surviving, set_using,
};
use crate::roots::lemma_same_white;
use crate::scanning::traces_within;
use crate::survival::{lemma_helped_spares, lemma_shape_spares, lemma_spares_on, spares};
use crate::sweeping::{lemma_sweeps_none, lemma_sweeps_surviving, sweeps};
use crate::sync::reusable_slots::{is_first_free, Node};
use crate::trace::TraceObj;
use vstd::multiset::Multiset;
use vstd::prelude::*;

verus! {

/// A handle to a participant of the garbage collector.
///
/// It serves to pin the participant, and to protect single objects beyond its critical sections.
#[derive(Debug)]
pub struct Handle {
    pub lid: usize,
}

impl Clone for Handle {
    /// Another handle to the same participant.
    fn clone(&self) -> (r: Self)
        ensures
            r == *self,
    {
        Handle { lid: self.lid }
    }
}

/// Grants access to the managed heap. While a guard is there, its participant may allocate, load
/// and use managed objects, and nothing that it may use is reclaimed.
#[derive(Debug)]
pub struct Guard {
    pub lid: usize,
    /// The number of the guard among those of its participant.
    pub gid: u64,
}

impl<T: TraceObj> Global<T> {
    /// The handle's participant is taken.
    pub open spec fn knows(self, h: Handle) -> bool {
        h.lid < self.nodes().len() && self.nodes()[h.lid as int].using
    }

    /// The guard's participant is pinned.
    pub open spec fn guarded(self, g: Guard) -> bool {
        self.pinned(g.lid as int)
    }

    /// Latches the collection mode. Returns `true` if it was not latched before and asks for a
    /// background thread, which then has to be deployed.
    pub fn initialize_if_necessary(&mut self) -> (r: bool)
        ensures
            *final(self) == (Global { collection_mode: final(self).collection_mode, ..*old(self) }),
            mode_latched(final(self).collection_mode),
            mode_of(final(self).collection_mode) == mode_of(old(self).collection_mode),
            mode_latched(old(self).collection_mode) ==> *final(self) == *old(self),
            r == (!mode_latched(old(self).collection_mode) && mode_of(old(self).collection_mode)
                == CollectionMode::Threaded),
    {
        if self.collection_mode & MODE_LATCH == 0 {
            proof {
                lemma_latch(self.collection_mode);
            }
            self.collection_mode = self.collection_mode | MODE_LATCH;
            return match CollectionMode::from_u8(self.collection_mode) {
                CollectionMode::Threaded => true,
                CollectionMode::Cooperative => false,
            };
        }
        false
    }

    /// Registers a participant: takes one that is not in use, or a new one. The second result is
    /// `true` if a background collector has to be deployed.
    pub fn register(&mut self) -> (r: (Handle, bool))
        requires
            old(self).wf(),
        ensures
            final(self).wf(),
            final(self).knows(r.0),
            !final(self).pinned(r.0.lid as int),
            mode_latched(final(self).collection_mode),
            mode_of(final(self).collection_mode) == mode_of(old(self).collection_mode),
            r.1 == (!mode_latched(old(self).collection_mode) && mode_of(old(self).collection_mode)
                == CollectionMode::Threaded),
            is_first_free(old(self).nodes(), r.0.lid as int),
            r.0.lid < old(self).nodes().len() ==> final(self).abs() == set_using(
                old(self).abs(),
                r.0.lid as int,
                true,
            ),
            r.0.lid == old(self).nodes().len() ==> final(self).abs() == add_part(old(self).abs()),
            // A participant that is taken again is as it was left, a new one has never been used,
            // and the others are as they were.
            r.0.lid < old(self).nodes().len() ==> final(self).nodes() == old(self).nodes().update(
                r.0.lid as int,
                (Node { using: true, item: old(self).local(r.0.lid as int) }),
            ),
            r.0.lid == old(self).nodes().len() ==> final(self).nodes().drop_last()
                == old(self).nodes() && call_ensures(
                Local::default,
                (),
                final(self).local(r.0.lid as int),
            ),
            *final(self) == (Global {
                locals: final(self).locals,
                collection_mode: final(self).collection_mode,
                ..*old(self)
            }),
            keeps_protected(old(self).abs(), final(self).abs()),
    {
        let deploy: bool = self.initialize_if_necessary();
        let ghost before = *self;
        let ghost s = self.abs();
        proof {
            assert(s =~= old(self).abs());
        }
        let lid: usize = self.locals.acquire_or_default();
        proof {
            let l = lid as int;
            if l < before.nodes().len() {
                assert(s.part_ok(s.parts[l]));
                lemma_slot_taken(before, *self, l, true);
            } else {
                lemma_slot_added(before, *self);
            }
        }
        (Handle { lid }, deploy)
    }

    /// Gives a participant back. It has to be unpinned and to protect nothing.
    pub fn unregister(&mut self, handle: Handle)
        requires
            old(self).wf(),
            old(self).knows(handle),
            !old(self).pinned(handle.lid as int),
            old(self).abs().parts[handle.lid as int].hazards == Set::<u64>::empty(),
        ensures
            final(self).wf(),
            final(self).abs() == set_using(old(self).abs(), handle.lid as int, false),
            final(self).nodes() == old(self).nodes().update(
                handle.lid as int,
                (Node { using: false, item: old(self).local(handle.lid as int) }),
            ),
            *final(self) == (Global { locals: final(self).locals, ..*old(self) }),
            keeps_protected(old(self).abs(), final(self).abs()),
    {
        let ghost before = *self;
        self.locals.release(handle.lid);
        proof {
            lemma_slot_taken(before, *self, handle.lid as int, false);
        }
    }
}

/// A participant is taken or given back, and is otherwise as it was.
proof fn lemma_slot_taken<T: TraceObj>(before: Global<T>, after: Global<T>, l: int, using: bool)
    requires
        before.wf(),
        0 <= l < before.nodes().len(),
        before.nodes()[l].using != using,
        !before.local(l).epoch.pinned_flag(),
        !using ==> before.abs().parts[l].hazards == Set::<u64>::empty(),
        after == (Global { locals: after.locals, ..before }),
        after.locals.wf(),
        after.nodes() == before.nodes().update(
            l,
            (Node { using, item: before.nodes()[l].item }),
        ),
    ensures
        after.wf(),
        after.abs() == set_using(before.abs(), l, using),
        keeps_protected(before.abs(), after.abs()),
{
    let n = after.nodes()[l];
    assert(before.nodes()[l].item.wf());
    crate::global::lemma_node_update(before.nodes(), l, n);
    assert(after.abs() =~= set_using(before.abs(), l, using));
    lemma_set_using(before.abs(), l, using);
    assert forall|k: int| 0 <= k < after.nodes().len() implies (
    #[trigger] after.nodes()[k]).item.wf() && after.nodes()[k].item.clock_ok(
        after.epoch.data.ts(),
    ) by {
        assert(before.nodes()[k].item.wf());
    }
}

/// A participant is added.
proof fn lemma_slot_added<T: TraceObj>(before: Global<T>, after: Global<T>)
    requires
        before.wf(),
        after == (Global { locals: after.locals, ..before }),
        after.locals.wf(),
        after.nodes().len() == before.nodes().len() + 1,
        after.nodes().drop_last() == before.nodes(),
        after.nodes().last().using,
        call_ensures(Local::default, (), after.nodes().last().item),
    ensures
        after.wf(),
        after.abs() == add_part(before.abs()),
        keeps_protected(before.abs(), after.abs()),
        !after.pinned(before.nodes().len() as int),
{
    broadcast use vstd::seq_lib::group_to_multiset_ensures;

    let n = after.nodes().last();
    let fresh = n.item;
    assert(after.nodes() =~= before.nodes().push(n));
    assert(hazard_set(fresh.hazards@) =~= Set::<u64>::empty());
    assert(part_of(n) == crate::steps::fresh_part());
    assert(parts_of(after.nodes()) =~= parts_of(before.nodes()).push(part_of(n)));
    assert(tasks_of(after.nodes()) =~= tasks_of(before.nodes())) by {
        assert forall|x: u64| tasks_of(after.nodes()).contains(x) == tasks_of(
            before.nodes(),
        ).contains(x) by {
            if tasks_of(before.nodes()).contains(x) {
                let k = choose|k: int|
                    0 <= k < before.nodes().len() && (
                    #[trigger] before.nodes()[k]).item.mark_tasks.items().contains(x);
                assert(after.nodes()[k].item.mark_tasks.items().contains(x));
            }
            if tasks_of(after.nodes()).contains(x) {
                let k = choose|k: int|
                    0 <= k < after.nodes().len() && (
                    #[trigger] after.nodes()[k]).item.mark_tasks.items().contains(x);
                assert(before.nodes()[k].item.mark_tasks.items().contains(x));
            }
        }
    }
    assert forall|c: Color| #[trigger] pending_of(after.nodes(), c) == pending_of(
        before.nodes(),
        c,
    ) by {
        let f = |n: Node<Local>| n.item.objs@[c.code() as int].0.bag();
        assert(after.nodes().map_values(f) =~= before.nodes().map_values(f).push(f(n)));
        crate::bags::lemma_bag_sum_push(before.nodes().map_values(f), f(n));
        assert(f(n) =~= Multiset::<u64>::empty());
        assert(pending_of(after.nodes(), c) =~= pending_of(before.nodes(), c));
    }
    assert(after.abs() =~= add_part(before.abs()));
    lemma_add_part(before.abs());
    assert forall|k: int| 0 <= k < after.nodes().len() implies (
    #[trigger] after.nodes()[k]).item.wf() && after.nodes()[k].item.clock_ok(
        after.epoch.data.ts(),
    ) by {
        if k < before.nodes().len() {
            assert(before.nodes()[k].item.wf());
        }
    }
    assert(0u64 & 1 == 0) by (bit_vector);
}

/// The ways in which a participant helps.
#[derive(Clone, Copy, Debug, PartialEq, Eq, Structural)]
pub enum Help {
    /// Sweeping in a normal phase.
    Normal,
    /// Scanning in a root tracing phase.
    RootTracing,
    /// Doing mark tasks.
    Draining,
}

impl Handle {
    /// The participant has been pinned once more, with the guard.
    pub open spec fn has_pinned<T: TraceObj>(
        self,
        before: Global<T>,
        guard: Guard,
        after: Global<T>,
    ) -> bool {
        let l = self.lid as int;
        &&& guard == (Guard { lid: self.lid, gid: before.local(l).next_guard })
        &&& after.guarded(guard)
        &&& guard.has_entered(before, after)
        &&& after.only_pins(before, l)
        &&& before.pinned(l) ==> after.abs() == before.abs()
        &&& !before.pinned(l) ==> entered(before.abs(), after.abs(), l)
    }
}

/// What the collector sees of a participant's help: sweeping in a normal phase, tracing in a tracing phase.
pub open spec fn helped(s: GcModel, t: GcModel, l: int) -> bool {
    if s.tracing() {
        trace_step(s, t, l)
    } else {
        sweeps(s, t)
    }
}

impl Guard {
    /// The guard's participant can sweep: it is in a normal phase and not helping already.
    pub open spec fn can_sweep<T: TraceObj>(self, gc: Global<T>) -> bool {
        &&& gc.local(self.lid as int).epoch.ph() == Phase::N
        &&& !gc.abs().tracing()
        &&& !gc.local(self.lid as int).is_helping_normal
    }

    /// The guard's participant can trace: it is in a tracing phase that all others have come to.
    pub open spec fn can_trace<T: TraceObj>(self, gc: Global<T>) -> bool {
        &&& gc.local(self.lid as int).epoch.ph() != Phase::N
        &&& gc.abs().synced()
    }

    /// The guard's participant can look for roots.
    pub open spec fn can_scan<T: TraceObj>(self, gc: Global<T>) -> bool {
        &&& self.can_trace(gc)
        &&& gc.local(self.lid as int).epoch.ph() == Phase::RT
        &&& gc.abs().epoch.ph() == Phase::RT
        &&& !gc.local(self.lid as int).is_helping_root_tracing
    }

    /// What the guard's help comes to: as many batches as it may take at a time are swept or
    /// scanned, or all if there are fewer, and its share of the mark tasks of its participant is
    /// done.
    pub open spec fn has_helped<T: TraceObj>(self, before: Global<T>, after: Global<T>) -> bool {
        let s = before.abs();
        let local = before.local(self.lid as int);
        let dead = before.marked_objs.batches(s.black());
        let fresh = before.fresh_objs.batches(s.white());
        let tasks = local.mark_tasks.items();
        &&& self.can_sweep(before) && dead < HELP_NORMAL_MAX_TRIAL ==> after.marked_objs.batches(
            s.black(),
        ) == 0
        &&& self.can_sweep(before) && dead >= HELP_NORMAL_MAX_TRIAL ==> after.marked_objs.batches(
            s.black(),
        ) == dead - HELP_NORMAL_MAX_TRIAL
        &&& !s.tracing() && !self.can_sweep(before) ==> after.marked_objs == before.marked_objs
        &&& self.can_scan(before) && fresh < HELP_TRACING_MAX_TRIAL ==> after.fresh_objs.batches(
            s.white(),
        ) == 0
        &&& self.can_scan(before) && fresh >= HELP_TRACING_MAX_TRIAL ==> after.fresh_objs.batches(
            s.white(),
        ) == fresh - HELP_TRACING_MAX_TRIAL
        &&& self.can_trace(before) && !local.is_helping_draining_mark_tasks ==> has_done_share(
            tasks,
            after.local(self.lid as int).mark_tasks.items(),
            after.abs(),
        )
        &&& !self.can_sweep(before) && !self.can_trace(before) ==> after == before
        &&& helped(before.abs(), after.abs(), self.lid as int)
        &&& after.only_helping(before, self.lid as int)
        // Where the help comes to schedule tasks itself, the guard may be asked once more.
        &&& after.asks(before, self.lid as int, self.gid)
        &&& self.can_sweep(before) ==> after.local(self.lid as int).should_help
            == local.should_help
    }

    /// The guard has helped if it was asked to, which it then no longer is, unless what it did
    /// asks it once more.
    pub open spec fn has_helped_if_asked<T: TraceObj>(
        self,
        before: Global<T>,
        after: Global<T>,
    ) -> bool {
        &&& exists|mid: Global<T>| #[trigger]
            self.has_taken_request(before, mid) && (if before.local(
                self.lid as int,
            ).should_help@.contains(self.gid) {
                self.has_helped(mid, after)
            } else {
                after == mid
            })
        &&& helped(before.abs(), after.abs(), self.lid as int)
        &&& after.only_helping(before, self.lid as int)
    }

    /// Nothing differs but that the guard is no longer asked to help.
    pub open spec fn has_taken_request<T: TraceObj>(
        self,
        before: Global<T>,
        after: Global<T>,
    ) -> bool {
        let l = self.lid as int;
        &&& after.only_local(before, l)
        &&& after.local(l) == (Local { should_help: after.local(l).should_help, ..before.local(l) })
        &&& self.is_not_asked(before, after)
    }

    /// The guard is no longer asked to help. The others are asked where they were.
    pub open spec fn is_not_asked<T: TraceObj>(self, before: Global<T>, after: Global<T>) -> bool {
        let l = self.lid as int;
        forall|g: u64| #[trigger]
            after.local(l).should_help@.contains(g) <==> before.local(l).should_help@.contains(g)
                && g != self.gid
    }
}

impl<T: TraceObj> Global<T> {
    /// Notes that a participant begins or ends to help.
    fn set_helping(&mut self, lid: usize, help: Help, on: bool)
        requires
            old(self).wf(),
            lid < old(self).nodes().len(),
        ensures
            final(self).wf(),
            final(self).abs() == old(self).abs(),
            final(self).only_local(*old(self), lid as int),
            final(self).local(lid as int) == (match help {
                Help::Normal => Local { is_helping_normal: on, ..old(self).local(lid as int) },
                Help::RootTracing => Local {
                    is_helping_root_tracing: on,
                    ..old(self).local(lid as int)
                },
                Help::Draining => Local {
                    is_helping_draining_mark_tasks: on,
                    ..old(self).local(lid as int)
                },
            }),
    {
        let ghost before = *self;
        let ghost l = lid as int;
        assert(self.nodes()[l].item.wf());
        match help {
            Help::Normal => {
                self.locals.nodes[lid].item.is_helping_normal = on;
            },
            Help::RootTracing => {
                self.locals.nodes[lid].item.is_helping_root_tracing = on;
            },
            Help::Draining => {
                self.locals.nodes[lid].item.is_helping_draining_mark_tasks = on;
            },
        }
        proof {
            assert(self.nodes() =~= before.nodes().update(l, self.nodes()[l]));
            lemma_part_changed(before, *self, l);
            assert(self.abs() =~= before.abs());
        }
    }
}

impl Guard {
    /// The epoch that the guard's participant is pinned at.
    pub fn local_epoch<T: TraceObj>(&self, gc: &Global<T>) -> (r: Epoch)
        requires
            gc.guarded(*self),
        ensures
            r == gc.local(self.lid as int).epoch,
    {
        let lid: usize = self.lid;
        gc.locals.nodes[lid].item.epoch
    }

    /// The phase that the guard's participant is pinned in.
    pub fn phase<T: TraceObj>(&self, gc: &Global<T>) -> (r: Phase)
        requires
            gc.wf(),
            gc.guarded(*self),
        ensures
            r == gc.local(self.lid as int).epoch.ph(),
    {
        proof {
            assert(gc.abs().parts[self.lid as int].pinned());
            lemma_same_white(gc.abs(), self.lid as int);
        }
        self.local_epoch(gc).phase()
    }

    /// The color that is white for the guard's participant.
    pub fn white_color<T: TraceObj>(&self, gc: &Global<T>) -> (r: Color)
        requires
            gc.guarded(*self),
        ensures
            r == gc.local(self.lid as int).epoch.white(),
    {
        self.local_epoch(gc).color()
    }

    /// The color that is black for the guard's participant.
    pub fn black_color<T: TraceObj>(&self, gc: &Global<T>) -> (r: Color)
        requires
            gc.guarded(*self),
        ensures
            r == gc.black_of(self.lid as int),
    {
        self.white_color(gc).flip()
    }

    /// The color of what the guard's participant allocates.
    pub fn alloc_color<T: TraceObj>(&self, gc: &Global<T>) -> (r: Color)
        requires
            gc.wf(),
            gc.guarded(*self),
        ensures
            r == gc.local(self.lid as int).alloc_color(),
    {
        proof {
            assert(gc.abs().parts[self.lid as int].pinned());
            lemma_same_white(gc.abs(), self.lid as int);
        }
        let lid: usize = self.lid;
        gc.locals.nodes[lid].item.pinned_alloc_color()
    }

    /// Asks the guard to help the collector before it goes.
    pub fn schedule_helping_collect<T: TraceObj>(&self, gc: &mut Global<T>)
        requires
            old(gc).wf(),
            old(gc).guarded(*self),
        ensures
            final(gc).wf(),
            final(gc).abs() == old(gc).abs(),
            final(gc).only_local(*old(gc), self.lid as int),
            forall|g: u64| #[trigger]
                final(gc).local(self.lid as int).should_help@.contains(g) <==> old(gc).local(
                    self.lid as int,
                ).should_help@.contains(g) || g == self.gid,
            final(gc).local(self.lid as int) == (Local {
                should_help: final(gc).local(self.lid as int).should_help,
                ..old(gc).local(self.lid as int)
            }),
    {
        let ghost before = *gc;
        let ghost l = self.lid as int;
        let lid: usize = self.lid;
        assert(gc.nodes()[l].item.wf());
        gc.locals.nodes[lid].item.schedule_helping_collect(self.gid);
        proof {
            assert(gc.nodes() =~= before.nodes().update(l, gc.nodes()[l]));
            lemma_part_changed(before, *gc, l);
            assert(gc.abs() =~= before.abs());
        }
    }

    /// Helps to sweep, if the guard's participant is in a normal phase and not helping already.
    pub fn help_normal<T: TraceObj>(&self, gc: &mut Global<T>)
        requires
            old(gc).wf(),
            old(gc).guarded(*self),
        ensures
            final(gc).wf(),
            final(gc).guarded(*self),
            final(gc).only_helping(*old(gc), self.lid as int),
            helped(old(gc).abs(), final(gc).abs(), self.lid as int),
            keeps_protected(old(gc).abs(), final(gc).abs()),
            ({
                let b = old(gc).abs().black();
                let n = old(gc).marked_objs.batches(b);
                let works = self.can_sweep(*old(gc));
                &&& works && n < HELP_NORMAL_MAX_TRIAL ==> final(gc).marked_objs.batches(b) == 0
                &&& works && n >= HELP_NORMAL_MAX_TRIAL ==> final(gc).marked_objs.batches(b) == n
                    - HELP_NORMAL_MAX_TRIAL
                &&& !works ==> *final(gc) == *old(gc)
            }),
            final(gc).local(self.lid as int).should_help == old(gc).local(
                self.lid as int,
            ).should_help,
            final(gc).asks(*old(gc), self.lid as int, self.gid),
    {
        let ghost before = *gc;
        let ghost s = gc.abs();
        let ghost l = self.lid as int;
        let lid: usize = self.lid;
        proof {
            assert(s.parts[l].pinned());
            lemma_same_white(s, l);
            if !s.tracing() {
                lemma_sweeps_none(s);
            }
            lemma_books_same(before, *gc);
            lemma_asks_none(before, before, l, self.gid);
        }
        if self.phase(gc) != Phase::N || gc.epoch.load().phase() != Phase::N
            || gc.locals.nodes[lid].item.is_helping_normal {
            return ;
        }
        gc.set_helping(lid, Help::Normal, true);
        let ghost begun = *gc;
        gc.help_normal_inner(lid);
        let ghost done = *gc;
        proof {
            lemma_keeps_payloads_on(before, begun, done);
        }
        gc.set_helping(lid, Help::Normal, false);
        proof {
            assert forall|k: int|
                0 <= k < gc.nodes().len() && k != l implies #[trigger] gc.nodes()[k]
                == before.nodes()[k] by {
                assert(gc.nodes()[k] == done.nodes()[k]);
                assert(begun.nodes()[k] == before.nodes()[k]);
            }
            lemma_books_between(before, begun, done, *gc);
            lemma_asks_none(before, *gc, l, self.gid);
        }
    }
}

/// The books are kept while a participant helps.
proof fn lemma_books_between<T: TraceObj>(
    before: Global<T>,
    begun: Global<T>,
    done: Global<T>,
    after: Global<T>,
)
    requires
        begun == (Global { locals: begun.locals, ..before }),
        begun.nodes().len() == before.nodes().len(),
        forall|k: int|
            0 <= k < before.nodes().len() ==> (#[trigger] begun.nodes()[k]).item.objs
                == before.nodes()[k].item.objs,
        done.books_kept(begun),
        after == (Global { locals: after.locals, ..done }),
        after.nodes().len() == done.nodes().len(),
        forall|k: int|
            0 <= k < done.nodes().len() ==> (#[trigger] after.nodes()[k]).item.objs
                == done.nodes()[k].item.objs,
    ensures
        after.books_kept(before),
{
    let size = Global::<T>::obj_size() as int;
    lemma_books_same(before, begun);
    lemma_books_same(done, after);
    lemma_books_on(before.books(), begun.books(), done.books(), size);
    lemma_books_on(before.books(), done.books(), after.books(), size);
}

/// What leaves payloads and lists alone does not touch the books.
pub proof fn lemma_books_pinned<T: TraceObj>(a: Global<T>, b: Global<T>)
    requires
        b.stats == a.stats,
        b.heap.payloads() == a.heap.payloads(),
        b.nodes().len() == a.nodes().len(),
        forall|k: int|
            0 <= k < a.nodes().len() ==> (#[trigger] b.nodes()[k]).item.objs == a.nodes()[k].item.objs,
    ensures
        b.books() == a.books(),
        b.books_kept(a),
{
    assert(b.heap.objs().dom() =~= b.heap.payloads().dom());
    assert(a.heap.objs().dom() =~= a.heap.payloads().dom());
    lemma_books_same(a, b);
}

proof fn lemma_keeps_payloads_on<T: TraceObj>(a: Global<T>, b: Global<T>, c: Global<T>)
    requires
        b.heap == a.heap,
        c.keeps_payloads(b),
    ensures
        c.keeps_payloads(a),
{
    assert forall|x: u64| #[trigger]
        c.heap.payloads().contains_key(x) implies a.heap.payloads().contains_key(x) && c.heap.payloads()[x] == a.heap.payloads()[x] by {
        assert(b.heap.payloads().contains_key(x));
    }
}

impl<T: TraceObj> Global<T> {
    /// Helps to mark roots and to trace in the name of a guard, if its participant is in a tracing
    /// phase that all others have come to, and not helping already.
    pub fn help_tracing(&mut self, lid: usize, gid: u64)
        requires
            old(self).wf(),
            old(self).takes_part(lid as int),
        ensures
            final(self).wf(),
            keeps_protected(old(self).abs(), final(self).abs()),
            old(self).local(lid as int).epoch.ph() != Phase::N ==> (Guard {
                lid,
                gid,
            }).has_helped(*old(self), *final(self)),
            old(self).local(lid as int).epoch.ph() == Phase::N ==> *final(self) == *old(self),
    {
        let ghost before = *self;
        let ghost s = self.abs();
        let ghost l = lid as int;
        proof {
            assert(s.parts[l] == part_of(self.nodes()[l]));
            lemma_same_white(s, l);
            lemma_pinned_epoch(s.epoch);
            lemma_asks_none(before, before, l, gid);
            assert(s.part_ok(s.parts[l]));
            if !s.tracing() {
                lemma_sweeps_none(s);
            }
            lemma_books_same(before, *self);
        }
        let phase: Phase = self.locals.nodes[lid].item.epoch.phase();
        if phase == Phase::N {
            return ;
        }
        if !self.is_tracing_synced() {
            return ;
        }
        if phase == Phase::RT && self.epoch.load().phase() == Phase::RT
            && !self.locals.nodes[lid].item.is_helping_root_tracing {
            self.set_helping(lid, Help::RootTracing, true);
            let ghost begun = *self;
            self.help_root_tracing(lid, gid);
            let ghost done = *self;
            self.set_helping(lid, Help::RootTracing, false);
            proof {
                lemma_keeps_payloads_on(before, begun, done);
                lemma_asks_none(before, begun, l, gid);
                lemma_asks_on(before, begun, done, l, gid);
                lemma_asks_none(done, *self, l, gid);
                lemma_asks_on(before, done, *self, l, gid);
                assert forall|k: int|
                    0 <= k < self.nodes().len() && k != l implies #[trigger] self.nodes()[k]
                    == before.nodes()[k] by {
                    assert(self.nodes()[k] == done.nodes()[k]);
                    assert(begun.nodes()[k] == before.nodes()[k]);
                }
                lemma_books_between(before, begun, done, *self);
            }
        }
        let ghost scanned = *self;
        if !self.locals.nodes[lid].item.is_helping_draining_mark_tasks {
            self.set_helping(lid, Help::Draining, true);
            let ghost begun = *self;
            let done_count: usize = self.help_draining_mark_tasks_inner(lid, gid);
            let ghost done = *self;
            self.set_helping(lid, Help::Draining, false);
            proof {
                if !s.tracing() && begun.local(l).mark_tasks.items().len() > 0 {
                    let x = begun.local(l).mark_tasks.items()[0];
                    assert(begun.nodes()[l].item.mark_tasks.items().contains(x));
                    assert(begun.abs().tasks.contains(x));
                }
                lemma_asks_none(scanned, begun, l, gid);
                lemma_asks_on(before, scanned, begun, l, gid);
                lemma_asks_on(before, begun, done, l, gid);
                lemma_asks_none(done, *self, l, gid);
                lemma_asks_on(before, done, *self, l, gid);
                lemma_drain_helped(before, scanned, begun, done, *self, l);
                lemma_share_done(
                    before.local(l).mark_tasks.items(),
                    begun.local(l).mark_tasks.items(),
                    done.local(l).mark_tasks.items(),
                    done_count as int,
                    done.abs(),
                );
            }
        }
    }

    /// A guard is no longer asked to help. Returns `true` if it was.
    pub fn take_request(&mut self, lid: usize, gid: u64) -> (r: bool)
        requires
            old(self).wf(),
            lid < old(self).nodes().len(),
        ensures
            final(self).wf(),
            final(self).abs() == old(self).abs(),
            (Guard { lid, gid }).has_taken_request(*old(self), *final(self)),
            r == old(self).local(lid as int).should_help@.contains(gid),
    {
        let ghost before = *self;
        let ghost l = lid as int;
        assert(self.nodes()[l].item.wf());
        let asked: bool = self.locals.nodes[lid].item.take_helping(gid);
        proof {
            assert(self.nodes() =~= before.nodes().update(l, self.nodes()[l]));
            lemma_part_changed(before, *self, l);
            assert(self.abs() =~= before.abs());
        }
        asked
    }

    /// Helps to mark roots and to trace in the name of a guard that has been asked to.
    pub fn help_tracing_if_asked(&mut self, lid: usize, gid: u64)
        requires
            old(self).wf(),
            old(self).abs().tracing(),
            old(self).takes_part(lid as int),
            old(self).local(lid as int).epoch.ph() != Phase::N,
        ensures
            final(self).wf(),
            keeps_protected(old(self).abs(), final(self).abs()),
            (Guard { lid, gid }).has_helped_if_asked(*old(self), *final(self)),
            // Nobody is asked for help but perhaps the guard.
            forall|g: u64|
                g != gid ==> (#[trigger] final(self).local(lid as int).should_help@.contains(g)
                    <==> old(self).local(lid as int).should_help@.contains(g)),
    {
        let ghost before = *self;
        let ghost guard = Guard { lid, gid };
        let asked: bool = self.take_request(lid, gid);
        let ghost mid = *self;
        proof {
            lemma_request_taken(guard, before, mid);
        }
        if asked {
            self.help_tracing(lid, gid);
            proof {
                lemma_helped_after_request(guard, before, mid, *self);
            }
        }
    }
}

/// Taking a request is no more than a helper may do.
proof fn lemma_request_taken<T: TraceObj>(guard: Guard, a: Global<T>, b: Global<T>)
    requires
        a.wf(),
        guard.lid < a.nodes().len(),
        guard.has_taken_request(a, b),
        b.abs() == a.abs(),
    ensures
        helped(a.abs(), b.abs(), guard.lid as int),
        b.only_helping(a, guard.lid as int),
{
    if !a.abs().tracing() {
        lemma_sweeps_none(a.abs());
    }
    lemma_books_same(a, b);
}

/// A guard has helped once its request has been taken.
proof fn lemma_helped_after_request<T: TraceObj>(
    guard: Guard,
    a: Global<T>,
    b: Global<T>,
    c: Global<T>,
)
    requires
        guard.lid < a.nodes().len(),
        guard.has_taken_request(a, b),
        b.abs() == a.abs(),
        guard.has_helped(b, c),
    ensures
        helped(a.abs(), c.abs(), guard.lid as int),
        c.only_helping(a, guard.lid as int),
{
    let l = guard.lid as int;
    lemma_books_between(a, b, c, c);
    lemma_keeps_payloads_on(a, b, c);
    assert forall|k: int| 0 <= k < c.nodes().len() && k != l implies #[trigger] c.nodes()[k]
        == a.nodes()[k] by {
        assert(c.nodes()[k] == b.nodes()[k]);
    }
}

impl Guard {
    /// Helps to mark roots and to trace, if the guard's participant is in a tracing phase that
    /// all others have come to, and not helping already.
    pub fn help_tracing<T: TraceObj>(&self, gc: &mut Global<T>)
        requires
            old(gc).wf(),
            old(gc).guarded(*self),
        ensures
            final(gc).wf(),
            final(gc).guarded(*self),
            keeps_protected(old(gc).abs(), final(gc).abs()),
            old(gc).local(self.lid as int).epoch.ph() != Phase::N ==> self.has_helped(
                *old(gc),
                *final(gc),
            ),
            old(gc).local(self.lid as int).epoch.ph() == Phase::N ==> *final(gc) == *old(gc),
    {
        gc.help_tracing(self.lid, self.gid);
    }

    /// Voluntarily assists the collector with pending work: with sweeping in a normal phase, with
    /// tracing in a tracing phase.
    pub fn help_collect<T: TraceObj>(&self, gc: &mut Global<T>)
        requires
            old(gc).wf(),
            old(gc).guarded(*self),
        ensures
            final(gc).wf(),
            final(gc).guarded(*self),
            keeps_protected(old(gc).abs(), final(gc).abs()),
            self.has_helped(*old(gc), *final(gc)),
    {
        match self.phase(gc) {
            Phase::N => self.help_normal(gc),
            _ => self.help_tracing(gc),
        }
    }

    /// Assists the collector if the guard has been asked to.
    pub fn help_collect_if_scheduled<T: TraceObj>(&self, gc: &mut Global<T>)
        requires
            old(gc).wf(),
            old(gc).guarded(*self),
        ensures
            final(gc).wf(),
            final(gc).guarded(*self),
            keeps_protected(old(gc).abs(), final(gc).abs()),
            self.has_helped_if_asked(*old(gc), *final(gc)),
            !old(gc).local(self.lid as int).should_help@.contains(self.gid) ==> final(gc).abs()
                == old(gc).abs(),
            !old(gc).abs().tracing() ==> final(gc).marked_objs.batches(old(gc).abs().black())
                <= old(gc).marked_objs.batches(old(gc).abs().black()),
    {
        let ghost before = *gc;
        let asked: bool = gc.take_request(self.lid, self.gid);
        let ghost mid = *gc;
        proof {
            lemma_request_taken(*self, before, mid);
        }
        if asked {
            self.help_collect(gc);
            proof {
                lemma_helped_after_request(*self, before, mid, *gc);
            }
        }
    }

    /// Lets the collector make progress during a long-running loop: unpins and pins the
    /// participant again. This has an effect only where the guard is the only one of its
    /// participant.
    pub fn repin<T: TraceObj>(&mut self, gc: &mut Global<T>)
        requires
            old(gc).wf(),
            old(gc).guarded(*old(self)),
        ensures
            final(gc).wf(),
            *final(self) == *old(self),
            final(gc).guarded(*final(self)),
            final(gc).local(old(self).lid as int).guard_count == old(gc).local(
                old(self).lid as int,
            ).guard_count,
            old(gc).local(old(self).lid as int).guard_count == 1 ==> final(gc).local(
                old(self).lid as int,
            ).epoch == old(gc).epoch.data.pin_of(),
            old(gc).local(old(self).lid as int).guard_count > 1 ==> final(gc).local(
                old(self).lid as int,
            ).epoch == old(gc).local(old(self).lid as int).epoch,
            // The guard has helped if it was asked to, and its participant has been unpinned and
            // pinned again if it is its only guard.
            exists|mid: Global<T>, unpinned: Global<T>, guard: Guard|
                #![trigger old(self).has_helped_if_asked(*old(gc), mid), (Handle {
                    lid: old(self).lid,
                }).has_pinned(unpinned, guard, *final(gc))]
                old(self).has_helped_if_asked(*old(gc), mid) && unpinned.is_unpinned(
                    mid,
                    old(self).lid as int,
                ) && (Handle { lid: old(self).lid }).has_pinned(unpinned, guard, *final(gc)),
            final(gc).keeps_payloads(*old(gc)),
            final(gc).books_kept(*old(gc)),
            surviving(old(gc).abs(), final(gc).abs()),
            spares(old(gc).abs(), final(gc).abs()),
            final(gc).keeps_hps(*old(gc)),
            final(gc).epoch == old(gc).epoch,
            final(gc).nodes().len() == old(gc).nodes().len(),
            forall|k: int|
                0 <= k < final(gc).nodes().len() && k != old(self).lid ==> #[trigger] final(
                    gc).nodes()[k] == old(gc).nodes()[k],
    {
        let ghost before = *gc;
        let ghost l = self.lid as int;
        self.help_collect_if_scheduled(gc);
        let ghost mid = *gc;
        gc.unpin_inner(self.lid);
        let ghost unpinned = *gc;
        let handle = Handle { lid: self.lid };
        proof {
            assert(mid.abs().part_ok(mid.abs().parts[l]));
            assert(mid.abs().parts[l] == part_of(mid.nodes()[l]));
            assert(unpinned.nodes()[l].using);
        }
        let again: Guard = handle.pin(gc);
        proof {
            assert(self.has_helped_if_asked(before, mid));
            assert(handle.has_pinned(unpinned, again, *gc));
            let s = mid.abs();
            if !before.abs().tracing() {
                lemma_sweeps_surviving(before.abs(), s);
            }
            assert(surviving(before.abs(), s));
            assert(surviving(s, gc.abs())) by {
                assert(surviving(s, unpinned.abs()));
                assert(surviving(unpinned.abs(), gc.abs()));
                lemma_surviving_on(s, unpinned.abs(), gc.abs());
            }
            lemma_surviving_on(before.abs(), s, gc.abs());
            lemma_helped_spares(before.abs(), s, l);
            assert forall|k: int| 0 <= k < s.parts.len() implies (
            #[trigger] gc.abs().parts[k]).hazards == s.parts[k].hazards && gc.abs().parts[k].using
                == s.parts[k].using by {
                assert(gc.abs().parts[k] == part_of(gc.nodes()[k]));
                assert(s.parts[k] == part_of(mid.nodes()[k]));
            }
            lemma_shape_on(s, unpinned.abs(), gc.abs());
            lemma_shape_spares(s, gc.abs());
            lemma_spares_on(before.abs(), s, gc.abs());
            lemma_books_same(mid, unpinned);
            let size = Global::<T>::obj_size() as int;
            lemma_books_on(before.books(), mid.books(), unpinned.books(), size);
            lemma_books_on(before.books(), unpinned.books(), gc.books(), size);
            assert forall|x: u64| #[trigger]
                gc.heap.payloads().contains_key(x) implies before.heap.payloads().contains_key(x) && gc.heap.payloads()[x] == before.heap.payloads()[x] by {
                assert(mid.heap.payloads().contains_key(x));
            }
            assert forall|k: int|
                0 <= k < gc.nodes().len() && k != l implies #[trigger] gc.nodes()[k]
                == before.nodes()[k] by {
                assert(gc.nodes()[k] == unpinned.nodes()[k]);
                assert(unpinned.nodes()[k] == mid.nodes()[k]);
            }
        }
    }
}

impl Handle {
    /// Pins the participant, and returns a guard that grants access to the managed heap.
    pub fn pin<T: TraceObj>(&self, gc: &mut Global<T>) -> (r: Guard)
        requires
            old(gc).wf(),
            old(gc).knows(*self),
            old(gc).local(self.lid as int).guard_count < usize::MAX,
        ensures
            final(gc).wf(),
            self.has_pinned(*old(gc), r, *final(gc)),
            final(gc).guarded(r),
            final(gc).knows(*self),
            final(gc).local(self.lid as int).guard_count == old(gc).local(
                self.lid as int,
            ).guard_count + 1,
            // The new guard has not been asked for help, and the others are asked where they were.
            r.is_not_asked(*old(gc), *final(gc)),
            keeps_protected(old(gc).abs(), final(gc).abs()),
            same_shape(old(gc).abs(), final(gc).abs()),
    {
        let gid: u64 = gc.pin_inner(self.lid);
        Guard { lid: self.lid, gid }
    }

    /// Returns `true` if the participant is pinned.
    pub fn is_pinned<T: TraceObj>(&self, gc: &Global<T>) -> (r: bool)
        requires
            gc.wf(),
            gc.knows(*self),
        ensures
            r == gc.pinned(self.lid as int),
    {
        let lid: usize = self.lid;
        assert(gc.nodes()[lid as int].item.wf());
        gc.locals.nodes[lid].item.is_pinned()
    }
}

/// Tasks have been done by a participant that helps.
proof fn lemma_drain_helped<T: TraceObj>(
    before: Global<T>,
    scanned: Global<T>,
    begun: Global<T>,
    done: Global<T>,
    after: Global<T>,
    l: int,
)
    requires
        before.wf(),
        scanned.wf(),
        before.takes_part(l),
        0 <= l < before.nodes().len(),
        scanned.only_helping(before, l),
        helped(before.abs(), scanned.abs(), l),
        begun.only_local(scanned, l),
        begun.abs() == scanned.abs(),
        done.wf(),
        done.only_tracing(begun, l),
        done.abs().epoch == begun.abs().epoch,
        done.abs().parts == begun.abs().parts,
        traces_within(begun.abs(), done.abs(), Set::empty()),
        forall|x: u64| #[trigger] begun.abs().is_black(x) ==> done.abs().is_black(x),
        !before.abs().tracing() ==> done.abs() == begun.abs(),
        after.only_local(done, l),
        after.abs() == done.abs(),
        after.local(l).same_holdings(scanned.local(l)),
        begun.local(l).objs == scanned.local(l).objs,
        after.local(l).objs == done.local(l).objs,
    ensures
        after.only_helping(before, l),
        helped(before.abs(), after.abs(), l),
{
    assert forall|k: int|
        0 <= k < after.nodes().len() && k != l implies #[trigger] after.nodes()[k]
        == before.nodes()[k] by {
        assert(after.nodes()[k] == done.nodes()[k]);
        assert(done.nodes()[k] == begun.nodes()[k]);
        assert(begun.nodes()[k] == scanned.nodes()[k]);
    }
    assert forall|x: u64| #[trigger]
        after.heap.payloads().contains_key(x) implies before.heap.payloads().contains_key(x) && after.heap.payloads()[x] == before.heap.payloads()[x] by {
        assert(scanned.heap.payloads().contains_key(x));
    }
    if before.abs().tracing() {
        assert forall|r: Set<u64>| #[trigger] within_cached(before.abs(), l, r) implies hazards_within(
            before.abs(),
            Set::empty(),
            r,
        ) by {}
        lemma_trace_more(before.abs(), scanned.abs(), done.abs(), l, Set::empty());
    }
    crate::helping::lemma_books_traced(begun, done, l);
    lemma_books_between(scanned, begun, done, after);
    lemma_books_on(
        before.books(),
        scanned.books(),
        after.books(),
        Global::<T>::obj_size() as int,
    );
}
} // verus!
