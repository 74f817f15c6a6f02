//! The participants: what each thread that uses the heap has of its own.

use crate::epoch::{Color, Epoch, Phase};
use crate::hazards::AddressSet;
use crate::lists::{ObjBatch, OBJ_BATCH_SIZE};
use crate::mark_queue::MarkQueue;
use crate::model::PartModel;
use crate::shards::ShardPicker;
use crate::sync::reusable_slots::Node;
use vstd::prelude::*;

verus! {

/// The number of hazard pointers that a participant starts with.
pub const HAZARDS_INIT_COUNT: usize = 8;

/// After how many allocations a participant offers its help.
pub const ALLOC_HELPING_PERIOD: u64 = 64;

/// After how many scheduled tasks a participant offers its help.
pub const SCHED_HELPING_PERIOD: u64 = 32;

/// Participant for garbage collection.
pub struct Local {
    /// The number of guards keeping this participant pinned.
    pub guard_count: usize,
    /// The epoch that this participant observed most recently.
    pub last_observed: Epoch,
    /// A counter of allocations to periodically trigger helping collection.
    pub alloc_count: u64,
    /// A counter of scheduling to periodically trigger helping collection.
    pub sched_count: u64,
    /// The participant is helping to sweep.
    pub is_helping_normal: bool,
    /// The participant is helping to mark roots.
    pub is_helping_root_tracing: bool,
    /// The participant is helping to trace.
    pub is_helping_draining_mark_tasks: bool,
    /// The protected addresses. Zero protects nothing.
    pub hazards: Vec<u64>,
    /// Which of the hazard pointers have an object to mark.
    pub hazards_marker: Vec<bool>,
    /// The epoch this participant is pinned at.
    pub epoch: Epoch,
    /// The last timestamp when this participant modified its mark queue.
    pub mt_modified_ts: u64,
    /// The indices of the hazard pointers that are not handed out.
    pub available_hids: Vec<usize>,
    /// Selects shards.
    pub picker: ShardPicker,
    /// By allocation color: a batch of newly allocated objects, and how many bytes of it are yet
    /// to be counted as allocated.
    pub objs: Vec<(ObjBatch, usize)>,
    /// The objects that this participant has scheduled to be marked.
    pub mark_tasks: MarkQueue,
    /// Hazards that this participant has collected and may use again in the same epoch.
    pub cached_hazards: Option<(AddressSet, Epoch)>,
    /// The guards that have been asked to help the collector.
    pub should_help: Vec<u64>,
    /// The number of the next guard.
    pub next_guard: u64,
}

/// The addresses that hazard pointers protect.
pub open spec fn hazard_set(hazards: Seq<u64>) -> Set<u64> {
    Set::new(|x: u64| x != 0 && hazards.contains(x))
}

/// A participant as the collector sees it.
pub open spec fn part_of(n: Node<Local>) -> PartModel {
    PartModel {
        using: n.using,
        epoch: n.item.epoch,
        observed: n.item.last_observed.ts(),
        hazards: hazard_set(n.item.hazards@),
        cached: match n.item.cached_hazards {
            Some((h, e)) => Some((h@, e)),
            None => None,
        },
    }
}

/// One of the next tasks is the last of a period.
pub open spec fn help_due(count: u64, n: nat) -> bool {
    count % SCHED_HELPING_PERIOD + n >= SCHED_HELPING_PERIOD
}

/// Nothing is scheduled where nothing differs.
pub proof fn lemma_scheduled_none(a: Local, guard: u64)
    ensures
        a.has_scheduled(a, Seq::empty(), guard),
        a.has_asked(a, 0, guard),
{
    assert(a.mark_tasks.items() + Seq::<u64>::empty() =~= a.mark_tasks.items());
}

/// Some tasks and then some more are all of them.
pub proof fn lemma_asked_on(a: Local, b: Local, c: Local, n: nat, m: nat, guard: u64)
    requires
        b.has_asked(a, n, guard),
        c.has_asked(b, m, guard),
    ensures
        c.has_asked(a, n + m, guard),
{
    let k = a.sched_count as int;
    let w = u64::MAX + 1;
    assert((k + n) % w == b.sched_count);
    assert((b.sched_count + m) % w == (k + n + m) % w) by {
        vstd::arithmetic::div_mod::lemma_add_mod_noop_right(m as int, k + n, w);
    }
    assert(b.sched_count as int % 32 == (k + n) % 32) by {
        vstd::arithmetic::div_mod::lemma_mod_mod(k + n, 32, w / 32);
    }
}

/// Some tasks and then some more are all of them.
pub proof fn lemma_scheduled_on(
    a: Local,
    b: Local,
    c: Local,
    first: Seq<u64>,
    second: Seq<u64>,
    guard: u64,
)
    requires
        b.has_scheduled(a, first, guard),
        c.has_scheduled(b, second, guard),
        b.epoch == a.epoch,
    ensures
        c.has_scheduled(a, first + second, guard),
{
    lemma_asked_on(a, b, c, first.len(), second.len(), guard);
    assert((a.mark_tasks.items() + first) + second =~= a.mark_tasks.items() + (first + second));
}

impl Local {
    pub open spec fn wf(self) -> bool {
        &&& self.guard_count > 0 <==> self.epoch.pinned_flag()
        &&& self.hazards_ok()
        &&& self.objs@.len() == 2
        &&& self.objs@[0].0.is_usual()
        &&& self.objs@[1].0.is_usual()
        &&& self.objs@[0].0@.len() == 0 ==> self.objs@[0].1 == 0
        &&& self.objs@[1].0@.len() == 0 ==> self.objs@[1].1 == 0
        &&& self.mark_tasks.wf()
    }

    /// Nothing of this participant is later than the given timestamp.
    pub open spec fn clock_ok(self, ts: u64) -> bool {
        self.epoch.ts() <= ts && self.mt_modified_ts <= ts
    }

    /// A hazard pointer that is not handed out protects nothing, and none is available twice.
    pub open spec fn hazards_ok(self) -> bool {
        &&& self.hazards@.len() == self.hazards_marker@.len()
        &&& self.hazards@.len() > 0
        &&& forall|h: int|
            0 <= h < self.hazards@.len() ==> #[trigger] self.hazards_marker@[h] == (self.hazards@[h]
                != 0)
        &&& forall|k: int|
            0 <= k < self.available_hids@.len() ==> (#[trigger] self.available_hids@[k])
                < self.hazards@.len() && self.hazards@[self.available_hids@[k] as int] == 0
        &&& self.available_hids@.no_duplicates()
    }

    /// Nothing but the bookkeeping of mark tasks and of help differs.
    pub open spec fn same_but_sched(self, before: Local) -> bool {
        &&& self.same_but_mark(before)
        &&& self.alloc_count == before.alloc_count
    }

    /// What the participant holds is the same, but for the guards that pin it.
    pub open spec fn same_but_pin(self, before: Local) -> bool {
        (Local {
            guard_count: before.guard_count,
            last_observed: before.last_observed,
            epoch: before.epoch,
            next_guard: before.next_guard,
            ..self
        }).same_holdings(before)
    }

    /// Nothing but the bookkeeping of mark tasks and of help and the choice of shards differs.
    pub open spec fn same_but_work(self, before: Local) -> bool {
        &&& (Local { picker: before.picker, ..self }).same_but_sched(before)
    }

    /// Nothing but the bookkeeping of mark tasks, of allocations and of help differs.
    pub open spec fn same_but_mark(self, before: Local) -> bool {
        &&& self.guard_count == before.guard_count
        &&& self.last_observed == before.last_observed
        &&& self.is_helping_normal == before.is_helping_normal
        &&& self.is_helping_root_tracing == before.is_helping_root_tracing
        &&& self.is_helping_draining_mark_tasks == before.is_helping_draining_mark_tasks
        &&& self.hazards == before.hazards
        &&& self.hazards_marker == before.hazards_marker
        &&& self.epoch == before.epoch
        &&& self.available_hids == before.available_hids
        &&& self.picker == before.picker
        &&& self.objs == before.objs
        &&& self.cached_hazards == before.cached_hazards
        &&& self.next_guard == before.next_guard
    }
}

impl Default for Local {
    /// A participant that has never been used.
    fn default() -> (r: Self)
        ensures
            r.wf(),
            r.guard_count == 0,
            r.last_observed.data == 0,
            r.last_observed.ts() == 0,
            r.alloc_count == 0,
            r.sched_count == 0,
            !r.is_helping_normal,
            !r.is_helping_root_tracing,
            !r.is_helping_draining_mark_tasks,
            r.hazards@ == Seq::new(HAZARDS_INIT_COUNT as nat, |i: int| 0u64),
            r.available_hids@ == Seq::new(HAZARDS_INIT_COUNT as nat, |i: int| i as usize),
            r.epoch.data == 0,
            r.mt_modified_ts == 0,
            r.objs@[0].0@ == Seq::<u64>::empty(),
            r.objs@[1].0@ == Seq::<u64>::empty(),
            r.objs@[0].1 == 0,
            r.objs@[1].1 == 0,
            r.objs@[0].0.capacity == OBJ_BATCH_SIZE,
            r.objs@[1].0.capacity == OBJ_BATCH_SIZE,
            r.mark_tasks.items() == Seq::<u64>::empty(),
            r.cached_hazards is None,
            r.should_help@ == Seq::<u64>::empty(),
            r.next_guard == 0,
    {
        let hazards: Vec<u64> = vec![0, 0, 0, 0, 0, 0, 0, 0];
        let hazards_marker: Vec<bool> = vec![
            false,
            false,
            false,
            false,
            false,
            false,
            false,
            false,
        ];
        let available_hids: Vec<usize> = vec![0, 1, 2, 3, 4, 5, 6, 7];
        assert(hazards@ =~= Seq::new(8, |i: int| 0u64));
        assert(available_hids@ =~= Seq::new(8, |i: int| i as usize));
        Local {
            guard_count: 0,
            last_observed: Epoch::starting(),
            alloc_count: 0,
            sched_count: 0,
            is_helping_normal: false,
            is_helping_root_tracing: false,
            is_helping_draining_mark_tasks: false,
            hazards,
            hazards_marker,
            epoch: Epoch::starting(),
            mt_modified_ts: 0,
            available_hids,
            picker: ShardPicker::new(),
            objs: vec![(ObjBatch::default(), 0), (ObjBatch::default(), 0)],
            mark_tasks: MarkQueue::new(),
            cached_hazards: None,
            should_help: Vec::new(),
            next_guard: 0,
        }
    }
}

impl Local {
    /// Returns `true` if the participant is pinned.
    pub fn is_pinned(&self) -> (r: bool)
        requires
            self.wf(),
        ensures
            r == self.epoch.pinned_flag(),
            r == (self.guard_count > 0),
    {
        self.guard_count > 0
    }

    /// Hands out a hazard pointer. Where all are in use, their number is doubled first.
    pub fn acquire_hp(&mut self) -> (r: usize)
        requires
            old(self).wf(),
        ensures
            final(self).wf(),
            r < final(self).hazards@.len(),
            final(self).hazards@[r as int] == 0,
            !final(self).available_hids@.contains(r),
            old(self).available_hids@.len() > 0 ==> *final(self) == (Local {
                available_hids: final(self).available_hids,
                ..*old(self)
            }) && r == old(self).available_hids@.last() && final(self).available_hids@
                == old(self).available_hids@.drop_last(),
            old(self).available_hids@.len() == 0 ==> {
                let n = old(self).hazards@.len();
                &&& *final(self) == (Local {
                    hazards: final(self).hazards,
                    hazards_marker: final(self).hazards_marker,
                    available_hids: final(self).available_hids,
                    ..*old(self)
                })
                &&& r == 2 * n - 1
                &&& final(self).hazards@ == old(self).hazards@ + Seq::new(n, |i: int| 0u64)
                &&& final(self).available_hids@ == Seq::new((n - 1) as nat, |i: int| (n + i) as usize)
            },
            hazard_set(final(self).hazards@) == hazard_set(old(self).hazards@),
    {
        if self.available_hids.len() == 0 {
            self.grow_hazards();
        }
        let ghost before = self.available_hids@;
        match self.available_hids.pop() {
            Some(hid) => {
                assert(before[before.len() - 1] == hid);
                assert(self.hazards@.len() == self.hazards.len());
                assert(old(self).available_hids@.len() == 0 ==> self.available_hids@ =~= Seq::new(
                    (old(self).hazards@.len() - 1) as nat,
                    |i: int| (old(self).hazards@.len() + i) as usize,
                ));
                hid
            },
            None => vstd::pervasive::unreached(),
        }
    }

    /// Doubles the number of hazard pointers. The new ones are available.
    pub fn grow_hazards(&mut self)
        requires
            old(self).wf(),
            old(self).available_hids@.len() == 0,
        ensures
            final(self).wf(),
            *final(self) == (Local {
                hazards: final(self).hazards,
                hazards_marker: final(self).hazards_marker,
                available_hids: final(self).available_hids,
                ..*old(self)
            }),
            final(self).hazards@ == old(self).hazards@ + Seq::new(
                old(self).hazards@.len(),
                |i: int| 0u64,
            ),
            final(self).available_hids@ == Seq::new(
                old(self).hazards@.len(),
                |i: int| (old(self).hazards@.len() + i) as usize,
            ),
            hazard_set(final(self).hazards@) == hazard_set(old(self).hazards@),
    {
        let half: usize = self.hazards.len();
        let mut i: usize = 0;
        while i < half
            invariant
                i <= half,
                half == old(self).hazards@.len(),
                *self == (Local {
                    hazards: self.hazards,
                    hazards_marker: self.hazards_marker,
                    available_hids: self.available_hids,
                    ..*old(self)
                }),
                old(self).wf(),
                self.hazards@ == old(self).hazards@ + Seq::new(i as nat, |k: int| 0u64),
                self.hazards_marker@ == old(self).hazards_marker@ + Seq::new(
                    i as nat,
                    |k: int| false,
                ),
                self.available_hids@ == Seq::new(i as nat, |k: int| (half + k) as usize),
            decreases half - i,
        {
            self.hazards.push(0);
            self.hazards_marker.push(false);
            proof {
                assert(self.hazards@ =~= old(self).hazards@ + Seq::new((i + 1) as nat, |k: int| 0u64));
                assert(self.hazards_marker@ =~= old(self).hazards_marker@ + Seq::new(
                    (i + 1) as nat,
                    |k: int| false,
                ));
                assert(self.hazards@.len() == self.hazards.len());
            }
            self.available_hids.push(half + i);
            proof {
                assert(self.available_hids@ =~= Seq::new(
                    (i + 1) as nat,
                    |k: int| (half + k) as usize,
                ));
            }
            i = i + 1;
        }
        assert forall|x: u64| x != 0 && #[trigger] self.hazards@.contains(x) implies old(self).hazards@.contains(x) by {
            let k = choose|k: int| 0 <= k < self.hazards@.len() && self.hazards@[k] == x;
            assert(old(self).hazards@[k] == x);
        }
        assert forall|x: u64| #[trigger] old(self).hazards@.contains(
            x,
        ) implies self.hazards@.contains(x) by {
            let k = choose|k: int| 0 <= k < old(self).hazards@.len() && old(self).hazards@[k] == x;
            assert(self.hazards@[k] == x);
        }
        assert(hazard_set(self.hazards@) =~= hazard_set(old(self).hazards@));
        assert(self.hazards@.len() == self.hazards.len());
        assert forall|k: int| 0 <= k < self.available_hids@.len() implies (
        #[trigger] self.available_hids@[k]) == half + k by {}
        assert(self.available_hids@.no_duplicates());
    }
}

impl Local {
    /// Takes a hazard pointer back.
    pub fn release_hp(&mut self, hid: usize)
        requires
            old(self).wf(),
            hid < old(self).hazards@.len(),
            old(self).hazards@[hid as int] == 0,
            !old(self).available_hids@.contains(hid),
        ensures
            final(self).wf(),
            final(self).available_hids@ == old(self).available_hids@.push(hid),
            *final(self) == (Local { available_hids: final(self).available_hids, ..*old(self) }),
    {
        self.available_hids.push(hid);
    }

    /// Lets a hazard pointer protect an address, or nothing if the address is zero.
    pub fn set_hazard(&mut self, hid: usize, addr: u64)
        requires
            old(self).wf(),
            hid < old(self).hazards@.len(),
            !old(self).available_hids@.contains(hid),
        ensures
            final(self).wf(),
            final(self).hazards@ == old(self).hazards@.update(hid as int, addr),
            *final(self) == (Local {
                hazards: final(self).hazards,
                hazards_marker: final(self).hazards_marker,
                ..*old(self)
            }),
    {
        self.hazards[hid] = addr;
        self.hazards_marker[hid] = addr != 0;
        assert forall|k: int| 0 <= k < self.available_hids@.len() implies (
        #[trigger] self.available_hids@[k]) < self.hazards@.len()
            && self.hazards@[self.available_hids@[k] as int] == 0 by {
            assert(old(self).available_hids@[k] != hid);
        }
    }

    /// The color of what this participant allocates while it is pinned.
    pub open spec fn alloc_color(self) -> Color {
        if self.epoch.ph() == Phase::N {
            self.epoch.white()
        } else {
            self.epoch.white().flipped()
        }
    }

    /// The color of what this participant allocates while it is pinned.
    pub fn pinned_alloc_color(&self) -> (r: Color)
        requires
            self.epoch.valid(),
        ensures
            r == self.alloc_color(),
    {
        match self.epoch.phase() {
            Phase::N => self.epoch.color(),
            _ => self.epoch.color().flip(),
        }
    }

    /// Takes the batch of a color with the bytes that are yet to be counted, if there is anything
    /// in it, and leaves an empty one.
    pub fn take_obj_batch(&mut self, color: Color) -> (r: Option<(ObjBatch, usize)>)
        requires
            old(self).wf(),
        ensures
            final(self).wf(),
            *final(self) == (Local { objs: final(self).objs, ..*old(self) }),
            ({
                let c = color.code() as int;
                let d = color.flipped().code() as int;
                &&& final(self).objs@[d] == old(self).objs@[d]
                &&& final(self).objs@[c].0@ == Seq::<u64>::empty()
                &&& r is None <==> old(self).objs@[c].0@.len() == 0
                &&& r is None ==> *final(self) == *old(self)
                &&& r matches Some(taken) ==> taken == old(self).objs@[c] && final(self).objs@[c].1
                    == 0
            }),
    {
        let c: usize = color.index();
        if self.objs[c].0.is_empty() {
            assert(self.objs@[c as int].0@ =~= Seq::<u64>::empty());
            return None;
        }
        let mut taken: (ObjBatch, usize) = (ObjBatch::default(), 0);
        std::mem::swap(&mut self.objs[c], &mut taken);
        Some(taken)
    }

    /// Returns `true` if the batch of a color has no room.
    pub fn batch_full(&self, color: Color) -> (r: bool)
        requires
            self.wf(),
        ensures
            r == (self.objs@[color.code() as int].0@.len() >= self.objs@[color.code()
                as int].0.capacity),
    {
        let c: usize = color.index();
        self.objs[c].0.items.len() >= self.objs[c].0.capacity
    }

    /// Adds an object to the batch of a color, with bytes that are yet to be counted.
    pub fn push_obj(&mut self, color: Color, addr: u64, bytes: usize)
        requires
            old(self).wf(),
            old(self).objs@[color.code() as int].0@.len() < old(self).objs@[color.code()
                as int].0.capacity,
        ensures
            final(self).wf(),
            *final(self) == (Local { objs: final(self).objs, ..*old(self) }),
            ({
                let c = color.code() as int;
                let d = color.flipped().code() as int;
                &&& final(self).objs@[d] == old(self).objs@[d]
                &&& final(self).objs@[c].0@ == old(self).objs@[c].0@.push(addr)
                &&& final(self).objs@[c].0.capacity == old(self).objs@[c].0.capacity
                &&& final(self).objs@[c].1 == old(self).objs@[c].1.wrapping_add(bytes)
            }),
    {
        let c: usize = color.index();
        let ghost before = self.objs@;
        let r: Result<(), u64> = self.objs[c].0.push_within_capacity(addr);
        let pending: usize = self.objs[c].1;
        let total: usize = pending.wrapping_add(bytes);
        self.objs[c].1 = total;
        assert(self.objs@ =~= before.update(c as int, self.objs@[c as int]));
    }

    /// Notes that the mark queue is modified in the current epoch.
    pub fn record_mt_modification(&mut self)
        ensures
            *final(self) == (Local { mt_modified_ts: old(self).epoch.ts(), ..*old(self) }),
    {
        let ts: u64 = self.epoch.timestamp();
        if self.mt_modified_ts == ts {
            return;
        }
        self.mt_modified_ts = ts;
    }

    /// Asks a guard to help the collector before it goes.
    pub fn schedule_helping_collect(&mut self, guard: u64)
        ensures
            *final(self) == (Local { should_help: final(self).should_help, ..*old(self) }),
            forall|g: u64| #[trigger]
                final(self).should_help@.contains(g) <==> old(self).should_help@.contains(g) || g
                    == guard,
    {
        self.should_help.push(guard);
        let ghost after = self.should_help@;
        let ghost before = old(self).should_help@;
        assert forall|g: u64| #[trigger] after.contains(g) <==> before.contains(g) || g == guard by {
            if before.contains(g) {
                let k = choose|k: int| 0 <= k < before.len() && before[k] == g;
                assert(after[k] == g);
            }
            if g == guard {
                assert(after[before.len() as int] == g);
            }
        }
    }

    /// Returns `true` if the guard has been asked to help, which it then no longer is.
    pub fn take_helping(&mut self, guard: u64) -> (r: bool)
        ensures
            *final(self) == (Local { should_help: final(self).should_help, ..*old(self) }),
            r == old(self).should_help@.contains(guard),
            forall|g: u64| #[trigger]
                final(self).should_help@.contains(g) <==> old(self).should_help@.contains(g) && g
                    != guard,
    {
        let mut kept: Vec<u64> = Vec::new();
        let mut found = false;
        let mut i: usize = 0;
        let ghost all = self.should_help@;
        while i < self.should_help.len()
            invariant
                *self == *old(self),
                all == self.should_help@,
                i <= all.len(),
                found == exists|k: int| 0 <= k < i && #[trigger] all[k] == guard,
                forall|g: u64| #[trigger]
                    kept@.contains(g) <==> g != guard && exists|k: int|
                        0 <= k < i && #[trigger] all[k] == g,
            decreases all.len() - i,
        {
            let g: u64 = self.should_help[i];
            let ghost before = kept@;
            if g == guard {
                found = true;
            } else {
                kept.push(g);
                assert forall|h: u64| #[trigger] kept@.contains(h) <==> before.contains(h) || h
                    == g by {
                    if before.contains(h) {
                        let k = choose|k: int| 0 <= k < before.len() && before[k] == h;
                        assert(kept@[k] == h);
                    }
                    if h == g {
                        assert(kept@[before.len() as int] == h);
                    }
                }
            }
            i = i + 1;
        }
        self.should_help = kept;
        found
    }

    /// Tasks have been scheduled, behind what had been scheduled before, and the guard has been
    /// asked for help if it was time to. No other guard has.
    pub open spec fn has_scheduled(self, before: Local, tasks: Seq<u64>, guard: u64) -> bool {
        &&& self.mark_tasks.items() == before.mark_tasks.items() + tasks
        &&& self.mt_modified_ts == (if tasks.len() == 0 {
            before.mt_modified_ts
        } else {
            before.epoch.ts()
        })
        &&& self.has_asked(before, tasks.len(), guard)
    }

    /// So many tasks have been scheduled, and the guard has been asked for help if one of them was
    /// the last of a period. No other guard has.
    pub open spec fn has_asked(self, before: Local, n: nat, guard: u64) -> bool {
        &&& self.sched_count == (before.sched_count + n) % (u64::MAX + 1)
        &&& forall|g: u64| #[trigger]
            self.should_help@.contains(g) <==> before.should_help@.contains(g) || (g == guard
                && help_due(before.sched_count, n))
    }

    /// Schedules an object to be marked, and asks the guard for help every now and then.
    pub fn schedule_mark(&mut self, addr: u64, guard: u64)
        ensures
            final(self).same_but_sched(*old(self)),
            final(self).mark_tasks.wf() == old(self).mark_tasks.wf(),
            final(self).has_scheduled(*old(self), seq![addr], guard),
    {
        self.record_mt_modification();
        self.mark_tasks.push(addr);
        self.sched_count = self.sched_count.wrapping_add(1);
        if self.sched_count % SCHED_HELPING_PERIOD == 0 {
            self.schedule_helping_collect(guard);
        }
        proof {
            let items = old(self).mark_tasks.items();
            assert(items.push(addr) =~= items + seq![addr]);
        }
    }

    /// Takes the oldest task of this participant.
    pub fn try_pop_mark_task(&mut self) -> (r: Option<u64>)
        requires
            old(self).mark_tasks.wf(),
        ensures
            final(self).mark_tasks.wf(),
            final(self).same_but_sched(*old(self)),
            final(self).sched_count == old(self).sched_count,
            final(self).should_help == old(self).should_help,
            old(self).mark_tasks.items().len() == 0 ==> r is None && *final(self) == *old(self),
            old(self).mark_tasks.items().len() > 0 ==> {
                let items = old(self).mark_tasks.items();
                &&& r == Some(items[0])
                &&& final(self).mark_tasks.items() == items.subrange(1, items.len() as int)
                &&& final(self).mt_modified_ts == old(self).epoch.ts()
            },
    {
        if !self.mark_tasks.is_empty() {
            self.record_mt_modification();
            return self.mark_tasks.pop();
        }
        None
    }

    /// Counts an allocation, and asks the guard for help every now and then.
    pub fn count_alloc(&mut self, guard: u64)
        ensures
            *final(self) == (Local {
                alloc_count: final(self).alloc_count,
                should_help: final(self).should_help,
                ..*old(self)
            }),
            final(self).alloc_count == old(self).alloc_count.wrapping_add(1),
            forall|g: u64| #[trigger]
                final(self).should_help@.contains(g) <==> old(self).should_help@.contains(g) || (g
                    == guard && final(self).alloc_count % ALLOC_HELPING_PERIOD == 0),
    {
        self.alloc_count = self.alloc_count.wrapping_add(1);
        if self.alloc_count % ALLOC_HELPING_PERIOD == 0 {
            self.schedule_helping_collect(guard);
        }
    }
}
} // verus!
