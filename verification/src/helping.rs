//! How a participant helps the collector.

use crate::accounts::{lemma_books_on, lemma_books_same};
use crate::epoch::{Color, Epoch, Phase};
use crate::global::{is_prefix, lemma_asks_none, lemma_asks_on, lemma_part_changed, Global};
use crate::hazards::AddressSet;
use crate::internal::{part_of, Local};
use crate::lists::lemma_batches_popped;
use crate::model::{GcModel, PartModel};
use crate::roots::lemma_same_white;
use crate::scanning::{traces_within, within};
use crate::shards::{is_shard_permutation, OBJ_BATCHES_SHARD};
use crate::steps::{
    keeps_protected, lemma_pinned_epoch, lemma_set_cached, lemma_shape_on, safe_step, same_shape,
    set_cached, set_part,
};
use crate::sweeping::{lemma_sweeps_none, lemma_sweeps_on, sweeps};
use crate::trace::TraceObj;
use vstd::prelude::*;

verus! {

/// How many batches a participant sweeps when it helps.
pub const HELP_NORMAL_MAX_TRIAL: usize = 2;

/// How many batches a participant scans when it helps.
pub const HELP_TRACING_MAX_TRIAL: usize = 4;

impl<T: TraceObj> Global<T> {
    /// All shards of the list to be swept are empty.
    pub open spec fn swept_out(self) -> bool {
        forall|q: int|
            0 <= q < OBJ_BATCHES_SHARD ==> #[trigger] self.marked_objs.shard(
                self.abs().black(),
                q,
            ).len() == 0
    }

    /// Sweeps a few batches for a participant in a normal phase, and returns how many.
    pub fn help_normal_inner(&mut self, lid: usize) -> (r: usize)
        requires
            old(self).wf(),
            old(self).abs().epoch.ph() == Phase::N,
            old(self).pinned(lid as int),
            old(self).local(lid as int).epoch.ph() == Phase::N,
        ensures
            final(self).wf(),
            final(self).only_sweeping(*old(self), lid as int),
            final(self).books_kept(*old(self)),
            sweeps(old(self).abs(), final(self).abs()),
            keeps_protected(old(self).abs(), final(self).abs()),
            r <= HELP_NORMAL_MAX_TRIAL,
            r < HELP_NORMAL_MAX_TRIAL ==> final(self).swept_out(),
            final(self).marked_objs.batches(old(self).abs().black()) + r == old(
                self).marked_objs.batches(old(self).abs().black()),
            r == 0 ==> final(self).abs().objs == old(self).abs().objs,
    {
        let ghost before = *self;
        let ghost s = self.abs();
        let ghost l = lid as int;
        let ghost b = s.black();
        assert(self.nodes()[l].item.wf());
        let order: [usize; 8] = self.locals.nodes[lid].item.picker.generate_shard_permut();
        proof {
            assert(self.nodes() =~= before.nodes().update(l, self.nodes()[l]));
            lemma_part_changed(before, *self, l);
            assert(self.abs() =~= s);
            lemma_sweeps_none(s);
            lemma_books_same(before, *self);
        }
        let mut trial_count: usize = 0;
        let mut k: usize = 0;
        while k < 8
            invariant
                before == *old(self),
                s == before.abs(),
                s.sound(),
                s.epoch.ph() == Phase::N,
                b == s.black(),
                l == lid,
                before.pinned(l),
                before.local(l).epoch.ph() == Phase::N,
                is_shard_permutation(order@),
                k <= 8,
                self.wf(),
                self.only_sweeping(before, l),
                self.books_kept(before),
                sweeps(s, self.abs()),
                keeps_protected(s, self.abs()),
                trial_count < HELP_NORMAL_MAX_TRIAL,
                self.marked_objs.batches(b) + trial_count == before.marked_objs.batches(b),
                trial_count == 0 ==> self.abs().objs == s.objs,
                forall|j: int|
                    0 <= j < k ==> self.marked_objs.shard(b, (#[trigger] order@[j]) as int).len()
                        == 0,
            decreases 8 - k,
        {
            let q_idx: usize = order[k];
            let mut more = true;
            while more
                invariant
                    before == *old(self),
                    s == before.abs(),
                    s.sound(),
                    s.epoch.ph() == Phase::N,
                    b == s.black(),
                    l == lid,
                    before.pinned(l),
                    before.local(l).epoch.ph() == Phase::N,
                    is_shard_permutation(order@),
                    k < 8,
                    q_idx == order@[k as int],
                    self.wf(),
                    self.only_sweeping(before, l),
                    self.books_kept(before),
                    sweeps(s, self.abs()),
                    keeps_protected(s, self.abs()),
                    trial_count < HELP_NORMAL_MAX_TRIAL,
                    self.marked_objs.batches(b) + trial_count == before.marked_objs.batches(b),
                    trial_count == 0 ==> self.abs().objs == s.objs,
                    forall|j: int|
                        0 <= j < k ==> self.marked_objs.shard(
                            b,
                            (#[trigger] order@[j]) as int,
                        ).len() == 0,
                    !more ==> self.marked_objs.shard(b, q_idx as int).len() == 0,
                decreases
                    HELP_NORMAL_MAX_TRIAL - trial_count,
                    if more {
                        1nat
                    } else {
                        0nat
                    },
            {
                let ghost mid = *self;
                more = self.help_sweep_one(lid, q_idx);
                proof {
                    lemma_sweeps_on(s, mid.abs(), self.abs());
                    lemma_only_sweeping_on(before, mid, *self, l);
                    lemma_books_on(
                        before.books(),
                        mid.books(),
                        self.books(),
                        Self::obj_size() as int,
                    );
                    assert forall|j: int| 0 <= j < k implies self.marked_objs.shard(
                        b,
                        (#[trigger] order@[j]) as int,
                    ).len() == 0 by {
                        assert(order@[j] != order@[k as int]);
                        assert(mid.marked_objs.shard(b, order@[j] as int).len() == 0);
                    }
                    if more {
                        lemma_batches_popped(mid.marked_objs, self.marked_objs, b, q_idx as int);
                    }
                    if !more {
                        assert(self.marked_objs.shard(b, q_idx as int).len() == 0);
                        assert(self.abs().objs =~= mid.abs().objs) by {
                            lemma_nothing_swept(mid.abs(), self.abs());
                        }
                    }
                }
                if more {
                    trial_count = trial_count + 1;
                    if trial_count >= HELP_NORMAL_MAX_TRIAL {
                        return trial_count;
                    }
                }
            }
            k = k + 1;
        }
        proof {
            assert forall|q: int| 0 <= q < OBJ_BATCHES_SHARD implies #[trigger] self.marked_objs.shard(
                self.abs().black(),
                q,
            ).len() == 0 by {
                assert(order@.contains(q as usize));
                let j = choose|j: int| 0 <= j < order@.len() && order@[j] == q as usize;
                assert(self.marked_objs.shard(b, order@[j] as int).len() == 0);
            }
        }
        trial_count
    }
}

/// Where the list to be swept is the same, nothing is gone.
proof fn lemma_nothing_swept(s: GcModel, t: GcModel)
    requires
        s.sound(),
        s.epoch.ph() == Phase::N,
        sweeps(s, t),
        t.scanned_of(s.black()) == s.scanned_of(s.black()),
    ensures
        t.objs =~= s.objs,
{
    assert forall|x: u64| #[trigger] t.objs.contains_key(x) == s.objs.contains_key(x) by {
        crate::sweeping::lemma_dead_listed(s, x);
    }
}

/// Sweeping goes on.
pub proof fn lemma_only_sweeping_on<T: TraceObj>(
    a: Global<T>,
    b: Global<T>,
    c: Global<T>,
    l: int,
)
    requires
        0 <= l < a.nodes().len(),
        b.only_sweeping(a, l),
        c.only_sweeping(b, l),
        sweeps(b.abs(), c.abs()),
    ensures
        c.only_sweeping(a, l),
{
    assert forall|k: int|
        0 <= k < c.nodes().len() && k != l implies #[trigger] c.nodes()[k] == a.nodes()[k] by {
        assert(c.nodes()[k] == b.nodes()[k]);
    }
    assert forall|x: u64| #[trigger]
        c.heap.payloads().contains_key(x) implies a.heap.payloads().contains_key(x) && c.heap.payloads()[x] == a.heap.payloads()[x] by {
        assert(c.abs().objs.contains_key(x));
        assert(b.abs().objs.contains_key(x));
        assert(b.heap.payloads().contains_key(x));
    }
}

impl<T: TraceObj> Global<T> {
    /// All shards of the list of fresh objects that are white are empty.
    pub open spec fn scanned_out(self) -> bool {
        forall|q: int|
            0 <= q < OBJ_BATCHES_SHARD ==> #[trigger] self.fresh_objs.shard(
                self.abs().white(),
                q,
            ).len() == 0
    }

    /// Returns `true` if no participant is still pinned in a normal phase.
    pub fn is_tracing_synced(&self) -> (r: bool)
        requires
            self.wf(),
        ensures
            r == self.abs().synced(),
    {
        let ghost s = self.abs();
        let mut i: usize = 0;
        while i < self.locals.nodes.len()
            invariant
                self.wf(),
                s == self.abs(),
                i <= self.nodes().len(),
                forall|l: int|
                    0 <= l < i && (#[trigger] s.parts[l]).pinned() ==> s.parts[l].epoch.ph()
                        != Phase::N,
            decreases self.nodes().len() - i,
        {
            let other: Epoch = self.locals.nodes[i].item.epoch;
            proof {
                assert(s.part_ok(s.parts[i as int]));
                assert(s.parts[i as int] == part_of(self.nodes()[i as int]));
                lemma_pinned_epoch(s.epoch);
            }
            if self.locals.nodes[i].using && other.is_pinned() && other.phase() == Phase::N {
                assert(s.parts[i as int].pinned());
                return false;
            }
            i = i + 1;
        }
        true
    }

    /// Hands out the hazards that the participant has collected in this epoch, or collects them
    /// now. They have to be put back.
    fn scan_or_reuse_hazards(&mut self, lid: usize) -> (r: AddressSet)
        requires
            old(self).wf(),
            old(self).abs().epoch.ph() == Phase::RT,
            old(self).abs().synced(),
            old(self).takes_part(lid as int),
        ensures
            final(self).wf(),
            final(self).only_local(*old(self), lid as int),
            final(self).local(lid as int) == (Local {
                cached_hazards: final(self).local(lid as int).cached_hazards,
                ..old(self).local(lid as int)
            }),
            final(self).abs() == set_part(
                old(self).abs(),
                lid as int,
                PartModel {
                    cached: final(self).abs().parts[lid as int].cached,
                    ..old(self).abs().parts[lid as int]
                },
            ),
            keeps_protected(old(self).abs(), final(self).abs()),
            final(self).abs().covers(r@),
            final(self).abs().synced(),
            usable_hazards(old(self).abs(), lid as int, r@),
            final(self).abs().parts[lid as int].cached is Some ==> final(self).abs().parts[lid
                as int].cached == old(self).abs().parts[lid as int].cached,
    {
        let ghost before = *self;
        let ghost s = self.abs();
        let ghost l = lid as int;
        proof {
            assert(s.parts[l] == part_of(self.nodes()[l]));
            lemma_same_white(s, l);
            lemma_pinned_epoch(s.epoch);
            assert(s.part_ok(s.parts[l]));
            assert(self.nodes()[l].item.wf());
            assert(self.nodes() =~= before.nodes().update(l, self.nodes()[l]));
            assert(s =~= set_part(s, l, s.parts[l]));
        }
        let epoch: Epoch = self.locals.nodes[lid].item.epoch.pinned();
        let fresh: bool = match &self.locals.nodes[lid].item.cached_hazards {
            Some((_, at)) => *at == epoch,
            None => false,
        };
        if !fresh {
            let found: AddressSet = self.collect_hps();
            proof {
                assert forall|r: Set<u64>| #[trigger] within_cached(s, l, r) implies hazards_within(
                    s,
                    found@,
                    r,
                ) by {
                    assert forall|x: u64| s.live(x) && #[trigger] found@.contains(
                        x,
                    ) implies r.contains(x) by {
                        assert(x != 0);
                        let k = choose|k: int|
                            0 <= k < s.parts.len() && #[trigger] s.parts[k].hazards.contains(x);
                        assert(r.contains(x));
                    }
                }
            }
            return found;
        }
        let mut cached: Option<(AddressSet, Epoch)> = None;
        std::mem::swap(&mut self.locals.nodes[lid].item.cached_hazards, &mut cached);
        proof {
            assert(self.nodes() =~= before.nodes().update(l, self.nodes()[l]));
            lemma_part_changed(before, *self, l);
            assert(s.cached_ok(s.parts[l].cached));
            assert(s.parts[l] == part_of(before.nodes()[l]));
            assert forall|r: Set<u64>| #[trigger] within_cached(s, l, r) implies hazards_within(
                s,
                (cached->0).0@,
                r,
            ) by {
                assert(cached_within(s, s.parts[l].cached, r));
            }
            lemma_uncached(s, l);
            assert(self.abs() =~= set_part(
                s,
                l,
                PartModel { cached: None, ..s.parts[l] },
            ));
        }
        match cached {
            Some((set, _)) => set,
            None => AddressSet::new(),
        }
    }

    /// Puts back the hazards that were handed out.
    fn keep_hazards(&mut self, lid: usize, hazards: AddressSet)
        requires
            old(self).wf(),
            old(self).abs().epoch.ph() == Phase::RT,
            old(self).abs().synced(),
            old(self).takes_part(lid as int),
            old(self).abs().covers(hazards@),
        ensures
            final(self).wf(),
            final(self).only_local(*old(self), lid as int),
            final(self).local(lid as int) == (Local {
                cached_hazards: final(self).local(lid as int).cached_hazards,
                ..old(self).local(lid as int)
            }),
            final(self).abs() == set_cached(
                old(self).abs(),
                lid as int,
                hazards@,
                old(self).local(lid as int).epoch.pin_of(),
            ),
            keeps_protected(old(self).abs(), final(self).abs()),
    {
        let ghost before = *self;
        let ghost s = self.abs();
        let ghost l = lid as int;
        proof {
            assert(self.nodes()[l].item.wf());
            assert(self.nodes()[l].item.clock_ok(self.epoch.data.ts()));
        }
        let epoch: Epoch = self.locals.nodes[lid].item.epoch.pinned();
        self.locals.nodes[lid].item.cached_hazards = Some((hazards, epoch));
        proof {
            assert(self.nodes() =~= before.nodes().update(l, self.nodes()[l]));
            lemma_part_changed(before, *self, l);
            assert(self.abs() =~= set_cached(s, l, hazards@, epoch));
            lemma_set_cached(s, l, hazards@, epoch);
        }
    }
}

/// A participant may forget the hazards it has collected.
proof fn lemma_uncached(s: GcModel, l: int)
    requires
        s.sound(),
        0 <= l < s.parts.len(),
        s.epoch.ph() == Phase::RT,
    ensures
        ({
            let t = set_part(s, l, PartModel { cached: None, ..s.parts[l] });
            &&& safe_step(s, t)
            &&& t.synced() == s.synced()
            &&& forall|h: Set<u64>| #[trigger] s.covers(h) ==> t.covers(h)
        }),
{
    let t = set_part(s, l, PartModel { cached: None, ..s.parts[l] });
    crate::steps::lemma_parts_frame(s, t);
    assert(t.parts_ok()) by {
        assert forall|k: int| 0 <= k < t.parts.len() implies t.part_ok(#[trigger] t.parts[k]) by {
            assert(s.part_ok(s.parts[k]));
        }
    }
    assert forall|k: int, x: u64|
        0 <= k < t.parts.len() && #[trigger] t.parts[k].hazards.contains(
            x,
        ) implies s.parts[k].hazards.contains(x) by {}
    assert(t.synced() == s.synced()) by {
        if s.synced() {
            assert forall|k: int|
                0 <= k < t.parts.len() && (#[trigger] t.parts[k]).pinned() implies t.parts[k].epoch.ph()
                != Phase::N by {
                assert(s.parts[k].pinned());
            }
        }
        if t.synced() {
            assert forall|k: int|
                0 <= k < s.parts.len() && (#[trigger] s.parts[k]).pinned() implies s.parts[k].epoch.ph()
                != Phase::N by {
                assert(t.parts[k].pinned());
            }
        }
    }
    assert forall|h: Set<u64>| #[trigger] s.covers(h) implies t.covers(h) by {}
    assert forall|k: int| 0 <= k < t.parts.len() implies t.cached_ok(
        (#[trigger] t.parts[k]).cached,
    ) by {
        assert(s.cached_ok(s.parts[k].cached));
    }
    assert(t.root_tracing_ok());
}

/// The set has everything that is black, scheduled, rooted or protected by a hazard pointer, or
/// was protected when the participant last collected hazards, and with an object all that it has
/// edges to.
pub open spec fn within_cached(s: GcModel, l: int, r: Set<u64>) -> bool {
    &&& within(s, r)
    &&& cached_within(s, s.parts[l].cached, r)
}

/// The objects that are there of collected hazards are in the set.
pub open spec fn cached_within(s: GcModel, c: Option<(Set<u64>, Epoch)>, r: Set<u64>) -> bool {
    c matches Some((h, e)) ==> hazards_within(s, h, r)
}

/// The objects that are there among the addresses are in the set.
pub open spec fn hazards_within(s: GcModel, h: Set<u64>, r: Set<u64>) -> bool {
    forall|x: u64| s.live(x) && #[trigger] h.contains(x) ==> r.contains(x)
}

/// Tracing has gone on, and no further than it has to: the shape of the heap and the participants
/// are the same, but for what the one that traces keeps of collected hazards.
pub open spec fn trace_step(s: GcModel, t: GcModel, l: int) -> bool {
    &&& t.epoch == s.epoch
    &&& same_shape(s, t)
    &&& same_but_cached(s.parts, t.parts, l)
    &&& forall|x: u64| #[trigger] s.is_black(x) ==> t.is_black(x)
    &&& forall|r: Set<u64>| #[trigger] within_cached(s, l, r) ==> within_cached(t, l, r)
}

/// The addresses of hazards that may be used: those of the hazard pointers, or some that the
/// participant collected before.
pub open spec fn usable_hazards(s: GcModel, l: int, h: Set<u64>) -> bool {
    forall|r: Set<u64>| #[trigger] within_cached(s, l, r) ==> hazards_within(s, h, r)
}

/// What is within a set stays so where nothing but collected hazards differs, and those are some
/// that may be used.
proof fn lemma_cached_set(s: GcModel, mid: GcModel, t: GcModel, l: int)
    requires
        trace_step(s, mid, l),
        0 <= l < mid.parts.len(),
        t == set_part(mid, l, PartModel { cached: t.parts[l].cached, ..mid.parts[l] }),
        t.parts[l].cached matches Some((h, e)) ==> t.parts[l].cached == mid.parts[l].cached
            || usable_hazards(s, l, h),
    ensures
        trace_step(s, t, l),
{
    assert forall|k: int| 0 <= k < s.parts.len() implies #[trigger] t.parts[k] == (if k == l {
        PartModel { cached: t.parts[k].cached, ..s.parts[k] }
    } else {
        s.parts[k]
    }) by {
        assert(mid.parts[k] == (if k == l {
            PartModel { cached: mid.parts[k].cached, ..s.parts[k] }
        } else {
            s.parts[k]
        }));
    }
    assert forall|x: u64| #[trigger] s.is_black(x) implies t.is_black(x) by {
        assert(mid.is_black(x));
    }
    lemma_shape_on(s, mid, t);
    assert forall|r: Set<u64>| #[trigger] within_cached(s, l, r) implies within_cached(t, l, r) by {
        assert(within_cached(mid, l, r));
        assert(within(t, r)) by {
            assert forall|k: int, x: u64|
                0 <= k < t.parts.len() && #[trigger] t.parts[k].hazards.contains(
                    x,
                ) implies r.contains(x) by {
                assert(mid.parts[k].hazards.contains(x));
            }
            assert forall|x: u64| #[trigger] t.is_black(x) implies r.contains(x) by {
                assert(mid.is_black(x));
            }
        }
        assert(cached_within(mid, mid.parts[l].cached, r));
        if t.parts[l].cached is Some {
            let h = (t.parts[l].cached->0).0;
            if t.parts[l].cached != mid.parts[l].cached {
                assert(hazards_within(s, h, r));
            }
            assert forall|x: u64| t.live(x) && #[trigger] h.contains(x) implies r.contains(x) by {
                assert(mid.objs.contains_key(x));
                assert(s.live(x) && mid.live(x));
            }
        }
    }
}

/// Tracing with hazards that may be used goes no further than it has to.
pub proof fn lemma_trace_more(s: GcModel, mid: GcModel, t: GcModel, l: int, h: Set<u64>)
    requires
        trace_step(s, mid, l),
        traces_within(mid, t, h),
        same_shape(mid, t),
        0 <= l < mid.parts.len(),
        forall|x: u64| #[trigger] mid.is_black(x) ==> t.is_black(x),
        t.parts == mid.parts,
        t.epoch == mid.epoch,
        usable_hazards(s, l, h),
    ensures
        trace_step(s, t, l),
{
    lemma_shape_on(s, mid, t);
    assert forall|r: Set<u64>| #[trigger] within_cached(s, l, r) implies within_cached(t, l, r) by {
        assert(within_cached(mid, l, r));
        assert(hazards_within(s, h, r));
        assert forall|x: u64| mid.live(x) && #[trigger] h.contains(x) implies r.contains(x) by {
            assert(mid.objs.contains_key(x));
            assert(s.live(x));
        }
        assert(within(t, r));
        assert(cached_within(mid, mid.parts[l].cached, r));
        if t.parts[l].cached is Some {
            let c = (t.parts[l].cached->0).0;
            assert forall|x: u64| t.live(x) && #[trigger] c.contains(x) implies r.contains(x) by {
                assert(t.objs.contains_key(x));
                assert(mid.live(x));
            }
        }
    }
}

/// Hazards that may be used when tracing has gone on could have been used before.
proof fn lemma_usable_before(s: GcModel, t: GcModel, l: int, h: Set<u64>)
    requires
        trace_step(s, t, l),
        usable_hazards(t, l, h),
    ensures
        usable_hazards(s, l, h),
{
    assert forall|r: Set<u64>| #[trigger] within_cached(s, l, r) implies hazards_within(s, h, r) by {
        assert(within_cached(t, l, r));
        assert(hazards_within(t, h, r));
        assert forall|x: u64| s.live(x) && #[trigger] h.contains(x) implies r.contains(x) by {
            assert(t.objs.contains_key(x));
        }
    }
}

/// The participants differ in nothing but the hazards that one has collected.
pub open spec fn same_but_cached(p: Seq<PartModel>, q: Seq<PartModel>, l: int) -> bool {
    &&& p.len() == q.len()
    &&& forall|k: int|
        0 <= k < p.len() ==> #[trigger] q[k] == (if k == l {
            PartModel { cached: q[k].cached, ..p[k] }
        } else {
            p[k]
        })
}

proof fn lemma_covers_cached(s: GcModel, t: GcModel, l: int, h: Set<u64>)
    requires
        t.epoch == s.epoch,
        same_but_cached(s.parts, t.parts, l),
    ensures
        s.covers(h) ==> t.covers(h),
        s.synced() ==> t.synced(),
{
    if s.covers(h) {
        assert forall|l: int, x: u64|
            0 <= l < t.parts.len() && t.unobserved(t.parts[l])
                && #[trigger] t.parts[l].hazards.contains(x) implies h.contains(x) by {
            assert(t.parts[l].hazards == s.parts[l].hazards);
            assert(s.parts[l].hazards.contains(x));
        }
    }
    if s.synced() {
        assert forall|k: int|
            0 <= k < t.parts.len() && (#[trigger] t.parts[k]).pinned() implies t.parts[k].epoch.ph()
            != Phase::N by {
            assert(s.parts[k].pinned());
        }
    }
}

impl Local {
    /// What the thread of a participant has hold of is the same.
    pub open spec fn same_holdings(self, before: Local) -> bool {
        &&& self.guard_count == before.guard_count
        &&& self.last_observed == before.last_observed
        &&& self.hazards == before.hazards
        &&& self.hazards_marker == before.hazards_marker
        &&& self.available_hids == before.available_hids
        &&& self.epoch == before.epoch
        &&& self.next_guard == before.next_guard
        &&& self.alloc_count == before.alloc_count
        &&& self.is_helping_normal == before.is_helping_normal
        &&& self.is_helping_root_tracing == before.is_helping_root_tracing
        &&& self.is_helping_draining_mark_tasks == before.is_helping_draining_mark_tasks
    }
}

impl<T: TraceObj> Global<T> {
    /// Nothing differs that is not the collector's business: other participants, what this one
    /// has hold of, settings and payloads are the same.
    pub open spec fn only_helping(self, before: Self, l: int) -> bool {
        &&& self == (Global {
            heap: self.heap,
            locals: self.locals,
            fresh_objs: self.fresh_objs,
            marked_objs: self.marked_objs,
            stats: self.stats,
            ..before
        })
        &&& self.nodes().len() == before.nodes().len()
        &&& forall|k: int|
            0 <= k < self.nodes().len() && k != l ==> #[trigger] self.nodes()[k]
                == before.nodes()[k]
        &&& self.nodes()[l].using == before.nodes()[l].using
        &&& self.local(l).same_holdings(before.local(l))
        &&& self.keeps_payloads(before)
        &&& self.books_kept(before)
    }

    /// Scans a few batches for a participant in the root tracing phase, and returns how many.
    pub fn help_root_tracing(&mut self, lid: usize, gid: u64) -> (r: usize)
        requires
            old(self).wf(),
            old(self).abs().epoch.ph() == Phase::RT,
            old(self).abs().synced(),
            old(self).takes_part(lid as int),
        ensures
            final(self).wf(),
            final(self).only_helping(*old(self), lid as int),
            trace_step(old(self).abs(), final(self).abs(), lid as int),
            keeps_protected(old(self).abs(), final(self).abs()),
            r <= HELP_TRACING_MAX_TRIAL,
            r < HELP_TRACING_MAX_TRIAL ==> final(self).scanned_out(),
            final(self).fresh_objs.batches(old(self).abs().white()) + r == old(
                self).fresh_objs.batches(old(self).abs().white()),
            final(self).asks(*old(self), lid as int, gid),
            is_prefix(
                old(self).local(lid as int).mark_tasks.items(),
                final(self).local(lid as int).mark_tasks.items(),
            ),
    {
        let ghost before = *self;
        let ghost s = self.abs();
        let ghost l = lid as int;
        let ghost w = s.white();
        assert(self.nodes()[l].item.wf());
        let order: [usize; 8] = self.locals.nodes[lid].item.picker.generate_shard_permut();
        proof {
            assert(self.nodes() =~= before.nodes().update(l, self.nodes()[l]));
            lemma_part_changed(before, *self, l);
            assert(self.abs() =~= s);
            lemma_books_same(before, *self);
            lemma_asks_none(before, *self, l, gid);
        }
        let white: Color = self.epoch.load().color();
        let mut hazards: Option<AddressSet> = None;
        let mut trial_count: usize = 0;
        let mut k: usize = 0;
        let mut full = false;
        while k < 8 && !full
            invariant
                before == *old(self),
                s == before.abs(),
                s.epoch.ph() == Phase::RT,
                w == s.white(),
                white == w,
                l == lid,
                before.takes_part(l),
                self.asks(before, l, gid),
                is_shard_permutation(order@),
                k <= 8,
                self.wf(),
                self.abs().synced(),
                self.only_helping(before, l),
                trace_step(s, self.abs(), l),
                keeps_protected(s, self.abs()),
                hazards matches Some(h) ==> self.abs().covers(h@) && usable_hazards(s, l, h@),
                trial_count <= HELP_TRACING_MAX_TRIAL,
                full == (trial_count == HELP_TRACING_MAX_TRIAL),
                self.fresh_objs.batches(w) + trial_count == before.fresh_objs.batches(w),
                is_prefix(
                    before.local(l).mark_tasks.items(),
                    self.local(l).mark_tasks.items(),
                ),
                !full ==> forall|j: int|
                    0 <= j < k ==> self.fresh_objs.shard(w, (#[trigger] order@[j]) as int).len()
                        == 0,
            decreases 8 - k,
        {
            let q_idx: usize = order[k];
            let mut more = !self.fresh_objs.is_shard_empty(white, q_idx);
            while more && !full
                invariant
                    before == *old(self),
                    s == before.abs(),
                    s.epoch.ph() == Phase::RT,
                    w == s.white(),
                    white == w,
                    l == lid,
                    before.takes_part(l),
                    self.asks(before, l, gid),
                    is_shard_permutation(order@),
                    k < 8,
                    q_idx == order@[k as int],
                    self.wf(),
                    self.abs().synced(),
                    self.only_helping(before, l),
                    trace_step(s, self.abs(), l),
                    keeps_protected(s, self.abs()),
                    hazards matches Some(h) ==> self.abs().covers(h@) && usable_hazards(s, l, h@),
                    trial_count <= HELP_TRACING_MAX_TRIAL,
                    full == (trial_count == HELP_TRACING_MAX_TRIAL),
                    self.fresh_objs.batches(w) + trial_count == before.fresh_objs.batches(w),
                    is_prefix(
                        before.local(l).mark_tasks.items(),
                        self.local(l).mark_tasks.items(),
                    ),
                    !full ==> forall|j: int|
                        0 <= j < k ==> self.fresh_objs.shard(
                            w,
                            (#[trigger] order@[j]) as int,
                        ).len() == 0,
                    !full ==> more == (self.fresh_objs.shard(w, q_idx as int).len() > 0),
                decreases HELP_TRACING_MAX_TRIAL - trial_count,
            {
                let ghost mid = *self;
                let ghost collects = hazards is None;
                let set: AddressSet = match hazards {
                    Some(set) => set,
                    None => self.scan_or_reuse_hazards(lid),
                };
                let ghost ready = *self;
                proof {
                    if collects {
                        lemma_helping_local(before, mid, ready, l);
                        lemma_usable_before(s, mid.abs(), l, set@);
                        lemma_cached_set(s, mid.abs(), ready.abs(), l);
                    }
                }
                self.scan_one(lid, gid, q_idx, &set);
                proof {
                    lemma_asks_none(mid, ready, l, gid);
                    lemma_asks_on(before, mid, ready, l, gid);
                    lemma_asks_on(before, ready, *self, l, gid);
                    lemma_helping_tracing(before, ready, *self, l);
                    lemma_trace_more(s, ready.abs(), self.abs(), l, set@);
                    lemma_covers_cached(ready.abs(), self.abs(), l, set@);
                    lemma_batches_popped(ready.fresh_objs, self.fresh_objs, w, q_idx as int);
                    assert forall|j: int| !full && 0 <= j < k implies self.fresh_objs.shard(
                        w,
                        (#[trigger] order@[j]) as int,
                    ).len() == 0 by {
                        assert(order@[j] != order@[k as int]);
                        assert(mid.fresh_objs.shard(w, order@[j] as int).len() == 0);
                    }
                }
                hazards = Some(set);
                trial_count = trial_count + 1;
                if trial_count >= HELP_TRACING_MAX_TRIAL {
                    full = true;
                }
                more = !self.fresh_objs.is_shard_empty(white, q_idx);
            }
            k = k + 1;
        }
        proof {
            if !full {
                assert forall|q: int|
                    0 <= q < OBJ_BATCHES_SHARD implies #[trigger] self.fresh_objs.shard(
                    self.abs().white(),
                    q,
                ).len() == 0 by {
                    assert(order@.contains(q as usize));
                    let j = choose|j: int| 0 <= j < order@.len() && order@[j] == q as usize;
                    assert(self.fresh_objs.shard(w, order@[j] as int).len() == 0);
                }
            }
        }
        let ghost mid = *self;
        match hazards {
            Some(set) => {
                self.keep_hazards(lid, set);
                proof {
                    lemma_asks_none(mid, *self, l, gid);
                    lemma_asks_on(before, mid, *self, l, gid);
                    lemma_helping_local(before, mid, *self, l);
                    lemma_cached_set(s, mid.abs(), self.abs(), l);
                }
            },
            None => {},
        }
        trial_count
    }
}

/// A participant goes on with its help.
pub proof fn lemma_helping_on<T: TraceObj>(a: Global<T>, b: Global<T>, c: Global<T>, l: int)
    requires
        0 <= l < a.nodes().len(),
        b.only_helping(a, l),
        c.only_helping(b, l),
    ensures
        c.only_helping(a, l),
{
    assert forall|k: int|
        0 <= k < c.nodes().len() && k != l implies #[trigger] c.nodes()[k] == a.nodes()[k] by {
        assert(c.nodes()[k] == b.nodes()[k]);
    }
    assert forall|x: u64| #[trigger]
        c.heap.payloads().contains_key(x) implies a.heap.payloads().contains_key(x)
        && c.heap.payloads()[x] == a.heap.payloads()[x] by {
        assert(b.heap.payloads().contains_key(x));
    }
    lemma_books_on(a.books(), b.books(), c.books(), Global::<T>::obj_size() as int);
}

/// Tracing goes on.
pub proof fn lemma_trace_on(s: GcModel, t: GcModel, u: GcModel, l: int)
    requires
        trace_step(s, t, l),
        trace_step(t, u, l),
    ensures
        trace_step(s, u, l),
{
    lemma_shape_on(s, t, u);
    assert forall|k: int| 0 <= k < s.parts.len() implies #[trigger] u.parts[k] == (if k == l {
        PartModel { cached: u.parts[k].cached, ..s.parts[k] }
    } else {
        s.parts[k]
    }) by {
        assert(t.parts[k] == (if k == l {
            PartModel { cached: t.parts[k].cached, ..s.parts[k] }
        } else {
            s.parts[k]
        }));
    }
    assert forall|x: u64| #[trigger] s.is_black(x) implies u.is_black(x) by {
        assert(t.is_black(x));
    }
    assert forall|r: Set<u64>| #[trigger] within_cached(s, l, r) implies within_cached(u, l, r) by {
        assert(within_cached(t, l, r));
    }
}

/// A participant that helps takes or keeps hazards.
proof fn lemma_helping_local<T: TraceObj>(a: Global<T>, b: Global<T>, c: Global<T>, l: int)
    requires
        0 <= l < a.nodes().len(),
        b.only_helping(a, l),
        c.only_local(b, l),
        c.local(l).same_holdings(b.local(l)),
        c.local(l).objs == b.local(l).objs,
        c.abs() == set_part(
            b.abs(),
            l,
            PartModel { cached: c.abs().parts[l].cached, ..b.abs().parts[l] },
        ),
    ensures
        c.only_helping(a, l),
{
    assert forall|k: int|
        0 <= k < c.nodes().len() && k != l implies #[trigger] c.nodes()[k] == a.nodes()[k] by {
        assert(c.nodes()[k] == b.nodes()[k]);
    }
    lemma_books_same(b, c);
    lemma_books_on(a.books(), b.books(), c.books(), Global::<T>::obj_size() as int);
}

/// A participant that helps traces.
proof fn lemma_helping_tracing<T: TraceObj>(a: Global<T>, b: Global<T>, c: Global<T>, l: int)
    requires
        0 <= l < a.nodes().len(),
        b.only_helping(a, l),
        c.only_tracing(b, l),
        c.abs().parts == b.abs().parts,
        c.abs().epoch == b.abs().epoch,
    ensures
        c.only_helping(a, l),
{
    assert forall|k: int|
        0 <= k < c.nodes().len() && k != l implies #[trigger] c.nodes()[k] == a.nodes()[k] by {
        assert(c.nodes()[k] == b.nodes()[k]);
    }
    lemma_books_traced(b, c, l);
    lemma_books_on(a.books(), b.books(), c.books(), Global::<T>::obj_size() as int);
}

/// Tracing does not touch the books.
pub proof fn lemma_books_traced<T: TraceObj>(a: Global<T>, b: Global<T>, l: int)
    requires
        0 <= l < a.nodes().len(),
        b.only_tracing(a, l),
    ensures
        b.books_kept(a),
{
    assert(b.heap.objs().dom() =~= a.heap.objs().dom()) by {
        assert forall|x: u64| #[trigger] b.heap.objs().contains_key(x) == a.heap.objs().contains_key(
            x,
        ) by {
            assert(b.abs().objs.contains_key(x) == a.abs().live(x));
        }
    }
    lemma_books_same(a, b);
}
} // verus!
