//! Root counts, and what a participant may use.

use crate::epoch::Phase;
use crate::barriers::root_shades;
use crate::global::{lemma_sched_none, Global};
use crate::man_ptr::{addr_of, meta_of, ManPtr, PtrMeta};
use crate::model::{lemma_kept_step, lemma_reach_source, GcModel};
use crate::obj_meta::ROOT_COUNT_MASK;
use crate::steps::{
    add_task, dec_root, inc_root, keeps_protected, lemma_add_task, lemma_dec_root,
    lemma_pinned_epoch, safe_step,
};
use crate::trace::TraceObj;
use vstd::prelude::*;

verus! {

/// The object is scheduled, unless it is black.
pub open spec fn shade_in(s: GcModel, x: u64) -> GcModel {
    if s.is_white(x) {
        add_task(s, x)
    } else {
        s
    }
}

/// A root of the object goes. The last one to go while the collector traces leaves the object
/// scheduled.
pub open spec fn root_released(s: GcModel, x: u64) -> GcModel {
    let t = dec_root(s, x);
    if s.tracing() && s.objs[x].rc == 1 {
        shade_in(t, x)
    } else {
        t
    }
}

/// While the collector traces, all participants that take part agree with it on which color is white.
pub proof fn lemma_same_white(s: GcModel, l: int)
    requires
        s.sound(),
        0 <= l < s.parts.len(),
        s.parts[l].pinned() || s.parts[l].epoch == s.epoch,
    ensures
        s.tracing() ==> s.parts[l].epoch.white() == s.white(),
        s.parts[l].epoch.valid(),
        s.parts[l].pinned() ==> s.parts[l].using,
        !s.tracing() && s.parts[l].epoch.ph() == Phase::N ==> s.parts[l].epoch.white() == s.white(),
        !s.tracing() && s.parts[l].epoch.ph() != Phase::N ==> s.parts[l].epoch.white() == s.black(),
        s.tracing() && s.parts[l].epoch.ph() == Phase::N ==> s.epoch.ph() == Phase::RT
            && !s.synced(),
{
    assert(s.part_ok(s.parts[l]));
    lemma_pinned_epoch(s.epoch);
}

/// What is black or scheduled is kept.
pub proof fn lemma_shaded_kept(s: GcModel, x: u64)
    requires
        s.sound(),
        s.tracing(),
        s.shaded(x),
    ensures
        s.kept(x),
{
    if !s.is_black(x) {
        lemma_reach_source(s, x);
    }
}

/// An object with a root is protected from whoever is pinned.
pub proof fn lemma_rooted_protected(s: GcModel, l: int, x: u64)
    requires
        s.sound(),
        0 <= l < s.parts.len(),
        s.parts[l].pinned(),
        s.live(x),
        s.objs[x].rc > 0,
    ensures
        s.protected(l, x),
{
}

/// What a participant's hazard pointers protect is protected while it is pinned.
pub proof fn law_hazard_protected(s: GcModel, l: int, x: u64)
    requires
        s.sound(),
        0 <= l < s.parts.len(),
        s.parts[l].pinned(),
        s.parts[l].hazards.contains(x),
    ensures
        s.protected(l, x),
{
    lemma_same_white(s, l);
    assert(s.part_ok(s.parts[l]));
    lemma_pinned_epoch(s.epoch);
}

/// What a hazard pointer protects can be given a root, whether its participant is pinned or not.
pub proof fn law_hazard_rootable(s: GcModel, l: int, x: u64)
    requires
        s.sound(),
        0 <= l < s.parts.len(),
        s.parts[l].hazards.contains(x),
    ensures
        s.rootable(x),
{
}

/// What has a root can be given another.
pub proof fn law_rooted_rootable(s: GcModel, x: u64)
    requires
        s.sound(),
        s.live(x),
        s.objs[x].rc > 0,
    ensures
        s.rootable(x),
{
}

/// From what a pinned participant may use, it may go on along the edges.
pub proof fn lemma_protected_edge(s: GcModel, l: int, x: u64, y: u64)
    requires
        s.sound(),
        0 <= l < s.parts.len(),
        s.parts[l].pinned(),
        s.protected(l, x),
        s.edge(x, y),
    ensures
        s.protected(l, y),
{
    if s.tracing() {
        if s.parts[l].epoch.ph() != Phase::N {
            lemma_kept_step(s, x, y);
        }
    }
}

/// What a pinned participant may use can be given a root.
pub proof fn lemma_protected_rootable(s: GcModel, l: int, x: u64)
    requires
        s.sound(),
        0 <= l < s.parts.len(),
        s.parts[l].pinned(),
        s.protected(l, x),
    ensures
        s.rootable(x),
{
    lemma_same_white(s, l);
    assert(s.objs.contains_key(x));
}

/// The release of a root is a safe step.
pub proof fn lemma_root_released(s: GcModel, x: u64)
    requires
        s.sound(),
        s.live(x),
        s.objs[x].rc > 0,
    ensures
        safe_step(s, root_released(s, x)),
        s.tracing() ==> forall|y: u64| #[trigger] s.kept(y) ==> root_released(s, x).kept(y),
{
    if s.tracing() && s.objs[x].rc == 1 && s.is_white(x) {
        let t = add_task(s, x);
        lemma_add_task(s, x);
        lemma_dec_root(t, x);
        assert(root_released(s, x) =~= dec_root(t, x));
    } else {
        lemma_dec_root(s, x);
    }
}

impl<T: TraceObj> Global<T> {
    /// The word is a root that counts: it leads nowhere, or to an object that has a root.
    pub open spec fn rooted_ok(self, w: u64) -> bool {
        &&& meta_of(w) == PtrMeta::Rooted
        &&& addr_of::<T>(w) != 0 ==> self.abs().live(addr_of::<T>(w)) && self.abs().objs[addr_of::<T>(w)].rc > 0
    }

    /// The word leads nowhere, or to an object that a pinned participant may use.
    pub open spec fn usable(self, l: int, w: u64) -> bool {
        addr_of::<T>(w) != 0 ==> self.abs().protected(l, addr_of::<T>(w))
    }

    /// One more root can be counted.
    pub open spec fn root_room(self, w: u64) -> bool {
        addr_of::<T>(w) != 0 ==> self.abs().objs[addr_of::<T>(w)].rc < ROOT_COUNT_MASK
    }

    /// Nothing differs but the objects, and of them only what the collector sees.
    pub open spec fn only_headers(self, before: Self) -> bool {
        &&& self == (Global { heap: self.heap, ..before })
        &&& self.heap.payloads() == before.heap.payloads()
        &&& self.heap.has_room() == before.heap.has_room()
    }

    /// Nothing differs but the objects, of which only what the collector sees, and what one
    /// participant has scheduled in the name of a guard, which is asked for help if it was time
    /// to.
    pub open spec fn only_barriers(self, before: Self, l: int, gid: u64, tasks: Seq<u64>) -> bool {
        &&& (Global { heap: before.heap, ..self }).only_sched(before, l, gid, tasks)
        &&& self.heap.payloads() == before.heap.payloads()
        &&& self.heap.has_room() == before.heap.has_room()
    }

    /// Adds one to the root count of an object and returns what it was.
    pub fn increment_root_count(&mut self, a: u64) -> (r: u64)
        requires
            old(self).fits(),
            old(self).heap.has(a),
            old(self).abs().objs[a].rc < ROOT_COUNT_MASK,
        ensures
            final(self).fits(),
            r == old(self).abs().objs[a].rc,
            final(self).abs() == inc_root(old(self).abs(), a),
            final(self).only_headers(*old(self)),
    {
        let ghost before = *self;
        let r: u64 = self.heap.get_mut(a).header.increment_root_count();
        proof {
            assert(self.heap.payloads() =~= before.heap.payloads());
            assert(self.heap.objs() =~= inc_root(before.abs(), a).objs);
            assert(self.abs() =~= inc_root(before.abs(), a));
        }
        r
    }

    /// Takes one off the root count of an object and returns what it was.
    pub fn decrement_root_count(&mut self, a: u64) -> (r: u64)
        requires
            old(self).fits(),
            old(self).heap.has(a),
            old(self).abs().objs[a].rc > 0,
        ensures
            final(self).fits(),
            r == old(self).abs().objs[a].rc,
            final(self).abs() == dec_root(old(self).abs(), a),
            final(self).only_headers(*old(self)),
    {
        let ghost before = *self;
        let r: u64 = self.heap.get_mut(a).header.decrement_root_count();
        proof {
            assert(self.heap.payloads() =~= before.heap.payloads());
            assert(self.heap.objs() =~= dec_root(before.abs(), a).objs);
            assert(self.abs() =~= dec_root(before.abs(), a));
        }
        r
    }

    /// Releases a root: takes one off the root count and, where the last root goes while the
    /// collector traces, schedules the object to be marked.
    pub fn release_root(&mut self, ptr: ManPtr<T>, lid: usize, gid: u64)
        requires
            old(self).wf(),
            old(self).pinned(lid as int),
            old(self).rooted_ok(ptr.data),
            addr_of::<T>(ptr.data) != 0,
        ensures
            final(self).wf(),
            final(self).abs() == root_released(old(self).abs(), addr_of::<T>(ptr.data)),
            final(self).only_barriers(
                *old(self),
                lid as int,
                gid,
                root_shades(old(self).abs(), addr_of::<T>(ptr.data)),
            ),
            keeps_protected(old(self).abs(), final(self).abs()),
    {
        let ghost before = *self;
        let ghost s = self.abs();
        let ghost l = lid as int;
        let a: u64 = ptr.as_ptr();
        proof {
            assert(s.parts[l].pinned());
            lemma_same_white(s, l);
            lemma_root_released(s, a);
            lemma_sched_none(before, l, gid);
        }
        let count: u64 = self.decrement_root_count(a);
        let ghost mid = *self;
        if count == 1 && self.epoch.load().phase() != Phase::N {
            proof {
                assert(self.abs().objs.contains_key(a));
                assert(s.is_white(a) == (s.objs[a].color != self.black_of(l)));
            }
            self.shade_pointee(ptr, lid, gid);
            proof {
                assert(self.nodes() =~= before.nodes().update(l, self.nodes()[l]));
                assert(self.abs() =~= root_released(s, a));
            }
        }
    }
}

} // verus!
