//! Hazard pointers: protection of single objects that outlives critical sections.

use crate::global::{lemma_part_changed, Global};
use crate::internal::{hazard_set, Local};
use crate::man_ptr::{addr_of, ManPtr};
use crate::steps::{keeps_protected, lemma_set_hazards, set_hazards};
use crate::trace::TraceObj;
use vstd::prelude::*;

verus! {

/// One hazard pointer of a participant.
pub struct HazardPointer {
    pub hid: usize,
    pub lid: usize,
}

impl<T: TraceObj> Global<T> {
    /// The hazard pointer is handed out.
    pub open spec fn owns_hp(self, hp: HazardPointer) -> bool {
        &&& hp.lid < self.nodes().len()
        &&& self.nodes()[hp.lid as int].using
        &&& hp.hid < self.local(hp.lid as int).hazards@.len()
        &&& !self.local(hp.lid as int).available_hids@.contains(hp.hid)
    }

    /// A hazard pointer has been given back: it protects nothing, and can be handed out again. The
    /// others protect what they did, and nothing else of the participant differs.
    pub open spec fn gave_back(self, before: Self, hp: HazardPointer) -> bool {
        let l = hp.lid as int;
        &&& self.only_local(before, l)
        &&& self.local(l).hazards@ == before.local(l).hazards@.update(hp.hid as int, 0u64)
        &&& self.local(l).available_hids@ == before.local(l).available_hids@.push(hp.hid)
        &&& self.local(l) == (Local {
            hazards: self.local(l).hazards,
            hazards_marker: self.local(l).hazards_marker,
            available_hids: self.local(l).available_hids,
            ..before.local(l)
        })
        &&& forall|other: HazardPointer|
            before.owns_hp(other) && other != hp ==> #[trigger] self.owns_hp(other)
                && self.hazard(other) == before.hazard(other)
    }

    /// What the hazard pointer protects.
    pub open spec fn hazard(self, hp: HazardPointer) -> u64 {
        self.local(hp.lid as int).hazards@[hp.hid as int]
    }

    /// A participant may protect the object: it is pinned and may use it, or it already protects
    /// it.
    pub open spec fn may_protect(self, l: int, a: u64) -> bool {
        ||| a == 0
        ||| self.abs().parts[l].hazards.contains(a)
        ||| self.pinned(l) && self.abs().protected(l, a)
    }
}

impl HazardPointer {
    /// Takes a hazard pointer of a participant. It protects nothing yet.
    pub fn new<T: TraceObj>(lid: usize, gc: &mut Global<T>) -> (r: Self)
        requires
            old(gc).wf(),
            lid < old(gc).nodes().len(),
            old(gc).nodes()[lid as int].using,
        ensures
            final(gc).wf(),
            final(gc).abs() == old(gc).abs(),
            final(gc).only_local(*old(gc), lid as int),
            r.lid == lid,
            final(gc).owns_hp(r),
            final(gc).hazard(r) == 0,
            forall|hp: HazardPointer| #[trigger]
                old(gc).owns_hp(hp) ==> final(gc).owns_hp(hp) && final(gc).hazard(hp) == old(gc).hazard(hp) && (hp.lid != lid || hp.hid != r.hid),
            final(gc).local(lid as int) == (Local {
                hazards: final(gc).local(lid as int).hazards,
                hazards_marker: final(gc).local(lid as int).hazards_marker,
                available_hids: final(gc).local(lid as int).available_hids,
                ..old(gc).local(lid as int)
            }),
    {
        let ghost before = *gc;
        let ghost l = lid as int;
        assert(gc.nodes()[l].item.wf());
        let hid: usize = gc.locals.nodes[lid].item.acquire_hp();
        proof {
            assert(gc.nodes() =~= before.nodes().update(l, gc.nodes()[l]));
            lemma_part_changed(before, *gc, l);
            assert(gc.abs() =~= before.abs());
            let old_hids = before.local(l).available_hids@;
            let new_hids = gc.local(l).available_hids@;
            assert forall|hp: HazardPointer| #[trigger] before.owns_hp(hp) implies gc.owns_hp(hp)
                && gc.hazard(hp) == before.hazard(hp) && (hp.lid != lid || hp.hid != hid) by {
                if hp.lid == lid {
                    if old_hids.len() > 0 {
                        assert(old_hids[old_hids.len() - 1] == hid);
                        if new_hids.contains(hp.hid) {
                            let k = choose|k: int| 0 <= k < new_hids.len() && new_hids[k] == hp.hid;
                            assert(old_hids[k] == hp.hid);
                        }
                    } else {
                        if new_hids.contains(hp.hid) {
                            let k = choose|k: int| 0 <= k < new_hids.len() && new_hids[k] == hp.hid;
                            assert(gc.local(l).hazards@.len() == gc.local(l).hazards.len());
                            assert(new_hids[k] == before.local(l).hazards@.len() + k);
                        }
                    }
                }
            }
        }
        HazardPointer { hid, lid }
    }

    /// Protects the object that a pointer leads to, in place of what was protected before.
    pub fn protect<T: TraceObj>(&self, ptr: ManPtr<T>, gc: &mut Global<T>)
        requires
            old(gc).wf(),
            old(gc).owns_hp(*self),
            old(gc).may_protect(self.lid as int, addr_of::<T>(ptr.data)),
        ensures
            final(gc).wf(),
            final(gc).only_local(*old(gc), self.lid as int),
            final(gc).abs() == set_hazards(
                old(gc).abs(),
                self.lid as int,
                hazard_set(
                    old(gc).local(self.lid as int).hazards@.update(
                        self.hid as int,
                        addr_of::<T>(ptr.data),
                    ),
                ),
            ),
            final(gc).hazard(*self) == addr_of::<T>(ptr.data),
            final(gc).owns_hp(*self),
            final(gc).local(self.lid as int).hazards@ == old(gc).local(
                self.lid as int,
            ).hazards@.update(self.hid as int, addr_of::<T>(ptr.data)),
            final(gc).local(self.lid as int) == (Local {
                hazards: final(gc).local(self.lid as int).hazards,
                hazards_marker: final(gc).local(self.lid as int).hazards_marker,
                ..old(gc).local(self.lid as int)
            }),
            keeps_protected(old(gc).abs(), final(gc).abs()),
    {
        let ghost before = *gc;
        let ghost s = gc.abs();
        let ghost l = self.lid as int;
        let a: u64 = ptr.as_ptr();
        assert(gc.nodes()[l].item.wf());
        let lid: usize = self.lid;
        gc.locals.nodes[lid].item.set_hazard(self.hid, a);
        proof {
            assert(gc.nodes() =~= before.nodes().update(l, gc.nodes()[l]));
            lemma_part_changed(before, *gc, l);
            let h0 = before.local(l).hazards@;
            let h1 = h0.update(self.hid as int, a);
            let h = hazard_set(h1);
            assert(gc.abs() =~= set_hazards(s, l, h));
            assert forall|x: u64| #[trigger] h.contains(x) implies s.parts[l].hazards.contains(x)
                || (s.parts[l].pinned() && s.protected(l, x)) by {
                if x != a {
                    let k = choose|k: int| 0 <= k < h1.len() && h1[k] == x;
                    assert(h0[k] == x);
                    assert(h0.contains(x));
                }
            }
            lemma_set_hazards(s, l, h);
        }
    }

    /// Protects nothing any more.
    pub fn clear<T: TraceObj>(&self, gc: &mut Global<T>)
        requires
            old(gc).wf(),
            old(gc).owns_hp(*self),
        ensures
            final(gc).wf(),
            final(gc).only_local(*old(gc), self.lid as int),
            final(gc).abs() == set_hazards(
                old(gc).abs(),
                self.lid as int,
                hazard_set(
                    old(gc).local(self.lid as int).hazards@.update(self.hid as int, 0u64),
                ),
            ),
            final(gc).hazard(*self) == 0,
            final(gc).owns_hp(*self),
            final(gc).local(self.lid as int).hazards@ == old(gc).local(
                self.lid as int,
            ).hazards@.update(self.hid as int, 0u64),
            final(gc).local(self.lid as int) == (Local {
                hazards: final(gc).local(self.lid as int).hazards,
                hazards_marker: final(gc).local(self.lid as int).hazards_marker,
                ..old(gc).local(self.lid as int)
            }),
            keeps_protected(old(gc).abs(), final(gc).abs()),
    {
        self.protect(ManPtr::null_base(), gc);
    }

    /// Gives the hazard pointer back.
    pub fn release<T: TraceObj>(self, gc: &mut Global<T>)
        requires
            old(gc).wf(),
            old(gc).owns_hp(self),
        ensures
            final(gc).wf(),
            final(gc).only_local(*old(gc), self.lid as int),
            final(gc).abs() == set_hazards(
                old(gc).abs(),
                self.lid as int,
                hazard_set(
                    old(gc).local(self.lid as int).hazards@.update(self.hid as int, 0u64),
                ),
            ),
            final(gc).gave_back(*old(gc), self),
            keeps_protected(old(gc).abs(), final(gc).abs()),
    {
        let ghost before = *gc;
        self.clear(gc);
        let ghost mid = *gc;
        let ghost l = self.lid as int;
        assert(gc.nodes()[l].item.wf());
        let lid: usize = self.lid;
        gc.locals.nodes[lid].item.release_hp(self.hid);
        proof {
            assert(gc.nodes() =~= mid.nodes().update(l, gc.nodes()[l]));
            assert(gc.nodes() =~= before.nodes().update(l, gc.nodes()[l]));
            lemma_part_changed(mid, *gc, l);
            assert(gc.abs() =~= mid.abs());
            let ids = mid.local(l).available_hids@;
            assert forall|hp: HazardPointer| before.owns_hp(hp) && hp != self implies #[trigger]
                gc.owns_hp(hp) && gc.hazard(hp) == before.hazard(hp) by {
                if hp.lid == self.lid && ids.push(self.hid).contains(hp.hid) {
                    let k = choose|k: int|
                        0 <= k < ids.len() + 1 && ids.push(self.hid)[k] == hp.hid;
                    assert(ids[k] == hp.hid);
                }
            }
        }
    }
}

/// What a hazard pointer protects is in the heap, in every state of the collector.
pub proof fn law_hazards_live<T: TraceObj>(gc: Global<T>, hp: HazardPointer)
    requires
        gc.wf(),
        gc.owns_hp(hp),
        gc.hazard(hp) != 0,
    ensures
        gc.heap.has(gc.hazard(hp)),
{
    let s = gc.abs();
    let l = hp.lid as int;
    let x = gc.hazard(hp);
    assert(gc.local(l).hazards@.contains(x));
    assert(s.parts[l].hazards.contains(x));
    assert(s.live(x));
}

} // verus!
