//! What the collector promises as a whole.

use crate::collector::{
    at_rest, goes_on, holds_roots, leaves_within, lemma_at_rest_white, lemma_ended, reachable,
    traced, traces_on,
};
use crate::edges::{edge_set, Edge};
use crate::epoch::Phase;
use crate::global::Global;
use crate::guards::helped;
use crate::helping::within_cached;
use crate::internal::part_of;
use crate::man_ptr::{
    addr_of, clear_meta, is_addr, lemma_tag, lemma_word, meta_of, set_meta, set_tag, tag_bits, tag_of,
    PtrMeta,
};
use crate::model::GcModel;
use crate::roots::root_released;
use crate::scanning::within;
use crate::steps::{inc_root, keeps_protected, lemma_pinned_epoch, pin_part, surviving, unpin_part};
use crate::sweeping::{lemma_sweeps_on, sweeps};
use crate::trace::{LinkKind, TraceObj};
use vstd::multiset::Multiset;
use vstd::prelude::*;

verus! {

/// Sweeping takes nothing that anybody may still use: not what has a root, not what a hazard
/// pointer protects, and not what a pinned participant has got hold of.
pub proof fn law_sweep_spares_what_is_used(s: GcModel, t: GcModel, l: int, x: u64)
    requires
        s.sound(),
        s.epoch.ph() == Phase::N,
        sweeps(s, t),
        s.live(x),
        s.objs[x].rc > 0 || (0 <= l < s.parts.len() && s.parts[l].hazards.contains(x)) || (0 <= l
            < s.parts.len() && s.parts[l].pinned() && s.protected(l, x)),
    ensures
        t.live(x),
        t.objs[x] == s.objs[x],
{
    assert(s.is_white(x));
    assert(t.objs.contains_key(x));
}

/// Sweeping takes nothing that can be reached from a root or from what a hazard pointer protects.
pub proof fn law_sweep_spares_what_is_reachable(s: GcModel, t: GcModel, x: u64)
    requires
        s.sound(),
        s.epoch.ph() == Phase::N,
        sweeps(s, t),
        reachable(s, x),
    ensures
        t.live(x),
        t.objs[x] == s.objs[x],
{
    let whites = Set::new(|y: u64| s.is_white(y));
    assert(holds_roots(s, whites)) by {
        assert forall|y: u64, z: u64| #[trigger] s.edge(y, z) && whites.contains(
            y,
        ) implies whites.contains(z) by {
            assert(s.is_white(y));
        }
        assert forall|y: u64|
            #![trigger s.objs.contains_key(y)]
            s.live(y) && s.objs[y].rc > 0 implies whites.contains(y) by {
            assert(s.is_white(y));
        }
        assert forall|l: int, y: u64|
            0 <= l < s.parts.len() && #[trigger] s.parts[l].hazards.contains(
                y,
            ) implies whites.contains(y) by {
            assert(s.is_white(y));
        }
    }
    assert(whites.contains(x));
    assert(t.objs.contains_key(x));
}

/// What can be reached: objects with roots, what hazard pointers protect, and with an object all
/// that it has edges to.
pub proof fn law_reachable(s: GcModel, l: int, x: u64, y: u64)
    requires
        s.sound(),
        s.live(x),
    ensures
        s.objs[x].rc > 0 ==> reachable(s, x),
        0 <= l < s.parts.len() && s.parts[l].hazards.contains(x) ==> reachable(s, x),
        reachable(s, x) && s.edge(x, y) && s.live(y) ==> reachable(s, y),
{
    assert forall|r: Set<u64>| #[trigger] holds_roots(s, r) && s.objs[x].rc
        > 0 implies r.contains(x) by {
        assert(s.objs.contains_key(x));
    }
    if reachable(s, x) && s.edge(x, y) {
        assert forall|r: Set<u64>| #[trigger] holds_roots(s, r) implies r.contains(y) by {
            assert(r.contains(x));
        }
    }
}

/// Cycles do not keep themselves alive: objects that no root and no hazard pointer leads to, and
/// that nothing outside of them has edges to, cannot be reached, whatever edges there are between
/// them.
pub proof fn law_unrooted_cycles_are_garbage(s: GcModel, cycle: Set<u64>, x: u64)
    requires
        forall|y: u64| #[trigger] cycle.contains(y) ==> s.live(y) && s.objs[y].rc == 0,
        forall|l: int, y: u64|
            0 <= l < s.parts.len() && #[trigger] s.parts[l].hazards.contains(y) ==> !cycle.contains(
                y,
            ),
        forall|y: u64, z: u64| #[trigger]
            s.edge(y, z) && cycle.contains(z) ==> cycle.contains(y),
        cycle.contains(x),
    ensures
        !reachable(s, x),
{
    let outside = Set::new(|y: u64| !cycle.contains(y));
    assert(holds_roots(s, outside));
    assert(!outside.contains(x));
}

/// A pinned participant is never more than one phase behind.
pub proof fn law_nobody_lags_two_phases(s: GcModel, l: int)
    requires
        s.sound(),
        0 <= l < s.parts.len(),
        s.parts[l].pinned(),
    ensures
        s.parts[l].epoch.ts() == s.epoch.ts() || s.parts[l].epoch.ts() + 1 == s.epoch.ts(),
        s.parts[l].epoch.ts() == s.epoch.ts() ==> s.parts[l].epoch.ph() == s.epoch.ph()
            && s.parts[l].epoch.white() == s.epoch.white(),
{
    assert(s.part_ok(s.parts[l]));
    lemma_pinned_epoch(s.epoch);
}

/// What is stored in a pointer is loaded from it: the address, and as many bits of the tag as
/// there is room for.
pub proof fn law_load_after_store<T>(a: u64, tag: u64, m: PtrMeta)
    requires
        is_addr::<T>(a),
    ensures
        addr_of::<T>(set_meta(set_tag::<T>(a, tag), m)) == a,
        tag_of::<T>(set_meta(set_tag::<T>(a, tag), m)) == tag & tag_bits::<T>(),
        meta_of(set_meta(set_tag::<T>(a, tag), m)) == m,
{
    lemma_word::<T>(a);
    lemma_tag::<T>(a, tag);
    let d = set_tag::<T>(a, tag);
    lemma_word::<T>(d);
    assert(meta_of(set_meta(d, m)) == m);
}

/// A root that is cloned and released leaves no trace.
pub proof fn law_clone_release(s: GcModel, x: u64)
    requires
        s.live(x),
        s.objs[x].rc > 0,
    ensures
        root_released(inc_root(s, x), x) == s,
{
    let t = inc_root(s, x);
    assert(t.objs[x].rc == s.objs[x].rc + 1);
    assert(root_released(t, x).objs =~= s.objs);
    assert(root_released(t, x) =~= s);
}

/// A participant that pins and unpins itself in a normal phase, or in a phase it has been in
/// before, leaves the objects, the lists and the tasks as they were.
pub proof fn law_pin_unpin(s: GcModel, l: int)
    requires
        0 <= l < s.parts.len(),
    ensures
        ({
            let t = unpin_part(pin_part(s, l), l, s.parts[l].epoch);
            &&& t.objs == s.objs
            &&& t.young == s.young
            &&& t.scanned == s.scanned
            &&& t.tasks == s.tasks
            &&& t.parts[l].epoch == s.parts[l].epoch
            &&& t.parts[l].hazards == s.parts[l].hazards
        }),
{
}

/// A cycle that was held up reclaims, once it ends, all that could not be reached when it began:
/// with no change to the heap meanwhile, what is left was reachable.
pub proof fn law_interrupted_cycles_reclaim(s: GcModel, t: GcModel, u: GcModel, r: bool)
    requires
        s.sound(),
        at_rest(s),
        traced(s, t),
        goes_on(t, u, r),
        !u.tracing(),
        surviving(t, u),
    ensures
        forall|x: u64| #[trigger] u.objs.contains_key(x) ==> reachable(s, x),
{
    assert forall|x: u64| #[trigger] u.objs.contains_key(x) implies reachable(s, x) by {
        assert(t.live(x));
        assert(s.live(x));
        assert forall|q: Set<u64>| #[trigger] holds_roots(s, q) implies q.contains(x) by {
            lemma_at_rest_white(s, q);
            assert(within(s, q));
            assert(within(t, q));
        }
    }
}

/// Help does not keep garbage: what a helper marks is gone with the rest at the end of the cycle,
/// unless it could be reached from a root or from what a hazard pointer protects, or did when the
/// helper last collected hazards.
pub proof fn law_help_keeps_no_garbage(
    s: GcModel,
    t: GcModel,
    u: GcModel,
    l: int,
    q: Set<u64>,
    x: u64,
)
    requires
        s.tracing(),
        helped(s, t, l),
        leaves_within(t, u),
        within_cached(s, l, q),
        u.objs.contains_key(x),
    ensures
        q.contains(x),
{
    assert(within_cached(t, l, q));
}

/// A cycle that is run in stages reclaims what one in a single run does: once tracing has ended and
/// all is swept, whether in one piece or in two, what is left had to be kept when the stage began.
pub proof fn law_stages_reclaim(s: GcModel, n: GcModel, m: GcModel, u: GcModel)
    requires
        traces_on(s, n, true),
        sweeps(n, m),
        sweeps(m, u),
        u.scanned_of(n.black()) == Multiset::<u64>::empty(),
    ensures
        leaves_within(s, u),
        forall|x: u64| n.is_white(x) ==> #[trigger] u.objs.contains_key(x),
{
    lemma_sweeps_on(n, m, u);
    lemma_ended(s, n, u);
}

/// A participant is pinned for as long as one of its guards is there, and no longer: in every
/// state of the collector it is pinned exactly if it has guards.
pub proof fn law_guards_pin<T: TraceObj>(gc: Global<T>, l: int)
    requires
        gc.wf(),
        0 <= l < gc.nodes().len(),
    ensures
        gc.pinned(l) <==> gc.local(l).guard_count > 0,
        gc.abs().parts[l].pinned() <==> gc.local(l).guard_count > 0,
{
    assert(gc.nodes()[l].item.wf());
    assert(gc.abs().parts[l] == part_of(gc.nodes()[l]));
}

/// What others do leaves the guards of a participant alone, and what these protect: it is there,
/// and is still protected.
pub proof fn law_guards_of_others_hold<T: TraceObj>(
    before: Global<T>,
    after: Global<T>,
    l: int,
    k: int,
    x: u64,
)
    requires
        before.wf(),
        after.wf(),
        after.others_stay(before, l),
        keeps_protected(before.abs(), after.abs()),
        0 <= k < before.nodes().len(),
        k != l,
        before.pinned(k),
        before.abs().protected(k, x),
    ensures
        after.pinned(k),
        after.local(k).guard_count == before.local(k).guard_count,
        after.abs().protected(k, x),
        after.heap.has(x),
{
    assert(after.nodes()[k].item.same_but_lists(before.local(k)));
    assert(before.abs().parts[k] == part_of(before.nodes()[k]));
    assert(after.abs().parts[k] == part_of(after.nodes()[k]));
}

/// A managed pointer in an object that is not of the nullable kind is never null, in every state of
/// the collector.
pub proof fn law_fields_lead_somewhere<T: TraceObj>(gc: Global<T>, x: u64, i: int)
    requires
        gc.wf(),
        gc.heap.has(x),
        0 <= i < gc.heap.objs()[x].links.len(),
        gc.heap.objs()[x].kinds[i] != LinkKind::Nullable,
    ensures
        addr_of::<T>(gc.heap.objs()[x].links[i]) != 0,
{
    assert(gc.abs().objs.contains_key(x));
    assert(gc.abs().addr(gc.abs().objs[x].links[i]) != 0);
}

/// A managed pointer in an object that is of the fixed kind never changes but in its color: not
/// when another pointer is written, nor when participants pin themselves and help or the collector
/// runs, for as long as the object is there.
pub proof fn law_fixed_fields_stay(s: GcModel, l: int, e: Edge, word: u64, t: GcModel, x: u64, i: int)
    requires
        s.live(e.owner),
        e.index < s.objs[e.owner].links.len(),
        s.objs[e.owner].kinds[e.index as int].takes(s.addr(word)),
        surviving(edge_set(s, l, e, word), t) || surviving(s, t),
        t.live(x),
        0 <= i < s.objs[x].links.len(),
        s.objs[x].kinds[i] == LinkKind::Fixed,
    ensures
        s.live(x),
        t.objs[x].kinds == s.objs[x].kinds,
        clear_meta(t.objs[x].links[i]) == clear_meta(s.objs[x].links[i]),
{
    let m = edge_set(s, l, e, word);
    assert(t.objs.contains_key(x));
    assert(m.objs.contains_key(x) ==> m.objs[x].links[i] == s.objs[x].links[i]);
    assert(clear_meta(t.objs[x].links[i]) == clear_meta(s.objs[x].links[i]) || clear_meta(
        t.objs[x].links[i],
    ) == clear_meta(m.objs[x].links[i]));
}

} // verus!
