//! What a collection cycle does and when, by the phases, the counts and the objects.

use crate::barriers::{all_shades, mark_shades};
use crate::collector::{at_rest, goes_on, reachable, traces_on};
use crate::driving_laws::{
    law_collection_is_due, law_cycles_can_be_driven, law_nobody_pinned_and_caught_up,
};
use crate::epoch::Color;
use crate::global::Global;
use crate::guards::helped;
use crate::internal::part_of;
use crate::man_ptr::{addr_of, meta_of, PtrMeta};
use crate::mark_queue::stolen_batch;
use crate::pinning::marked;
use crate::pointer_laws::address;
use crate::scanning::within;
use crate::steps::recolor;
use crate::sweeping::sweeps;
use crate::trace::TraceObj;
use crate::word_laws::{
    law_epoch_is_its_fields, law_header_is_its_fields, law_pointer_word_is_its_fields,
    law_words_with_other_fields,
};
use vstd::prelude::*;

verus! {

/// A new heap is empty, nobody takes part, and the first epoch is zero.
pub proof fn law_a_new_heap_is_empty<T: TraceObj>(
    parallelism: Option<usize>,
    has_threads: bool,
    gc: Global<T>,
    x: u64,
)
    requires
        call_ensures(Global::<T>::new, (parallelism, has_threads), gc),
    ensures
        !gc.heap.has(x),
        gc.heap.objs().len() == 0,
        gc.nodes().len() == 0,
        gc.epoch.data.data == 0,
        gc.heap_usage() == 0,
        !gc.collection_due(),
{
    assert(gc.heap.objs().contains_key(x) == gc.heap.has(x));
    assert(gc.abs().parts.len() == gc.nodes().len());
    law_collection_is_due(gc);
}

/// Where nobody is pinned, a collection that is requested, or called for because more is in use than
/// the limit, goes through at once: it leaves exactly what can be reached, ends in a normal phase in
/// which the colors have changed their roles, and is no longer asked for.
pub proof fn law_a_cycle_leaves_what_can_be_reached<T: TraceObj>(
    before: Global<T>,
    after: Global<T>,
    x: u64,
)
    requires
        before.wf(),
        after.wf(),
        after.has_driven(before),
        before.collection_enabled,
        before.collection_requested || before.stats.total_allocated - before.stats.total_reclaimed
            > before.cstats.desired_heap_limit,
        !before.driving,
        before.epoch.data.data / 2 % 4 == 0,
        forall|l: int|
            0 <= l < before.nodes().len() ==> (#[trigger] before.nodes()[l]).item.guard_count == 0,
    ensures
        after.heap.has(x) <==> reachable(before.abs(), x),
        !after.driving,
        !after.collection_requested,
        after.epoch.data.data / 2 % 4 == 0,
        after.epoch.data.data / 8 % 2 != before.epoch.data.data / 8 % 2,
        after.epoch.data.data / 16 > before.epoch.data.data / 16,
        at_rest(after.abs()),
{
    law_collection_is_due(before);
    law_cycles_can_be_driven(before);
    law_nobody_pinned_and_caught_up(before);
    law_epoch_is_its_fields(before.epoch.data);
    law_epoch_is_its_fields(after.epoch.data);
    assert(after.abs().objs.contains_key(x) == after.heap.has(x));
}

/// Nothing at all happens while collection is paused, while somebody else runs a cycle, or where
/// none is requested, the limit is not exceeded and the heap does not grow.
pub proof fn law_no_cycle_without_need<T: TraceObj>(before: Global<T>, after: Global<T>)
    requires
        after.has_driven(before),
        !before.collection_enabled || before.driving || (!before.collection_requested
            && before.stats.total_allocated - before.stats.total_reclaimed
            <= before.cstats.desired_heap_limit && before.cstats.alloc_per_ms_smooth
            == before.cstats.reclm_per_ms_smooth),
    ensures
        after == before,
{
    law_collection_is_due(before);
}

/// A cycle that somebody who is pinned holds up has begun to trace and is to be resumed. If it began
/// between two cycles, all objects are still there.
pub proof fn law_a_cycle_waits_for_guards<T: TraceObj>(
    before: Global<T>,
    after: Global<T>,
    l: int,
    x: u64,
)
    requires
        before.wf(),
        after.wf(),
        after.has_driven(before),
        before.collection_enabled,
        before.collection_requested,
        before.can_drive(),
        before.epoch.data.data / 2 % 4 == 0,
        0 <= l < before.nodes().len(),
        before.local(l).guard_count > 0,
    ensures
        after.driving,
        !after.collection_requested,
        after.epoch.data.data / 2 % 4 == 1,
        after.epoch.data.data / 8 % 2 == before.epoch.data.data / 8 % 2,
        at_rest(before.abs()) ==> (after.heap.has(x) <==> before.heap.has(x)),
{
    law_collection_is_due(before);
    law_nobody_pinned_and_caught_up(before);
    law_epoch_is_its_fields(before.epoch.data);
    law_epoch_is_its_fields(after.epoch.data);
    assert(before.nodes()[l].item.guard_count > 0);
    assert(after.abs().objs.contains_key(x) == after.heap.has(x));
    assert(before.abs().objs.contains_key(x) == before.heap.has(x));
}

/// A set that has everything black, everything scheduled, everything with a root and everything that
/// a hazard pointer holds, and with an object all that its managed pointers lead to, has what is to
/// be traced.
pub proof fn law_what_is_to_be_traced<T: TraceObj>(gc: Global<T>, r: Set<u64>)
    requires
        gc.wf(),
        forall|y: u64| #[trigger]
            gc.heap.has(y) && (gc.heap.at(y).header.0.0 % 0x80_0000_0000_0000 > 0
                || gc.heap.at(y).header.0.color() != gc.epoch.data.white()) ==> r.contains(y),
        forall|l: int, h: int|
            0 <= l < gc.nodes().len() && 0 <= h < gc.nodes()[l].item.hazards@.len()
                && #[trigger] gc.nodes()[l].item.hazards@[h] != 0 ==> r.contains(
                gc.nodes()[l].item.hazards@[h],
            ),
        forall|l: int, y: u64|
            0 <= l < gc.nodes().len() && #[trigger] gc.nodes()[l].item.mark_tasks.items().contains(
                y,
            ) ==> r.contains(y),
        forall|y: u64, i: int|
            #![trigger gc.heap.at(y).item.outgoings()[i]]
            gc.heap.has(y) && r.contains(y) && 0 <= i < gc.heap.at(y).item.outgoings().len()
                && addr_of::<T>(gc.heap.at(y).item.outgoings()[i]) != 0 ==> r.contains(
                addr_of::<T>(gc.heap.at(y).item.outgoings()[i]),
            ),
    ensures
        within(gc.abs(), r),
{
    let s = gc.abs();
    assert forall|y: u64, z: u64| #[trigger] s.edge(y, z) && r.contains(y) implies r.contains(z) by {
        let i = choose|i: int|
            0 <= i < s.objs[y].links.len() && s.addr(#[trigger] s.objs[y].links[i]) == z;
        assert(gc.heap.at(y).item.outgoings()[i] == s.objs[y].links[i]);
    }
    assert forall|y: u64| #[trigger] s.is_black(y) implies r.contains(y) by {
        assert(gc.heap.has(y));
    }
    assert forall|y: u64| #[trigger] s.tasks.contains(y) implies r.contains(y) by {
        let l = choose|l: int|
            0 <= l < gc.nodes().len() && (
            #[trigger] gc.nodes()[l]).item.mark_tasks.items().contains(y);
        assert(gc.nodes()[l].item.mark_tasks.items().contains(y));
    }
    assert forall|y: u64|
        #![trigger s.objs.contains_key(y)]
        s.live(y) && s.objs[y].rc > 0 implies r.contains(y) by {
        law_header_is_its_fields(gc.heap.at(y).header.0);
        assert(gc.heap.has(y));
    }
    assert forall|l: int, y: u64|
        0 <= l < s.parts.len() && #[trigger] s.parts[l].hazards.contains(y) implies r.contains(
        y,
    ) by {
        assert(s.parts[l] == part_of(gc.nodes()[l]));
        let h = choose|h: int|
            0 <= h < gc.nodes()[l].item.hazards@.len() && gc.nodes()[l].item.hazards@[h] == y;
        assert(gc.nodes()[l].item.hazards@[h] != 0);
    }
}

/// A cycle in a tracing phase waits for whoever has guards of an earlier epoch. Where there is
/// nobody, it gets to a later epoch. Once it has come to a normal phase, the colors have changed
/// their roles, and nothing is left that was not to be traced.
pub proof fn law_a_cycle_goes_on<T: TraceObj>(
    before: Global<T>,
    after: Global<T>,
    ended: bool,
    r: Set<u64>,
    x: u64,
)
    requires
        before.wf(),
        after.wf(),
        goes_on(before.abs(), after.abs(), ended),
    ensures
        (exists|l: int|
            0 <= l < before.nodes().len() && (#[trigger] before.nodes()[l]).item.guard_count > 0
                && before.nodes()[l].item.epoch.data / 16 != before.epoch.data.data / 16) ==> !ended
            && after.abs() == before.abs(),
        (forall|l: int|
            0 <= l < before.nodes().len() && (#[trigger] before.nodes()[l]).item.guard_count > 0
                ==> before.nodes()[l].item.epoch.data / 16 == before.epoch.data.data / 16)
            ==> after.epoch.data.data / 16 > before.epoch.data.data / 16,
        ended ==> after.epoch.data.data / 2 % 4 == 0,
        after.epoch.data.data / 2 % 4 == 0 <==> after.epoch.data.data / 8 % 2
            != before.epoch.data.data / 8 % 2,
        after.epoch.data.data / 2 % 4 == 0 && within(before.abs(), r) && after.heap.has(x)
            ==> r.contains(x),
        after.epoch.data.data / 2 % 4 != 0 ==> (after.heap.has(x) <==> before.heap.has(x)),
{
    law_nobody_pinned_and_caught_up(before);
    law_epoch_is_its_fields(before.epoch.data);
    law_epoch_is_its_fields(after.epoch.data);
    assert(after.abs().objs.contains_key(x) == after.heap.has(x));
    assert(before.abs().objs.contains_key(x) == before.heap.has(x));
}

/// The same of the tracing of a cycle alone: no object goes, and once it has ended, what has become
/// white was to be traced.
pub proof fn law_tracing_goes_on<T: TraceObj>(
    before: Global<T>,
    after: Global<T>,
    ended: bool,
    r: Set<u64>,
    x: u64,
)
    requires
        before.wf(),
        after.wf(),
        traces_on(before.abs(), after.abs(), ended),
    ensures
        (forall|l: int|
            0 <= l < before.nodes().len() && (#[trigger] before.nodes()[l]).item.guard_count > 0
                ==> before.nodes()[l].item.epoch.data / 16 == before.epoch.data.data / 16)
            ==> after.epoch.data.data / 16 > before.epoch.data.data / 16,
        ended <==> after.epoch.data.data / 2 % 4 == 0,
        ended ==> after.epoch.data.data / 8 % 2 != before.epoch.data.data / 8 % 2,
        after.heap.has(x) <==> before.heap.has(x),
        ended && within(before.abs(), r) && after.heap.has(x) && after.heap.at(x).header.0.color()
            == after.epoch.data.white() ==> r.contains(x),
{
    law_nobody_pinned_and_caught_up(before);
    law_epoch_is_its_fields(before.epoch.data);
    law_epoch_is_its_fields(after.epoch.data);
    assert(after.abs().objs.contains_key(x) == after.heap.has(x));
    assert(before.abs().objs.contains_key(x) == before.heap.has(x));
    if after.heap.has(x) && after.heap.at(x).header.0.color() == after.epoch.data.white() {
        assert(after.abs().is_white(x));
    }
}

/// Sweeping takes nothing that is white, and leaves what it does not take as it was.
pub proof fn law_sweeping_leaves_what_is_white<T: TraceObj>(
    before: Global<T>,
    after: Global<T>,
    x: u64,
)
    requires
        sweeps(before.abs(), after.abs()),
        after.keeps_payloads(before),
    ensures
        before.heap.has(x) && before.heap.at(x).header.0.color() == before.epoch.data.white()
            ==> after.heap.has(x),
        after.heap.has(x) ==> before.heap.has(x) && after.value_at(x).outgoings()
            == before.value_at(x).outgoings() && after.value_at(x).payload() == before.value_at(
            x,
        ).payload() && after.abs().objs[x].rc == before.abs().objs[x].rc,
        after.epoch.data == before.epoch.data,
        after.abs().tasks == before.abs().tasks,
        after.abs().parts == before.abs().parts,
{
    let s = before.abs();
    let t = after.abs();
    assert(t.objs.contains_key(x) == after.heap.has(x));
    assert(s.objs.contains_key(x) == before.heap.has(x));
    if before.heap.has(x) && before.heap.at(x).header.0.color() == before.epoch.data.white() {
        assert(s.is_white(x));
    }
    if after.heap.has(x) {
        assert(after.heap.payloads().contains_key(x));
    }
}

/// Recoloring edges changes their color alone.
pub proof fn law_recolored_edges_lead_where_they_led(links: Seq<u64>, c: Color, i: int)
    requires
        0 <= i < links.len(),
    ensures
        recolor(links, c).len() == links.len(),
        recolor(links, c)[i] % 0x4000_0000_0000_0000 == links[i] % 0x4000_0000_0000_0000,
        meta_of(recolor(links, c)[i]) == PtrMeta::Unrooted(c),
{
    law_words_with_other_fields::<u64>(links[i], PtrMeta::Unrooted(c), 0);
}

/// Marking an object turns it black, with its edges, which lead where they led. Where it was white,
/// all that its managed pointers lead to and is white is left to be marked. Nothing else changes.
pub proof fn law_marking_schedules_what_is_led_to<T: TraceObj>(gc: Global<T>, a: u64, y: u64)
    requires
        gc.heap.has(a),
    ensures
        ({
            let s = gc.abs();
            let t = marked(s, a);
            let o = s.objs[a];
            &&& t.objs.contains_key(a)
            &&& t.objs[a].color != gc.epoch.data.white()
            &&& t.objs[a].rc == o.rc
            &&& t.objs[a].tid == o.tid
            &&& t.objs[a].kinds == o.kinds
            &&& t.objs[a].links.len() == gc.value_at(a).outgoings().len()
            &&& forall|i: int|
                0 <= i < gc.value_at(a).outgoings().len() ==> (#[trigger] t.objs[a].links[i])
                    % 0x4000_0000_0000_0000 == gc.value_at(a).outgoings()[i]
                    % 0x4000_0000_0000_0000
            &&& y != a ==> t.objs.contains_key(y) == s.objs.contains_key(y) && t.objs[y]
                == s.objs[y]
            &&& t.tasks.contains(y) <==> s.tasks.contains(y) || (o.color == gc.epoch.data.white()
                && y != 0 && gc.heap.has(y) && s.objs[y].color == gc.epoch.data.white()
                && exists|i: int|
                0 <= i < gc.value_at(a).outgoings().len() && address::<T>(
                    #[trigger] gc.value_at(a).outgoings()[i],
                ) == y)
            &&& t.epoch == s.epoch
            &&& t.parts == s.parts
            &&& t.young == s.young
            &&& t.scanned == s.scanned
        }),
{
    let s = gc.abs();
    let t = marked(s, a);
    let links = gc.value_at(a).outgoings();
    assert(s.objs.contains_key(a));
    assert(s.objs[a].links == links);
    assert(s.objs.contains_key(y) == gc.heap.has(y));
    assert forall|i: int| 0 <= i < links.len() implies (#[trigger] t.objs[a].links[i])
        % 0x4000_0000_0000_0000 == links[i] % 0x4000_0000_0000_0000 by {
        law_recolored_edges_lead_where_they_led(links, s.black(), i);
    }
    assert forall|i: int| 0 <= i < links.len() implies addr_of::<T>(links[i]) as int
        == #[trigger] address::<T>(links[i]) by {
        law_pointer_word_is_its_fields::<T>(links[i]);
    }
    if s.edge(a, y) {
        let i = choose|i: int|
            0 <= i < s.objs[a].links.len() && s.addr(#[trigger] s.objs[a].links[i]) == y;
        assert(addr_of::<T>(links[i]) as int == address::<T>(links[i]));
    }
    if y != 0 && exists|i: int|
        0 <= i < links.len() && address::<T>(#[trigger] links[i]) == y {
        let i = choose|i: int| 0 <= i < links.len() && address::<T>(#[trigger] links[i]) == y;
        assert(addr_of::<T>(links[i]) as int == address::<T>(links[i]));
        assert(s.addr(s.objs[a].links[i]) == y);
        assert(s.edge(a, y));
    }
}

/// What is scheduled when edges are traced: the targets of those that are not black and whose
/// targets are not black, in the order of the edges.
pub proof fn law_traced_edges_schedule_their_targets<T: TraceObj>(
    gc: Global<T>,
    black: Color,
    links: Seq<u64>,
)
    ensures
        all_shades(gc.abs(), black, links) == links.filter(
            |w: u64|
                {
                    &&& meta_of(w) != PtrMeta::Unrooted(black)
                    &&& address::<T>(w) != 0
                    &&& gc.abs().objs[address::<T>(w) as u64].color != black
                },
        ).map_values(|w: u64| address::<T>(w) as u64),
    decreases links.len(),
{
    reveal(Seq::filter);
    let f = |w: u64|
        {
            &&& meta_of(w) != PtrMeta::Unrooted(black)
            &&& address::<T>(w) != 0
            &&& gc.abs().objs[address::<T>(w) as u64].color != black
        };
    let g = |w: u64| address::<T>(w) as u64;
    if links.len() == 0 {
        assert(links.filter(f).map_values(g) =~= Seq::<u64>::empty());
    } else {
        let w = links.last();
        law_traced_edges_schedule_their_targets(gc, black, links.drop_last());
        law_pointer_word_is_its_fields::<T>(w);
        let rest = links.drop_last().filter(f);
        if f(w) {
            assert(links.filter(f) == rest.push(w));
            assert(rest.push(w).map_values(g) =~= rest.map_values(g) + seq![g(w)]);
        } else {
            assert(links.filter(f) == rest);
            assert(rest.map_values(g) =~= rest.map_values(g) + Seq::<u64>::empty());
        }
    }
}

/// What is scheduled when an object is marked: nothing if it is black, and otherwise what its edges
/// schedule.
pub proof fn law_marking_traces_the_edges<T: TraceObj>(gc: Global<T>, a: u64)
    requires
        gc.heap.has(a),
    ensures
        gc.heap.at(a).header.0.color() != gc.epoch.data.white() ==> mark_shades(gc.abs(), a).len()
            == 0,
        gc.heap.at(a).header.0.color() == gc.epoch.data.white() ==> mark_shades(gc.abs(), a)
            == all_shades(gc.abs(), gc.epoch.data.white().flipped(), gc.value_at(a).outgoings()),
{
    assert(gc.abs().objs.contains_key(a));
}

/// The next task is the oldest one of the participant itself. Only where it has none, it is the
/// oldest one of another, of the first that has any.
pub proof fn law_own_tasks_come_first<T: TraceObj>(gc: Global<T>, l: int, a: u64)
    requires
        0 <= l < gc.nodes().len(),
        gc.is_next_task(l, a),
    ensures
        gc.local(l).mark_tasks.items().len() > 0 ==> a == gc.local(l).mark_tasks.items()[0],
        gc.local(l).mark_tasks.items().len() == 0 ==> exists|k: int|
            {
                &&& 0 <= k < gc.nodes().len()
                &&& (#[trigger] gc.nodes()[k]).item.mark_tasks.items().len() > 0
                &&& a == gc.nodes()[k].item.mark_tasks.items()[0]
                &&& forall|j: int|
                    0 <= j < k ==> (#[trigger] gc.nodes()[j]).item.mark_tasks.items().len() == 0
            },
{
}

/// Whether a participant can get a cycle on by helping.
pub proof fn law_pieces_that_are_left<T: TraceObj>(gc: Global<T>, l: int)
    requires
        gc.wf(),
        0 <= l < gc.nodes().len(),
    ensures
        gc.epoch.data.data / 2 % 4 == 0 ==> (gc.pieces_left(l) <==> gc.marked_objs.batches(
            gc.epoch.data.white().flipped(),
        ) > 0),
        gc.epoch.data.data / 2 % 4 == 2 && gc.abs().synced() ==> (gc.pieces_left(l) <==> gc.local(
            l,
        ).mark_tasks.items().len() > 0),
        gc.epoch.data.data / 2 % 4 == 1 && gc.abs().synced() ==> (gc.pieces_left(l) <==> gc.local(
            l,
        ).mark_tasks.items().len() > 0 || gc.fresh_objs.batches(gc.epoch.data.white()) > 0),
        gc.epoch.data.data / 2 % 4 != 0 && !gc.abs().synced() ==> !gc.pieces_left(l),
        gc.abs().synced() <==> forall|k: int|
            0 <= k < gc.nodes().len() && (#[trigger] gc.nodes()[k]).item.guard_count > 0
                ==> gc.nodes()[k].item.epoch.data / 2 % 4 != 0,
{
    let s = gc.abs();
    law_epoch_is_its_fields(gc.epoch.data);
    assert forall|k: int| 0 <= k < gc.nodes().len() implies {
        &&& (#[trigger] gc.nodes()[k]).item.wf()
        &&& s.parts[k].pinned() == (gc.nodes()[k].item.guard_count > 0)
        &&& s.parts[k].epoch == gc.nodes()[k].item.epoch
        &&& s.parts[k].epoch.ph() == crate::epoch::Phase::N <==> gc.nodes()[k].item.epoch.data / 2
            % 4 == 0
    } by {
        assert(s.parts[k] == part_of(gc.nodes()[k]));
        law_epoch_is_its_fields(gc.nodes()[k].item.epoch);
    }
    if s.synced() {
        assert forall|k: int|
            0 <= k < gc.nodes().len() && (#[trigger] gc.nodes()[k]).item.guard_count
                > 0 implies gc.nodes()[k].item.epoch.data / 2 % 4 != 0 by {
            assert(s.parts[k].pinned());
        }
    }
    if forall|k: int|
        0 <= k < gc.nodes().len() && (#[trigger] gc.nodes()[k]).item.guard_count > 0
            ==> gc.nodes()[k].item.epoch.data / 2 % 4 != 0 {
        assert forall|k: int| 0 <= k < s.parts.len() && (#[trigger] s.parts[k]).pinned() implies s.parts[k].epoch.ph()
            != crate::epoch::Phase::N by {
            assert(gc.nodes()[k].item.guard_count > 0);
        }
    }
}

/// What goes along when tasks are stolen: half of those behind the first one, rounded down, but
/// never more than the limit allows.
pub proof fn law_half_of_the_tasks_are_stolen(len: nat, limit: usize)
    requires
        len > 0,
        limit > 0,
    ensures
        stolen_batch(len, limit) + 1 <= limit,
        2 * stolen_batch(len, limit) <= len - 1,
        stolen_batch(len, limit) + 1 < limit ==> len - 1 <= 2 * stolen_batch(len, limit) + 1,
{
}

/// While a cycle is run, settings and statistics stay, and of the participants their guards and
/// what they protect.
pub proof fn law_cycles_leave_the_rest<T: TraceObj>(before: Global<T>, after: Global<T>, l: int)
    requires
        0 <= l < before.nodes().len(),
        after.only_driving(before, l),
    ensures
        after.collection_enabled == before.collection_enabled,
        after.headroom == before.headroom,
        after.collector_threads == before.collector_threads,
        after.collection_mode == before.collection_mode,
        after.registry == before.registry,
        after.hbstats == before.hbstats,
        after.cstats == before.cstats,
        after.has_threads == before.has_threads,
        after.same_settings(before),
        after.nodes().len() == before.nodes().len(),
        forall|k: int|
            0 <= k < before.nodes().len() ==> {
                let n = #[trigger] after.nodes()[k];
                let m = before.nodes()[k];
                &&& n.using == m.using
                &&& n.item.hazards == m.item.hazards
                &&& n.item.available_hids == m.item.available_hids
                &&& n.item.alloc_count == m.item.alloc_count
                &&& k != l ==> {
                    &&& n.item.guard_count == m.item.guard_count
                    &&& n.item.epoch == m.item.epoch
                    &&& n.item.last_observed == m.item.last_observed
                    &&& n.item.next_guard == m.item.next_guard
                    &&& n.item.should_help == m.item.should_help
                    &&& n.item.sched_count == m.item.sched_count
                    &&& n.item.cached_hazards == m.item.cached_hazards
                }
            },
        forall|x: u64| #[trigger]
            after.heap.has(x) ==> before.heap.has(x) && after.value_at(x).payload()
                == before.value_at(x).payload(),
{
    assert forall|k: int| 0 <= k < before.nodes().len() implies {
        let n = #[trigger] after.nodes()[k];
        let m = before.nodes()[k];
        &&& n.using == m.using
        &&& n.item.hazards == m.item.hazards
        &&& n.item.available_hids == m.item.available_hids
        &&& n.item.alloc_count == m.item.alloc_count
        &&& k != l ==> {
            &&& n.item.guard_count == m.item.guard_count
            &&& n.item.epoch == m.item.epoch
            &&& n.item.last_observed == m.item.last_observed
            &&& n.item.next_guard == m.item.next_guard
            &&& n.item.should_help == m.item.should_help
            &&& n.item.sched_count == m.item.sched_count
            &&& n.item.cached_hazards == m.item.cached_hazards
        }
    } by {
        if k != l {
            assert(after.nodes()[k].item.same_but_lists(before.local(k)));
        }
    }
    assert forall|x: u64| #[trigger] after.heap.has(x) implies before.heap.has(x)
        && after.value_at(x).payload() == before.value_at(x).payload() by {
        assert(after.heap.payloads().contains_key(x));
        assert(before.heap.payloads().contains_key(x));
    }
}

/// A cycle that is called for begins with the tracing of roots: the next epoch is the next
/// timestamp, with the same white color, and nothing that is white is gone. Where none is called
/// for or can begin, nothing happens.
pub proof fn law_a_cycle_begins<T: TraceObj>(before: Global<T>, after: Global<T>, x: u64)
    requires
        before.wf(),
        after.wf(),
        after.has_begun_cycle(before),
    ensures
        !before.collection_due() || !before.can_drive() ==> after == before,
        before.collection_due() && before.can_drive() ==> after.driving
            && !after.collection_requested,
        before.collection_due() && before.can_drive() && before.epoch.data.data / 2 % 4 == 0 ==> {
            &&& after.epoch.data.data == before.epoch.data.data + 18
            &&& before.heap.has(x) && before.heap.at(x).header.0.color()
                == before.epoch.data.white() ==> after.heap.has(x)
            &&& after.heap.has(x) ==> before.heap.has(x) && after.value_at(x).outgoings()
                == before.value_at(x).outgoings()
        },
        before.collection_due() && before.can_drive() && before.epoch.data.data / 2 % 4 != 0 ==> {
            &&& after.heap == before.heap
            &&& after.locals == before.locals
            &&& after.epoch == before.epoch
        },
{
    law_epoch_is_its_fields(before.epoch.data);
    law_epoch_is_its_fields(after.epoch.data);
    let s = before.abs();
    let t = after.abs();
    assert(t.objs.contains_key(x) == after.heap.has(x));
    assert(s.objs.contains_key(x) == before.heap.has(x));
    assert(s.parts_ok());
    if before.collection_due() && before.can_drive() && before.epoch.data.data / 2 % 4 == 0 {
        let a = before.epoch.data.data as int;
        let b = after.epoch.data.data as int;
        assert(after.epoch.data.ts() == before.epoch.data.ts() + 1);
        assert(b / 16 == a / 16 + 1 && b % 2 == 0 && a % 2 == 0 && b / 2 % 4 == 1 && b / 8 % 2 == a
            / 8 % 2);
        assert(a == a / 16 * 16 + (a / 8 % 2) * 8 + (a / 2 % 4) * 2 + a % 2);
        assert(b == b / 16 * 16 + (b / 8 % 2) * 8 + (b / 2 % 4) * 2 + b % 2);
        let u = crate::steps::set_epoch(t, before.epoch.data);
        assert(sweeps(s, u));
        assert(u.objs.contains_key(x) == t.objs.contains_key(x));
        if before.heap.has(x) && before.heap.at(x).header.0.color() == before.epoch.data.white() {
            assert(s.is_white(x));
        }
    }
}

/// A cycle advances only while it is run and collection is not paused. In a normal phase it sweeps
/// what is left, and ends unless somebody who is pinned has yet to come to the phase.
pub proof fn law_a_cycle_advances<T: TraceObj>(before: Global<T>, after: Global<T>, x: u64)
    requires
        before.wf(),
        after.wf(),
        after.has_advanced(before),
    ensures
        !before.driving || !before.collection_enabled ==> after == before,
        before.driving && before.collection_enabled && before.epoch.data.data / 2 % 4 == 0 ==> {
            &&& after.epoch == before.epoch
            &&& after.heap.has(x) <==> before.heap.has(x) && before.heap.at(x).header.0.color()
                == before.epoch.data.white()
            &&& after.driving <==> exists|l: int|
                0 <= l < before.nodes().len() && (#[trigger] before.nodes()[l]).item.guard_count
                    > 0 && before.nodes()[l].item.epoch.data / 16 != before.epoch.data.data / 16
        },
        before.driving && before.collection_enabled && before.epoch.data.data / 2 % 4 != 0 ==> {
            &&& after.driving
            &&& after.heap.has(x) <==> before.heap.has(x)
            &&& (forall|l: int|
                0 <= l < before.nodes().len() ==> (#[trigger] before.nodes()[l]).item.guard_count
                    == 0) ==> after.epoch.data.data / 2 % 4 == 0 && after.epoch.data.data / 8 % 2
                != before.epoch.data.data / 8 % 2
        },
{
    law_nobody_pinned_and_caught_up(before);
    law_epoch_is_its_fields(before.epoch.data);
    law_epoch_is_its_fields(after.epoch.data);
    let s = before.abs();
    let t = after.abs();
    assert(t.objs.contains_key(x) == after.heap.has(x));
    assert(s.objs.contains_key(x) == before.heap.has(x));
    if before.driving && before.collection_enabled && before.epoch.data.data / 2 % 4 == 0 {
        if before.heap.has(x) && before.heap.at(x).header.0.color() == before.epoch.data.white() {
            assert(s.is_white(x));
        }
    }
}

/// Where settings are the same, each of them is, and so are the statistics.
pub proof fn law_same_settings<T: TraceObj>(before: Global<T>, after: Global<T>)
    ensures
        after.same_settings(before) <==> {
            &&& after.collection_enabled == before.collection_enabled
            &&& after.headroom == before.headroom
            &&& after.collector_threads == before.collector_threads
            &&& after.collection_mode == before.collection_mode
            &&& after.registry == before.registry
            &&& after.has_threads == before.has_threads
            &&& after.hbstats == before.hbstats
            &&& after.cstats == before.cstats
        },
{
}

/// The collector is between two cycles exactly if it is in a normal phase, nothing is left in the
/// list to be swept, and whoever has guards has come to the phase.
pub proof fn law_at_rest<T: TraceObj>(gc: Global<T>)
    requires
        gc.wf(),
    ensures
        at_rest(gc.abs()) <==> {
            &&& gc.epoch.data.data / 2 % 4 == 0
            &&& forall|x: u64| #[trigger]
                gc.marked_objs.bag(gc.epoch.data.white().flipped()).count(x) == 0
            &&& forall|l: int|
                0 <= l < gc.nodes().len() && (#[trigger] gc.nodes()[l]).item.guard_count > 0
                    ==> gc.nodes()[l].item.epoch.data / 16 == gc.epoch.data.data / 16
        },
{
    law_nobody_pinned_and_caught_up(gc);
    law_epoch_is_its_fields(gc.epoch.data);
    let black = gc.epoch.data.white().flipped();
    let bag = gc.marked_objs.bag(black);
    assert(gc.abs().scanned_of(gc.abs().black()) == bag);
    if forall|x: u64| #[trigger] bag.count(x) == 0 {
        assert(bag =~= vstd::multiset::Multiset::<u64>::empty());
    }
}

/// A cycle that is in a tracing phase goes through at once where nobody is pinned, if it is called
/// for: nothing is left that was not to be traced.
pub proof fn law_a_traced_cycle_goes_through<T: TraceObj>(
    before: Global<T>,
    after: Global<T>,
    r: Set<u64>,
    x: u64,
)
    requires
        before.wf(),
        after.wf(),
        after.has_driven(before),
        before.collection_enabled,
        before.collection_requested || before.stats.total_allocated - before.stats.total_reclaimed
            > before.cstats.desired_heap_limit,
        !before.driving,
        before.epoch.data.data / 2 % 4 != 0,
        forall|l: int|
            0 <= l < before.nodes().len() ==> (#[trigger] before.nodes()[l]).item.guard_count == 0,
        within(before.abs(), r),
        after.heap.has(x),
    ensures
        r.contains(x),
        !after.driving,
        !after.collection_requested,
        at_rest(after.abs()),
        after.epoch.data.data / 8 % 2 != before.epoch.data.data / 8 % 2,
{
    law_collection_is_due(before);
    law_cycles_can_be_driven(before);
    law_nobody_pinned_and_caught_up(before);
    law_epoch_is_its_fields(before.epoch.data);
    law_epoch_is_its_fields(after.epoch.data);
    assert(after.abs().objs.contains_key(x) == after.heap.has(x));
}

/// Help takes nothing away in a tracing phase and nothing that is white in a normal one. What has a
/// root stays in either.
pub proof fn law_help_takes_nothing_in_use<T: TraceObj>(
    before: Global<T>,
    after: Global<T>,
    l: int,
    x: u64,
)
    requires
        before.wf(),
        helped(before.abs(), after.abs(), l),
    ensures
        before.epoch.data.data / 2 % 4 != 0 ==> (after.heap.has(x) <==> before.heap.has(x)),
        before.epoch.data.data / 2 % 4 == 0 && before.heap.has(x) && before.heap.at(
            x,
        ).header.0.color() == before.epoch.data.white() ==> after.heap.has(x),
        before.heap.has(x) && before.abs().objs[x].rc > 0 ==> after.heap.has(x),
        after.heap.has(x) ==> before.heap.has(x) && after.abs().objs[x].rc
            == before.abs().objs[x].rc && after.value_at(x).outgoings().len() == before.value_at(
            x,
        ).outgoings().len(),
        after.epoch == before.epoch,
{
    let s = before.abs();
    let t = after.abs();
    law_epoch_is_its_fields(before.epoch.data);
    assert(t.objs.contains_key(x) == after.heap.has(x));
    assert(s.objs.contains_key(x) == before.heap.has(x));
    if before.heap.has(x) && before.heap.at(x).header.0.color() == before.epoch.data.white() {
        assert(s.is_white(x));
    }
    if !s.tracing() && before.heap.has(x) && s.objs[x].rc > 0 {
        assert(s.is_white(x));
    }
}

} // verus!
