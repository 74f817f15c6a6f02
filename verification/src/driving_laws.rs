//! When collections take place and how far the heap may grow, in the numbers that decide it.

use crate::collector::{at_rest, lemma_at_rest_white, nobody_pinned};
use crate::config::HeapHeadroom;
use crate::global::Global;
use crate::internal::{help_due, part_of};
use crate::stats::headroom_min_of;
use crate::steps::caught_up;
use crate::sync::reusable_slots::using_count;
use crate::trace::TraceObj;
use crate::word_laws::law_epoch_is_its_fields;
use vstd::prelude::*;

verus! {

/// What is in use is what has been allocated and not reclaimed, and never less than nothing.
pub proof fn law_heap_usage_is_the_difference<T: TraceObj>(gc: Global<T>)
    ensures
        gc.stats.total_reclaimed <= gc.stats.total_allocated ==> gc.stats.total_reclaimed
            + gc.heap_usage() == gc.stats.total_allocated,
        gc.stats.total_reclaimed > gc.stats.total_allocated ==> gc.heap_usage() == 0,
{
}

/// When a collection is called for. While collection is paused, never. On request, always.
/// Otherwise whenever more is in use than the limit, whatever the rates are; and below the limit,
/// if what is left would be used up within the time of a collection at the rate at which the heap
/// grows. A heap that shrinks is collected at its limit, and one that stays as it is is not.
pub proof fn law_collection_is_due<T: TraceObj>(gc: Global<T>)
    ensures
        !gc.collection_enabled ==> !gc.collection_due(),
        gc.collection_enabled && gc.collection_requested ==> gc.collection_due(),
        ({
            let open = gc.collection_enabled && !gc.collection_requested;
            let used = gc.stats.total_allocated - gc.stats.total_reclaimed;
            let usage = if used < 0 {
                0
            } else {
                used
            };
            let left = gc.cstats.desired_heap_limit - usage;
            let grows = gc.cstats.alloc_per_ms_smooth - gc.cstats.reclm_per_ms_smooth;
            &&& open && left < 0 ==> gc.collection_due()
            &&& open && left >= 0 && grows < 0 ==> (gc.collection_due() <==> left == 0)
            &&& open && left >= 0 && grows == 0 ==> !gc.collection_due()
            &&& open && left >= 0 && grows > 0 ==> (gc.collection_due() <==> left < grows * (
            gc.cstats.coll_time_ms_smooth + 1))
        }),
{
    let used = gc.stats.total_allocated - gc.stats.total_reclaimed;
    let usage = if used < 0 {
        0
    } else {
        used
    };
    let left = gc.cstats.desired_heap_limit - usage;
    let grows = gc.cstats.alloc_per_ms_smooth - gc.cstats.reclm_per_ms_smooth;
    let time = gc.cstats.coll_time_ms_smooth as int;
    assert(gc.heap_usage() == usage);
    if left >= 0 && grows > 0 {
        let q = left / grows;
        assert(q * grows <= left < (q + 1) * grows) by (nonlinear_arith)
            requires
                q == left / grows,
                grows > 0,
                left >= 0,
        ;
        if q <= time {
            assert((q + 1) * grows <= grows * (time + 1)) by (nonlinear_arith)
                requires
                    q <= time,
                    grows > 0,
            ;
        } else {
            assert(grows * (time + 1) <= q * grows) by (nonlinear_arith)
                requires
                    q >= time + 1,
                    grows > 0,
            ;
        }
    }
}

/// More in use never makes a collection less due: where one is due, it still is with more bytes
/// allocated, or with a lower limit.
pub proof fn law_more_usage_is_no_less_due<T: TraceObj>(a: Global<T>, b: Global<T>)
    requires
        a.collection_due(),
        b.collection_enabled == a.collection_enabled,
        b.collection_requested == a.collection_requested,
        b.stats.total_allocated >= a.stats.total_allocated,
        b.stats.total_reclaimed == a.stats.total_reclaimed,
        b.cstats.desired_heap_limit <= a.cstats.desired_heap_limit,
        b.cstats.alloc_per_ms_smooth == a.cstats.alloc_per_ms_smooth,
        b.cstats.reclm_per_ms_smooth == a.cstats.reclm_per_ms_smooth,
        b.cstats.coll_time_ms_smooth == a.cstats.coll_time_ms_smooth,
    ensures
        b.collection_due(),
{
    law_collection_is_due(a);
    law_collection_is_due(b);
}

/// The least headroom: so many times a MiB, or the whole part of the heap usage by the number.
pub proof fn law_least_headroom(h: HeapHeadroom, usage: usize)
    ensures
        h matches HeapHeadroom::FixedMiB(n) ==> headroom_min_of(h, usage) == n * 1_048_576,
        h matches HeapHeadroom::Proportional(n) ==> n > 0 ==> {
            let q = headroom_min_of(h, usage);
            0 <= q && q * n <= usage < (q + 1) * n
        },
{
    if let HeapHeadroom::Proportional(n) = h {
        if n > 0 {
            let q = headroom_min_of(h, usage);
            assert(0 <= q && q * n <= usage < (q + 1) * n) by (nonlinear_arith)
                requires
                    q == usage as int / n as int,
                    n > 0,
                    usage >= 0,
            ;
        }
    }
}

/// The extra headroom: where nothing is being reclaimed, a MiB for each participant in use.
/// Otherwise the larger one of the balanced headroom and the least one.
pub proof fn law_extra_headroom<T: TraceObj>(
    gc: Global<T>,
    reclm_rate: usize,
    balanced: usize,
    usage: usize,
)
    requires
        gc.wf(),
    ensures
        ({
            let extra = gc.extra_of(reclm_rate, balanced, usage);
            let least = headroom_min_of(HeapHeadroom::unpacked(gc.headroom), usage);
            &&& reclm_rate == 0 ==> extra == gc.nodes().filter(
                |n: crate::sync::reusable_slots::Node<crate::internal::Local>| n.using,
            ).len() * 1_048_576
            &&& reclm_rate != 0 ==> extra >= least && extra >= balanced && (extra == least || extra
                == balanced)
        }),
{
    lemma_using_filtered(gc.nodes());
}

/// Those in use are counted one by one.
pub proof fn lemma_using_filtered<T>(nodes: Seq<crate::sync::reusable_slots::Node<T>>)
    ensures
        using_count(nodes) == nodes.filter(
            |n: crate::sync::reusable_slots::Node<T>| n.using,
        ).len(),
    decreases nodes.len(),
{
    let f = |n: crate::sync::reusable_slots::Node<T>| n.using;
    reveal(Seq::filter);
    if nodes.len() > 0 {
        lemma_using_filtered(nodes.drop_last());
    }
}

/// A guard is asked for help if one of the tasks is the last of thirty-two: the number of whole
/// periods grows.
pub proof fn law_help_is_due_every_period(count: u64, n: nat)
    ensures
        help_due(count, n) <==> (count + n) / 32 > count as int / 32,
{
}

/// Nobody is pinned exactly if nobody has a guard, and everybody has caught up exactly if whoever
/// has guards has been pinned since the last change of the epoch.
pub proof fn law_nobody_pinned_and_caught_up<T: TraceObj>(gc: Global<T>)
    requires
        gc.wf(),
    ensures
        nobody_pinned(gc.abs()) <==> forall|l: int|
            0 <= l < gc.nodes().len() ==> (#[trigger] gc.nodes()[l]).item.guard_count == 0,
        caught_up(gc.abs()) <==> forall|l: int|
            0 <= l < gc.nodes().len() && (#[trigger] gc.nodes()[l]).item.guard_count > 0
                ==> gc.nodes()[l].item.epoch.data / 16 == gc.epoch.data.data / 16,
{
    let s = gc.abs();
    law_epoch_is_its_fields(gc.epoch.data);
    assert forall|l: int| 0 <= l < gc.nodes().len() implies {
        &&& (#[trigger] gc.nodes()[l]).item.wf()
        &&& s.parts[l].pinned() == (gc.nodes()[l].item.guard_count > 0)
        &&& s.parts[l].epoch.ts() == gc.nodes()[l].item.epoch.data / 16
    } by {
        assert(s.parts[l] == part_of(gc.nodes()[l]));
        law_epoch_is_its_fields(gc.nodes()[l].item.epoch);
    }
    if nobody_pinned(s) {
        assert forall|l: int| 0 <= l < gc.nodes().len() implies (
        #[trigger] gc.nodes()[l]).item.guard_count == 0 by {
            assert(!s.parts[l].pinned());
        }
    }
    if forall|l: int|
        0 <= l < gc.nodes().len() ==> (#[trigger] gc.nodes()[l]).item.guard_count == 0 {
        assert forall|l: int| 0 <= l < s.parts.len() implies !(#[trigger] s.parts[l]).pinned() by {
            assert(gc.nodes()[l].item.guard_count == 0);
        }
    }
    if caught_up(s) {
        assert forall|l: int|
            0 <= l < gc.nodes().len() && (#[trigger] gc.nodes()[l]).item.guard_count > 0 implies gc.nodes()[l].item.epoch.data
            / 16 == gc.epoch.data.data / 16 by {
            assert(s.parts[l].pinned());
        }
    }
    if forall|l: int|
        0 <= l < gc.nodes().len() && (#[trigger] gc.nodes()[l]).item.guard_count > 0
            ==> gc.nodes()[l].item.epoch.data / 16 == gc.epoch.data.data / 16 {
        assert forall|l: int|
            0 <= l < s.parts.len() && (#[trigger] s.parts[l]).pinned() implies s.parts[l].epoch.ts()
            == s.epoch.ts() by {
            assert(gc.nodes()[l].item.guard_count > 0);
        }
    }
}

/// A cycle can be run exactly if nobody runs one, and one is in a tracing phase or everybody who
/// has guards has come to the normal phase.
pub proof fn law_cycles_can_be_driven<T: TraceObj>(gc: Global<T>)
    requires
        gc.wf(),
    ensures
        gc.can_drive() <==> !gc.driving && (gc.epoch.data.data / 2 % 4 != 0 || forall|l: int|
            0 <= l < gc.nodes().len() && (#[trigger] gc.nodes()[l]).item.guard_count > 0
                ==> gc.nodes()[l].item.epoch.data / 16 == gc.epoch.data.data / 16),
{
    law_nobody_pinned_and_caught_up(gc);
    law_epoch_is_its_fields(gc.epoch.data);
}

/// At rest, between two cycles, the phase is the normal one and everything in the heap is white.
pub proof fn law_at_rest_all_is_white<T: TraceObj>(gc: Global<T>, x: u64)
    requires
        gc.wf(),
        at_rest(gc.abs()),
    ensures
        gc.epoch.data.data / 2 % 4 == 0,
        gc.heap.has(x) ==> gc.heap.at(x).header.0.color() == gc.epoch.data.white(),
{
    law_epoch_is_its_fields(gc.epoch.data);
    lemma_at_rest_white(gc.abs(), Set::empty());
    if gc.heap.has(x) {
        assert(gc.abs().live(x));
        assert(gc.abs().is_white(x));
    }
}

} // verus!
