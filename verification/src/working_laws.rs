//! What the working parts of the collector hold and what they leave alone.

use crate::allocation::{links_shades, owned_links, word_released};
use crate::barriers::root_shades;
use crate::collector::same_hazards;
use crate::draining::{queued, task_taken};
use crate::driving::left_by;
use crate::epoch::{Color, Epoch, Phase};
use crate::global::{is_prefix, Global};
use crate::guards::{Guard, Handle};
use crate::internal::{hazard_set, part_of, Local};
use crate::lists::{batches_bag, queues_bag, ObjBatch, ObjLists};
use crate::man_ptr::{tag_bits, ManPtr};
use crate::model::GcModel;
use crate::object_laws::{law_words_are_counted, leading_to};
use crate::roots::root_released;
use crate::steps::is_next_epoch;
use crate::sync::queue::Queue;
use crate::sync::reusable_slots::Node;
use crate::trace::TraceObj;
use crate::word_laws::law_epoch_is_its_fields;
use vstd::prelude::*;
use vstd::std_specs::cmp::PartialEqSpec;

verus! {

/// How often an address is in a batch.
pub open spec fn times_in(b: ObjBatch, x: u64) -> nat {
    b.items@.to_multiset().count(x)
}

/// A list of objects has an address as often as its batches have it.
pub proof fn law_lists_hold_what_their_batches_hold(lists: ObjLists, c: Color, x: u64)
    ensures
        lists.bag(c).count(x) == lists.shards@[if c == Color::C0 {
            0int
        } else {
            1
        }]@.fold_left(
            0nat,
            |n: nat, q: Queue<ObjBatch>|
                n + q.items@.fold_left(0nat, |m: nat, b: ObjBatch| m + times_in(b, x)),
        ),
{
    lemma_queues_folded(
        lists.shards@[if c == Color::C0 {
            0int
        } else {
            1
        }]@,
        x,
    );
}

proof fn lemma_batches_folded(s: Seq<ObjBatch>, x: u64)
    ensures
        batches_bag(s).count(x) == s.fold_left(0nat, |m: nat, b: ObjBatch| m + times_in(b, x)),
    decreases s.len(),
{
    let f = |b: ObjBatch| b.bag();
    if s.len() > 0 {
        lemma_batches_folded(s.drop_last(), x);
        assert(s.map_values(f).drop_last() =~= s.drop_last().map_values(f));
    }
}

proof fn lemma_queues_folded(s: Seq<Queue<ObjBatch>>, x: u64)
    ensures
        queues_bag(s).count(x) == s.fold_left(
            0nat,
            |n: nat, q: Queue<ObjBatch>|
                n + q.items@.fold_left(0nat, |m: nat, b: ObjBatch| m + times_in(b, x)),
        ),
    decreases s.len(),
{
    let f = |q: Queue<ObjBatch>| batches_bag(q@);
    if s.len() > 0 {
        lemma_queues_folded(s.drop_last(), x);
        lemma_batches_folded(s.last().items@, x);
        assert(s.map_values(f).drop_last() =~= s.drop_last().map_values(f));
    }
}

/// A shard is the queue at its number, and to set it leaves the others.
pub proof fn law_shards_are_queues(
    before: ObjLists,
    after: ObjLists,
    c: Color,
    q: int,
    s: Seq<ObjBatch>,
)
    requires
        0 <= q < 8,
        after.shard_set(before, c, q, s),
    ensures
        after.shard(c, q) == s,
        before.shard(c, q) == before.shards@[if c == Color::C0 {
            0int
        } else {
            1
        }]@[q].items@,
        forall|d: Color, k: int|
            0 <= k < 8 && (d != c || k != q) ==> #[trigger] after.shard(d, k) == before.shard(d, k),
{
}

/// The tasks that are queued are those of all participants.
pub proof fn law_queued_tasks_are_counted(nodes: Seq<Node<Local>>)
    ensures
        queued(nodes) == nodes.fold_left(
            0nat,
            |n: nat, node: Node<Local>| n + node.item.mark_tasks.items().len(),
        ),
    decreases nodes.len(),
{
    if nodes.len() > 0 {
        law_queued_tasks_are_counted(nodes.drop_last());
    }
}

/// A task that is taken was scheduled. All others stay scheduled, and nothing else changes.
pub proof fn law_taken_tasks(s: GcModel, a: u64, t: GcModel)
    requires
        task_taken(s, a, t),
    ensures
        t.tasks.insert(a) =~= s.tasks,
        t.objs == s.objs,
        t.epoch == s.epoch,
        t.parts == s.parts,
        t.young == s.young,
        t.scanned == s.scanned,
{
}

/// What hazard pointers hold are the addresses that are not zero.
pub proof fn law_hazards_are_the_addresses(hazards: Seq<u64>, x: u64)
    ensures
        hazard_set(hazards).contains(x) <==> x != 0 && exists|i: int|
            0 <= i < hazards.len() && #[trigger] hazards[i] == x,
{
}

/// The next epoch is one timestamp on, is not pinned, and has the phase and the white color that
/// were asked for.
pub proof fn law_the_next_epoch(e: Epoch, ph: Phase, white: Color, next: Epoch)
    requires
        is_next_epoch(e, ph, white, next),
        e.data < 0xffff_ffff_ffff_fff0,
    ensures
        next.data == (e.data / 16 + 1) * 16 + (if white == Color::C1 {
            8int
        } else {
            0
        }) + (match ph {
            Phase::N => 0int,
            Phase::RT => 2,
            Phase::CT => 4,
        }),
{
    law_epoch_is_its_fields(e);
    law_epoch_is_its_fields(next);
    let b = next.data as int;
    assert(b == b / 16 * 16 + (b / 8 % 2) * 8 + (b / 2 % 4) * 2 + b % 2);
}

/// A sequence that begins another is what stands at its beginning.
pub proof fn law_prefixes(a: Seq<u64>, b: Seq<u64>)
    ensures
        is_prefix(a, b) <==> a.len() <= b.len() && a =~= b.subrange(0, a.len() as int),
{
    if a.len() <= b.len() && a =~= b.subrange(0, a.len() as int) {
        assert forall|i: int| 0 <= i < a.len() implies #[trigger] b[i] == a[i] by {
            assert(b.subrange(0, a.len() as int)[i] == b[i]);
        }
    }
}

/// A participant whose last guard leaves is no longer pinned, and nothing else changes.
pub proof fn law_left_by_guards(s: GcModel, l: int, k: int)
    requires
        0 <= l < s.parts.len(),
        0 <= k < s.parts.len(),
    ensures
        left_by(s, l, false) == s,
        left_by(s, l, true).parts.len() == s.parts.len(),
        left_by(s, l, true).parts[l].epoch.data == 0,
        left_by(s, l, true).parts[l].hazards == s.parts[l].hazards,
        left_by(s, l, true).parts[l].using == s.parts[l].using,
        k != l ==> left_by(s, l, true).parts[k] == s.parts[k],
        left_by(s, l, true).objs == s.objs,
        left_by(s, l, true).epoch == s.epoch,
        left_by(s, l, true).tasks == s.tasks,
        left_by(s, l, true).young == s.young,
        left_by(s, l, true).scanned == s.scanned,
{
}

/// What is scheduled when the pointers in a value stop being roots: every object, once, that is
/// white and has no other roots than these, while the collector traces.
pub proof fn law_last_roots_are_shaded<T: TraceObj>(s: GcModel, links: Seq<u64>, x: u64)
    requires
        s.low == tag_bits::<T>(),
        s.sound(),
        owned_links(s, links),
    ensures
        links_shades(s, links).to_multiset().count(x) == (if x != 0 && s.epoch.data / 2 % 4 != 0
            && s.live(x) && s.objs[x].color == s.epoch.white() && leading_to::<T>(links, x) > 0
            && leading_to::<T>(links, x) == s.objs[x].rc {
            1nat
        } else {
            0nat
        }),
{
    law_words_are_counted::<T>(links, x);
    lemma_last_roots(s, links, x);
    law_epoch_is_its_fields(s.epoch);
}

proof fn lemma_last_roots(s: GcModel, links: Seq<u64>, x: u64)
    requires
        s.sound(),
        owned_links(s, links),
    ensures
        ({
            let n = crate::allocation::addr_count(s.low, links, x);
            links_shades(s, links).to_multiset().count(x) == (if x != 0 && s.tracing()
                && s.is_white(x) && n > 0 && n == s.objs[x].rc {
                1nat
            } else {
                0nat
            })
        }),
    decreases links.len(),
{
    broadcast use vstd::seq_lib::group_to_multiset_ensures;

    if links.len() > 0 {
        let w = links[0];
        let y = s.addr(w);
        let rest = links.drop_first();
        let t = word_released(s, w);
        crate::allocation::lemma_owned_first(s, links);
        lemma_last_roots(t, rest, x);
        let first = root_shades(s, y);
        let then = links_shades(t, rest);
        vstd::seq_lib::lemma_multiset_commutative(first, then);
        assert(links_shades(s, links).to_multiset().count(x) == first.to_multiset().count(x)
            + then.to_multiset().count(x));
        assert(seq![y].to_multiset().count(x) == (if x == y {
            1nat
        } else {
            0nat
        })) by {
            assert(seq![y] =~= Seq::<u64>::empty().push(y));
        }
        if y != 0 {
            assert(crate::allocation::addr_count(s.low, links, y) > 0);
            assert(t.tracing() == s.tracing());
            assert(t.low == s.low);
            if x == y {
                assert(t.objs[x].rc == s.objs[x].rc - 1);
                assert(t.is_white(x) == s.is_white(x));
                assert(crate::allocation::addr_count(s.low, links, x) <= s.objs[x].rc);
            } else {
                assert(t.objs.contains_key(x) == s.objs.contains_key(x));
            }
        }
    }
}

/// Two pointers are equal exactly if their words are.
pub proof fn law_equal_words<T>(a: ManPtr<T>, b: ManPtr<T>)
    ensures
        ManPtr::<T>::obeys_eq_spec(),
        a.eq_spec(&b) <==> a.data == b.data,
{
}

/// Some participant has modified its tasks in the current epoch exactly if one has noted its
/// timestamp. Shards are empty exactly if there are no batches.
pub proof fn law_nothing_is_left_over<T: TraceObj>(gc: Global<T>)
    requires
        gc.wf(),
    ensures
        gc.tasks_touched() <==> exists|l: int|
            0 <= l < gc.nodes().len() && (#[trigger] gc.nodes()[l]).item.mt_modified_ts
                == gc.epoch.data.data / 16,
        gc.swept_out() <==> gc.marked_objs.batches(gc.epoch.data.white().flipped()) == 0,
        gc.scanned_out() <==> gc.fresh_objs.batches(gc.epoch.data.white()) == 0,
{
    law_epoch_is_its_fields(gc.epoch.data);
    let b = gc.epoch.data.white().flipped();
    let w = gc.epoch.data.white();
    assert(gc.abs().black() == b && gc.abs().white() == w);
    if gc.swept_out() {
        assert(gc.marked_objs.shard(b, 0).len() == 0 && gc.marked_objs.shard(b, 1).len() == 0
            && gc.marked_objs.shard(b, 2).len() == 0 && gc.marked_objs.shard(b, 3).len() == 0
            && gc.marked_objs.shard(b, 4).len() == 0 && gc.marked_objs.shard(b, 5).len() == 0
            && gc.marked_objs.shard(b, 6).len() == 0 && gc.marked_objs.shard(b, 7).len() == 0);
    }
    if gc.scanned_out() {
        assert(gc.fresh_objs.shard(w, 0).len() == 0 && gc.fresh_objs.shard(w, 1).len() == 0
            && gc.fresh_objs.shard(w, 2).len() == 0 && gc.fresh_objs.shard(w, 3).len() == 0
            && gc.fresh_objs.shard(w, 4).len() == 0 && gc.fresh_objs.shard(w, 5).len() == 0
            && gc.fresh_objs.shard(w, 6).len() == 0 && gc.fresh_objs.shard(w, 7).len() == 0);
    }
}

/// Where the hazards are the same, so is who takes part.
pub proof fn law_same_hazards<T: TraceObj>(before: Global<T>, after: Global<T>, k: int)
    requires
        same_hazards(before.abs(), after.abs()),
        0 <= k < before.nodes().len(),
    ensures
        after.nodes().len() == before.nodes().len(),
        after.nodes()[k].using == before.nodes()[k].using,
        hazard_set(after.nodes()[k].item.hazards@) == hazard_set(before.nodes()[k].item.hazards@),
{
    assert(after.abs().parts.len() == after.nodes().len());
    assert(before.abs().parts[k] == part_of(before.nodes()[k]));
    assert(after.abs().parts[k] == part_of(after.nodes()[k]));
}

/// Whatever a participant does for the collector, be it to sweep, to trace, to publish what it has
/// allocated or to take tasks over, the settings stay, and the guards and the hazard pointers of all
/// participants do.
pub proof fn law_work_leaves_the_rest<T: TraceObj>(before: Global<T>, after: Global<T>, l: int)
    requires
        0 <= l < before.nodes().len(),
        after.only_sweeping(before, l) || after.only_swept(before, l) || after.only_tracing(
            before,
            l,
        ) || after.drained_from(before, l) || after.only_batches(before, l) || after.only_queues(
            before,
        ) || after.only_publishes(before) || after.only_helping(before, l) || after.only_local(
            before,
            l,
        ) && after.local(l).same_but_sched(before.local(l)),
    ensures
        after.epoch == before.epoch,
        after.collection_enabled == before.collection_enabled,
        after.collection_requested == before.collection_requested,
        after.headroom == before.headroom,
        after.collector_threads == before.collector_threads,
        after.collection_mode == before.collection_mode,
        after.registry == before.registry,
        after.hbstats == before.hbstats,
        after.cstats == before.cstats,
        after.driving == before.driving,
        after.has_threads == before.has_threads,
        after.nodes().len() == before.nodes().len(),
        forall|k: int|
            0 <= k < before.nodes().len() ==> {
                let n = #[trigger] after.nodes()[k];
                let m = before.nodes()[k];
                &&& n.using == m.using
                &&& n.item.guard_count == m.item.guard_count
                &&& n.item.epoch == m.item.epoch
                &&& n.item.last_observed == m.item.last_observed
                &&& n.item.hazards == m.item.hazards
                &&& n.item.hazards_marker == m.item.hazards_marker
                &&& n.item.available_hids == m.item.available_hids
                &&& n.item.next_guard == m.item.next_guard
                &&& n.item.alloc_count == m.item.alloc_count
            },
        forall|x: u64| #[trigger]
            after.heap.has(x) ==> before.heap.has(x) && after.value_at(x).payload()
                == before.value_at(x).payload(),
{
    assert forall|x: u64| #[trigger] after.heap.has(x) implies before.heap.has(x)
        && after.value_at(x).payload() == before.value_at(x).payload() by {
        assert(after.heap.payloads().contains_key(x));
        assert(after.heap.payloads()[x] == before.heap.payloads()[x]);
        assert(before.heap.payloads().contains_key(x));
    }
}

/// To help along is to be pinned, to help and to give the guard back.
pub proof fn law_helping_along<T: TraceObj>(
    handle: Handle,
    before: Global<T>,
    after: Global<T>,
) -> (r: (Guard, Global<T>, Global<T>))
    requires
        handle.has_helped_along(before, after),
    ensures
        handle.has_pinned(before, r.0, r.1),
        r.0.has_helped(r.1, r.2),
        r.0.has_released(r.2, after),
{
    let (guard, pinned, helped) = choose|guard: Guard, pinned: Global<T>, helped: Global<T>|
        #![trigger handle.has_pinned(before, guard, pinned), guard.has_released(helped, after)]
        handle.has_pinned(before, guard, pinned) && guard.has_helped(pinned, helped)
            && guard.has_released(helped, after);
    (guard, pinned, helped)
}

/// To drop a root is to be pinned, to release the root and to give the guard back.
pub proof fn law_dropping_a_root<T: TraceObj>(
    handle: Handle,
    before: Global<T>,
    after: Global<T>,
    a: u64,
) -> (r: (Guard, Global<T>, Global<T>))
    requires
        handle.has_dropped_root(before, after, a),
    ensures
        handle.has_pinned(before, r.0, r.1),
        r.2.abs() == root_released(r.1.abs(), a),
        r.0.has_released(r.2, after),
{
    let (guard, pinned, released) = choose|guard: Guard, pinned: Global<T>, released: Global<T>|
        #![trigger handle.has_pinned(before, guard, pinned), guard.has_released(released, after)]
        handle.has_pinned(before, guard, pinned) && released.only_barriers(
            pinned,
            handle.lid as int,
            guard.gid,
            root_shades(pinned.abs(), a),
        ) && released.abs() == root_released(pinned.abs(), a) && guard.has_released(
            released,
            after,
        );
    (guard, pinned, released)
}

/// Where a guard may be asked for help, no other one is.
pub proof fn law_only_the_guard_is_asked<T: TraceObj>(
    before: Global<T>,
    after: Global<T>,
    l: int,
    gid: u64,
    other: u64,
)
    requires
        after.asks(before, l, gid),
        other != gid,
    ensures
        after.local(l).should_help@.contains(other) <==> before.local(l).should_help@.contains(
            other,
        ),
        before.local(l).should_help@.contains(gid) ==> after.local(l).should_help@.contains(gid),
{
    let n = choose|n: nat| #[trigger] after.local(l).has_asked(before.local(l), n, gid);
    assert(after.local(l).should_help@.contains(other) <==> before.local(l).should_help@.contains(
        other,
    ));
}

} // verus!
