//! What guards and hazard pointers come to, by the counts and the addresses that stand for them.

use crate::draining::{has_done_of, has_done_share};
use crate::epoch::{Color, Phase};
use crate::global::Global;
use crate::guards::{Guard, Handle};
use crate::hazard_pointer::HazardPointer;
use crate::internal::part_of;
use crate::lists::ObjLists;
use crate::model::GcModel;
use crate::pointers::Protector;
use crate::sync::queue::Queue;
use crate::trace::TraceObj;
use crate::word_laws::law_epoch_is_its_fields;
use vstd::prelude::*;

verus! {

/// A participant is pinned exactly if it has guards. A guard or a handle holds where the participant
/// that it is of does.
pub proof fn law_pins_are_guards<T: TraceObj>(gc: Global<T>, guard: Guard, handle: Handle)
    requires
        gc.wf(),
    ensures
        gc.guarded(guard) <==> guard.lid < gc.nodes().len() && gc.local(
            guard.lid as int,
        ).guard_count > 0,
        gc.guarded(guard) ==> gc.nodes()[guard.lid as int].using && gc.local(
            guard.lid as int,
        ).epoch.data % 2 == 1,
        gc.knows(handle) <==> handle.lid < gc.nodes().len() && gc.nodes()[handle.lid as int].using,
        gc.epoch.data.data % 2 == 0,
{
    law_epoch_is_its_fields(gc.epoch.data);
    if guard.lid < gc.nodes().len() {
        let l = guard.lid as int;
        assert(gc.nodes()[l].item.wf());
        assert(gc.abs().parts[l] == part_of(gc.nodes()[l]));
        assert(gc.abs().part_ok(gc.abs().parts[l]));
        law_epoch_is_its_fields(gc.local(l).epoch);
    }
}

/// To pin a participant is to give it one guard more, with the next number. Where it was not pinned,
/// it is now pinned at the current epoch. Its hazard pointers protect what they did, the other
/// participants are as they were, and so is every object.
pub proof fn law_pinning_gives_a_guard<T: TraceObj>(
    handle: Handle,
    before: Global<T>,
    guard: Guard,
    after: Global<T>,
)
    requires
        before.wf(),
        after.wf(),
        before.knows(handle),
        before.local(handle.lid as int).guard_count < usize::MAX,
        handle.has_pinned(before, guard, after),
    ensures
        guard.lid == handle.lid,
        guard.gid == before.local(handle.lid as int).next_guard,
        after.local(handle.lid as int).guard_count > 0,
        after.local(handle.lid as int).hazards == before.local(handle.lid as int).hazards,
        after.local(handle.lid as int).available_hids == before.local(
            handle.lid as int,
        ).available_hids,
        after.local(handle.lid as int).alloc_count == before.local(handle.lid as int).alloc_count,
        after.nodes().len() == before.nodes().len(),
        forall|k: int|
            0 <= k < before.nodes().len() && k != handle.lid ==> #[trigger] after.nodes()[k]
                == before.nodes()[k],
        after.epoch == before.epoch,
        after.collection_requested == before.collection_requested,
        after.driving == before.driving,
        after.same_settings(before),
        before.local(handle.lid as int).guard_count > 0 ==> after.local(handle.lid as int).epoch
            == before.local(handle.lid as int).epoch,
        before.local(handle.lid as int).guard_count == 0 ==> after.local(
            handle.lid as int,
        ).epoch.data == before.epoch.data.data + 1,
        before.local(handle.lid as int).guard_count > 0 || before.epoch.data.data / 2 % 4 != 1 ==> {
            &&& after.local(handle.lid as int).guard_count == before.local(
                handle.lid as int,
            ).guard_count + 1
            &&& after.local(handle.lid as int).next_guard == (guard.gid + 1)
                % 0x1_0000_0000_0000_0000
            &&& after.heap == before.heap
        },
        forall|x: u64| #[trigger] after.heap.has(x) <==> before.heap.has(x),
        forall|x: u64| #[trigger]
            after.heap.has(x) ==> after.value_at(x).payload() == before.value_at(x).payload()
                && after.abs().objs[x].rc == before.abs().objs[x].rc,
{
    let l = handle.lid as int;
    law_pins_are_guards(before, guard, handle);
    law_pins_are_guards(after, guard, handle);
    law_epoch_is_its_fields(before.epoch.data);
    assert(before.nodes()[l].item.wf());
    assert(after.abs().parts[l] == part_of(after.nodes()[l]));
    assert(before.abs().parts[l] == part_of(before.nodes()[l]));
    assert forall|x: u64| #[trigger] after.heap.has(x) <==> before.heap.has(x) by {
        assert(after.abs().objs.contains_key(x) == before.abs().objs.contains_key(x));
        assert(after.heap.payloads().contains_key(x) == after.heap.has(x));
    }
    assert forall|x: u64| #[trigger] after.heap.has(x) implies after.value_at(x).payload()
        == before.value_at(x).payload() && after.abs().objs[x].rc == before.abs().objs[x].rc by {
        assert(before.heap.has(x));
        assert(after.abs().objs.contains_key(x));
        assert(after.heap.payloads()[x] == before.heap.payloads()[x]);
    }
}

/// To give a guard back is to have one guard less. With the last one the participant is no longer
/// pinned. Nothing else changes.
pub proof fn law_unpinning_takes_a_guard<T: TraceObj>(before: Global<T>, after: Global<T>, l: int)
    requires
        0 <= l < before.nodes().len(),
        before.local(l).guard_count > 0,
        after.is_unpinned(before, l),
    ensures
        after.local(l).guard_count == before.local(l).guard_count - 1,
        after.local(l).guard_count == 0 ==> after.local(l).epoch.data == 0,
        after.local(l).guard_count > 0 ==> after.local(l).epoch == before.local(l).epoch,
        after.local(l).hazards == before.local(l).hazards,
        after.local(l).mark_tasks == before.local(l).mark_tasks,
        after.local(l).objs == before.local(l).objs,
        after.nodes().len() == before.nodes().len(),
        forall|k: int|
            0 <= k < before.nodes().len() && k != l ==> #[trigger] after.nodes()[k]
                == before.nodes()[k],
        after.heap == before.heap,
        after.epoch == before.epoch,
        after.stats == before.stats,
        after.fresh_objs == before.fresh_objs,
        after.marked_objs == before.marked_objs,
        after.collection_requested == before.collection_requested,
        after.driving == before.driving,
        after.same_settings(before),
{
}

/// A hazard pointer is handed out if it is one of a participant that is taken and not among the free
/// ones. What it protects is the address at its number.
pub proof fn law_hazard_pointers_are_addresses<T: TraceObj>(gc: Global<T>, hp: HazardPointer)
    ensures
        gc.owns_hp(hp) <==> {
            &&& hp.lid < gc.nodes().len()
            &&& gc.nodes()[hp.lid as int].using
            &&& hp.hid < gc.nodes()[hp.lid as int].item.hazards@.len()
            &&& !gc.nodes()[hp.lid as int].item.available_hids@.contains(hp.hid)
        },
        gc.hazard(hp) == gc.nodes()[hp.lid as int].item.hazards@[hp.hid as int],
{
}

/// Where hazard pointers are kept, each that is handed out still is, and protects what it did.
pub proof fn law_hazard_pointers_stay<T: TraceObj>(
    before: Global<T>,
    after: Global<T>,
    hp: HazardPointer,
)
    requires
        after.keeps_hps(before),
    ensures
        after.owns_hp(hp) <==> before.owns_hp(hp),
        before.owns_hp(hp) ==> after.hazard(hp) == before.hazard(hp),
        after.nodes().len() == before.nodes().len(),
        forall|k: int|
            0 <= k < before.nodes().len() ==> (#[trigger] after.nodes()[k]).item.hazards@
                == before.nodes()[k].item.hazards@,
{
    if hp.lid < before.nodes().len() {
        assert(after.nodes()[hp.lid as int].using == before.nodes()[hp.lid as int].using);
    }
}

/// A hazard pointer that is given back protects nothing and is free. All others stay.
pub proof fn law_hazard_pointers_are_given_back<T: TraceObj>(
    before: Global<T>,
    after: Global<T>,
    hp: HazardPointer,
    other: HazardPointer,
)
    requires
        before.owns_hp(hp),
        before.owns_hp(other),
        other != hp,
        after.gave_back(before, hp),
    ensures
        !after.owns_hp(hp),
        after.hazard(hp) == 0,
        after.owns_hp(other),
        after.hazard(other) == before.hazard(other),
        after.heap == before.heap,
        after.local(hp.lid as int).guard_count == before.local(hp.lid as int).guard_count,
        forall|k: int|
            0 <= k < before.nodes().len() && k != hp.lid ==> #[trigger] after.nodes()[k]
                == before.nodes()[k],
{
    let ids = before.local(hp.lid as int).available_hids@;
    assert(ids.push(hp.hid)[ids.len() as int] == hp.hid);
    assert(after.local(hp.lid as int).available_hids@.contains(hp.hid));
}

/// To protect an object under a guard changes nothing. To protect it with a handle gives it a hazard
/// pointer that nobody had, which holds its address, and leaves all others.
pub proof fn law_protection<T: TraceObj>(
    guard: Guard,
    handle: Handle,
    before: Global<T>,
    after: Global<T>,
    a: u64,
    hp: HazardPointer,
    other: HazardPointer,
)
    ensures
        guard.can_protect(before, a) <==> before.wf() && before.guarded(guard) && before.usable(
            guard.lid as int,
            a,
        ),
        Protector::<T>::has_protected(&guard, before, after, a, ()) <==> after == before,
        before.wf() && before.knows(handle) && (a == 0 || before.local(
            handle.lid as int,
        ).hazards@.contains(a)) ==> Protector::<T>::can_protect(&handle, before, a),
        before.wf() && before.knows(handle) && before.pinned(handle.lid as int)
            && before.abs().protected(handle.lid as int, a) ==> Protector::<T>::can_protect(
            &handle,
            before,
            a,
        ),
        before.knows(handle) && Protector::<T>::has_protected(&handle, before, after, a, hp) ==> {
            &&& hp.lid == handle.lid
            &&& hp.hid < after.nodes()[handle.lid as int].item.hazards@.len()
            &&& after.nodes()[handle.lid as int].item.hazards@[hp.hid as int] == a
            &&& after.owns_hp(hp)
            &&& !before.owns_hp(hp)
            &&& before.owns_hp(other) ==> after.owns_hp(other) && after.hazard(other)
                == before.hazard(other)
            &&& after.heap == before.heap
            &&& after.epoch == before.epoch
            &&& after.local(handle.lid as int).guard_count == before.local(
                handle.lid as int,
            ).guard_count
        },
{
    if before.knows(handle) {
        assert(before.abs().parts[handle.lid as int] == part_of(before.nodes()[handle.lid as int]));
    }
}

/// The batches of a color are those of its eight shards.
pub proof fn law_batches_are_those_of_the_shards(lists: ObjLists, c: Color)
    requires
        lists.wf(),
    ensures
        lists.batches(c) == lists.shards@[if c == Color::C0 {
            0int
        } else {
            1
        }]@.fold_left(0nat, |n: nat, q: Queue<crate::lists::ObjBatch>| n + q.items@.len()),
        lists.shards@.len() == 2,
        lists.shards@[0]@.len() == 8,
        lists.shards@[1]@.len() == 8,
{
    let i = if c == Color::C0 {
        0int
    } else {
        1
    };
    let s = lists.shards@[i]@;
    let f = |n: nat, q: Queue<crate::lists::ObjBatch>| n + q.items@.len();
    assert(lists.shards@[0]@.len() == 8);
    assert(lists.shards@[1]@.len() == 8);
    let s7 = s.drop_last();
    let s6 = s7.drop_last();
    let s5 = s6.drop_last();
    let s4 = s5.drop_last();
    let s3 = s4.drop_last();
    let s2 = s3.drop_last();
    let s1 = s2.drop_last();
    let s0 = s1.drop_last();
    assert(s0.fold_left(0nat, f) == 0);
    assert(s1.fold_left(0nat, f) == f(s0.fold_left(0nat, f), s1.last()));
    assert(s2.fold_left(0nat, f) == f(s1.fold_left(0nat, f), s2.last()));
    assert(s3.fold_left(0nat, f) == f(s2.fold_left(0nat, f), s3.last()));
    assert(s4.fold_left(0nat, f) == f(s3.fold_left(0nat, f), s4.last()));
    assert(s5.fold_left(0nat, f) == f(s4.fold_left(0nat, f), s5.last()));
    assert(s6.fold_left(0nat, f) == f(s5.fold_left(0nat, f), s6.last()));
    assert(s7.fold_left(0nat, f) == f(s6.fold_left(0nat, f), s7.last()));
    assert(s.fold_left(0nat, f) == f(s7.fold_left(0nat, f), s.last()));
    assert(c.code() == i);
}

/// What help comes to. In a normal phase, two batches of what is to be swept are, or all there are.
/// While roots are looked for, four batches are looked at, or all there are. In a tracing phase that
/// everybody has come to, at least half of the tasks that the participant had are done, in their
/// order, and at least thirty-two, or none are left.
pub proof fn law_help_gets_things_done<T: TraceObj>(
    guard: Guard,
    before: Global<T>,
    after: Global<T>,
)
    requires
        before.wf(),
        before.guarded(guard),
        guard.has_helped(before, after),
    ensures
        ({
            let local = before.local(guard.lid as int);
            let dead = before.marked_objs.batches(before.epoch.data.white().flipped());
            let left = after.marked_objs.batches(before.epoch.data.white().flipped());
            let normal = local.epoch.data / 2 % 4 == 0 && before.epoch.data.data / 2 % 4 == 0;
            &&& normal && !local.is_helping_normal ==> left == (if dead >= 2 {
                dead - 2
            } else {
                0
            })
            &&& normal && local.is_helping_normal ==> after == before
        }),
        ({
            let local = before.local(guard.lid as int);
            let fresh = before.fresh_objs.batches(before.epoch.data.white());
            let left = after.fresh_objs.batches(before.epoch.data.white());
            let synced = forall|l: int|
                0 <= l < before.nodes().len() && (#[trigger] before.nodes()[l]).item.guard_count > 0
                    ==> before.nodes()[l].item.epoch.data / 2 % 4 != 0;
            let tasks = local.mark_tasks.items();
            let done = after.local(guard.lid as int).mark_tasks.items();
            &&& synced && local.epoch.data / 2 % 4 == 1 && before.epoch.data.data / 2 % 4 == 1
                && !local.is_helping_root_tracing ==> left == (if fresh >= 4 {
                fresh - 4
            } else {
                0
            })
            &&& synced && !local.is_helping_draining_mark_tasks ==> exists|more: Seq<u64>, n: int|
                {
                    &&& 0 <= n <= tasks.len() + more.len()
                    &&& done == #[trigger] (tasks + more).skip(n)
                    &&& n >= 32 && n >= tasks.len() as int / 2 || done.len() == 0
                    &&& forall|k: int|
                        0 <= k < n ==> after.abs().is_black(#[trigger] (tasks + more)[k])
                }
        }),
        forall|k: int|
            0 <= k < before.nodes().len() && k != guard.lid ==> #[trigger] after.nodes()[k]
                == before.nodes()[k],
        after.local(guard.lid as int).guard_count == before.local(guard.lid as int).guard_count,
        after.local(guard.lid as int).epoch == before.local(guard.lid as int).epoch,
        after.local(guard.lid as int).hazards == before.local(guard.lid as int).hazards,
        after.epoch == before.epoch,
        after.collection_requested == before.collection_requested,
        after.driving == before.driving,
        after.same_settings(before),
{
    let l = guard.lid as int;
    let s = before.abs();
    let local = before.local(l);
    law_epoch_is_its_fields(before.epoch.data);
    law_epoch_is_its_fields(local.epoch);
    assert(before.nodes()[l].item.wf());
    assert(s.parts[l] == part_of(before.nodes()[l]));
    let synced = forall|l: int|
        0 <= l < before.nodes().len() && (#[trigger] before.nodes()[l]).item.guard_count > 0
            ==> before.nodes()[l].item.epoch.data / 2 % 4 != 0;
    if synced {
        assert forall|k: int| 0 <= k < s.parts.len() && (#[trigger] s.parts[k]).pinned() implies s.parts[k].epoch.ph()
            != Phase::N by {
            assert(s.parts[k] == part_of(before.nodes()[k]));
            assert(before.nodes()[k].item.wf());
            law_epoch_is_its_fields(before.nodes()[k].item.epoch);
        }
        assert(s.synced());
        assert(local.guard_count > 0);
        let tasks = local.mark_tasks.items();
        let done = after.local(l).mark_tasks.items();
        if !local.is_helping_draining_mark_tasks {
            assert(has_done_share(tasks, done, after.abs()));
            law_shares_are_done(tasks, done, after.abs());
        }
    }
}

/// A share of tasks is at least half of them, and at least thirty-two, unless none are left. They
/// are done in their order, those that came up meanwhile after those that were there.
pub proof fn law_shares_are_done(tasks: Seq<u64>, done: Seq<u64>, t: GcModel)
    requires
        has_done_share(tasks, done, t),
    ensures
        exists|more: Seq<u64>, n: int|
            {
                &&& 0 <= n <= tasks.len() + more.len()
                &&& done == #[trigger] (tasks + more).skip(n)
                &&& n >= 32 && n >= tasks.len() as int / 2 || done.len() == 0
                &&& forall|k: int| 0 <= k < n ==> t.is_black(#[trigger] (tasks + more)[k])
            },
{
    let n = choose|n: int|
        #![trigger crate::draining::has_done(tasks, done, n, t)]
        crate::draining::has_done(tasks, done, n, t) && (n >= crate::draining::help_share(
            tasks.len(),
        ) || done.len() == 0);
    let more = choose|more: Seq<u64>| #[trigger] has_done_of(tasks + more, done, n, t);
    assert(done == (tasks + more).skip(n));
}

/// What becomes of the heap when a root is given up: the roots of the object are one less, and
/// whatever has roots then, or is held by a hazard pointer, is still there with the roots that it
/// has.
pub proof fn law_dropped_roots_count_no_more<T: TraceObj>(
    before: Global<T>,
    after: Global<T>,
    a: u64,
    x: u64,
)
    requires
        after.root_gone(before, a),
        before.heap.has(a),
        before.abs().objs[a].rc > 0,
        before.heap.has(x),
    ensures
        ({
            let rc = before.abs().objs[x].rc - (if x == a {
                1int
            } else {
                0
            });
            &&& rc > 0 ==> after.heap.has(x)
            &&& after.heap.has(x) ==> after.abs().objs[x].rc == rc
            &&& after.heap.has(x) ==> after.value_at(x).payload() == before.value_at(x).payload()
        }),
        forall|l: int, h: int|
            0 <= l < before.nodes().len() && 0 <= h < before.nodes()[l].item.hazards@.len()
                && #[trigger] before.nodes()[l].item.hazards@[h] != 0 ==> after.heap.has(
                before.nodes()[l].item.hazards@[h],
            ) && after.nodes()[l].item.hazards@ == before.nodes()[l].item.hazards@,
{
    let s = crate::steps::dec_root(before.abs(), a);
    let t = after.abs();
    assert(before.abs().objs.contains_key(a) && before.abs().objs.contains_key(x));
    assert(s.objs.contains_key(x));
    assert(t.objs.contains_key(x) == after.heap.has(x));
    if after.heap.has(x) {
        assert(after.heap.payloads().contains_key(x));
    }
    assert forall|l: int, h: int|
        0 <= l < before.nodes().len() && 0 <= h < before.nodes()[l].item.hazards@.len()
            && #[trigger] before.nodes()[l].item.hazards@[h] != 0 implies after.heap.has(
        before.nodes()[l].item.hazards@[h],
    ) && after.nodes()[l].item.hazards@ == before.nodes()[l].item.hazards@ by {
        let y = before.nodes()[l].item.hazards@[h];
        assert(s.parts[l] == part_of(before.nodes()[l]));
        assert(before.nodes()[l].item.hazards@.contains(y));
        assert(s.parts[l].hazards.contains(y));
        assert(t.objs.contains_key(y));
        assert(after.nodes()[l].item.same_protection(before.local(l)));
    }
}

/// When a guard leaves, its participant has one guard less, the others are as they were, no epoch
/// changes, and nothing is gone that has a root.
pub proof fn law_guards_leave<T: TraceObj>(
    guard: Guard,
    before: Global<T>,
    after: Global<T>,
    x: u64,
)
    requires
        before.wf(),
        before.guarded(guard),
        guard.has_left(before, after),
    ensures
        after.local(guard.lid as int).guard_count == before.local(guard.lid as int).guard_count - 1,
        after.local(guard.lid as int).hazards == before.local(guard.lid as int).hazards,
        forall|k: int|
            0 <= k < before.nodes().len() && k != guard.lid ==> #[trigger] after.nodes()[k]
                == before.nodes()[k],
        after.epoch == before.epoch,
        after.collection_requested == before.collection_requested,
        after.driving == before.driving,
        after.same_settings(before),
        before.heap.has(x) && before.abs().objs[x].rc > 0 ==> after.heap.has(x),
        after.heap.has(x) ==> before.heap.has(x) && after.value_at(x).payload() == before.value_at(
            x,
        ).payload() && after.abs().objs[x].rc == before.abs().objs[x].rc,
{
    let s = before.abs();
    let t = after.abs();
    assert(s.objs.contains_key(x) == before.heap.has(x));
    assert(t.objs.contains_key(x) == after.heap.has(x));
    if after.heap.has(x) {
        assert(after.heap.payloads().contains_key(x));
    }
    assert(after.nodes()[guard.lid as int].item.same_protection(before.local(guard.lid as int)));
}

/// When a guard is given back, no more happens than that it leaves, unless it was the last one of
/// its participant and mutators drive collection.
pub proof fn law_released_guards_leave<T: TraceObj>(
    guard: Guard,
    before: Global<T>,
    after: Global<T>,
)
    requires
        before.wf(),
        guard.has_released(before, after),
        before.local(guard.lid as int).guard_count > 1 || before.collection_mode % 2 == 0
            || !before.collection_enabled,
    ensures
        guard.has_left(before, after),
{
    crate::word_laws::law_mode_words(
        before.collection_mode,
        crate::config::CollectionMode::Cooperative,
    );
}

/// A participant allocates in the color that is white to it in a normal phase and in the other one
/// in a tracing phase. Black is the color that is not white.
pub proof fn law_colors_of_participants<T: TraceObj>(gc: Global<T>, l: int)
    ensures
        gc.local(l).alloc_color() == gc.local(l).epoch.white() <==> gc.local(l).epoch.data / 2 % 4
            == 0,
        gc.black_of(l) != gc.local(l).epoch.white(),
{
    law_epoch_is_its_fields(gc.local(l).epoch);
}

/// A batch holds up to sixty-four objects.
pub proof fn law_batches_hold_so_many(b: crate::lists::ObjBatch)
    ensures
        b.is_usual() <==> b.capacity == 64 && b.items@.len() <= 64,
        b@ == b.items@,
{
}

/// A guard that has not been asked for help does not help: nothing changes. One that has been is
/// not asked any more when it begins to help.
pub proof fn law_help_is_given_if_asked<T: TraceObj>(
    guard: Guard,
    before: Global<T>,
    after: Global<T>,
)
    requires
        0 <= guard.lid < before.nodes().len(),
        guard.has_helped_if_asked(before, after),
    ensures
        !before.local(guard.lid as int).should_help@.contains(guard.gid) ==> {
            &&& after.heap == before.heap
            &&& after.fresh_objs == before.fresh_objs
            &&& after.marked_objs == before.marked_objs
            &&& after.stats == before.stats
            &&& after.local(guard.lid as int).mark_tasks == before.local(
                guard.lid as int,
            ).mark_tasks
            &&& forall|g: u64| #[trigger]
                after.local(guard.lid as int).should_help@.contains(g) <==> before.local(
                    guard.lid as int,
                ).should_help@.contains(g)
        },
        before.local(guard.lid as int).should_help@.contains(guard.gid) ==> exists|mid: Global<T>|
            {
                &&& #[trigger] guard.has_helped(mid, after)
                &&& mid.heap == before.heap
                &&& mid.epoch == before.epoch
                &&& mid.fresh_objs == before.fresh_objs
                &&& mid.marked_objs == before.marked_objs
                &&& mid.local(guard.lid as int).mark_tasks == before.local(
                    guard.lid as int,
                ).mark_tasks
                &&& forall|g: u64| #[trigger]
                    mid.local(guard.lid as int).should_help@.contains(g) <==> before.local(
                        guard.lid as int,
                    ).should_help@.contains(g) && g != guard.gid
            },
        after.epoch == before.epoch,
        after.local(guard.lid as int).guard_count == before.local(guard.lid as int).guard_count,
        after.local(guard.lid as int).hazards == before.local(guard.lid as int).hazards,
        forall|k: int|
            0 <= k < before.nodes().len() && k != guard.lid ==> #[trigger] after.nodes()[k]
                == before.nodes()[k],
{
    let mid = choose|mid: Global<T>| #[trigger]
        guard.has_taken_request(before, mid) && (if before.local(
            guard.lid as int,
        ).should_help@.contains(guard.gid) {
            guard.has_helped(mid, after)
        } else {
            after == mid
        });
    if before.local(guard.lid as int).should_help@.contains(guard.gid) {
        assert(guard.has_helped(mid, after));
    }
}

} // verus!
