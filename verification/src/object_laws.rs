//! What becomes of values in the heap, by their parts.

use crate::allocation::{addr_count, fits_kinds, owned_links};
use crate::edges::{edge_set, edge_set_shades, Edge, TracePtr};
use crate::global::Global;
use crate::guards::Guard;
use crate::man_ptr::{addr_in, addr_of, clear_meta, is_addr, tag_bits};
use crate::pointer_laws::address;
use crate::pointers::{AtomicShared, AtomicSharedOption, Shared};
use crate::obj_meta::{AtomicObjMeta, ObjMeta};
use crate::steps::{same_shape, set_edge, surviving};
use crate::trace::{LinkKind, TraceObj};
use crate::word_laws::{
    law_epoch_is_its_fields, law_pointer_word_is_its_fields, law_words_with_other_fields,
};
use vstd::prelude::*;
use vstd::std_specs::convert::FromSpec;

verus! {

/// What is seen of an object is what it is.
proof fn lemma_seen<T: TraceObj>(gc: Global<T>, a: u64)
    ensures
        gc.heap.has(a) <==> gc.abs().objs.contains_key(a),
        gc.heap.has(a) ==> {
            &&& gc.abs().objs[a].links == gc.value_at(a).outgoings()
            &&& gc.abs().objs[a].kinds == gc.value_at(a).kinds()
            &&& gc.heap.payloads().contains_key(a)
            &&& gc.heap.payloads()[a] == gc.value_at(a).payload()
        },
{
}

/// An edge is one of the managed pointers of the value that its owner is, by its number: its word
/// is the word of that pointer, and its kind the kind.
pub proof fn law_edges_are_pointers_of_the_value<T: TraceObj>(gc: Global<T>, l: int, e: Edge)
    requires
        gc.heap.has(e.owner),
    ensures
        e.index < gc.value_at(e.owner).outgoings().len() ==> gc.edge_word(e) == gc.value_at(
            e.owner,
        ).outgoings()[e.index as int],
        e.index < gc.value_at(e.owner).kinds().len() ==> gc.edge_kind(e) == gc.value_at(
            e.owner,
        ).kinds()[e.index as int],
        is_addr::<T>(e.owner) && e.owner != 0 ==> (gc.edge_ok(l, e) <==> gc.usable(l, e.owner)
            && e.index < gc.value_at(e.owner).outgoings().len()),
{
    lemma_seen(gc, e.owner);
}

/// A pointer takes any address where it may be null, any but zero where it may not, and none where
/// it is fixed.
pub proof fn law_what_pointers_take(kind: LinkKind, a: u64)
    ensures
        kind.takes(a) <==> kind == LinkKind::Nullable || (kind == LinkKind::NonNull && a != 0),
{
}

/// When an edge comes to have another word, that word stands in the value of its owner in place of
/// the one that stood there. No other pointer, no other object and no count changes.
pub proof fn law_edges_are_set_where_they_are<T: TraceObj>(
    before: Global<T>,
    after: Global<T>,
    l: int,
    e: Edge,
    word: u64,
)
    requires
        before.heap.has(e.owner),
        e.index < before.value_at(e.owner).outgoings().len(),
        after.abs() == edge_set(before.abs(), l, e, word) || after.abs() == set_edge(
            before.abs(),
            e.owner,
            e.index as int,
            word,
        ),
    ensures
        after.heap.has(e.owner),
        after.value_at(e.owner).outgoings() == before.value_at(e.owner).outgoings().update(
            e.index as int,
            word,
        ),
        after.edge_word(e) == word,
        forall|f: Edge| #[trigger]
            before.heap.has(f.owner) && f.index < before.value_at(f.owner).outgoings().len() && f != e
                ==> after.edge_word(f) == before.edge_word(f),
        forall|x: u64| #[trigger] after.heap.has(x) <==> before.heap.has(x),
        forall|x: u64| #[trigger]
            before.heap.has(x) ==> {
                &&& after.value_at(x).outgoings().len() == before.value_at(x).outgoings().len()
                &&& after.value_at(x).kinds() == before.value_at(x).kinds()
                &&& x != e.owner ==> after.value_at(x).outgoings() == before.value_at(
                    x,
                ).outgoings()
                &&& after.abs().objs[x].rc == before.abs().objs[x].rc
                &&& after.abs().objs[x].color == before.abs().objs[x].color
                &&& after.abs().objs[x].tid == before.abs().objs[x].tid
            },
        after.abs().epoch == before.abs().epoch,
        after.abs().parts == before.abs().parts,
        after.abs().young == before.abs().young,
        after.abs().scanned == before.abs().scanned,
        after.abs() == set_edge(before.abs(), e.owner, e.index as int, word) ==> after.abs().tasks
            == before.abs().tasks,
{
    lemma_seen(before, e.owner);
    lemma_seen(after, e.owner);
    assert forall|x: u64| #[trigger] after.heap.has(x) <==> before.heap.has(x) by {
        lemma_seen(before, x);
        lemma_seen(after, x);
    }
    assert forall|x: u64| #[trigger] before.heap.has(x) implies {
        &&& after.value_at(x).outgoings().len() == before.value_at(x).outgoings().len()
        &&& after.value_at(x).kinds() == before.value_at(x).kinds()
        &&& x != e.owner ==> after.value_at(x).outgoings() == before.value_at(x).outgoings()
        &&& after.abs().objs[x].rc == before.abs().objs[x].rc
        &&& after.abs().objs[x].color == before.abs().objs[x].color
        &&& after.abs().objs[x].tid == before.abs().objs[x].tid
    } by {
        lemma_seen(before, x);
        lemma_seen(after, x);
    }
}

/// What is left to be marked when an edge comes to have another word: its new target where it is of
/// the color that counts as black for the participant, and otherwise, while the collector traces,
/// its old one. In both cases only if that one is white to the participant, and the target changes.
pub proof fn law_set_edges_are_shaded<T: TraceObj>(
    gc: Global<T>,
    l: int,
    e: Edge,
    word: u64,
    from: u64,
    to: u64,
)
    requires
        0 <= l < gc.nodes().len(),
        gc.heap.has(e.owner),
        e.index < gc.value_at(e.owner).outgoings().len(),
        from == address::<T>(gc.value_at(e.owner).outgoings()[e.index as int]),
        to == address::<T>(word),
    ensures
        ({
            let s = gc.abs();
            let t = edge_set(s, l, e, word);
            let shades = edge_set_shades(s, l, e, word);
            let white = gc.local(l).epoch.white();
            let black_edge = s.objs[e.owner].color != white;
            let tracing = s.epoch.data / 2 % 4 != 0;
            let new = from != to && to != 0 && black_edge && s.objs[to].color == white;
            let old = from != to && from != 0 && !black_edge && tracing && s.objs[from].color
                == white;
            &&& forall|x: u64| #[trigger]
                t.tasks.contains(x) <==> s.tasks.contains(x) || (x == to && new) || (x == from
                    && old)
            &&& new ==> shades == seq![to]
            &&& old ==> shades == seq![from]
            &&& !new && !old ==> shades.len() == 0
        }),
{
    let s = gc.abs();
    lemma_seen(gc, e.owner);
    law_epoch_is_its_fields(s.epoch);
    law_pointer_word_is_its_fields::<T>(word);
    law_pointer_word_is_its_fields::<T>(gc.value_at(e.owner).outgoings()[e.index as int]);
    assert(s.parts[l].epoch == gc.local(l).epoch);
    let shades = edge_set_shades(s, l, e, word);
    assert(shades =~= seq![to] || shades =~= seq![from] || shades.len() == 0);
}

/// The number of the words that lead to an address.
pub open spec fn leading_to<T>(links: Seq<u64>, y: u64) -> nat {
    links.filter(|w: u64| address::<T>(w) == y).len()
}

/// How many words lead to an address.
pub proof fn law_words_are_counted<T>(links: Seq<u64>, y: u64)
    ensures
        addr_count(tag_bits::<T>(), links, y) == links.filter(
            |w: u64| address::<T>(w) == y,
        ).len(),
    decreases links.len(),
{
    reveal(Seq::filter);
    if links.len() > 0 {
        let w = links.last();
        law_words_are_counted::<T>(links.drop_last(), y);
        law_pointer_word_is_its_fields::<T>(w);
        assert(links.drop_last().push(w) =~= links);
        crate::allocation::lemma_addr_count_push(tag_bits::<T>(), links.drop_last(), w, y);
    }
}

/// What can be allocated: there is room in the heap, the type is known or there are fewer than 256,
/// every managed pointer is a root, none that may not be null is, and each object has at least as
/// many roots as pointers in the value lead to it.
pub proof fn law_what_can_be_allocated<T: TraceObj>(gc: Global<T>, item: T)
    ensures
        gc.can_allocate(item) <==> {
            let links = item.outgoings();
            &&& gc.heap.has_room()
            &&& gc.registry.fns@.contains(item.key()) || gc.registry.fns@.len() < 256
            &&& item.kinds().len() == links.len()
            &&& forall|i: int|
                0 <= i < links.len() ==> #[trigger] links[i] < 0x8000_0000_0000_0000
            &&& forall|i: int|
                0 <= i < links.len() && item.kinds()[i] != LinkKind::Nullable ==> address::<T>(
                    #[trigger] links[i],
                ) != 0
            &&& forall|y: u64|
                y != 0 && #[trigger] leading_to::<T>(links, y) > 0
                    ==> gc.abs().objs.contains_key(y) && leading_to::<T>(links, y) <= gc.abs().objs[y].rc
        },
{
    let links = item.outgoings();
    let low = tag_bits::<T>();
    assert forall|w: u64|
        #![trigger addr_of::<T>(w)]
        #![trigger address::<T>(w)]
        addr_of::<T>(w) as int == address::<T>(w) && (crate::man_ptr::meta_of(w)
            == crate::man_ptr::PtrMeta::Rooted <==> w < 0x8000_0000_0000_0000) by {
        law_pointer_word_is_its_fields::<T>(w);
    }
    assert forall|y: u64|
        #![trigger addr_count(low, links, y)]
        #![trigger leading_to::<T>(links, y)]
        addr_count(low, links, y) == leading_to::<T>(links, y) by {
        law_words_are_counted::<T>(links, y);
    }
    assert(fits_kinds(low, links, item.kinds()) <==> {
        &&& item.kinds().len() == links.len()
        &&& forall|i: int|
            0 <= i < links.len() && item.kinds()[i] != LinkKind::Nullable ==> address::<T>(
                #[trigger] links[i],
            ) != 0
    }) by {
        assert forall|i: int| #![trigger links[i]] addr_in(low, links[i]) as int == address::<T>(
            links[i],
        ) by {
            assert(addr_of::<T>(links[i]) as int == address::<T>(links[i]));
        }
    }
    let owned = {
        &&& forall|i: int| 0 <= i < links.len() ==> #[trigger] links[i] < 0x8000_0000_0000_0000
        &&& forall|y: u64|
            y != 0 && #[trigger] leading_to::<T>(links, y) > 0
                ==> gc.abs().objs.contains_key(y) && leading_to::<T>(links, y) <= gc.abs().objs[y].rc
    };
    assert(owned_links(gc.abs(), links) <==> owned) by {
        assert forall|i: int| #![trigger links[i]] crate::man_ptr::meta_of(links[i])
            == crate::man_ptr::PtrMeta::Rooted <==> links[i] < 0x8000_0000_0000_0000 by {
            assert(addr_of::<T>(links[i]) as int == address::<T>(links[i]));
        }
        if owned {
            assert forall|y: u64| y != 0 && #[trigger] addr_count(low, links, y) > 0 implies gc.abs().live(
                y,
            ) && addr_count(low, links, y) <= gc.abs().objs[y].rc by {
                assert(leading_to::<T>(links, y) > 0);
            }
        }
        if owned_links(gc.abs(), links) {
            assert forall|y: u64|
                y != 0 && #[trigger] leading_to::<T>(links, y)
                    > 0 implies gc.abs().objs.contains_key(y) && leading_to::<T>(links, y) <= gc.abs().objs[y].rc by {
                assert(addr_count(low, links, y) == leading_to::<T>(links, y));
                assert(gc.abs().low == low);
                assert(addr_count(gc.abs().low, links, y) > 0);
            }
        }
    }
}

/// An allocation puts the value in the heap as it is: with its payload, with each managed pointer
/// at its place, leading where it led and with the tag it had, as an edge now, and with the roots
/// that were asked for. Every other object is still there, as it was, but that the roots which the
/// pointers in the value were no longer count. The guard's participant may use the new object.
pub proof fn law_values_are_allocated_as_they_are<T: TraceObj>(
    before: Global<T>,
    after: Global<T>,
    guard: Guard,
    item: T,
    rc: nat,
    a: u64,
)
    requires
        before.wf(),
        after.is_allocated(before, guard, item, rc, a),
        owned_links(before.abs(), item.outgoings()),
    ensures
        a != 0,
        !before.heap.has(a),
        after.heap.has(a),
        after.usable(guard.lid as int, a),
        after.value_at(a).payload() == item.payload(),
        after.value_at(a).kinds() == item.kinds(),
        after.value_at(a).outgoings().len() == item.outgoings().len(),
        forall|i: int|
            0 <= i < item.outgoings().len() ==> {
                &&& (#[trigger] after.value_at(a).outgoings()[i]) % 0x4000_0000_0000_0000
                    == item.outgoings()[i] % 0x4000_0000_0000_0000
                &&& after.value_at(a).outgoings()[i] >= 0x8000_0000_0000_0000
            },
        after.abs().objs[a].rc == rc,
        after.abs().objs[a].color == before.local(guard.lid as int).epoch.white() <==> before.local(
            guard.lid as int,
        ).epoch.data / 2 % 4 == 0,
        after.registry.fns@[after.abs().objs[a].tid as int] == item.key(),
        forall|x: u64| #[trigger]
            before.heap.has(x) ==> {
                &&& after.heap.has(x)
                &&& after.value_at(x).payload() == before.value_at(x).payload()
                &&& after.value_at(x).outgoings() == before.value_at(x).outgoings()
                &&& after.value_at(x).kinds() == before.value_at(x).kinds()
                &&& after.abs().objs[x].color == before.abs().objs[x].color
                &&& after.abs().objs[x].tid == before.abs().objs[x].tid
                &&& x != 0 ==> after.abs().objs[x].rc == before.abs().objs[x].rc
                    - leading_to::<T>(item.outgoings(), x)
            },
        forall|x: u64| #[trigger] after.heap.has(x) ==> x == a || before.heap.has(x),
        after.abs().epoch == before.abs().epoch,
        after.abs().scanned == before.abs().scanned,
        after.abs().parts == before.abs().parts,
{
    let l = guard.lid as int;
    let links = item.outgoings();
    let s = before.abs();
    let e = before.local(l).epoch;
    lemma_seen(after, a);
    lemma_seen(before, a);
    law_epoch_is_its_fields(e);
    law_pointer_word_is_its_fields::<T>(a);
    crate::allocation::lemma_links_released(s, links);
    assert(after.heap.payloads()[a] == item.payload());
    assert forall|i: int| 0 <= i < links.len() implies {
        &&& (#[trigger] after.value_at(a).outgoings()[i]) % 0x4000_0000_0000_0000 == links[i]
            % 0x4000_0000_0000_0000
        &&& after.value_at(a).outgoings()[i] >= 0x8000_0000_0000_0000
    } by {
        let m = crate::man_ptr::PtrMeta::Unrooted(before.local(l).alloc_color());
        law_words_with_other_fields::<T>(links[i], m, 0);
        law_pointer_word_is_its_fields::<T>(crate::man_ptr::set_meta(links[i], m));
    }
    assert forall|x: u64| #[trigger] before.heap.has(x) implies {
        &&& after.heap.has(x)
        &&& after.value_at(x).payload() == before.value_at(x).payload()
        &&& after.value_at(x).outgoings() == before.value_at(x).outgoings()
        &&& after.value_at(x).kinds() == before.value_at(x).kinds()
        &&& after.abs().objs[x].color == before.abs().objs[x].color
        &&& after.abs().objs[x].tid == before.abs().objs[x].tid
        &&& x != 0 ==> after.abs().objs[x].rc == before.abs().objs[x].rc - leading_to::<T>(links, x)
    } by {
        lemma_seen(before, x);
        lemma_seen(after, x);
        law_words_are_counted::<T>(links, x);
        assert(crate::allocation::links_released(s, links).objs.contains_key(x));
        assert(after.abs().objs.contains_key(x));
        assert(after.heap.payloads()[x] == before.heap.payloads()[x]);
    }
    assert forall|x: u64| #[trigger] after.heap.has(x) implies x == a || before.heap.has(x) by {
        lemma_seen(before, x);
        lemma_seen(after, x);
        if x != a {
            assert(crate::allocation::links_released(s, links).objs.contains_key(x));
        }
    }
}

/// An allocation changes nothing but the heap, the registry, the lists of new objects, the counts
/// of bytes and the guard's participant. Of that, its pins, its hazard pointers and what it caches
/// stay. It counts the allocation, and the guard is asked for help at every 64th, or where one of
/// the tasks that came up was a 32nd.
pub proof fn law_allocations_leave_the_rest<T: TraceObj>(
    before: Global<T>,
    after: Global<T>,
    guard: Guard,
    item: T,
    rc: nat,
    a: u64,
)
    requires
        after.is_allocated(before, guard, item, rc, a),
    ensures
        after.epoch == before.epoch,
        after.marked_objs == before.marked_objs,
        after.collection_enabled == before.collection_enabled,
        after.collection_requested == before.collection_requested,
        after.headroom == before.headroom,
        after.collector_threads == before.collector_threads,
        after.collection_mode == before.collection_mode,
        after.hbstats == before.hbstats,
        after.cstats == before.cstats,
        after.driving == before.driving,
        after.has_threads == before.has_threads,
        after.stats.total_reclaimed == before.stats.total_reclaimed,
        after.nodes().len() == before.nodes().len(),
        forall|k: int|
            0 <= k < before.nodes().len() && k != guard.lid ==> #[trigger] after.nodes()[k]
                == before.nodes()[k],
        ({
            let n = after.local(guard.lid as int);
            let m = before.local(guard.lid as int);
            let tasks = n.mark_tasks.items().len() - m.mark_tasks.items().len();
            &&& n.guard_count == m.guard_count
            &&& n.epoch == m.epoch
            &&& n.last_observed == m.last_observed
            &&& n.hazards == m.hazards
            &&& n.hazards_marker == m.hazards_marker
            &&& n.available_hids == m.available_hids
            &&& n.cached_hazards == m.cached_hazards
            &&& n.next_guard == m.next_guard
            &&& n.alloc_count == (m.alloc_count + 1) % 0x1_0000_0000_0000_0000
            &&& n.sched_count == (m.sched_count + tasks) % 0x1_0000_0000_0000_0000
            &&& forall|h: u64| #[trigger]
                n.should_help@.contains(h) <==> m.should_help@.contains(h) || (h == guard.gid && (
                n.alloc_count % 64 == 0 || m.sched_count % 32 + tasks >= 32))
        }),
{
}

/// What the barriers of a pointer leave as it was: everything but the root counts and the words in
/// the heap and what the guard's participant has scheduled. What it schedules comes behind what it
/// had scheduled before.
pub proof fn law_barriers_leave_the_rest<T: TraceObj>(
    before: Global<T>,
    after: Global<T>,
    l: int,
    gid: u64,
    tasks: Seq<u64>,
)
    requires
        0 <= l < before.nodes().len(),
        after.only_barriers(before, l, gid, tasks),
    ensures
        after.epoch == before.epoch,
        after.stats == before.stats,
        after.fresh_objs == before.fresh_objs,
        after.marked_objs == before.marked_objs,
        after.collection_enabled == before.collection_enabled,
        after.collection_requested == before.collection_requested,
        after.headroom == before.headroom,
        after.collector_threads == before.collector_threads,
        after.collection_mode == before.collection_mode,
        after.registry == before.registry,
        after.hbstats == before.hbstats,
        after.cstats == before.cstats,
        after.driving == before.driving,
        after.has_threads == before.has_threads,
        after.heap.payloads() == before.heap.payloads(),
        after.nodes().len() == before.nodes().len(),
        forall|k: int|
            0 <= k < before.nodes().len() && k != l ==> #[trigger] after.nodes()[k]
                == before.nodes()[k],
        after.nodes()[l].using == before.nodes()[l].using,
        ({
            let n = after.local(l);
            let m = before.local(l);
            &&& n.guard_count == m.guard_count
            &&& n.epoch == m.epoch
            &&& n.last_observed == m.last_observed
            &&& n.hazards == m.hazards
            &&& n.hazards_marker == m.hazards_marker
            &&& n.available_hids == m.available_hids
            &&& n.cached_hazards == m.cached_hazards
            &&& n.next_guard == m.next_guard
            &&& n.objs == m.objs
            &&& n.alloc_count == m.alloc_count
            &&& n.mark_tasks.items() == m.mark_tasks.items() + tasks
            &&& n.sched_count == (m.sched_count + tasks.len()) % 0x1_0000_0000_0000_0000
            &&& forall|h: u64| #[trigger]
                n.should_help@.contains(h) <==> m.should_help@.contains(h) || (h == gid
                    && m.sched_count % 32 + tasks.len() >= 32)
        }),
{
}

/// Where only headers and words change, all else stays.
pub proof fn law_headers_leave_the_rest<T: TraceObj>(before: Global<T>, after: Global<T>)
    requires
        after.only_headers(before),
    ensures
        after.locals == before.locals,
        after.epoch == before.epoch,
        after.stats == before.stats,
        after.fresh_objs == before.fresh_objs,
        after.marked_objs == before.marked_objs,
        after.collection_enabled == before.collection_enabled,
        after.collection_requested == before.collection_requested,
        after.headroom == before.headroom,
        after.collector_threads == before.collector_threads,
        after.collection_mode == before.collection_mode,
        after.registry == before.registry,
        after.hbstats == before.hbstats,
        after.cstats == before.cstats,
        after.driving == before.driving,
        after.has_threads == before.has_threads,
        after.heap.payloads() == before.heap.payloads(),
{
}

/// Whatever the pointer, its word is the one that it holds.
pub proof fn law_link_words<T: TraceObj>(
    a: AtomicSharedOption<T>,
    b: AtomicShared<T>,
    c: Shared<T>,
)
    ensures
        a.link_word() == a.link,
        b.link_word() == b.inner.link,
        c.link_word() == c.inner.inner.link,
{
}

/// However a pointer is converted, it stays what it was: the word is the same.
pub proof fn law_conversions_keep_the_word<T>(a: AtomicShared<T>, b: Shared<T>)
    ensures
        <AtomicSharedOption<T> as FromSpec<AtomicShared<T>>>::obeys_from_spec(),
        <AtomicSharedOption<T> as FromSpec<AtomicShared<T>>>::from_spec(a).link == a.inner.link,
        <AtomicSharedOption<T> as FromSpec<Shared<T>>>::obeys_from_spec(),
        <AtomicSharedOption<T> as FromSpec<Shared<T>>>::from_spec(b).link == b.inner.inner.link,
        <AtomicShared<T> as FromSpec<Shared<T>>>::obeys_from_spec(),
        <AtomicShared<T> as FromSpec<Shared<T>>>::from_spec(b).inner.link == b.inner.inner.link,
{
}

/// A header is made of the number that it is.
pub proof fn law_headers_are_numbers(v: u64, m: ObjMeta)
    ensures
        <ObjMeta as FromSpec<u64>>::obeys_from_spec(),
        <ObjMeta as FromSpec<u64>>::from_spec(v).0 == v,
        <AtomicObjMeta as FromSpec<ObjMeta>>::obeys_from_spec(),
        <AtomicObjMeta as FromSpec<ObjMeta>>::from_spec(m).0 == m,
{
}

/// Where all that is left was there before, it has the roots, the type and the pointers that it had,
/// each leading where it led and with the tag it had. Where the shape is the same, all is left.
pub proof fn law_survivors_are_as_they_were<T: TraceObj>(
    before: Global<T>,
    after: Global<T>,
    x: u64,
    i: int,
)
    requires
        surviving(before.abs(), after.abs()) || same_shape(before.abs(), after.abs()),
    ensures
        same_shape(before.abs(), after.abs()) ==> (after.heap.has(x) <==> before.heap.has(x)),
        after.heap.has(x) ==> before.heap.has(x),
        after.heap.has(x) ==> {
            &&& after.abs().objs[x].rc == before.abs().objs[x].rc
            &&& after.abs().objs[x].tid == before.abs().objs[x].tid
            &&& after.value_at(x).kinds() == before.value_at(x).kinds()
            &&& after.value_at(x).outgoings().len() == before.value_at(x).outgoings().len()
            &&& 0 <= i < before.value_at(x).outgoings().len() ==> after.value_at(x).outgoings()[i]
                % 0x4000_0000_0000_0000 == before.value_at(x).outgoings()[i]
                % 0x4000_0000_0000_0000
        },
{
    lemma_seen(before, x);
    lemma_seen(after, x);
    if after.heap.has(x) && 0 <= i < before.value_at(x).outgoings().len() {
        let s = before.abs();
        let t = after.abs();
        assert(t.objs.contains_key(x));
        assert(clear_meta(t.objs[x].links[i]) == clear_meta(s.objs[x].links[i]));
        law_pointer_word_is_its_fields::<T>(t.objs[x].links[i]);
        law_pointer_word_is_its_fields::<T>(s.objs[x].links[i]);
    }
}

} // verus!
