//! What managed pointers lead to, by the numbers in their words.

use crate::allocation::word_released;
use crate::barriers::{root_shades, shade_for};
use crate::epoch::Color;
use crate::global::Global;
use crate::guards::Guard;
use crate::man_ptr::{addr_of, is_addr, lemma_word, meta_of, set_meta, set_tag, PtrMeta};
use crate::model::GcModel;
use crate::pointers::{
    cell_shades, cell_swapped, is_exchanged, is_local_of, is_nonnull_of, opt_addr, opt_word,
    same_allocation, tagged_word, Local, Protector, Shared,
};
use crate::roots::{lemma_rooted_protected, root_released};
use crate::steps::{dec_root, inc_root, keeps_protected};
use crate::trace::TraceObj;
use crate::word_laws::{
    law_epoch_is_its_fields, law_pointer_word_is_its_fields, law_words_hold_addresses_and_tags,
    law_words_with_other_fields, stride,
};
use vstd::prelude::*;

verus! {

/// The address in a word as a number: what is left of it without the metadata and without the tag.
pub open spec fn address<T>(w: u64) -> int {
    w % 0x4000_0000_0000_0000 - w as int % stride::<T>()
}

/// Two pointers lead to the same object exactly if their addresses are the same number. Where there
/// is no pointer, only the lack of another is the same.
pub proof fn law_same_allocation_is_the_same_address<T>(a: Shared<T>, b: Shared<T>)
    ensures
        same_allocation(Some(&a), Some(&b)) <==> address::<T>(a.inner.inner.link) == address::<T>(
            b.inner.inner.link,
        ),
        same_allocation::<T>(None, None),
        !same_allocation(Some(&a), None),
        !same_allocation(None, Some(&b)),
{
    law_pointer_word_is_its_fields::<T>(a.inner.inner.link);
    law_pointer_word_is_its_fields::<T>(b.inner.inner.link);
}

/// Pointers that may be missing are compared as those that may not: what `opt_ptr_eq` says of two
/// pointers is what `ptr_eq` says of them, and both say whether the addresses are the same number.
/// A missing pointer is the same as a missing one and as no other.
pub proof fn law_comparisons_agree<T>(a: Shared<T>, b: Shared<T>, plain: bool, optional: bool)
    requires
        call_ensures(Shared::<T>::ptr_eq, (&a, &b), plain),
        call_ensures(Shared::<T>::opt_ptr_eq, (Some(&a), Some(&b)), optional),
    ensures
        optional == plain,
        plain <==> address::<T>(a.inner.inner.link) == address::<T>(b.inner.inner.link),
        forall|r: bool| #[trigger]
            call_ensures(Shared::<T>::opt_ptr_eq, (None, None), r) ==> r,
        forall|r: bool| #[trigger]
            call_ensures(Shared::<T>::opt_ptr_eq, (Some(&a), None), r) ==> !r,
        forall|r: bool| #[trigger]
            call_ensures(Shared::<T>::opt_ptr_eq, (None, Some(&b)), r) ==> !r,
{
    law_same_allocation_is_the_same_address(a, b);
    law_pointer_word_is_its_fields::<T>(a.inner.inner.link);
    law_pointer_word_is_its_fields::<T>(b.inner.inner.link);
}

/// The word of a pointer that may be missing is that of the pointer, and zero where it is missing.
/// With a tag, the tag is added to it.
pub proof fn law_words_of_pointers<'g, G: Protector<T>, T: TraceObj>(
    p: Local<'g, G, T>,
    q: Local<'g, Guard, T>,
    s: Shared<T>,
    tag: u64,
)
    ensures
        opt_word(Some(&p)) == p.ptr,
        opt_word::<G, T>(None) == 0,
        opt_addr(Some(q)) == q.ptr,
        opt_addr::<T>(None) == 0,
        s.word() == s.inner.inner.link,
        tagged_word(Some(&p), tag) as int == p.ptr - p.ptr as int % stride::<T>() + tag as int
            % stride::<T>(),
        tagged_word::<G, T>(None, tag) as int == tag as int % stride::<T>(),
{
    law_words_with_other_fields::<T>(p.ptr, PtrMeta::Rooted, tag);
    law_words_with_other_fields::<T>(0, PtrMeta::Rooted, tag);
    law_pointer_word_is_its_fields::<T>(0);
}

/// What is read from a word is its address and its tag: their sum is the word without metadata. The
/// pointer is missing exactly where the address is zero.
pub proof fn law_reads_give_address_and_tag<'g, T: TraceObj>(
    r: (Option<Local<'g, Guard, T>>, u64),
    n: (Local<'g, Guard, T>, u64),
    w: u64,
)
    ensures
        is_local_of(r, w) <==> {
            &&& r.1 as int == w as int % stride::<T>()
            &&& match r.0 {
                Some(p) => p.ptr != 0 && p.ptr + r.1 == w % 0x4000_0000_0000_0000,
                None => r.1 == w % 0x4000_0000_0000_0000,
            }
        },
        is_nonnull_of(n, w) <==> {
            &&& n.1 as int == w as int % stride::<T>()
            &&& n.0.ptr + n.1 == w % 0x4000_0000_0000_0000
        },
{
    lemma_word::<T>(w);
    law_pointer_word_is_its_fields::<T>(w);
    law_pointer_word_is_its_fields::<T>(0);
    law_pointer_word_is_its_fields::<T>(addr_of::<T>(w));
}

/// A conditional replacement succeeds exactly if the word, but for its metadata, is the expected
/// address and the expected tag. It then leaves the new address and the new tag, with the metadata
/// that were there, and does what a replacement without conditions does. Otherwise nothing changes at all. Either way the pointer and the tag that were
/// there are returned.
pub proof fn law_exchanges_go_by_address_and_tag<'g, T: TraceObj>(
    before: Global<T>,
    after: Global<T>,
    l: int,
    gid: u64,
    link_before: u64,
    link_after: u64,
    expected: (u64, u64),
    new: (u64, u64),
    r: Result<(Option<Local<'g, Guard, T>>, u64), (Option<Local<'g, Guard, T>>, u64)>,
)
    requires
        is_exchanged(before, after, l, gid, link_before, link_after, expected, new, r),
        is_addr::<T>(expected.0),
        is_addr::<T>(new.0),
    ensures
        r is Ok <==> link_before % 0x4000_0000_0000_0000 == expected.0 + expected.1 as int
            % stride::<T>(),
        r is Ok ==> {
            &&& link_after % 0x4000_0000_0000_0000 == new.0 + new.1 as int % stride::<T>()
            &&& link_after >= 0x8000_0000_0000_0000 <==> link_before >= 0x8000_0000_0000_0000
            &&& link_after >= 0xc000_0000_0000_0000 <==> link_before >= 0xc000_0000_0000_0000
            &&& after.abs() == cell_swapped(before.abs(), l, link_before, new.0)
            &&& after.only_barriers(
                before,
                l,
                gid,
                cell_shades(before.abs(), l, link_before, new.0),
            )
        },
        r is Err ==> link_after == link_before && after == before,
        ({
            let p = match r {
                Ok(p) => p,
                Err(p) => p,
            };
            &&& p.1 as int == link_before as int % stride::<T>()
            &&& match p.0 {
                Some(q) => q.ptr != 0 && q.ptr + p.1 == link_before % 0x4000_0000_0000_0000,
                None => p.1 == link_before % 0x4000_0000_0000_0000,
            }
        }),
{
    law_words_hold_addresses_and_tags::<T>(link_before, expected.0, expected.1);
    law_words_hold_addresses_and_tags::<T>(link_after, new.0, new.1);
    law_pointer_word_is_its_fields::<T>(link_before);
    law_pointer_word_is_its_fields::<T>(link_after);
    law_words_with_other_fields::<T>(
        set_tag::<T>(new.0, new.1),
        meta_of(link_before),
        0,
    );
    let p = match r {
        Ok(p) => p,
        Err(p) => p,
    };
    law_reads_give_address_and_tag(p, arbitrary(), link_before);
}

/// A root that is added or released is counted, by one, and nothing else of the objects changes.
pub proof fn law_roots_are_counted(s: GcModel, x: u64)
    requires
        s.live(x),
        s.objs[x].rc > 0,
    ensures
        inc_root(s, x).objs.dom() == s.objs.dom(),
        inc_root(s, x).objs[x].rc == s.objs[x].rc + 1,
        dec_root(s, x).objs.dom() == s.objs.dom(),
        dec_root(s, x).objs[x].rc == s.objs[x].rc - 1,
        root_released(s, x).objs == dec_root(s, x).objs,
        forall|y: u64| #[trigger]
            root_released(s, x).tasks.contains(y) <==> s.tasks.contains(y) || (y == x
                && s.objs[x].rc == 1 && s.epoch.data / 2 % 4 != 0 && s.objs[x].color
                == s.epoch.white()),
        forall|t: GcModel|
            t == inc_root(s, x) || t == dec_root(s, x) || t == root_released(s, x) ==> {
                &&& (forall|y: u64| y != x ==> #[trigger] t.objs[y] == s.objs[y])
                &&& t.objs[x].links == s.objs[x].links
                &&& t.objs[x].kinds == s.objs[x].kinds
                &&& t.objs[x].tid == s.objs[x].tid
                &&& t.objs[x].color == s.objs[x].color
                &&& #[trigger] t.epoch == s.epoch
                &&& t.parts == s.parts
                &&& t.young == s.young
                &&& t.scanned == s.scanned
            },
        inc_root(s, x).tasks == s.tasks,
        dec_root(s, x).tasks == s.tasks,
{
    law_epoch_is_its_fields(s.epoch);
    assert(inc_root(s, x).objs.dom() =~= s.objs.dom());
    assert(dec_root(s, x).objs.dom() =~= s.objs.dom());
}

/// When a root comes to lead elsewhere, its new target gains a root and its old one loses one. What
/// lost its last root while the collector traces is left to be marked, if it is white. Nothing else
/// changes.
pub proof fn law_swapped_roots_are_counted<T: TraceObj>(
    gc: Global<T>,
    l: int,
    cell: u64,
    from: u64,
    to: u64,
)
    requires
        cell < 0x8000_0000_0000_0000,
        from == address::<T>(cell),
        from != 0 ==> gc.abs().live(from) && gc.abs().objs[from].rc > 0,
        to != 0 ==> gc.abs().live(to),
    ensures
        ({
            let s = gc.abs();
            let t = cell_swapped(s, l, cell, to);
            let shades = cell_shades(s, l, cell, to);
            let last = from != 0 && to != from && s.objs[from].rc == 1 && s.epoch.data / 2 % 4 != 0
                && s.objs[from].color == s.epoch.white();
            &&& t.objs.dom() == s.objs.dom()
            &&& forall|x: u64| #[trigger]
                s.objs.contains_key(x) ==> {
                    &&& t.objs[x].rc == s.objs[x].rc + (if x == to && to != 0 {
                        1int
                    } else {
                        0
                    }) - (if x == from && from != 0 {
                        1int
                    } else {
                        0
                    })
                    &&& t.objs[x].links == s.objs[x].links
                    &&& t.objs[x].kinds == s.objs[x].kinds
                    &&& t.objs[x].tid == s.objs[x].tid
                    &&& t.objs[x].color == s.objs[x].color
                }
            &&& t.epoch == s.epoch
            &&& t.parts == s.parts
            &&& t.young == s.young
            &&& t.scanned == s.scanned
            &&& forall|x: u64| #[trigger]
                t.tasks.contains(x) <==> s.tasks.contains(x) || (x == from && last)
            &&& last ==> shades == seq![from]
            &&& !last ==> shades.len() == 0
        }),
{
    let s = gc.abs();
    law_epoch_is_its_fields(s.epoch);
    law_pointer_word_is_its_fields::<T>(cell);
    assert(cell_swapped(s, l, cell, to).objs.dom() =~= s.objs.dom());
}

/// When an edge comes to lead elsewhere, the objects stay. Where it is of the color that counts as
/// black for the participant, its new target is left to be marked, and otherwise, while the
/// collector traces, its old one is: in both cases unless that one is black, or the target stays
/// the same.
pub proof fn law_swapped_edges_are_shaded<T: TraceObj>(
    gc: Global<T>,
    l: int,
    cell: u64,
    from: u64,
    to: u64,
)
    requires
        0 <= l < gc.nodes().len(),
        cell >= 0x8000_0000_0000_0000,
        from == address::<T>(cell),
    ensures
        ({
            let s = gc.abs();
            let t = cell_swapped(s, l, cell, to);
            let shades = cell_shades(s, l, cell, to);
            let white = gc.local(l).epoch.white();
            let black_edge = (cell >= 0xc000_0000_0000_0000) != (white == Color::C1);
            let tracing = s.epoch.data / 2 % 4 != 0;
            let new = from != to && to != 0 && black_edge && s.objs[to].color == white;
            let old = from != to && from != 0 && !black_edge && tracing && s.objs[from].color
                == white;
            &&& t == (GcModel { tasks: t.tasks, ..s })
            &&& forall|x: u64| #[trigger]
                t.tasks.contains(x) <==> s.tasks.contains(x) || (x == to && new) || (x == from
                    && old)
            &&& new ==> shades == seq![to]
            &&& old ==> shades == seq![from]
            &&& !new && !old ==> shades.len() == 0
        }),
{
    let s = gc.abs();
    law_epoch_is_its_fields(s.epoch);
    law_pointer_word_is_its_fields::<T>(cell);
    let shades = cell_shades(s, l, cell, to);
    assert(shades =~= seq![to] || shades =~= seq![from] || shades.len() == 0);
    assert(s.parts[l].epoch == gc.local(l).epoch);
}

/// A word is a root that counts exactly if it says so, and leads nowhere or to an object that has a
/// root. One more root can be counted where the count is not at its greatest.
pub proof fn law_roots_that_count<T: TraceObj>(gc: Global<T>, w: u64, a: u64)
    requires
        a == address::<T>(w),
    ensures
        gc.rooted_ok(w) <==> w < 0x8000_0000_0000_0000 && (a != 0 ==> gc.heap.objs().contains_key(
            a,
        ) && gc.heap.objs()[a].rc > 0),
        gc.root_room(w) <==> (a != 0 ==> gc.heap.objs()[a].rc < 0x7f_ffff_ffff_ffff),
        gc.leads_somewhere(w) <==> (a != 0 ==> gc.heap.objs().contains_key(a)),
{
    law_pointer_word_is_its_fields::<T>(w);
}

/// What a pinned participant may use is there. It is still there, and may still be used, after
/// whatever keeps what is protected, for as long as the participant stays pinned where it was.
pub proof fn law_usable_objects_stay<T: TraceObj>(
    before: Global<T>,
    after: Global<T>,
    l: int,
    w: u64,
    a: u64,
)
    requires
        before.wf(),
        after.wf(),
        before.pinned(l),
        before.usable(l, w),
        keeps_protected(before.abs(), after.abs()),
        0 <= l < after.nodes().len(),
        after.local(l).epoch == before.local(l).epoch,
        a == address::<T>(w),
        a != 0,
    ensures
        before.heap.has(a),
        after.heap.has(a),
        after.usable(l, w),
{
    law_pointer_word_is_its_fields::<T>(w);
    assert(before.abs().parts[l].pinned());
    assert(before.abs().parts[l].epoch == before.local(l).epoch);
    assert(after.abs().parts[l].epoch == after.local(l).epoch);
    assert(before.abs().protected(l, a));
    assert(after.abs().protected(l, a));
    assert(before.heap.objs().contains_key(a));
    assert(after.heap.objs().contains_key(a));
}

/// What has a root may be used by whoever is pinned, and so may everything that is led to from what
/// may be used.
pub proof fn law_what_may_be_used<T: TraceObj>(gc: Global<T>, l: int, a: u64, i: int, w: u64)
    requires
        gc.wf(),
        gc.pinned(l),
        is_addr::<T>(a),
        gc.heap.objs().contains_key(a),
        gc.heap.objs()[a].rc > 0 || gc.usable(l, a),
        0 <= i < gc.heap.objs()[a].links.len(),
        w == gc.heap.objs()[a].links[i],
        a != 0,
    ensures
        gc.usable(l, a),
        gc.usable(l, w),
{
    let s = gc.abs();
    law_pointer_word_is_its_fields::<T>(a);
    assert(s.parts[l].pinned());
    if s.objs[a].rc > 0 {
        lemma_rooted_protected(s, l, a);
    }
    if addr_of::<T>(w) != 0 {
        assert(s.edge(a, addr_of::<T>(w)));
        crate::roots::lemma_protected_edge(s, l, a, addr_of::<T>(w));
    }
}

/// A pointer that is made a root of its object keeps the address and the tag.
pub proof fn law_rooted_words<T>(w: u64)
    ensures
        set_meta(w, PtrMeta::Rooted) % 0x4000_0000_0000_0000 == w % 0x4000_0000_0000_0000,
        set_meta(w, PtrMeta::Rooted) < 0x8000_0000_0000_0000,
        address::<T>(set_meta(w, PtrMeta::Rooted)) == address::<T>(w),
{
    law_words_with_other_fields::<T>(w, PtrMeta::Rooted, 0);
    law_pointer_word_is_its_fields::<T>(set_meta(w, PtrMeta::Rooted));
    law_pointer_word_is_its_fields::<T>(w);
    lemma_word::<T>(w);
}

/// What a pointer has to be so that it can be changed: where it is a root, it counts, and where it
/// is an edge, it leads to what the participant may use, and is white in a normal phase. A root that
/// comes to lead elsewhere can be counted there.
pub proof fn law_pointers_that_can_change<T: TraceObj>(gc: Global<T>, l: int, cell: u64, w: u64)
    ensures
        cell < 0x8000_0000_0000_0000 ==> (gc.cell_ok(l, cell) <==> gc.rooted_ok(cell)),
        cell >= 0x8000_0000_0000_0000 ==> (gc.cell_ok(l, cell) <==> gc.usable(l, cell) && (
        gc.epoch.data.data / 2 % 4 == 0 ==> (cell >= 0xc000_0000_0000_0000 <==> gc.epoch.data.data
            / 8 % 2 == 1))),
        gc.target_ok(l, cell, w) <==> gc.usable(l, w) && (cell < 0x8000_0000_0000_0000
            ==> gc.root_room(w)),
{
    law_pointer_word_is_its_fields::<T>(cell);
    law_epoch_is_its_fields(gc.epoch.data);
}

/// In a normal phase, whoever is pinned may use exactly what is white.
pub proof fn law_in_a_normal_phase_the_white_may_be_used<T: TraceObj>(
    gc: Global<T>,
    l: int,
    w: u64,
    a: u64,
)
    requires
        gc.epoch.data.data / 2 % 4 == 0,
        a == address::<T>(w),
    ensures
        gc.usable(l, w) <==> (a != 0 ==> gc.heap.has(a) && gc.heap.at(a).header.0.color()
            == gc.epoch.data.white()),
{
    law_epoch_is_its_fields(gc.epoch.data);
    law_pointer_word_is_its_fields::<T>(w);
    assert(gc.abs().objs.contains_key(a) == gc.heap.has(a));
}

/// A word that stops being a root releases the root that it was, if it leads anywhere. An object
/// that loses its last root is left to be marked while the collector traces, if it is white.
pub proof fn law_released_words<T: TraceObj>(gc: Global<T>, w: u64, a: u64)
    requires
        a == address::<T>(w),
    ensures
        a == 0 ==> word_released(gc.abs(), w) == gc.abs(),
        a != 0 ==> word_released(gc.abs(), w) == root_released(gc.abs(), a),
        ({
            let last = a != 0 && gc.abs().objs[a].rc == 1 && gc.epoch.data.data / 2 % 4 != 0
                && gc.abs().objs.contains_key(a) && gc.abs().objs[a].color
                == gc.epoch.data.white();
            &&& last ==> root_shades(gc.abs(), a) == seq![a]
            &&& !last ==> root_shades(gc.abs(), a).len() == 0
        }),
{
    law_pointer_word_is_its_fields::<T>(w);
    law_epoch_is_its_fields(gc.epoch.data);
}

/// Shading an object is due where it is white to the participant. It then is left to be marked, once
/// more than before, and otherwise nothing happens.
pub proof fn law_shading<T: TraceObj>(
    before: Global<T>,
    after: Global<T>,
    l: int,
    gid: u64,
    x: u64,
    due: bool,
)
    requires
        0 <= l < before.nodes().len(),
        after.shaded(before, l, gid, x, due),
    ensures
        before.shade_due(l, x) <==> x != 0 && before.abs().objs[x].color == before.local(
            l,
        ).epoch.white(),
        !due ==> after == before,
        due ==> after.local(l).mark_tasks.items() == before.local(l).mark_tasks.items().push(x),
        due ==> after.abs().objs == before.abs().objs,
        forall|c: Color, y: u64| #[trigger]
            shade_for(before.abs(), c, x).tasks.contains(y) <==> before.abs().tasks.contains(y) || (
            y == x && x != 0 && before.abs().objs[x].color != c),
{
    let items = before.local(l).mark_tasks.items();
    assert(items + seq![x] =~= items.push(x));
}

} // verus!
