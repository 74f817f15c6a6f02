//! The write barriers of managed pointers, as the proofs see them.

use crate::epoch::Color;
use crate::man_ptr::{meta_of, PtrMeta};
use crate::model::GcModel;
use crate::roots::{
    lemma_protected_rootable, lemma_root_released, lemma_same_white, lemma_shaded_kept,
    root_released,
};
use crate::steps::{
    add_task, edge_barriers, inc_root, keeps_protected, lemma_add_task, lemma_inc_root, lemma_set_edge,
    safe_step, set_edge,
};
use crate::trace::LinkKind;
use vstd::prelude::*;

verus! {

/// The object is scheduled, unless it is of the color that counts as black.
pub open spec fn shade_for(s: GcModel, black: Color, x: u64) -> GcModel {
    if x != 0 && s.objs[x].color != black {
        add_task(s, x)
    } else {
        s
    }
}

/// What is scheduled when an object is shaded.
pub open spec fn shades(s: GcModel, black: Color, x: u64) -> Seq<u64> {
    if x != 0 && s.objs[x].color != black {
        seq![x]
    } else {
        Seq::empty()
    }
}

/// What is scheduled when an edge is traced: what it leads to, unless the edge is black already.
pub open spec fn edge_shades(s: GcModel, black: Color, word: u64) -> Seq<u64> {
    if meta_of(word) == PtrMeta::Unrooted(black) {
        Seq::empty()
    } else {
        shades(s, black, s.addr(word))
    }
}

/// What is scheduled when edges are traced one after the other.
pub open spec fn all_shades(s: GcModel, black: Color, links: Seq<u64>) -> Seq<u64>
    decreases links.len(),
{
    if links.len() == 0 {
        Seq::empty()
    } else {
        all_shades(s, black, links.drop_last()) + edge_shades(s, black, links.last())
    }
}

/// What is scheduled when an object is marked: what it leads to and is not marked, unless the
/// object is marked already.
pub open spec fn mark_shades(s: GcModel, a: u64) -> Seq<u64> {
    if s.is_black(a) {
        Seq::empty()
    } else {
        all_shades(s, s.black(), s.objs[a].links)
    }
}

/// Before an edge of a black object comes to lead elsewhere, its new target is shaded.
pub open spec fn insertion_barrier(
    s: GcModel,
    black: Color,
    c: Color,
    before: u64,
    after: u64,
) -> GcModel {
    if before != after && c == black {
        shade_for(s, black, after)
    } else {
        s
    }
}

/// After an edge of a white object has come to lead elsewhere while the collector traces, its old
/// target is shaded.
pub open spec fn deletion_barrier(
    s: GcModel,
    black: Color,
    c: Color,
    before: u64,
    after: u64,
) -> GcModel {
    if before != after && c == black.flipped() && s.tracing() {
        shade_for(s, black, before)
    } else {
        s
    }
}

/// What the barrier before the change schedules.
pub open spec fn insertion_shades(
    s: GcModel,
    black: Color,
    c: Color,
    before: u64,
    after: u64,
) -> Seq<u64> {
    if before != after && c == black {
        shades(s, black, after)
    } else {
        Seq::empty()
    }
}

/// What the barrier after the change schedules.
pub open spec fn deletion_shades(
    s: GcModel,
    black: Color,
    c: Color,
    before: u64,
    after: u64,
) -> Seq<u64> {
    if before != after && c == black.flipped() && s.tracing() {
        shades(s, black, before)
    } else {
        Seq::empty()
    }
}

/// What both barriers schedule.
pub open spec fn swap_shades(
    s: GcModel,
    black: Color,
    c: Color,
    before: u64,
    after: u64,
) -> Seq<u64> {
    insertion_shades(s, black, c, before, after) + deletion_shades(s, black, c, before, after)
}

/// What is scheduled when a root of an object is released: the object, if it was the last root
/// and the collector traces and has yet to mark it.
pub open spec fn root_shades(s: GcModel, x: u64) -> Seq<u64> {
    if x != 0 && s.tracing() && s.objs[x].rc == 1 && s.is_white(x) {
        seq![x]
    } else {
        Seq::empty()
    }
}

/// Both barriers.
pub open spec fn edge_swapped(s: GcModel, black: Color, c: Color, before: u64, after: u64) -> GcModel {
    deletion_barrier(insertion_barrier(s, black, c, before, after), black, c, before, after)
}

/// A root comes to lead elsewhere: its new target gains a root and its old one loses one.
pub open spec fn root_swapped(s: GcModel, before: u64, after: u64) -> GcModel {
    let t = if after != 0 {
        inc_root(s, after)
    } else {
        s
    };
    if before != 0 {
        root_released(t, before)
    } else {
        t
    }
}

/// The word leads nowhere, or to what a pinned participant may use.
pub open spec fn usable_in(s: GcModel, l: int, a: u64) -> bool {
    a != 0 ==> s.protected(l, a)
}

/// The color of an edge that a pinned participant may change.
pub open spec fn edge_color_ok(s: GcModel, c: Color) -> bool {
    !s.tracing() ==> c == s.white()
}

/// Only tasks are added by barriers, and what they add is live.
proof fn lemma_shade_for(s: GcModel, black: Color, x: u64)
    requires
        s.sound(),
        s.tracing(),
        black == s.black(),
        x != 0 ==> s.live(x),
    ensures
        safe_step(s, shade_for(s, black, x)),
        x != 0 ==> shade_for(s, black, x).shaded(x),
        forall|y: u64| #[trigger] s.kept(y) ==> shade_for(s, black, x).kept(y),
        forall|y: u64| #[trigger] s.shaded(y) ==> shade_for(s, black, x).shaded(y),
{
    if x != 0 && s.objs[x].color != black {
        lemma_add_task(s, x);
    }
}

/// The barriers for a change of an edge are a safe step, and do what the change of the edge
/// needs.
pub proof fn lemma_edge_swapped(s: GcModel, l: int, c: Color, before: u64, after: u64)
    requires
        s.sound(),
        0 <= l < s.parts.len(),
        s.parts[l].pinned(),
        usable_in(s, l, before),
        usable_in(s, l, after),
        edge_color_ok(s, c),
    ensures
        ({
            let black = s.parts[l].epoch.white().flipped();
            let t = edge_swapped(s, black, c, before, after);
            &&& safe_step(s, t)
            &&& t.objs == s.objs
            &&& t.epoch == s.epoch
            &&& t.parts == s.parts
            &&& t.young == s.young
            &&& t.scanned == s.scanned
            &&& s.tracing() && c == s.black() && after != 0 && before != after ==> t.kept(after)
            &&& s.tracing() && c == s.white() && before != 0 && before != after ==> t.shaded(before)
            &&& !s.tracing() ==> t == s
            &&& usable_in(t, l, before)
            &&& usable_in(t, l, after)
        }),
{
    let black = s.parts[l].epoch.white().flipped();
    let t = insertion_barrier(s, black, c, before, after);
    let u = edge_swapped(s, black, c, before, after);
    lemma_same_white(s, l);
    if s.tracing() {
        lemma_shade_for(s, black, after);
        assert(t.sound());
        lemma_shade_for(t, black, before);
        if c == s.black() && after != 0 && before != after {
            lemma_shaded_kept(t, after);
        }
    }
    assert(usable_in(t, l, before) && usable_in(t, l, after));
    assert(usable_in(u, l, before) && usable_in(u, l, after));
}

/// A change of an edge of an object that a pinned participant may use, after its barriers, is a
/// safe step.
pub proof fn lemma_edge_changed(s: GcModel, l: int, x: u64, i: int, word: u64)
    requires
        s.sound(),
        0 <= l < s.parts.len(),
        s.parts[l].pinned(),
        s.protected(l, x),
        0 <= i < s.objs[x].links.len(),
        meta_of(word) == PtrMeta::Unrooted(s.objs[x].color),
        usable_in(s, l, s.addr(word)),
        s.objs[x].kinds[i] != LinkKind::Nullable ==> s.addr(word) != 0,
    ensures
        ({
            let black = s.parts[l].epoch.white().flipped();
            let c = s.objs[x].color;
            let before = s.addr(s.objs[x].links[i]);
            let t = edge_swapped(s, black, c, before, s.addr(word));
            &&& edge_color_ok(s, c)
            &&& usable_in(s, l, before)
            &&& meta_of(s.objs[x].links[i]) == PtrMeta::Unrooted(c)
            &&& safe_step(s, set_edge(t, x, i, word))
        }),
{
    let black = s.parts[l].epoch.white().flipped();
    let c = s.objs[x].color;
    let before = s.addr(s.objs[x].links[i]);
    let after = s.addr(word);
    let t = edge_swapped(s, black, c, before, after);
    if before != 0 {
        assert(s.edge(x, before));
        crate::roots::lemma_protected_edge(s, l, x, before);
    }
    lemma_edge_swapped(s, l, c, before, after);
    if t.tracing() && t.is_black(x) && after != 0 && before == after {
        assert(t.edge(x, after));
    }
    assert(edge_barriers(t, x, i, word));
    lemma_set_edge(t, x, i, word);
}

/// A change of a root is a safe step.
pub proof fn lemma_root_swapped(s: GcModel, l: int, before: u64, after: u64)
    requires
        s.sound(),
        0 <= l < s.parts.len(),
        s.parts[l].pinned(),
        usable_in(s, l, after),
        before != 0 ==> s.live(before) && s.objs[before].rc > 0,
    ensures
        safe_step(s, root_swapped(s, before, after)),
        ({
            let t = if after != 0 {
                inc_root(s, after)
            } else {
                s
            };
            &&& t.sound()
            &&& keeps_protected(s, t)
            &&& before != 0 ==> t.live(before) && t.objs[before].rc > 0
        }),
{
    let t = if after != 0 {
        inc_root(s, after)
    } else {
        s
    };
    if after != 0 {
        lemma_protected_rootable(s, l, after);
        lemma_inc_root(s, after);
    }
    if before != 0 {
        lemma_root_released(t, before);
    }
}

} // verus!
