//! The steps that the collector and its participants take, and the proof that each keeps the
//! state sound and takes nothing away from a pinned participant.

use crate::epoch::{Color, Epoch, Phase};
use crate::man_ptr::{addr_in, clear_meta, lemma_meta, meta_of, set_meta, PtrMeta};
use crate::model::{
    edge_in, lemma_kept_mono, lemma_reach_source, lemma_reach_step, lemma_two_colors, GcModel,
    ObjModel, PartModel,
};
use crate::trace::LinkKind;
use vstd::multiset::Multiset;
use vstd::prelude::*;

verus! {

/// Whoever stays pinned may go on using whatever was protected.
pub open spec fn keeps_protected(s: GcModel, t: GcModel) -> bool {
    &&& s.parts.len() <= t.parts.len()
    &&& forall|l: int, x: u64|
        0 <= l < s.parts.len() && s.parts[l].pinned() && t.parts[l].epoch == s.parts[l].epoch
            && #[trigger] s.protected(l, x) ==> t.protected(l, x)
}

/// The step leaves the state sound and whoever stays pinned what was protected.
pub open spec fn safe_step(s: GcModel, t: GcModel) -> bool {
    t.sound() && keeps_protected(s, t)
}

// ---- Tasks ----

/// One more object is scheduled to be marked.
pub open spec fn add_task(s: GcModel, x: u64) -> GcModel {
    GcModel { tasks: s.tasks.insert(x), ..s }
}

pub proof fn lemma_add_task(s: GcModel, x: u64)
    requires
        s.sound(),
        s.tracing(),
        s.live(x),
    ensures
        safe_step(s, add_task(s, x)),
        forall|y: u64| #[trigger] s.kept(y) ==> add_task(s, x).kept(y),
{
    let t = add_task(s, x);
    lemma_same_graph(s, t);
}

/// A step that keeps objects, lists and sources, and may add sources.
proof fn lemma_same_graph(s: GcModel, t: GcModel)
    requires
        t.low == s.low,
        t.epoch == s.epoch,
        t.objs == s.objs,
        t.young == s.young,
        forall|x: u64| #[trigger] s.tasks.contains(x) ==> t.tasks.contains(x),
    ensures
        forall|x: u64| #[trigger] s.kept(x) ==> t.kept(x),
{
    assert forall|x: u64| #[trigger] s.is_white(x) && s.source(x) implies t.kept(x) by {
        lemma_reach_source(t, x);
    }
    assert forall|x: u64, y: u64| #[trigger]
        s.edge(x, y) && s.is_white(x) && s.is_white(y) && t.kept(x) implies t.kept(y) by {
        assert(t.edge(x, y));
        lemma_reach_step(t, x, y);
    }
    lemma_kept_mono(s, t);
}

// ---- Marking ----

/// The edges of an object in another color.
pub open spec fn recolor(links: Seq<u64>, c: Color) -> Seq<u64> {
    Seq::new(links.len(), |i: int| set_meta(links[i], PtrMeta::Unrooted(c)))
}

/// An object is marked: it and its edges turn black.
pub open spec fn mark_obj(s: GcModel, x: u64, tasks: Set<u64>) -> GcModel {
    let o = s.objs[x];
    GcModel {
        objs: s.objs.insert(
            x,
            ObjModel { color: s.black(), links: recolor(o.links, s.black()), ..o },
        ),
        tasks,
        ..s
    }
}

/// The tasks after an object was marked: what it has edges to is scheduled, unless it is black,
/// and no task is lost but its own.
pub open spec fn tasks_after_mark(s: GcModel, x: u64, tasks: Set<u64>) -> bool {
    &&& forall|y: u64| #[trigger] tasks.contains(y) ==> s.live(y)
    &&& forall|y: u64| #[trigger] s.tasks.contains(y) && y != x ==> tasks.contains(y)
    &&& s.is_white(x) ==> forall|y: u64| #[trigger]
        s.edge(x, y) && s.is_white(y) && y != x ==> tasks.contains(y)
}

/// Only words change when edges are recolored, not where they lead.
pub proof fn lemma_recolor(low: u64, links: Seq<u64>, c: Color)
    ensures
        recolor(links, c).len() == links.len(),
        forall|i: int|
            #![trigger recolor(links, c)[i]]
            0 <= i < links.len() ==> addr_in(low, recolor(links, c)[i]) == addr_in(low, links[i]) && meta_of(
                recolor(links, c)[i],
            ) == PtrMeta::Unrooted(c),
{
    assert forall|i: int|
        #![trigger recolor(links, c)[i]]
        0 <= i < links.len() implies addr_in(low, recolor(links, c)[i]) == addr_in(low, links[i]) && meta_of(
        recolor(links, c)[i],
    ) == PtrMeta::Unrooted(c) by {
        lemma_meta(low, links[i]);
        assert(recolor(links, c)[i] == set_meta(links[i], PtrMeta::Unrooted(c)));
    }
}

pub proof fn lemma_mark_edges(s: GcModel, x: u64, tasks: Set<u64>)
    requires
        s.live(x),
    ensures
        forall|y: u64, z: u64| #[trigger]
            mark_obj(s, x, tasks).edge(y, z) == s.edge(y, z),
{
    let t = mark_obj(s, x, tasks);
    lemma_recolor(s.low, s.objs[x].links, s.black());
    assert forall|y: u64, z: u64| #[trigger] t.edge(y, z) == s.edge(y, z) by {
        if y == x {
            if t.edge(x, z) {
                let i = choose|i: int|
                    0 <= i < t.objs[x].links.len() && s.addr(#[trigger] t.objs[x].links[i]) == z;
                assert(s.addr(s.objs[x].links[i]) == z);
            }
            if s.edge(x, z) {
                let i = choose|i: int|
                    0 <= i < s.objs[x].links.len() && s.addr(#[trigger] s.objs[x].links[i]) == z;
                assert(s.addr(t.objs[x].links[i]) == z);
            }
        }
    }
}

pub proof fn lemma_mark_obj(s: GcModel, x: u64, tasks: Set<u64>)
    requires
        s.sound(),
        s.tracing(),
        s.live(x),
        tasks_after_mark(s, x, tasks),
    ensures
        safe_step(s, mark_obj(s, x, tasks)),
        forall|y: u64| #[trigger] s.kept(y) ==> mark_obj(s, x, tasks).kept(y),
        mark_obj(s, x, tasks).is_black(x),
{
    let t = mark_obj(s, x, tasks);
    lemma_mark_edges(s, x, tasks);
    lemma_recolor(s.low, s.objs[x].links, s.black());
    assert forall|y: u64| #[trigger] s.live(y) implies t.live(y) by {}
    assert forall|y: u64| #[trigger] s.is_white(y) && s.source(y) implies t.kept(y) by {
        if y != x {
            lemma_reach_source(t, y);
        }
    }
    assert forall|y: u64, z: u64| #[trigger]
        s.edge(y, z) && s.is_white(y) && s.is_white(z) && t.kept(y) implies t.kept(z) by {
        assert(t.edge(y, z));
        if z != x {
            if y == x {
                assert(tasks.contains(z));
                lemma_reach_source(t, z);
            } else {
                lemma_reach_step(t, y, z);
            }
        }
    }
    lemma_kept_mono(s, t);
    assert forall|y: u64, z: u64| #[trigger] t.edge(y, z) && t.is_black(y) implies t.kept(z) by {
        assert(s.edge(y, z));
        assert(s.live(z));
        if y == x && s.is_white(x) && z != x {
            lemma_two_colors(s, z);
            if s.is_white(z) {
                assert(tasks.contains(z));
                lemma_reach_source(t, z);
            }
        }
        if y == x && s.is_black(x) {
            assert(s.kept(z));
        }
    }
    assert(t.colors_ok());
    assert(t.lists_ok()) by {
        assert forall|y: u64|
            #![trigger t.objs.contains_key(y)]
            t.young[0].count(y) + t.young[1].count(y) + t.scanned[0].count(y)
                + t.scanned[1].count(y) == (if t.live(y) {
                1nat
            } else {
                0nat
            }) by {
            assert(s.live(y) == t.live(y));
        }
    }
    assert forall|y: u64|
        #![trigger t.objs.contains_key(y)]
        t.live(y) && t.objs[y].rc > 0 implies t.kept(y) by {
        assert(s.live(y));
    }
    assert forall|y: u64|
        #![trigger t.objs.contains_key(y)]
        t.live(y) && t.young_of(t.black()).count(y) > 0 implies t.is_black(y) by {
        assert(s.live(y));
    }
    assert(t.parts_ok());
    assert(t.tracing_ok());
}

/// The objects have the same roots, and their edges lead to the same objects with the same tags.
pub open spec fn same_shape(s: GcModel, t: GcModel) -> bool {
    &&& t.low == s.low
    &&& forall|x: u64| #[trigger] t.objs.contains_key(x) == s.live(x)
    &&& forall|x: u64| #[trigger]
        t.objs.contains_key(x) ==> t.objs[x].rc == s.objs[x].rc && t.objs[x].tid == s.objs[x].tid
            && t.objs[x].kinds == s.objs[x].kinds
            && t.objs[x].links.len() == s.objs[x].links.len()
    &&& forall|x: u64, i: int|
        #![trigger t.objs[x].links[i]]
        t.objs.contains_key(x) && 0 <= i < t.objs[x].links.len() ==> clear_meta(
            t.objs[x].links[i],
        ) == clear_meta(s.objs[x].links[i])
}

/// The objects that are left were there before, with the same roots, and their edges lead to the
/// same objects with the same tags.
pub open spec fn surviving(s: GcModel, t: GcModel) -> bool {
    &&& t.low == s.low
    &&& forall|x: u64| #[trigger] t.objs.contains_key(x) ==> s.live(x)
    &&& forall|x: u64| #[trigger]
        t.objs.contains_key(x) ==> t.objs[x].rc == s.objs[x].rc && t.objs[x].tid == s.objs[x].tid
            && t.objs[x].kinds == s.objs[x].kinds
            && t.objs[x].links.len() == s.objs[x].links.len()
    &&& forall|x: u64, i: int|
        #![trigger t.objs[x].links[i]]
        t.objs.contains_key(x) && 0 <= i < t.objs[x].links.len() ==> clear_meta(
            t.objs[x].links[i],
        ) == clear_meta(s.objs[x].links[i])
}

pub proof fn lemma_surviving_on(s: GcModel, t: GcModel, u: GcModel)
    requires
        surviving(s, t),
        surviving(t, u),
    ensures
        surviving(s, u),
{
    assert forall|x: u64, i: int|
        #![trigger u.objs[x].links[i]]
        u.objs.contains_key(x) && 0 <= i < u.objs[x].links.len() implies clear_meta(
        u.objs[x].links[i],
    ) == clear_meta(s.objs[x].links[i]) by {
        assert(t.objs.contains_key(x));
        assert(clear_meta(t.objs[x].links[i]) == clear_meta(s.objs[x].links[i]));
    }
    assert forall|x: u64| #[trigger] u.objs.contains_key(x) implies s.live(x) && u.objs[x].rc
        == s.objs[x].rc && u.objs[x].tid == s.objs[x].tid && u.objs[x].kinds == s.objs[x].kinds && u.objs[x].links.len()
        == s.objs[x].links.len() by {
        assert(t.objs.contains_key(x));
    }
}

/// Marking keeps the shape of the heap.
pub proof fn lemma_mark_shape(s: GcModel, x: u64, tasks: Set<u64>)
    requires
        s.live(x),
    ensures
        same_shape(s, mark_obj(s, x, tasks)),
{
    let t = mark_obj(s, x, tasks);
    let links = s.objs[x].links;
    assert forall|y: u64, i: int|
        #![trigger t.objs[y].links[i]]
        t.objs.contains_key(y) && 0 <= i < t.objs[y].links.len() implies clear_meta(
        t.objs[y].links[i],
    ) == clear_meta(s.objs[y].links[i]) by {
        if y == x {
            lemma_meta(s.low, links[i]);
            assert(t.objs[y].links[i] == set_meta(links[i], PtrMeta::Unrooted(s.black())));
        }
    }
}

pub proof fn lemma_shape_on(s: GcModel, t: GcModel, u: GcModel)
    requires
        same_shape(s, t),
        same_shape(t, u),
    ensures
        same_shape(s, u),
{
    assert forall|x: u64, i: int|
        #![trigger u.objs[x].links[i]]
        u.objs.contains_key(x) && 0 <= i < u.objs[x].links.len() implies clear_meta(
        u.objs[x].links[i],
    ) == clear_meta(s.objs[x].links[i]) by {
        assert(t.objs.contains_key(x));
        assert(clear_meta(t.objs[x].links[i]) == clear_meta(s.objs[x].links[i]));
    }
    assert forall|x: u64| #[trigger] u.objs.contains_key(x) == s.live(x) by {
        assert(t.objs.contains_key(x) == s.live(x));
    }
    assert forall|x: u64| #[trigger] u.objs.contains_key(x) implies u.objs[x].rc == s.objs[x].rc
        && u.objs[x].tid == s.objs[x].tid && u.objs[x].kinds == s.objs[x].kinds && u.objs[x].links.len() == s.objs[x].links.len() by {
        assert(t.objs.contains_key(x));
    }
}

// ---- Scanning ----

/// A batch of objects has been looked at.
pub open spec fn scan_batch(s: GcModel, m: Multiset<u64>) -> GcModel {
    let w = s.white().code() as int;
    GcModel {
        young: s.young.update(w, s.young[w].sub(m)),
        scanned: s.scanned.update(w, s.scanned[w].add(m)),
        ..s
    }
}

/// The scan has dealt with the object: it is black, or it has no roots and no participant that
/// has yet to observe the phase protects it.
pub open spec fn scan_done(s: GcModel, x: u64) -> bool {
    ||| s.is_black(x)
    ||| s.live(x) && s.objs[x].rc == 0 && forall|l: int|
        0 <= l < s.parts.len() && s.unobserved(#[trigger] s.parts[l])
            ==> !s.parts[l].hazards.contains(x)
}

pub proof fn lemma_scan_batch(s: GcModel, m: Multiset<u64>)
    requires
        s.sound(),
        s.epoch.ph() == Phase::RT,
        s.synced(),
        m.subset_of(s.young_of(s.white())),
        forall|x: u64| #[trigger] m.count(x) > 0 ==> scan_done(s, x),
    ensures
        safe_step(s, scan_batch(s, m)),
        forall|y: u64| #[trigger] s.kept(y) ==> scan_batch(s, m).kept(y),
{
    let t = scan_batch(s, m);
    let w = s.white().code() as int;
    assert forall|x: u64| #[trigger] t.young[w].count(x) == s.young[w].count(x) - m.count(x) by {
        assert(m.count(x) <= s.young[w].count(x));
    }
    assert forall|x: u64| #[trigger] t.scanned[w].count(x) == s.scanned[w].count(x) + m.count(
        x,
    ) by {}
    assert forall|x: u64| #[trigger] s.is_white(x) && s.source(x) implies t.kept(x) by {
        assert(m.count(x) > 0 ==> scan_done(s, x));
        lemma_reach_source(t, x);
    }
    assert forall|x: u64, y: u64| #[trigger]
        s.edge(x, y) && s.is_white(x) && s.is_white(y) && t.kept(x) implies t.kept(y) by {
        lemma_reach_step(t, x, y);
    }
    lemma_kept_mono(s, t);
    assert(t.lists_ok());
    assert forall|l: int, x: u64|
        0 <= l < t.parts.len() && #[trigger] t.parts[l].hazards.contains(x) implies t.live(x)
        && if t.unobserved(t.parts[l]) {
        t.is_black(x) || t.young_of(t.white()).count(x) > 0
    } else {
        t.kept(x)
    } by {
        assert(s.parts[l].hazards.contains(x));
        if s.unobserved(s.parts[l]) && m.count(x) > 0 {
            assert(scan_done(s, x));
        }
    }
    assert(t.synced());
    assert forall|k: int| 0 <= k < t.parts.len() implies t.cached_ok(
        (#[trigger] t.parts[k]).cached,
    ) by {
        assert(s.cached_ok(s.parts[k].cached));
        assert forall|h: Set<u64>| s.covers(h) implies t.covers(h) by {}
    }
    assert(t.tracing_ok());
}

// ---- Root counts ----

/// The object with another root count.
pub open spec fn set_rc(s: GcModel, x: u64, rc: nat) -> GcModel {
    GcModel { objs: s.objs.insert(x, ObjModel { rc, ..s.objs[x] }), ..s }
}

/// One more root.
pub open spec fn inc_root(s: GcModel, x: u64) -> GcModel {
    set_rc(s, x, s.objs[x].rc + 1)
}

/// One root less.
pub open spec fn dec_root(s: GcModel, x: u64) -> GcModel {
    set_rc(s, x, (s.objs[x].rc - 1) as nat)
}

proof fn lemma_rc_edges(s: GcModel, x: u64, rc: nat)
    requires
        s.live(x),
    ensures
        forall|y: u64, z: u64| #[trigger] edge_in(set_rc(s, x, rc).objs, s.low, y, z) == s.edge(y, z),
{
    let t = set_rc(s, x, rc);
    assert forall|y: u64, z: u64| #[trigger] t.edge(y, z) == s.edge(y, z) by {
        if y == x {
            assert(t.objs[x].links == s.objs[x].links);
        }
    }
}

/// A root count changes, and what it was a source for is kept.
proof fn lemma_set_rc(s: GcModel, x: u64, rc: nat)
    requires
        s.sound(),
        s.live(x),
        s.tracing() ==> (rc > 0 ==> s.rootable(x)) && (rc == 0 && s.objs[x].rc > 0 ==> s.shaded(x)),
        !s.tracing() ==> (rc > 0 ==> s.is_white(x)),
    ensures
        safe_step(s, set_rc(s, x, rc)),
        s.tracing() ==> forall|y: u64| #[trigger] s.kept(y) ==> set_rc(s, x, rc).kept(y),
{
    let t = set_rc(s, x, rc);
    lemma_rc_edges(s, x, rc);
    assert(t.lists_ok());
    assert(t.colors_ok());
    assert(t.parts_ok());
    if s.tracing() {
        assert forall|y: u64| #[trigger] s.is_white(y) && s.source(y) implies t.kept(y) by {
            lemma_reach_source(t, y);
        }
        assert forall|y: u64, z: u64| #[trigger]
            s.edge(y, z) && s.is_white(y) && s.is_white(z) && t.kept(y) implies t.kept(z) by {
            assert(t.edge(y, z));
            lemma_reach_step(t, y, z);
        }
        lemma_kept_mono(s, t);
        if rc > 0 {
            lemma_two_colors(s, x);
            if !s.kept(x) {
                lemma_reach_source(t, x);
            }
            assert(t.kept(x));
        }
        assert(t.tracing_ok());
    } else {
        assert(t.normal_ok());
    }
}

pub proof fn lemma_inc_root(s: GcModel, x: u64)
    requires
        s.sound(),
        s.rootable(x),
    ensures
        safe_step(s, inc_root(s, x)),
        s.tracing() ==> forall|y: u64| #[trigger] s.kept(y) ==> inc_root(s, x).kept(y),
{
    lemma_set_rc(s, x, s.objs[x].rc + 1);
}

pub proof fn lemma_dec_root(s: GcModel, x: u64)
    requires
        s.sound(),
        s.live(x),
        s.objs[x].rc > 0,
        s.tracing() && s.objs[x].rc == 1 ==> s.shaded(x),
    ensures
        safe_step(s, dec_root(s, x)),
        s.tracing() ==> forall|y: u64| #[trigger] s.kept(y) ==> dec_root(s, x).kept(y),
{
    assert(s.rootable(x));
    lemma_set_rc(s, x, (s.objs[x].rc - 1) as nat);
}

// ---- Edges ----

/// An edge of an object leads elsewhere.
pub open spec fn set_edge(s: GcModel, x: u64, i: int, word: u64) -> GcModel {
    let o = s.objs[x];
    GcModel { objs: s.objs.insert(x, ObjModel { links: o.links.update(i, word), ..o }), ..s }
}

/// The barriers for a change of an edge have run.
pub open spec fn edge_barriers(s: GcModel, x: u64, i: int, word: u64) -> bool {
    let before = s.addr(s.objs[x].links[i]);
    let after = s.addr(word);
    &&& meta_of(word) == PtrMeta::Unrooted(s.objs[x].color)
    &&& s.objs[x].kinds[i] != LinkKind::Nullable ==> after != 0
    &&& after != 0 ==> s.live(after)
    &&& s.tracing() && s.is_black(x) && after != 0 ==> s.kept(after)
    &&& s.tracing() && s.is_white(x) && before != 0 && before != after ==> s.shaded(before)
    &&& !s.tracing() && s.is_white(x) && after != 0 ==> s.is_white(after)
}

pub proof fn lemma_set_edge(s: GcModel, x: u64, i: int, word: u64)
    requires
        s.sound(),
        s.live(x),
        0 <= i < s.objs[x].links.len(),
        edge_barriers(s, x, i, word),
    ensures
        safe_step(s, set_edge(s, x, i, word)),
        s.tracing() ==> forall|y: u64| #[trigger] s.kept(y) ==> set_edge(s, x, i, word).kept(y),
{
    let t = set_edge(s, x, i, word);
    let before = s.addr(s.objs[x].links[i]);
    let after = s.addr(word);
    assert forall|y: u64, z: u64| #[trigger] s.edge(y, z) implies t.edge(y, z) || (y == x && z
        == before && before != after) by {
        if y == x {
            let j = choose|j: int|
                0 <= j < s.objs[x].links.len() && s.addr(#[trigger] s.objs[x].links[j]) == z;
            if j != i {
                assert(t.objs[x].links[j] == s.objs[x].links[j]);
                assert(t.edge(y, z));
            } else if before == after {
                assert(s.addr(t.objs[x].links[i]) == z);
                assert(t.edge(y, z));
            }
        }
    }
    assert forall|y: u64, z: u64| #[trigger] t.edge(y, z) implies s.edge(y, z) || (y == x && z
        == after) by {
        if y == x {
            let j = choose|j: int|
                0 <= j < t.objs[x].links.len() && s.addr(#[trigger] t.objs[x].links[j]) == z;
            if j != i {
                assert(t.objs[x].links[j] == s.objs[x].links[j]);
                assert(s.edge(y, z));
            }
        }
    }
    assert(t.lists_ok());
    assert(t.colors_ok()) by {
        assert forall|y: u64, j: int|
            #![trigger t.objs[y].links[j]]
            t.live(y) && 0 <= j < t.objs[y].links.len() implies meta_of(t.objs[y].links[j])
            == PtrMeta::Unrooted(t.objs[y].color) by {
            if y == x {
                if j != i {
                    assert(t.objs[y].links[j] == s.objs[y].links[j]);
                }
            } else {
                assert(t.objs[y].links[j] == s.objs[y].links[j]);
            }
        }
    }
    assert(t.parts_ok());
    if s.tracing() {
        assert forall|y: u64| #[trigger] s.is_white(y) && s.source(y) implies t.kept(y) by {
            lemma_reach_source(t, y);
        }
        assert forall|y: u64, z: u64| #[trigger]
            s.edge(y, z) && s.is_white(y) && s.is_white(z) && t.kept(y) implies t.kept(z) by {
            if t.edge(y, z) {
                lemma_reach_step(t, y, z);
            } else {
                lemma_reach_source(t, z);
            }
        }
        lemma_kept_mono(s, t);
        assert(t.tracing_ok());
    } else {
        assert(t.normal_ok());
    }
}

// ---- Allocation ----

/// A new object.
pub open spec fn alloc_obj(s: GcModel, x: u64, o: ObjModel) -> GcModel {
    let c = o.color.code() as int;
    GcModel { objs: s.objs.insert(x, o), young: s.young.update(c, s.young[c].insert(x)), ..s }
}

/// The object can be added: its edges have its color and lead to objects that a pinned
/// participant allocating in that color may use.
pub open spec fn alloc_ok(s: GcModel, x: u64, o: ObjModel) -> bool {
    &&& !s.live(x)
    &&& o.kinds.len() == o.links.len()
    &&& forall|i: int|
        0 <= i < o.links.len() && o.kinds[i] != LinkKind::Nullable ==> s.addr(
            #[trigger] o.links[i],
        ) != 0
    &&& forall|i: int|
        0 <= i < o.links.len() ==> meta_of(#[trigger] o.links[i]) == PtrMeta::Unrooted(o.color)
    &&& forall|i: int|
        0 <= i < o.links.len() && s.addr(#[trigger] o.links[i]) != 0 ==> {
            let y = s.addr(o.links[i]);
            &&& s.live(y)
            &&& s.tracing() && o.color == s.black() ==> s.kept(y)
            &&& !s.tracing() ==> s.is_white(y)
        }
    &&& !s.tracing() ==> o.color == s.white()
    &&& s.epoch.ph() == Phase::CT ==> o.color == s.black()
}

pub proof fn lemma_alloc_obj(s: GcModel, x: u64, o: ObjModel)
    requires
        s.sound(),
        alloc_ok(s, x, o),
    ensures
        safe_step(s, alloc_obj(s, x, o)),
        s.tracing() ==> forall|y: u64| #[trigger] s.kept(y) ==> alloc_obj(s, x, o).kept(y),
{
    let t = alloc_obj(s, x, o);
    let c = o.color.code() as int;
    assert forall|y: u64, z: u64| #[trigger] s.edge(y, z) implies t.edge(y, z) && y != x by {
        assert(t.objs[y] == s.objs[y]);
    }
    assert forall|y: u64, z: u64| #[trigger] t.edge(y, z) implies s.edge(y, z) || (y == x && exists|
        i: int,
    |
        0 <= i < o.links.len() && s.addr(#[trigger] o.links[i]) == z) by {
        if y != x {
            assert(t.objs[y] == s.objs[y]);
        }
    }
    assert(!s.live(x) && s.lists_ok());
    assert forall|y: u64| #[trigger] t.young[c].count(y) == s.young[c].count(y) + (if y == x {
        1nat
    } else {
        0
    }) by {}
    assert(t.lists_ok()) by {
        assert forall|y: u64|
            #![trigger t.objs.contains_key(y)]
            t.young[0].count(y) + t.young[1].count(y) + t.scanned[0].count(y)
                + t.scanned[1].count(y) == (if t.live(y) {
                1nat
            } else {
                0nat
            }) by {
            assert(s.objs.contains_key(y) || y == x || !t.objs.contains_key(y));
            assert(s.objs.contains_key(y) || true);
        }
    }
    assert(t.colors_ok()) by {
        assert forall|y: u64, j: int|
            #![trigger t.objs[y].links[j]]
            t.live(y) && 0 <= j < t.objs[y].links.len() implies meta_of(t.objs[y].links[j])
            == PtrMeta::Unrooted(t.objs[y].color) by {
            if y != x {
                assert(t.objs[y].links[j] == s.objs[y].links[j]);
            }
        }
    }
    assert(t.parts_ok());
    if s.tracing() {
        assert forall|y: u64| #[trigger] s.is_white(y) && s.source(y) implies t.kept(y) by {
            lemma_reach_source(t, y);
        }
        assert forall|y: u64, z: u64| #[trigger]
            s.edge(y, z) && s.is_white(y) && s.is_white(z) && t.kept(y) implies t.kept(z) by {
            lemma_reach_step(t, y, z);
        }
        lemma_kept_mono(s, t);
        if o.color == s.white() && o.rc > 0 {
            lemma_reach_source(t, x);
        }
        assert forall|y: u64, z: u64| #[trigger] t.edge(y, z) implies t.live(z) && (t.is_black(y)
            ==> t.kept(z)) by {
            if s.edge(y, z) {
                assert(s.live(z));
            } else {
                let i = choose|i: int| 0 <= i < o.links.len() && s.addr(#[trigger] o.links[i]) == z;
                assert(s.live(z));
            }
        }
        assert(t.tracing_ok());
    } else {
        assert(t.young_of(t.black()) =~= s.young_of(s.black()));
        assert(t.normal_ok());
    }
}

// ---- Participants ----

/// A participant changes.
pub open spec fn set_part(s: GcModel, l: int, p: PartModel) -> GcModel {
    GcModel { parts: s.parts.update(l, p), ..s }
}

/// The participant pins itself at the global epoch.
pub open spec fn pin_part(s: GcModel, l: int) -> GcModel {
    set_part(s, l, PartModel { epoch: s.epoch.pin_of(), observed: s.epoch.ts(), ..s.parts[l] })
}

/// The participant unpins itself.
pub open spec fn unpin_part(s: GcModel, l: int, e: Epoch) -> GcModel {
    set_part(s, l, PartModel { epoch: e, ..s.parts[l] })
}

/// The hazard pointers of a participant change.
pub open spec fn set_hazards(s: GcModel, l: int, h: Set<u64>) -> GcModel {
    set_part(s, l, PartModel { hazards: h, ..s.parts[l] })
}

/// The participant keeps the hazards it has collected.
pub open spec fn set_cached(s: GcModel, l: int, h: Set<u64>, e: Epoch) -> GcModel {
    set_part(s, l, PartModel { cached: Some((h, e)), ..s.parts[l] })
}

/// What tracing keeps does not depend on the participants.
pub proof fn lemma_parts_frame(s: GcModel, t: GcModel)
    requires
        t.low == s.low,
        t.epoch == s.epoch,
        t.objs == s.objs,
        t.young == s.young,
        t.tasks == s.tasks,
    ensures
        forall|x: u64| #[trigger] t.kept(x) == s.kept(x),
{
    lemma_same_graph(s, t);
    lemma_same_graph(t, s);
}

pub proof fn lemma_pinned_epoch(e: Epoch)
    ensures
        e.pin_of().pinned_flag(),
        e.pin_of().ts() == e.ts(),
        e.pin_of().phase_code() == e.phase_code(),
        e.pin_of().ph() == e.ph(),
        e.pin_of().white() == e.white(),
        e.pin_of().valid() == e.valid(),
        e.pin_of().pin_of() == e.pin_of(),
{
    let d = e.data;
    assert((d | 1) & 1 == 1 && (d | 1) | 1 == d | 1 && ((d | 1) & 6) >> 1 == (d & 6) >> 1 && ((d | 1) & 8) >> 3 == (d & 8)
        >> 3 && (d | 1) >> 4 == d >> 4) by (bit_vector);
}

pub proof fn lemma_pin_part(s: GcModel, l: int)
    requires
        s.sound(),
        0 <= l < s.parts.len(),
        s.parts[l].using,
        !s.parts[l].pinned(),
        s.epoch.ph() == Phase::RT && s.unobserved(s.parts[l]) ==> forall|x: u64| #[trigger]
            s.parts[l].hazards.contains(x) ==> s.is_black(x),
    ensures
        safe_step(s, pin_part(s, l)),
{
    let t = pin_part(s, l);
    lemma_parts_frame(s, t);
    lemma_pinned_epoch(s.epoch);
    assert(t.parts_ok()) by {
        assert forall|k: int| 0 <= k < t.parts.len() implies t.part_ok(#[trigger] t.parts[k]) by {
            assert(s.part_ok(s.parts[k]));
        }
    }
    assert forall|k: int, x: u64|
        0 <= k < t.parts.len() && #[trigger] t.parts[k].hazards.contains(
            x,
        ) implies s.parts[k].hazards.contains(x) by {}
    if s.epoch.ph() == Phase::RT {
        assert(s.synced() ==> t.synced());
        assert(t.synced() ==> s.synced()) by {
            if t.synced() {
                assert forall|k: int|
                    0 <= k < s.parts.len() && (#[trigger] s.parts[k]).pinned() implies s.parts[k].epoch.ph()
                    != Phase::N by {
                    assert(t.parts[k].pinned());
                }
            }
        }
        assert forall|h: Set<u64>| s.covers(h) implies t.covers(h) by {}
        assert forall|k: int| 0 <= k < t.parts.len() implies t.cached_ok(
            (#[trigger] t.parts[k]).cached,
        ) by {
            assert(s.cached_ok(s.parts[k].cached));
        }
        assert(t.root_tracing_ok());
    }
}

pub proof fn lemma_unpin_part(s: GcModel, l: int, e: Epoch)
    requires
        s.sound(),
        0 <= l < s.parts.len(),
        !e.pinned_flag(),
    ensures
        safe_step(s, unpin_part(s, l, e)),
{
    let t = unpin_part(s, l, e);
    lemma_parts_frame(s, t);
    assert(t.parts_ok()) by {
        assert forall|k: int| 0 <= k < t.parts.len() implies t.part_ok(#[trigger] t.parts[k]) by {
            assert(s.part_ok(s.parts[k]));
        }
    }
    assert forall|k: int, x: u64|
        0 <= k < t.parts.len() && #[trigger] t.parts[k].hazards.contains(
            x,
        ) implies s.parts[k].hazards.contains(x) by {}
    if s.epoch.ph() == Phase::RT {
        assert(s.synced() ==> t.synced()) by {
            if s.synced() {
                assert forall|k: int|
                    0 <= k < t.parts.len() && (#[trigger] t.parts[k]).pinned() implies t.parts[k].epoch.ph()
                    != Phase::N by {
                    assert(s.parts[k].pinned());
                }
            }
        }
        assert forall|h: Set<u64>| s.covers(h) implies t.covers(h) by {}
        assert forall|k: int| 0 <= k < t.parts.len() implies t.cached_ok(
            (#[trigger] t.parts[k]).cached,
        ) by {
            assert(s.cached_ok(s.parts[k].cached));
        }
        assert(t.root_tracing_ok());
    }
}

/// The hazard pointers may come to protect what they protected before, and what is protected
/// while the participant is pinned.
pub open spec fn hazards_ok(s: GcModel, l: int, h: Set<u64>) -> bool {
    forall|x: u64| #[trigger]
        h.contains(x) ==> s.parts[l].hazards.contains(x) || (s.parts[l].pinned() && s.protected(l, x))
}

pub proof fn lemma_set_hazards(s: GcModel, l: int, h: Set<u64>)
    requires
        s.sound(),
        0 <= l < s.parts.len(),
        s.parts[l].using,
        hazards_ok(s, l, h),
    ensures
        safe_step(s, set_hazards(s, l, h)),
{
    let t = set_hazards(s, l, h);
    lemma_parts_frame(s, t);
    assert(s.part_ok(s.parts[l]));
    assert(t.parts_ok()) by {
        assert forall|k: int| 0 <= k < t.parts.len() implies t.part_ok(#[trigger] t.parts[k]) by {
            assert(s.part_ok(s.parts[k]));
        }
    }
    assert forall|k: int, x: u64|
        0 <= k < t.parts.len() && #[trigger] t.parts[k].hazards.contains(
            x,
        ) implies s.parts[k].hazards.contains(x) || (k == l && s.parts[l].pinned() && s.protected(
        l,
        x,
    )) by {
        if k == l {
            assert(h.contains(x));
        }
    }
    lemma_pinned_epoch(s.epoch);
    if s.epoch.ph() == Phase::RT {
        assert(t.synced() == s.synced()) by {
            assert forall|k: int| 0 <= k < t.parts.len() implies (#[trigger] t.parts[k]).epoch
                == s.parts[k].epoch by {}
            if s.synced() {
                assert forall|k: int|
                    0 <= k < t.parts.len() && (#[trigger] t.parts[k]).pinned() implies t.parts[k].epoch.ph()
                    != Phase::N by {
                    assert(s.parts[k].pinned());
                }
            }
            if t.synced() {
                assert forall|k: int|
                    0 <= k < s.parts.len() && (#[trigger] s.parts[k]).pinned() implies s.parts[k].epoch.ph()
                    != Phase::N by {
                    assert(t.parts[k].pinned());
                }
            }
        }
        // A participant that is pinned but has not observed the phase is in a normal phase.
        if s.parts[l].pinned() && s.unobserved(s.parts[l]) {
            assert(!s.synced());
        }
        assert forall|k: int, x: u64|
            0 <= k < t.parts.len() && #[trigger] t.parts[k].hazards.contains(x) implies t.live(x)
            && if t.unobserved(t.parts[k]) {
            t.is_black(x) || t.young_of(t.white()).count(x) > 0
        } else {
            t.kept(x)
        } by {
            assert(s.lists_ok());
            assert(s.live(x));
        }
        assert forall|k: int| 0 <= k < t.parts.len() implies t.cached_ok(
            (#[trigger] t.parts[k]).cached,
        ) by {
            assert(s.cached_ok(s.parts[k].cached));
            assert(t.parts[k].cached == s.parts[k].cached);
            if s.synced() {
                assert forall|h2: Set<u64>| s.covers(h2) implies t.covers(h2) by {}
            }
        }
        assert(t.root_tracing_ok());
    }
}

pub proof fn lemma_set_cached(s: GcModel, l: int, h: Set<u64>, e: Epoch)
    requires
        s.sound(),
        0 <= l < s.parts.len(),
        e.ts() <= s.epoch.ts(),
        s.epoch.ph() == Phase::RT && e == s.epoch.pin_of() ==> s.synced() && s.covers(h),
    ensures
        safe_step(s, set_cached(s, l, h, e)),
{
    let t = set_cached(s, l, h, e);
    lemma_parts_frame(s, t);
    assert(t.parts_ok()) by {
        assert forall|k: int| 0 <= k < t.parts.len() implies t.part_ok(#[trigger] t.parts[k]) by {
            assert(s.part_ok(s.parts[k]));
        }
    }
    assert forall|k: int, x: u64|
        0 <= k < t.parts.len() && #[trigger] t.parts[k].hazards.contains(
            x,
        ) implies s.parts[k].hazards.contains(x) by {}
    if s.epoch.ph() == Phase::RT {
        assert(t.synced() == s.synced()) by {
            assert forall|k: int| 0 <= k < t.parts.len() implies (#[trigger] t.parts[k]).epoch
                == s.parts[k].epoch by {}
            if s.synced() {
                assert forall|k: int|
                    0 <= k < t.parts.len() && (#[trigger] t.parts[k]).pinned() implies t.parts[k].epoch.ph()
                    != Phase::N by {
                    assert(s.parts[k].pinned());
                }
            }
            if t.synced() {
                assert forall|k: int|
                    0 <= k < s.parts.len() && (#[trigger] s.parts[k]).pinned() implies s.parts[k].epoch.ph()
                    != Phase::N by {
                    assert(t.parts[k].pinned());
                }
            }
        }
        assert forall|h2: Set<u64>| s.covers(h2) implies t.covers(h2) by {}
        assert forall|k: int| 0 <= k < t.parts.len() implies t.cached_ok(
            (#[trigger] t.parts[k]).cached,
        ) by {
            assert(s.cached_ok(s.parts[k].cached));
        }
        assert(t.root_tracing_ok());
    }
}

/// A participant that has never been used.
pub open spec fn fresh_part() -> PartModel {
    PartModel {
        using: true,
        epoch: Epoch { data: 0 },
        observed: 0,
        hazards: Set::empty(),
        cached: None,
    }
}

/// A new participant.
pub open spec fn add_part(s: GcModel) -> GcModel {
    GcModel { parts: s.parts.push(fresh_part()), ..s }
}

pub proof fn lemma_add_part(s: GcModel)
    requires
        s.sound(),
    ensures
        safe_step(s, add_part(s)),
{
    let t = add_part(s);
    lemma_parts_frame(s, t);
    assert(0u64 & 1 == 0) by (bit_vector);
    assert(!fresh_part().pinned());
    assert(t.parts_ok()) by {
        assert forall|k: int| 0 <= k < t.parts.len() implies t.part_ok(#[trigger] t.parts[k]) by {
            if k < s.parts.len() {
                assert(s.part_ok(s.parts[k]));
            }
        }
    }
    assert forall|k: int, x: u64|
        0 <= k < t.parts.len() && #[trigger] t.parts[k].hazards.contains(x) implies k
        < s.parts.len() && s.parts[k].hazards.contains(x) by {}
    if s.epoch.ph() == Phase::RT {
        assert(t.synced() == s.synced()) by {
            if s.synced() {
                assert forall|k: int|
                    0 <= k < t.parts.len() && (#[trigger] t.parts[k]).pinned() implies t.parts[k].epoch.ph()
                    != Phase::N by {
                    assert(s.parts[k].pinned());
                }
            }
            if t.synced() {
                assert forall|k: int|
                    0 <= k < s.parts.len() && (#[trigger] s.parts[k]).pinned() implies s.parts[k].epoch.ph()
                    != Phase::N by {
                    assert(t.parts[k].pinned());
                }
            }
        }
        assert forall|h2: Set<u64>| s.covers(h2) implies t.covers(h2) by {}
        assert forall|k: int| 0 <= k < t.parts.len() implies t.cached_ok(
            (#[trigger] t.parts[k]).cached,
        ) by {
            if k < s.parts.len() {
                assert(s.cached_ok(s.parts[k].cached));
            }
        }
        assert(t.root_tracing_ok());
    }
}

/// A thread takes a participant or gives it back.
pub open spec fn set_using(s: GcModel, l: int, using: bool) -> GcModel {
    set_part(s, l, PartModel { using, ..s.parts[l] })
}

pub proof fn lemma_set_using(s: GcModel, l: int, using: bool)
    requires
        s.sound(),
        0 <= l < s.parts.len(),
        !s.parts[l].pinned(),
        !using ==> s.parts[l].hazards == Set::<u64>::empty(),
    ensures
        safe_step(s, set_using(s, l, using)),
{
    let t = set_using(s, l, using);
    lemma_parts_frame(s, t);
    assert(t.parts_ok()) by {
        assert forall|k: int| 0 <= k < t.parts.len() implies t.part_ok(#[trigger] t.parts[k]) by {
            assert(s.part_ok(s.parts[k]));
        }
    }
    assert forall|k: int, x: u64|
        0 <= k < t.parts.len() && #[trigger] t.parts[k].hazards.contains(
            x,
        ) implies s.parts[k].hazards.contains(x) by {}
    if s.epoch.ph() == Phase::RT {
        assert(t.synced() == s.synced()) by {
            if s.synced() {
                assert forall|k: int|
                    0 <= k < t.parts.len() && (#[trigger] t.parts[k]).pinned() implies t.parts[k].epoch.ph()
                    != Phase::N by {
                    assert(s.parts[k].pinned());
                }
            }
            if t.synced() {
                assert forall|k: int|
                    0 <= k < s.parts.len() && (#[trigger] s.parts[k]).pinned() implies s.parts[k].epoch.ph()
                    != Phase::N by {
                    assert(t.parts[k].pinned());
                }
            }
        }
        assert forall|h2: Set<u64>| s.covers(h2) implies t.covers(h2) by {}
        assert forall|k: int| 0 <= k < t.parts.len() implies t.cached_ok(
            (#[trigger] t.parts[k]).cached,
        ) by {
            assert(s.cached_ok(s.parts[k].cached));
        }
        assert(t.root_tracing_ok());
    }
}

// ---- Phases ----

/// Every pinned participant is pinned at the global epoch.
pub open spec fn caught_up(s: GcModel) -> bool {
    forall|l: int|
        0 <= l < s.parts.len() && (#[trigger] s.parts[l]).pinned() ==> s.parts[l].epoch.ts()
            == s.epoch.ts()
}

/// The next phase, with the next timestamp.
pub open spec fn is_next_epoch(e: Epoch, ph: Phase, white: Color, next: Epoch) -> bool {
    &&& next.valid()
    &&& !next.pinned_flag()
    &&& next.ph() == ph
    &&& next.white() == white
    &&& next.ts() == e.ts() + 1
}

/// The global epoch changes.
pub open spec fn set_epoch(s: GcModel, e: Epoch) -> GcModel {
    GcModel { epoch: e, ..s }
}

/// Root tracing begins once the sweep is done.
pub proof fn lemma_to_root_tracing(s: GcModel, e: Epoch)
    requires
        s.sound(),
        s.epoch.ph() == Phase::N,
        s.scanned_of(s.black()) == Multiset::<u64>::empty(),
        caught_up(s),
        is_next_epoch(s.epoch, Phase::RT, s.white(), e),
    ensures
        safe_step(s, set_epoch(s, e)),
{
    let t = set_epoch(s, e);
    lemma_pinned_epoch(s.epoch);
    lemma_pinned_epoch(e);
    assert(t.parts_ok()) by {
        assert forall|k: int| 0 <= k < t.parts.len() implies t.part_ok(#[trigger] t.parts[k]) by {
            assert(s.part_ok(s.parts[k]));
        }
    }
    // Everything is white and has yet to be scanned.
    assert forall|x: u64| s.live(x) implies #[trigger] s.is_white(x) && s.young_of(
        s.white(),
    ).count(x) > 0 by {
        assert(s.objs.contains_key(x));
    }
    assert forall|x: u64|
        #![trigger t.objs.contains_key(x)]
        t.live(x) && t.objs[x].rc > 0 implies t.kept(x) by {
        assert(s.is_white(x));
        lemma_reach_source(t, x);
    }
    assert forall|x: u64, y: u64| #[trigger] t.edge(x, y) implies t.live(y) by {
        assert(s.is_white(x));
    }
    assert(t.young_of(t.white()) == s.young_of(s.white()));
    assert forall|k: int, x: u64|
        0 <= k < t.parts.len() && #[trigger] t.parts[k].hazards.contains(x) implies t.live(x)
        && t.unobserved(t.parts[k]) && t.young_of(t.white()).count(x) > 0 by {
        assert(s.part_ok(s.parts[k]));
        assert(s.parts[k].hazards.contains(x));
        assert(s.is_white(x));
    }
    assert forall|k: int| 0 <= k < t.parts.len() implies t.cached_ok(
        (#[trigger] t.parts[k]).cached,
    ) by {
        assert(s.part_ok(s.parts[k]));
    }
    assert forall|x: u64|
        #![trigger t.objs.contains_key(x)]
        t.live(x) && t.young_of(t.black()).count(x) > 0 implies t.is_black(x) by {
        assert(s.young_of(s.black()).count(x) == 0);
    }
    assert(t.tracing_ok());
    assert forall|l: int, x: u64|
        0 <= l < s.parts.len() && s.parts[l].pinned() && #[trigger] s.protected(
            l,
            x,
        ) implies t.protected(l, x) by {
        assert(s.part_ok(s.parts[l]));
    }
}

/// Completion tracing begins once every object has been scanned, and begins anew while there are
/// tasks.
pub proof fn lemma_to_completion(s: GcModel, e: Epoch)
    requires
        s.sound(),
        s.tracing(),
        s.young_of(s.white()) == Multiset::<u64>::empty(),
        caught_up(s),
        is_next_epoch(s.epoch, Phase::CT, s.white(), e),
    ensures
        safe_step(s, set_epoch(s, e)),
{
    let t = set_epoch(s, e);
    lemma_pinned_epoch(s.epoch);
    lemma_pinned_epoch(e);
    assert(t.parts_ok()) by {
        assert forall|k: int| 0 <= k < t.parts.len() implies t.part_ok(#[trigger] t.parts[k]) by {
            assert(s.part_ok(s.parts[k]));
        }
    }
    assert forall|x: u64| #[trigger] s.is_white(x) && s.source(x) implies t.kept(x) by {
        lemma_reach_source(t, x);
    }
    assert forall|x: u64, y: u64| #[trigger]
        s.edge(x, y) && s.is_white(x) && s.is_white(y) && t.kept(x) implies t.kept(y) by {
        lemma_reach_step(t, x, y);
    }
    lemma_kept_mono(s, t);
    assert forall|k: int, x: u64|
        0 <= k < t.parts.len() && #[trigger] t.parts[k].hazards.contains(x) implies t.kept(x) by {
        assert(s.parts[k].hazards.contains(x));
        assert(s.young_of(s.white()).count(x) == 0);
        assert(s.kept(x));
    }
    assert(t.tracing_ok());
    assert forall|l: int, x: u64|
        0 <= l < s.parts.len() && s.parts[l].pinned() && #[trigger] s.protected(
            l,
            x,
        ) implies t.protected(l, x) by {
        assert(s.part_ok(s.parts[l]));
    }
}

/// With no tasks left in completion tracing, what is kept is what is black.
pub proof fn lemma_traced(s: GcModel)
    requires
        s.sound(),
        s.epoch.ph() == Phase::CT,
        s.tasks == Set::<u64>::empty(),
    ensures
        forall|x: u64| #[trigger] s.kept(x) <==> s.is_black(x),
{
    assert forall|x: u64| #[trigger] s.kept(x) implies s.is_black(x) by {
        if !s.is_black(x) {
            assert(s.young_of(s.white()).count(x) == 0);
            crate::model::lemma_reach_induct(s, |y: u64| false, x);
        }
    }
}

/// The colors change their roles once there are no tasks left.
pub proof fn lemma_to_normal(s: GcModel, e: Epoch)
    requires
        s.sound(),
        s.epoch.ph() == Phase::CT,
        s.tasks == Set::<u64>::empty(),
        caught_up(s),
        is_next_epoch(s.epoch, Phase::N, s.black(), e),
    ensures
        safe_step(s, set_epoch(s, e)),
{
    let t = set_epoch(s, e);
    lemma_traced(s);
    lemma_pinned_epoch(s.epoch);
    lemma_pinned_epoch(e);
    assert(t.white() == s.black() && t.black() == s.white());
    assert(t.parts_ok()) by {
        assert forall|k: int| 0 <= k < t.parts.len() implies t.part_ok(#[trigger] t.parts[k]) by {
            assert(s.part_ok(s.parts[k]));
        }
    }
    assert forall|x: u64| #[trigger] s.is_black(x) == t.is_white(x) by {}
    assert forall|k: int, x: u64|
        0 <= k < t.parts.len() && #[trigger] t.parts[k].hazards.contains(x) implies t.is_white(
        x,
    ) by {
        assert(s.parts[k].hazards.contains(x));
        assert(s.kept(x));
    }
    assert forall|x: u64, y: u64| #[trigger] t.edge(x, y) && t.is_white(x) implies t.is_white(
        y,
    ) by {
        assert(s.edge(x, y) && s.is_black(x));
        assert(s.kept(y));
    }
    assert forall|x: u64|
        #![trigger t.objs.contains_key(x)]
        t.live(x) && t.objs[x].rc > 0 implies t.is_white(x) by {
        assert(s.kept(x));
    }
    assert(t.normal_ok());
    assert forall|l: int, x: u64|
        0 <= l < s.parts.len() && s.parts[l].pinned() && #[trigger] s.protected(
            l,
            x,
        ) implies t.protected(l, x) by {
        assert(s.part_ok(s.parts[l]));
        assert(s.kept(x));
    }
}

// ---- Sweeping ----

/// The objects of a batch that are dead.
pub open spec fn dead_in(s: GcModel, m: Multiset<u64>, x: u64) -> bool {
    m.count(x) > 0 && s.is_black(x)
}

/// A batch has been swept: what is dead is gone, the rest is as if newly allocated.
pub open spec fn is_sweep_batch(s: GcModel, m: Multiset<u64>, t: GcModel) -> bool {
    let w = s.white().code() as int;
    let b = s.black().code() as int;
    &&& t.low == s.low
    &&& t.epoch == s.epoch
    &&& t.tasks == s.tasks
    &&& t.parts == s.parts
    &&& t.young.len() == 2
    &&& t.scanned.len() == 2
    &&& t.young[b] == s.young[b]
    &&& t.scanned[w] == s.scanned[w]
    &&& t.scanned[b] == s.scanned[b].sub(m)
    &&& forall|x: u64| #[trigger]
        t.young[w].count(x) == s.young[w].count(x) + (if s.is_black(x) {
            0
        } else {
            m.count(x)
        })
    &&& forall|x: u64| #[trigger] t.objs.contains_key(x) <==> s.live(x) && !dead_in(s, m, x)
    &&& forall|x: u64| #[trigger] t.objs.contains_key(x) ==> t.objs[x] == s.objs[x]
}

pub proof fn lemma_sweep_batch(s: GcModel, m: Multiset<u64>, t: GcModel)
    requires
        s.sound(),
        s.epoch.ph() == Phase::N,
        m.subset_of(s.scanned_of(s.black())),
        is_sweep_batch(s, m, t),
    ensures
        safe_step(s, t),
{
    let w = s.white().code() as int;
    let b = s.black().code() as int;
    assert forall|x: u64| #[trigger] s.is_white(x) implies t.is_white(x) by {
        assert(t.objs.contains_key(x));
    }
    assert forall|x: u64| #[trigger] t.scanned[b].count(x) == s.scanned[b].count(x) - m.count(
        x,
    ) by {
        assert(m.count(x) <= s.scanned[b].count(x));
    }
    assert(t.lists_ok()) by {
        assert forall|x: u64|
            #![trigger t.objs.contains_key(x)]
            t.young[0].count(x) + t.young[1].count(x) + t.scanned[0].count(x)
                + t.scanned[1].count(x) == (if t.live(x) {
                1nat
            } else {
                0nat
            }) by {
            let was = s.objs.contains_key(x);
            assert(t.young[w].count(x) == s.young[w].count(x) + (if s.is_black(x) {
                0
            } else {
                m.count(x)
            }));
            assert(t.scanned[b].count(x) == s.scanned[b].count(x) - m.count(x));
            assert(m.count(x) <= s.scanned[b].count(x));
        }
    }
    assert forall|x: u64, y: u64| #[trigger] t.edge(x, y) implies s.edge(x, y) by {
        assert(t.objs.contains_key(x));
    }
    assert forall|x: u64|
        #![trigger t.objs.contains_key(x)]
        t.live(x) && t.young_of(t.white()).count(x) > 0 implies t.is_white(x) by {
        assert(s.objs.contains_key(x));
        assert(t.young[w].count(x) == s.young[w].count(x) + (if s.is_black(x) {
            0
        } else {
            m.count(x)
        }));
    }
    assert(t.colors_ok()) by {
        assert forall|y: u64, j: int|
            #![trigger t.objs[y].links[j]]
            t.live(y) && 0 <= j < t.objs[y].links.len() implies meta_of(t.objs[y].links[j])
            == PtrMeta::Unrooted(t.objs[y].color) by {
            assert(t.objs[y].links[j] == s.objs[y].links[j]);
        }
    }
    assert(t.normal_ok());
}
} // verus!
