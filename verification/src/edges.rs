//! Managed pointers that are part of objects, and the end of those that are not.

use crate::accounts::{law_barriers_keep_books, lemma_books_on, lemma_books_same};
use crate::collector::same_hazards;
use crate::internal::part_of;
use crate::survival::{lemma_spares_from, spares};
use crate::allocation::word_released;
use crate::barriers::{
    edge_shades, edge_swapped, lemma_edge_changed, root_shades, shade_for, swap_shades, usable_in,
};
use crate::epoch::TIMESTAMP_LIMIT;
use crate::global::Global;
use crate::guards::{Guard, Handle};
use crate::man_ptr::{
    addr_of, clear_meta, holds, is_addr, lemma_null_word, lemma_tag, lemma_word, meta_of,
    set_meta, set_tag, tag_of, ManPtr, PtrMeta,
};
use crate::model::GcModel;
use crate::pointers::{
    cell_swapped, is_local_of, opt_addr, opt_word, tagged_word, AtomicShared, AtomicSharedOption,
    Local, Protector, Shared,
};
use crate::roots::{lemma_protected_edge, root_released};
use crate::steps::{dec_root, keeps_protected, same_shape, set_edge};
use crate::trace::{LinkKind, TraceObj};
use vstd::prelude::*;

verus! {

/// A managed pointer in a value: a root that becomes an edge when the value moves to the heap,
/// and that is traced there.
pub trait TracePtr<T: TraceObj> {
    /// The word of the pointer.
    spec fn link_word(&self) -> u64;

    /// Turns the root into an edge of the color that the guard's participant allocates in.
    fn unroot(&mut self, guard: &Guard, gc: &mut Global<T>)
        requires
            old(gc).wf(),
            old(gc).guarded(*guard),
            old(gc).rooted_ok(old(self).link_word()),
        ensures
            final(gc).wf(),
            final(gc).guarded(*guard),
            final(self).link_word() == set_meta(
                old(self).link_word(),
                PtrMeta::Unrooted(old(gc).local(guard.lid as int).alloc_color()),
            ),
            final(gc).abs() == word_released(old(gc).abs(), old(self).link_word()),
            final(gc).only_barriers(
                *old(gc),
                guard.lid as int,
                guard.gid,
                root_shades(old(gc).abs(), addr_of::<T>(old(self).link_word())),
            ),
            keeps_protected(old(gc).abs(), final(gc).abs()),
    ;

    /// Shades what the edge leads to and turns the edge black, unless it is black already.
    fn shade(&mut self, guard: &Guard, gc: &mut Global<T>)
        requires
            old(gc).fits(),
            old(gc).guarded(*guard),
            meta_of(old(self).link_word()) is Unrooted,
            old(gc).leads_somewhere(old(self).link_word()),
        ensures
            final(gc).fits(),
            final(gc).only_sched(
                *old(gc),
                guard.lid as int,
                guard.gid,
                edge_shades(
                    old(gc).abs(),
                    old(gc).black_of(guard.lid as int),
                    old(self).link_word(),
                ),
            ),
            ({
                let b = old(gc).black_of(guard.lid as int);
                let w = old(self).link_word();
                &&& final(self).link_word() == set_meta(w, PtrMeta::Unrooted(b))
                &&& meta_of(w) == PtrMeta::Unrooted(b) ==> *final(gc) == *old(gc)
                &&& meta_of(w) != PtrMeta::Unrooted(b) ==> final(gc).abs() == shade_for(
                    old(gc).abs(),
                    b,
                    addr_of::<T>(w),
                )
                &&& final(gc).shaded(
                    *old(gc),
                    guard.lid as int,
                    guard.gid,
                    addr_of::<T>(w),
                    meta_of(w) != PtrMeta::Unrooted(b) && old(gc).shade_due(
                        guard.lid as int,
                        addr_of::<T>(w),
                    ),
                )
            }),
    ;
}

impl<T: TraceObj> TracePtr<T> for AtomicSharedOption<T> {
    open spec fn link_word(&self) -> u64 {
        self.link
    }

    fn unroot(&mut self, guard: &Guard, gc: &mut Global<T>) {
        let ptr: ManPtr<T> = ManPtr::from(self.link);
        self.link = gc.unroot_link(ptr, guard).data;
    }

    fn shade(&mut self, guard: &Guard, gc: &mut Global<T>) {
        let ptr: ManPtr<T> = ManPtr::from(self.link);
        self.link = gc.shade_link(ptr, guard.lid, guard.gid).data;
    }
}

impl<T: TraceObj> TracePtr<T> for AtomicShared<T> {
    open spec fn link_word(&self) -> u64 {
        self.inner.link
    }

    fn unroot(&mut self, guard: &Guard, gc: &mut Global<T>) {
        self.inner.unroot(guard, gc);
    }

    fn shade(&mut self, guard: &Guard, gc: &mut Global<T>) {
        self.inner.shade(guard, gc);
    }
}

impl<T: TraceObj> TracePtr<T> for Shared<T> {
    open spec fn link_word(&self) -> u64 {
        self.inner.inner.link
    }

    fn unroot(&mut self, guard: &Guard, gc: &mut Global<T>) {
        self.inner.unroot(guard, gc);
    }

    fn shade(&mut self, guard: &Guard, gc: &mut Global<T>) {
        self.inner.shade(guard, gc);
    }
}

// ---- Conversions ----

impl<T> vstd::std_specs::convert::FromSpecImpl<AtomicShared<T>> for AtomicSharedOption<T> {
    open spec fn obeys_from_spec() -> bool {
        true
    }

    open spec fn from_spec(v: AtomicShared<T>) -> Self {
        v.inner
    }
}

impl<T> From<AtomicShared<T>> for AtomicSharedOption<T> {
    fn from(value: AtomicShared<T>) -> (r: Self) {
        value.inner
    }
}

impl<T> vstd::std_specs::convert::FromSpecImpl<Shared<T>> for AtomicSharedOption<T> {
    open spec fn obeys_from_spec() -> bool {
        true
    }

    open spec fn from_spec(v: Shared<T>) -> Self {
        v.inner.inner
    }
}

impl<T> From<Shared<T>> for AtomicSharedOption<T> {
    fn from(value: Shared<T>) -> (r: Self) {
        value.inner.inner
    }
}

impl<T> vstd::std_specs::convert::FromSpecImpl<Shared<T>> for AtomicShared<T> {
    open spec fn obeys_from_spec() -> bool {
        true
    }

    open spec fn from_spec(v: Shared<T>) -> Self {
        v.inner
    }
}

impl<T> From<Shared<T>> for AtomicShared<T> {
    fn from(value: Shared<T>) -> (r: Self) {
        value.inner
    }
}

impl<T> AtomicSharedOption<T> {
    /// The pointer that is there, or a null one.
    pub fn from_option(value: Option<Shared<T>>) -> (r: Self)
        ensures
            r.link == (match value {
                Some(shared) => shared.word(),
                None => 0,
            }),
    {
        match value {
            Some(shared) => Self::from(shared),
            None => AtomicSharedOption::none(),
        }
    }
}

impl<T: TraceObj> AtomicSharedOption<T> {
    /// A root of what an optional local pointer leads to, or a null pointer.
    pub fn from_local<'g, G: Protector<T>>(
        value: Option<&Local<'g, G, T>>,
        gc: &mut Global<T>,
    ) -> (r: Self)
        requires
            old(gc).wf(),
            value matches Some(local) ==> is_addr::<T>(local.ptr) && local.ptr != 0 && old(
                gc).abs().rootable(local.ptr) && old(gc).root_room(local.ptr),
        ensures
            final(gc).wf(),
            final(gc).only_headers(*old(gc)),
            final(gc).rooted_ok(r.link),
            value is None ==> r.link == 0 && *final(gc) == *old(gc),
            value matches Some(local) ==> r.link == set_meta(local.ptr, PtrMeta::Rooted)
                && addr_of::<T>(r.link) == local.ptr && final(gc).abs() == crate::steps::inc_root(
                old(gc).abs(),
                local.ptr,
            ),
            keeps_protected(old(gc).abs(), final(gc).abs()),
    {
        match value {
            Some(local) => local.as_atomic_shared(gc).inner,
            None => AtomicSharedOption::none(),
        }
    }
}

// ---- The end of a pointer ----

impl<T: TraceObj> Global<T> {
    /// A root of an object has gone. Nothing else is gone that can be reached without it, and
    /// what is left is as it was.
    pub open spec fn root_gone(self, before: Self, a: u64) -> bool {
        &&& self.keeps_payloads(before)
        &&& spares(dec_root(before.abs(), a), self.abs())
        &&& self.keeps_hps(before)
        &&& self.books_kept(before)
        &&& self.epoch.data.ts() <= before.epoch.data.ts() + 4
    }
}

impl Handle {
    /// A root of an object has been given up, with the participant pinned meanwhile. Where it was
    /// the last one and the collector traces, the object has been scheduled before the guard was
    /// given back.
    pub open spec fn has_dropped_root<T: TraceObj>(
        self,
        before: Global<T>,
        after: Global<T>,
        a: u64,
    ) -> bool {
        exists|guard: Guard, pinned: Global<T>, released: Global<T>|
            #![trigger self.has_pinned(before, guard, pinned), guard.has_released(released, after)]
            self.has_pinned(before, guard, pinned) && released.only_barriers(
                pinned,
                self.lid as int,
                guard.gid,
                root_shades(pinned.abs(), a),
            ) && released.abs() == root_released(pinned.abs(), a) && guard.has_released(
                released,
                after,
            )
    }
}

impl<T: TraceObj> AtomicSharedOption<T> {
    /// Gives the pointer up. Where it is a root, it no longer counts. The participant is pinned
    /// meanwhile.
    pub fn release(self, handle: &Handle, gc: &mut Global<T>)
        requires
            old(gc).wf(),
            old(gc).knows(*handle),
            old(gc).local(handle.lid as int).guard_count < usize::MAX,
            old(gc).epoch.data.ts() + 4 < TIMESTAMP_LIMIT,
            meta_of(self.link) == PtrMeta::Rooted ==> old(gc).rooted_ok(self.link),
        ensures
            final(gc).wf(),
            final(gc).local(handle.lid as int).guard_count == old(gc).local(
                handle.lid as int,
            ).guard_count,
            meta_of(self.link) != PtrMeta::Rooted || addr_of::<T>(self.link) == 0 ==> *final(gc)
                == *old(gc),
            meta_of(self.link) == PtrMeta::Rooted && addr_of::<T>(self.link) != 0 ==> final(
                gc).root_gone(*old(gc), addr_of::<T>(self.link)) && handle.has_dropped_root(
                *old(gc),
                *final(gc),
                addr_of::<T>(self.link),
            ),
            final(gc).others_stay(*old(gc), handle.lid as int),
            keeps_protected(old(gc).abs(), final(gc).abs()),
    {
        let ptr: ManPtr<T> = ManPtr::from(self.link);
        if ptr.meta() != PtrMeta::Rooted {
            return ;
        }
        if ptr.is_null() {
            return ;
        }
        let ghost before = *gc;
        let ghost a = addr_of::<T>(self.link);
        let guard: Guard = handle.pin(gc);
        let ghost pinned = *gc;
        proof {
            assert(pinned.abs().objs.contains_key(a));
        }
        gc.release_root(ptr, guard.lid, guard.gid);
        let ghost released = *gc;
        let ghost g = guard;
        guard.release(gc);
        proof {
            assert(handle.has_pinned(before, g, pinned));
            assert(g.has_released(released, *gc));
            lemma_root_gone(before, pinned, released, *gc, handle.lid as int, g.gid, a);
        }
    }
}

/// A root has been released between pinning and unpinning.
proof fn lemma_root_gone<T: TraceObj>(
    before: Global<T>,
    pinned: Global<T>,
    released: Global<T>,
    after: Global<T>,
    l: int,
    gid: u64,
    a: u64,
)
    requires
        0 <= l < before.nodes().len(),
        before.abs().live(a),
        before.abs().objs[a].rc > 0,
        pinned.only_pins(before, l),
        same_shape(before.abs(), pinned.abs()),
        released.only_barriers(pinned, l, gid, root_shades(pinned.abs(), a)),
        released.abs() == root_released(pinned.abs(), a),
        after.keeps_payloads(released),
        after.keeps_hps(released),
        after.others_stay(released, l),
        after.books_kept(released),
        after.epoch.data.ts() <= released.epoch.data.ts() + 4,
        spares(released.abs(), after.abs()),
    ensures
        after.root_gone(before, a),
        after.others_stay(before, l),
{
    let s = dec_root(before.abs(), a);
    let t = released.abs();
    assert(pinned.abs().objs.contains_key(a));
    assert(same_shape(s, t)) by {
        assert forall|x: u64| #[trigger] t.objs.contains_key(x) == s.live(x) by {
            assert(pinned.abs().objs.contains_key(x) == before.abs().live(x));
        }
        assert forall|x: u64| #[trigger] t.objs.contains_key(x) implies t.objs[x].rc
            == s.objs[x].rc && t.objs[x].tid == s.objs[x].tid && t.objs[x].kinds
            == s.objs[x].kinds && t.objs[x].links.len()
            == s.objs[x].links.len() by {
            assert(pinned.abs().objs.contains_key(x));
        }
        assert forall|x: u64, i: int|
            #![trigger t.objs[x].links[i]]
            t.objs.contains_key(x) && 0 <= i < t.objs[x].links.len() implies clear_meta(
            t.objs[x].links[i],
        ) == clear_meta(s.objs[x].links[i]) by {
            assert(pinned.abs().objs.contains_key(x));
            assert(t.objs[x].links == pinned.abs().objs[x].links);
            assert(clear_meta(pinned.abs().objs[x].links[i]) == clear_meta(
                before.abs().objs[x].links[i],
            ));
        }
    }
    assert(same_hazards(s, t)) by {
        assert forall|k: int| 0 <= k < s.parts.len() implies (#[trigger] t.parts[k]).hazards
            == s.parts[k].hazards && t.parts[k].using == s.parts[k].using by {
            assert(t.parts[k] == part_of(released.nodes()[k]));
            assert(s.parts[k] == part_of(before.nodes()[k]));
        }
    }
    lemma_spares_from(s, t, after.abs());
    law_barriers_keep_books(pinned, released, l, gid, root_shades(pinned.abs(), a));
    lemma_books_same(pinned, pinned);
    lemma_books_on(
        before.books(),
        pinned.books(),
        released.books(),
        Global::<T>::obj_size() as int,
    );
    lemma_books_on(before.books(), released.books(), after.books(), Global::<T>::obj_size() as int);
    assert forall|k: int| 0 <= k < before.nodes().len() implies (#[trigger] after.nodes()[k]).using
        == before.nodes()[k].using && after.nodes()[k].item.same_protection(before.local(k)) by {
        assert(after.nodes()[k].using == released.nodes()[k].using);
    }
    assert(after.keeps_payloads(before)) by {
        assert forall|x: u64| #[trigger]
            after.heap.payloads().contains_key(x) implies before.heap.payloads().contains_key(x)
            && after.heap.payloads()[x] == before.heap.payloads()[x] by {
            assert(released.heap.payloads().contains_key(x));
        }
    }
}

impl<T: TraceObj> AtomicShared<T> {
    /// Gives the pointer up. Where it is a root, it no longer counts. The participant is pinned
    /// meanwhile.
    pub fn release(self, handle: &Handle, gc: &mut Global<T>)
        requires
            old(gc).wf(),
            old(gc).knows(*handle),
            old(gc).local(handle.lid as int).guard_count < usize::MAX,
            old(gc).epoch.data.ts() + 4 < TIMESTAMP_LIMIT,
            meta_of(self.inner.link) == PtrMeta::Rooted ==> old(gc).rooted_ok(self.inner.link),
        ensures
            final(gc).wf(),
            final(gc).local(handle.lid as int).guard_count == old(gc).local(
                handle.lid as int,
            ).guard_count,
            meta_of(self.inner.link) != PtrMeta::Rooted || addr_of::<T>(self.inner.link) == 0 ==> *final(
                gc) == *old(gc),
            meta_of(self.inner.link) == PtrMeta::Rooted && addr_of::<T>(self.inner.link) != 0 ==> final(
                gc).root_gone(*old(gc), addr_of::<T>(self.inner.link)) && handle.has_dropped_root(
                *old(gc),
                *final(gc),
                addr_of::<T>(self.inner.link),
            ),
            final(gc).others_stay(*old(gc), handle.lid as int),
            keeps_protected(old(gc).abs(), final(gc).abs()),
    {
        self.inner.release(handle, gc);
    }
}

impl<T: TraceObj> Shared<T> {
    /// Gives the pointer up. Where it is a root, it no longer counts. The participant is pinned
    /// meanwhile.
    pub fn release(self, handle: &Handle, gc: &mut Global<T>)
        requires
            old(gc).wf(),
            old(gc).knows(*handle),
            old(gc).local(handle.lid as int).guard_count < usize::MAX,
            old(gc).epoch.data.ts() + 4 < TIMESTAMP_LIMIT,
            meta_of(self.word()) == PtrMeta::Rooted ==> old(gc).rooted_ok(self.word()),
        ensures
            final(gc).wf(),
            final(gc).local(handle.lid as int).guard_count == old(gc).local(
                handle.lid as int,
            ).guard_count,
            meta_of(self.word()) != PtrMeta::Rooted || addr_of::<T>(self.word()) == 0 ==> *final(gc)
                == *old(gc),
            meta_of(self.word()) == PtrMeta::Rooted && addr_of::<T>(self.word()) != 0 ==> final(
                gc).root_gone(*old(gc), addr_of::<T>(self.word())) && handle.has_dropped_root(
                *old(gc),
                *final(gc),
                addr_of::<T>(self.word()),
            ),
            final(gc).others_stay(*old(gc), handle.lid as int),
            keeps_protected(old(gc).abs(), final(gc).abs()),
    {
        self.inner.release(handle, gc);
    }
}

// ---- Edges ----

/// A managed pointer in an object: the object's address and the number of the pointer in it.
#[derive(Clone, Copy, Debug, PartialEq, Eq, Structural)]
pub struct Edge {
    pub owner: u64,
    pub index: usize,
}

/// An edge comes to have another word, after the barriers that its color asks for.
pub open spec fn edge_set(s: GcModel, l: int, e: Edge, word: u64) -> GcModel {
    let o = s.objs[e.owner];
    let black = s.parts[l].epoch.white().flipped();
    set_edge(
        edge_swapped(s, black, o.color, s.addr(o.links[e.index as int]), s.addr(word)),
        e.owner,
        e.index as int,
        word,
    )
}

/// What is scheduled when an edge comes to have another word.
pub open spec fn edge_set_shades(s: GcModel, l: int, e: Edge, word: u64) -> Seq<u64> {
    let o = s.objs[e.owner];
    let black = s.parts[l].epoch.white().flipped();
    swap_shades(s, black, o.color, s.addr(o.links[e.index as int]), s.addr(word))
}

impl<T: TraceObj> Global<T> {
    /// The edge is one of an object that a pinned participant may use.
    pub open spec fn edge_ok(self, l: int, e: Edge) -> bool {
        &&& self.abs().protected(l, e.owner)
        &&& e.index < self.abs().objs[e.owner].links.len()
    }

    /// What an edge can be set to.
    pub open spec fn edge_kind(self, e: Edge) -> LinkKind {
        self.abs().objs[e.owner].kinds[e.index as int]
    }

    /// The word of an edge.
    pub open spec fn edge_word(self, e: Edge) -> u64 {
        self.abs().objs[e.owner].links[e.index as int]
    }
}

impl<'g, G: Protector<T>, T: TraceObj> Local<'g, G, T> {
    /// A managed pointer in the object.
    pub fn edge(&self, index: usize) -> (r: Edge)
        ensures
            r.owner == self.ptr,
            r.index == index,
    {
        Edge { owner: self.ptr, index }
    }
}

/// An edge of what a participant may use leads to what it may use.
proof fn lemma_edge_usable<T: TraceObj>(gc: Global<T>, l: int, e: Edge)
    requires
        gc.wf(),
        gc.pinned(l),
        gc.edge_ok(l, e),
    ensures
        gc.usable(l, gc.edge_word(e)),
        gc.cell_ok(l, gc.edge_word(e)),
        meta_of(gc.edge_word(e)) == PtrMeta::Unrooted(gc.abs().objs[e.owner].color),
{
    let s = gc.abs();
    let w = gc.edge_word(e);
    assert(s.parts[l].pinned());
    assert(s.objs[e.owner].links[e.index as int] == w);
    if addr_of::<T>(w) != 0 {
        assert(s.edge(e.owner, addr_of::<T>(w)));
        lemma_protected_edge(s, l, e.owner, addr_of::<T>(w));
    }
}

impl Edge {
    /// The pointer, apart from its object.
    fn cell<T: TraceObj>(&self, gc: &Global<T>) -> (r: AtomicSharedOption<T>)
        requires
            gc.fits(),
            gc.heap.has(self.owner),
            self.index < gc.abs().objs[self.owner].links.len(),
        ensures
            r.link == gc.edge_word(*self),
    {
        AtomicSharedOption::from_raw(ManPtr::from(gc.heap.get(self.owner).item.outgoing(self.index)))
    }

    /// Puts a pointer back into the object.
    fn put<T: TraceObj>(&self, cell: AtomicSharedOption<T>, gc: &mut Global<T>)
        requires
            old(gc).fits(),
            old(gc).heap.has(self.owner),
            self.index < old(gc).abs().objs[self.owner].links.len(),
        ensures
            final(gc).fits(),
            final(gc).abs() == set_edge(
                old(gc).abs(),
                self.owner,
                self.index as int,
                cell.link,
            ),
            final(gc).only_headers(*old(gc)),
    {
        let ghost before = *gc;
        gc.heap.get_mut(self.owner).item.set_outgoing(self.index, cell.link);
        proof {
            assert(gc.heap.payloads() =~= before.heap.payloads());
            let t = set_edge(before.abs(), self.owner, self.index as int, cell.link);
            assert(gc.heap.objs() =~= t.objs);
            assert(gc.abs() =~= t);
        }
    }

    /// What the pointer can be set to.
    pub fn kind<T: TraceObj>(&self, gc: &Global<T>) -> (r: LinkKind)
        requires
            gc.wf(),
            gc.heap.has(self.owner),
            self.index < gc.abs().objs[self.owner].links.len(),
        ensures
            r == gc.edge_kind(*self),
    {
        assert(gc.abs().objs.contains_key(self.owner));
        gc.heap.get(self.owner).item.outgoing_kind(self.index)
    }

    /// Reads the pointer. It is valid for as long as the guard is there.
    pub fn load<'g, T: TraceObj>(&self, guard: &'g Guard, gc: &Global<T>) -> (r: Option<
        Local<'g, Guard, T>,
    >)
        requires
            gc.wf(),
            gc.guarded(*guard),
            gc.edge_ok(guard.lid as int, *self),
        ensures
            gc.edge_kind(*self) != LinkKind::Nullable ==> r is Some,
            r is Some <==> addr_of::<T>(gc.edge_word(*self)) != 0,
            opt_addr(r) == addr_of::<T>(gc.edge_word(*self)),
            is_addr::<T>(opt_addr(r)),
            gc.usable(guard.lid as int, opt_addr(r)),
    {
        self.load_with_tag(guard, gc).0
    }

    /// Reads the pointer and its tag.
    pub fn load_with_tag<'g, T: TraceObj>(&self, guard: &'g Guard, gc: &Global<T>) -> (r: (
        Option<Local<'g, Guard, T>>,
        u64,
    ))
        requires
            gc.wf(),
            gc.guarded(*guard),
            gc.edge_ok(guard.lid as int, *self),
        ensures
            gc.edge_kind(*self) != LinkKind::Nullable ==> r.0 is Some,
            is_local_of(r, gc.edge_word(*self)),
            gc.usable(guard.lid as int, opt_addr(r.0)),
    {
        proof {
            lemma_edge_usable(*gc, guard.lid as int, *self);
        }
        self.cell(gc).load_with_tag(guard, gc)
    }

    /// Replaces the pointer and its tag with the write barriers, and returns what they were.
    pub fn swap_with_tag<'l, 'g, G: Protector<T>, T: TraceObj>(
        &self,
        new: Option<&Local<'l, G, T>>,
        tag: u64,
        guard: &'g Guard,
        gc: &mut Global<T>,
    ) -> (r: (Option<Local<'g, Guard, T>>, u64))
        requires
            old(gc).wf(),
            old(gc).guarded(*guard),
            old(gc).edge_ok(guard.lid as int, *self),
            is_addr::<T>(opt_word(new)),
            old(gc).usable(guard.lid as int, opt_word(new)),
            old(gc).edge_kind(*self).takes(opt_word(new)),
        ensures
            final(gc).wf(),
            final(gc).guarded(*guard),
            is_local_of(r, old(gc).edge_word(*self)),
            final(gc).usable(guard.lid as int, opt_addr(r.0)),
            final(gc).edge_word(*self) == set_meta(
                tagged_word(new, tag),
                meta_of(old(gc).edge_word(*self)),
            ),
            holds::<T>(final(gc).edge_word(*self), opt_word(new), tag),
            final(gc).edge_ok(guard.lid as int, *self),
            final(gc).abs() == edge_set(
                old(gc).abs(),
                guard.lid as int,
                *self,
                final(gc).edge_word(*self),
            ),
            final(gc).only_barriers(
                *old(gc),
                guard.lid as int,
                guard.gid,
                edge_set_shades(
                    old(gc).abs(),
                    guard.lid as int,
                    *self,
                    final(gc).edge_word(*self),
                ),
            ),
            keeps_protected(old(gc).abs(), final(gc).abs()),
    {
        let ghost before = *gc;
        let ghost l = guard.lid as int;
        let mut cell: AtomicSharedOption<T> = self.cell(gc);
        proof {
            lemma_edge_usable(before, l, *self);
        }
        let r = cell.swap_with_tag(new, tag, guard, gc);
        let ghost swapped = *gc;
        proof {
            lemma_word::<T>(opt_word(new));
            lemma_tag::<T>(opt_word(new), tag);
            lemma_word::<T>(tagged_word(new, tag));
            lemma_edge_put(before, swapped, l, *self, cell.link);
        }
        self.put(cell, gc);
        proof {
            assert(gc.nodes() =~= before.nodes().update(l, gc.nodes()[l]));
        }
        r
    }

    /// Replaces the pointer with the write barriers, and returns what it was. The tag becomes
    /// zero.
    pub fn swap<'l, 'g, G: Protector<T>, T: TraceObj>(
        &self,
        new: Option<&Local<'l, G, T>>,
        guard: &'g Guard,
        gc: &mut Global<T>,
    ) -> (r: Option<Local<'g, Guard, T>>)
        requires
            old(gc).wf(),
            old(gc).guarded(*guard),
            old(gc).edge_ok(guard.lid as int, *self),
            is_addr::<T>(opt_word(new)),
            old(gc).usable(guard.lid as int, opt_word(new)),
            old(gc).edge_kind(*self).takes(opt_word(new)),
        ensures
            final(gc).wf(),
            final(gc).guarded(*guard),
            r is Some <==> addr_of::<T>(old(gc).edge_word(*self)) != 0,
            opt_addr(r) == addr_of::<T>(old(gc).edge_word(*self)),
            is_addr::<T>(opt_addr(r)),
            final(gc).usable(guard.lid as int, opt_addr(r)),
            final(gc).edge_word(*self) == set_meta(
                tagged_word(new, 0),
                meta_of(old(gc).edge_word(*self)),
            ),
            holds::<T>(final(gc).edge_word(*self), opt_word(new), 0),
            final(gc).edge_ok(guard.lid as int, *self),
            final(gc).abs() == edge_set(
                old(gc).abs(),
                guard.lid as int,
                *self,
                final(gc).edge_word(*self),
            ),
            final(gc).only_barriers(
                *old(gc),
                guard.lid as int,
                guard.gid,
                edge_set_shades(
                    old(gc).abs(),
                    guard.lid as int,
                    *self,
                    final(gc).edge_word(*self),
                ),
            ),
            keeps_protected(old(gc).abs(), final(gc).abs()),
    {
        self.swap_with_tag(new, 0, guard, gc).0
    }

    /// Replaces the pointer and its tag with the write barriers.
    pub fn store_with_tag<'l, G: Protector<T>, T: TraceObj>(
        &self,
        new: Option<&Local<'l, G, T>>,
        tag: u64,
        guard: &Guard,
        gc: &mut Global<T>,
    )
        requires
            old(gc).wf(),
            old(gc).guarded(*guard),
            old(gc).edge_ok(guard.lid as int, *self),
            is_addr::<T>(opt_word(new)),
            old(gc).usable(guard.lid as int, opt_word(new)),
            old(gc).edge_kind(*self).takes(opt_word(new)),
        ensures
            final(gc).wf(),
            final(gc).guarded(*guard),
            final(gc).edge_word(*self) == set_meta(
                tagged_word(new, tag),
                meta_of(old(gc).edge_word(*self)),
            ),
            holds::<T>(final(gc).edge_word(*self), opt_word(new), tag),
            final(gc).edge_ok(guard.lid as int, *self),
            final(gc).abs() == edge_set(
                old(gc).abs(),
                guard.lid as int,
                *self,
                final(gc).edge_word(*self),
            ),
            final(gc).only_barriers(
                *old(gc),
                guard.lid as int,
                guard.gid,
                edge_set_shades(
                    old(gc).abs(),
                    guard.lid as int,
                    *self,
                    final(gc).edge_word(*self),
                ),
            ),
            keeps_protected(old(gc).abs(), final(gc).abs()),
    {
        self.swap_with_tag(new, tag, guard, gc);
    }

    /// Replaces the pointer with the write barriers. The tag becomes zero.
    pub fn store<'l, G: Protector<T>, T: TraceObj>(
        &self,
        new: Option<&Local<'l, G, T>>,
        guard: &Guard,
        gc: &mut Global<T>,
    )
        requires
            old(gc).wf(),
            old(gc).guarded(*guard),
            old(gc).edge_ok(guard.lid as int, *self),
            is_addr::<T>(opt_word(new)),
            old(gc).usable(guard.lid as int, opt_word(new)),
            old(gc).edge_kind(*self).takes(opt_word(new)),
        ensures
            final(gc).wf(),
            final(gc).guarded(*guard),
            final(gc).edge_word(*self) == set_meta(
                tagged_word(new, 0),
                meta_of(old(gc).edge_word(*self)),
            ),
            holds::<T>(final(gc).edge_word(*self), opt_word(new), 0),
            final(gc).edge_ok(guard.lid as int, *self),
            final(gc).abs() == edge_set(
                old(gc).abs(),
                guard.lid as int,
                *self,
                final(gc).edge_word(*self),
            ),
            final(gc).only_barriers(
                *old(gc),
                guard.lid as int,
                guard.gid,
                edge_set_shades(
                    old(gc).abs(),
                    guard.lid as int,
                    *self,
                    final(gc).edge_word(*self),
                ),
            ),
            keeps_protected(old(gc).abs(), final(gc).abs()),
    {
        self.store_with_tag(new, 0, guard, gc);
    }

    /// Removes and returns what the pointer leads to, with its tag, and leaves it null.
    pub fn take_with_tag<'g, T: TraceObj>(&self, guard: &'g Guard, gc: &mut Global<T>) -> (r: (
        Option<Local<'g, Guard, T>>,
        u64,
    ))
        requires
            old(gc).wf(),
            old(gc).guarded(*guard),
            old(gc).edge_ok(guard.lid as int, *self),
            old(gc).edge_kind(*self).takes(0),
        ensures
            final(gc).wf(),
            final(gc).guarded(*guard),
            is_local_of(r, old(gc).edge_word(*self)),
            final(gc).usable(guard.lid as int, opt_addr(r.0)),
            holds::<T>(final(gc).edge_word(*self), 0, 0),
            final(gc).edge_ok(guard.lid as int, *self),
            final(gc).edge_word(*self) == set_meta(0, meta_of(old(gc).edge_word(*self))),
            final(gc).abs() == edge_set(
                old(gc).abs(),
                guard.lid as int,
                *self,
                final(gc).edge_word(*self),
            ),
            final(gc).only_barriers(
                *old(gc),
                guard.lid as int,
                guard.gid,
                edge_set_shades(
                    old(gc).abs(),
                    guard.lid as int,
                    *self,
                    final(gc).edge_word(*self),
                ),
            ),
            keeps_protected(old(gc).abs(), final(gc).abs()),
    {
        let ghost before = *gc;
        let ghost l = guard.lid as int;
        let mut cell: AtomicSharedOption<T> = self.cell(gc);
        proof {
            lemma_edge_usable(before, l, *self);
        }
        let r = cell.take_with_tag(guard, gc);
        let ghost swapped = *gc;
        proof {
            lemma_null_word::<T>(0);
            lemma_word::<T>(0);
            lemma_edge_put(before, swapped, l, *self, cell.link);
        }
        self.put(cell, gc);
        proof {
            assert(gc.nodes() =~= before.nodes().update(l, gc.nodes()[l]));
        }
        r
    }

    /// Removes and returns what the pointer leads to, and leaves it null.
    pub fn take<'g, T: TraceObj>(&self, guard: &'g Guard, gc: &mut Global<T>) -> (r: Option<
        Local<'g, Guard, T>,
    >)
        requires
            old(gc).wf(),
            old(gc).guarded(*guard),
            old(gc).edge_ok(guard.lid as int, *self),
            old(gc).edge_kind(*self).takes(0),
        ensures
            final(gc).wf(),
            final(gc).guarded(*guard),
            r is Some <==> addr_of::<T>(old(gc).edge_word(*self)) != 0,
            opt_addr(r) == addr_of::<T>(old(gc).edge_word(*self)),
            is_addr::<T>(opt_addr(r)),
            final(gc).usable(guard.lid as int, opt_addr(r)),
            holds::<T>(final(gc).edge_word(*self), 0, 0),
            final(gc).edge_ok(guard.lid as int, *self),
            final(gc).edge_word(*self) == set_meta(0, meta_of(old(gc).edge_word(*self))),
            final(gc).abs() == edge_set(
                old(gc).abs(),
                guard.lid as int,
                *self,
                final(gc).edge_word(*self),
            ),
            final(gc).only_barriers(
                *old(gc),
                guard.lid as int,
                guard.gid,
                edge_set_shades(
                    old(gc).abs(),
                    guard.lid as int,
                    *self,
                    final(gc).edge_word(*self),
                ),
            ),
            keeps_protected(old(gc).abs(), final(gc).abs()),
    {
        self.take_with_tag(guard, gc).0
    }

    /// Replaces the pointer and its tag with the write barriers, if they are the expected ones.
    ///
    /// Both results hold the pointer and the tag that were there.
    pub fn compare_exchange_with_tag<'l1, 'l2, 'g, G1: Protector<T>, G2: Protector<T>, T: TraceObj>(
        &self,
        current_tag: (Option<&Local<'l1, G1, T>>, u64),
        new_tag: (Option<&Local<'l2, G2, T>>, u64),
        guard: &'g Guard,
        gc: &mut Global<T>,
    ) -> (r: Result<(Option<Local<'g, Guard, T>>, u64), (Option<Local<'g, Guard, T>>, u64)>)
        requires
            old(gc).wf(),
            old(gc).guarded(*guard),
            old(gc).edge_ok(guard.lid as int, *self),
            is_addr::<T>(opt_word(current_tag.0)),
            is_addr::<T>(opt_word(new_tag.0)),
            old(gc).usable(guard.lid as int, opt_word(new_tag.0)),
            old(gc).edge_kind(*self).takes(opt_word(new_tag.0)),
        ensures
            final(gc).wf(),
            final(gc).guarded(*guard),
            final(gc).usable(guard.lid as int, old(gc).edge_word(*self)),
            final(gc).edge_ok(guard.lid as int, *self),
            keeps_protected(old(gc).abs(), final(gc).abs()),
            ({
                let before = old(gc).edge_word(*self);
                let expected = holds::<T>(before, opt_word(current_tag.0), current_tag.1);
                &&& expected ==> {
                    &&& r matches Ok(p) && is_local_of(p, before)
                    &&& final(gc).edge_word(*self) == set_meta(
                        tagged_word(new_tag.0, new_tag.1),
                        meta_of(before),
                    )
                    &&& holds::<T>(final(gc).edge_word(*self), opt_word(new_tag.0), new_tag.1)
                    &&& final(gc).abs() == edge_set(
                        old(gc).abs(),
                        guard.lid as int,
                        *self,
                        final(gc).edge_word(*self),
                    )
                    &&& final(gc).only_barriers(
                        *old(gc),
                        guard.lid as int,
                        guard.gid,
                        edge_set_shades(
                            old(gc).abs(),
                            guard.lid as int,
                            *self,
                            final(gc).edge_word(*self),
                        ),
                    )
                }
                &&& !expected ==> {
                    &&& r matches Err(p) && is_local_of(p, before)
                    &&& *final(gc) == *old(gc)
                }
            }),
    {
        let ghost before = *gc;
        let ghost l = guard.lid as int;
        let mut cell: AtomicSharedOption<T> = self.cell(gc);
        proof {
            lemma_edge_usable(before, l, *self);
            assert(gc.nodes() =~= before.nodes().update(l, gc.nodes()[l]));
        }
        let r = cell.compare_exchange_with_tag(current_tag, new_tag, guard, gc);
        match r {
            Ok(previous) => {
                let ghost swapped = *gc;
                proof {
                    lemma_word::<T>(opt_word(new_tag.0));
                    lemma_tag::<T>(opt_word(new_tag.0), new_tag.1);
                    lemma_word::<T>(tagged_word(new_tag.0, new_tag.1));
                    lemma_edge_put(before, swapped, l, *self, cell.link);
                }
                self.put(cell, gc);
                proof {
                    assert(gc.nodes() =~= before.nodes().update(l, gc.nodes()[l]));
                }
                Ok(previous)
            },
            Err(current) => Err(current),
        }
    }

    /// Replaces the pointer with the write barriers, if it is the expected one and has no tag.
    pub fn compare_exchange<'l1, 'l2, 'g, G1: Protector<T>, G2: Protector<T>, T: TraceObj>(
        &self,
        current: Option<&Local<'l1, G1, T>>,
        new: Option<&Local<'l2, G2, T>>,
        guard: &'g Guard,
        gc: &mut Global<T>,
    ) -> (r: Result<Option<Local<'g, Guard, T>>, Option<Local<'g, Guard, T>>>)
        requires
            old(gc).wf(),
            old(gc).guarded(*guard),
            old(gc).edge_ok(guard.lid as int, *self),
            is_addr::<T>(opt_word(current)),
            is_addr::<T>(opt_word(new)),
            old(gc).usable(guard.lid as int, opt_word(new)),
            old(gc).edge_kind(*self).takes(opt_word(new)),
        ensures
            final(gc).wf(),
            final(gc).guarded(*guard),
            final(gc).usable(guard.lid as int, old(gc).edge_word(*self)),
            final(gc).edge_ok(guard.lid as int, *self),
            keeps_protected(old(gc).abs(), final(gc).abs()),
            ({
                let before = old(gc).edge_word(*self);
                let expected = holds::<T>(before, opt_word(current), 0);
                &&& expected ==> {
                    &&& r matches Ok(p) && is_local_of((p, tag_of::<T>(before)), before)
                    &&& final(gc).edge_word(*self) == set_meta(
                        tagged_word(new, 0),
                        meta_of(before),
                    )
                    &&& holds::<T>(final(gc).edge_word(*self), opt_word(new), 0)
                    &&& final(gc).abs() == edge_set(
                        old(gc).abs(),
                        guard.lid as int,
                        *self,
                        final(gc).edge_word(*self),
                    )
                    &&& final(gc).only_barriers(
                        *old(gc),
                        guard.lid as int,
                        guard.gid,
                        edge_set_shades(
                            old(gc).abs(),
                            guard.lid as int,
                            *self,
                            final(gc).edge_word(*self),
                        ),
                    )
                }
                &&& !expected ==> {
                    &&& r matches Err(p) && is_local_of((p, tag_of::<T>(before)), before)
                    &&& *final(gc) == *old(gc)
                }
            }),
    {
        match self.compare_exchange_with_tag((current, 0), (new, 0), guard, gc) {
            Ok(pt) => Ok(pt.0),
            Err(pt) => Err(pt.0),
        }
    }

    /// Adds the bits of the given tag to the tag, and returns what the pointer and the tag were.
    /// Only the tag changes.
    pub fn fetch_tag_or<'g, T: TraceObj>(
        &self,
        tag: u64,
        guard: &'g Guard,
        gc: &mut Global<T>,
    ) -> (r: (Option<Local<'g, Guard, T>>, u64))
        requires
            old(gc).wf(),
            old(gc).guarded(*guard),
            old(gc).edge_ok(guard.lid as int, *self),
            old(gc).edge_kind(*self) != LinkKind::Fixed,
        ensures
            final(gc).wf(),
            final(gc).guarded(*guard),
            is_local_of(r, old(gc).edge_word(*self)),
            final(gc).usable(guard.lid as int, opt_addr(r.0)),
            final(gc).abs() == set_edge(
                old(gc).abs(),
                self.owner,
                self.index as int,
                set_tag::<T>(
                    old(gc).edge_word(*self),
                    tag_of::<T>(old(gc).edge_word(*self)) | tag,
                ),
            ),
            holds::<T>(
                final(gc).edge_word(*self),
                addr_of::<T>(old(gc).edge_word(*self)),
                tag_of::<T>(old(gc).edge_word(*self)) | tag,
            ),
            final(gc).edge_ok(guard.lid as int, *self),
            final(gc).only_headers(*old(gc)),
            keeps_protected(old(gc).abs(), final(gc).abs()),
    {
        let ghost before = *gc;
        let ghost l = guard.lid as int;
        let mut cell: AtomicSharedOption<T> = self.cell(gc);
        proof {
            lemma_edge_usable(before, l, *self);
            lemma_word::<T>(cell.link);
            lemma_tag::<T>(cell.link, tag_of::<T>(cell.link) | tag);
        }
        let r = cell.fetch_tag_or(tag, guard);
        proof {
            lemma_edge_retagged(before, l, *self, cell.link);
        }
        self.put(cell, gc);
        r
    }

    /// Takes away the tag bits that are not in the given tag, and returns what the pointer and
    /// the tag were. Only the tag changes.
    pub fn fetch_tag_and<'g, T: TraceObj>(
        &self,
        tag: u64,
        guard: &'g Guard,
        gc: &mut Global<T>,
    ) -> (r: (Option<Local<'g, Guard, T>>, u64))
        requires
            old(gc).wf(),
            old(gc).guarded(*guard),
            old(gc).edge_ok(guard.lid as int, *self),
            old(gc).edge_kind(*self) != LinkKind::Fixed,
        ensures
            final(gc).wf(),
            final(gc).guarded(*guard),
            is_local_of(r, old(gc).edge_word(*self)),
            final(gc).usable(guard.lid as int, opt_addr(r.0)),
            final(gc).abs() == set_edge(
                old(gc).abs(),
                self.owner,
                self.index as int,
                set_tag::<T>(
                    old(gc).edge_word(*self),
                    tag_of::<T>(old(gc).edge_word(*self)) & tag,
                ),
            ),
            holds::<T>(
                final(gc).edge_word(*self),
                addr_of::<T>(old(gc).edge_word(*self)),
                tag_of::<T>(old(gc).edge_word(*self)) & tag,
            ),
            final(gc).edge_ok(guard.lid as int, *self),
            final(gc).only_headers(*old(gc)),
            keeps_protected(old(gc).abs(), final(gc).abs()),
    {
        let ghost before = *gc;
        let ghost l = guard.lid as int;
        let mut cell: AtomicSharedOption<T> = self.cell(gc);
        proof {
            lemma_edge_usable(before, l, *self);
            lemma_word::<T>(cell.link);
            lemma_tag::<T>(cell.link, tag_of::<T>(cell.link) & tag);
        }
        let r = cell.fetch_tag_and(tag, guard);
        proof {
            lemma_edge_retagged(before, l, *self, cell.link);
        }
        self.put(cell, gc);
        r
    }

    /// Flips the tag bits that are in the given tag, and returns what the pointer and the tag
    /// were. Only the tag changes.
    pub fn fetch_tag_xor<'g, T: TraceObj>(
        &self,
        tag: u64,
        guard: &'g Guard,
        gc: &mut Global<T>,
    ) -> (r: (Option<Local<'g, Guard, T>>, u64))
        requires
            old(gc).wf(),
            old(gc).guarded(*guard),
            old(gc).edge_ok(guard.lid as int, *self),
            old(gc).edge_kind(*self) != LinkKind::Fixed,
        ensures
            final(gc).wf(),
            final(gc).guarded(*guard),
            is_local_of(r, old(gc).edge_word(*self)),
            final(gc).usable(guard.lid as int, opt_addr(r.0)),
            final(gc).abs() == set_edge(
                old(gc).abs(),
                self.owner,
                self.index as int,
                set_tag::<T>(
                    old(gc).edge_word(*self),
                    tag_of::<T>(old(gc).edge_word(*self)) ^ tag,
                ),
            ),
            holds::<T>(
                final(gc).edge_word(*self),
                addr_of::<T>(old(gc).edge_word(*self)),
                tag_of::<T>(old(gc).edge_word(*self)) ^ tag,
            ),
            final(gc).edge_ok(guard.lid as int, *self),
            final(gc).only_headers(*old(gc)),
            keeps_protected(old(gc).abs(), final(gc).abs()),
    {
        let ghost before = *gc;
        let ghost l = guard.lid as int;
        let mut cell: AtomicSharedOption<T> = self.cell(gc);
        proof {
            lemma_edge_usable(before, l, *self);
            lemma_word::<T>(cell.link);
            lemma_tag::<T>(cell.link, tag_of::<T>(cell.link) ^ tag);
        }
        let r = cell.fetch_tag_xor(tag, guard);
        proof {
            lemma_edge_retagged(before, l, *self, cell.link);
        }
        self.put(cell, gc);
        r
    }
}

/// Putting a pointer back after its barriers is a safe step.
proof fn lemma_edge_put<T: TraceObj>(
    before: Global<T>,
    swapped: Global<T>,
    l: int,
    e: Edge,
    word: u64,
)
    requires
        before.wf(),
        before.pinned(l),
        before.edge_ok(l, e),
        swapped.wf(),
        swapped.abs() == cell_swapped(before.abs(), l, before.edge_word(e), addr_of::<T>(word)),
        before.usable(l, word),
        meta_of(word) == meta_of(before.edge_word(e)),
        before.edge_kind(e).takes(addr_of::<T>(word)),
    ensures
        swapped.heap.has(e.owner),
        e.index < swapped.abs().objs[e.owner].links.len(),
        set_edge(swapped.abs(), e.owner, e.index as int, word) == edge_set(
            before.abs(),
            l,
            e,
            word,
        ),
        edge_set(before.abs(), l, e, word).sound(),
        keeps_protected(before.abs(), edge_set(before.abs(), l, e, word)),
        usable_in(edge_set(before.abs(), l, e, word), l, addr_of::<T>(before.edge_word(e))),
        edge_set(before.abs(), l, e, word).objs[e.owner].links[e.index as int] == word,
{
    let s = before.abs();
    assert(s.parts[l].pinned());
    lemma_edge_usable(before, l, e);
    lemma_edge_changed(s, l, e.owner, e.index as int, word);
    assert(swapped.abs().objs.contains_key(e.owner));
    let t = edge_set(s, l, e, word);
    assert(t.parts == s.parts);
}

/// Changing only the tag of an edge is a safe step without barriers.
proof fn lemma_edge_retagged<T: TraceObj>(before: Global<T>, l: int, e: Edge, word: u64)
    requires
        before.wf(),
        before.pinned(l),
        before.edge_ok(l, e),
        addr_of::<T>(word) == addr_of::<T>(before.edge_word(e)),
        meta_of(word) == meta_of(before.edge_word(e)),
    ensures
        before.heap.has(e.owner),
        set_edge(before.abs(), e.owner, e.index as int, word).sound(),
        keeps_protected(before.abs(), set_edge(before.abs(), e.owner, e.index as int, word)),
        usable_in(
            set_edge(before.abs(), e.owner, e.index as int, word),
            l,
            addr_of::<T>(before.edge_word(e)),
        ),
{
    let s = before.abs();
    let a = addr_of::<T>(word);
    assert(s.parts[l].pinned());
    lemma_edge_usable(before, l, e);
    assert(before.abs().objs.contains_key(e.owner));
    if a != 0 {
        assert(s.edge(e.owner, a));
    }
    assert(crate::steps::edge_barriers(s, e.owner, e.index as int, word));
    crate::steps::lemma_set_edge(s, e.owner, e.index as int, word);
}
} // verus!
