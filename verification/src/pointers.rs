//! Managed pointer types for building data structures in the managed heap.
//!
//! - [`Local`]: the pointer to use an object through, for as long as a guard or a hazard pointer
//!   protects it.
//! - [`Shared`]: an immutable root, or an immutable edge in an object.
//! - [`AtomicShared`]: a mutable root or edge that is never null.
//! - [`AtomicSharedOption`]: a mutable root or edge that may be null.

use crate::barriers::{
    deletion_barrier, deletion_shades, edge_color_ok, edge_swapped, insertion_barrier,
    insertion_shades, lemma_edge_swapped, lemma_root_swapped, root_shades, root_swapped,
    swap_shades,
};
use crate::epoch::{Color, Phase};
use crate::global::{lemma_sched_none, lemma_sched_on, Global};
use crate::guards::{Guard, Handle};
use crate::hazard_pointer::HazardPointer;
use crate::internal::{hazard_set, Local as Participant};
use crate::man_ptr::{
    addr_of, clear_meta, holds, is_addr, lemma_holds, lemma_null_word, lemma_tag, lemma_word,
    meta_of, set_meta, set_tag, tag_bits, tag_of, ManPtr, PtrMeta,
};
use crate::model::GcModel;
use crate::roots::{lemma_rooted_protected, root_released};
use crate::steps::{inc_root, keeps_protected, lemma_inc_root, set_hazards};
use crate::trace::TraceObj;
use std::marker::PhantomData;
use vstd::prelude::*;

verus! {

/// What can protect an object: a guard, or a handle through a hazard pointer.
pub trait Protector<T: TraceObj> {
    /// What the protection is held by.
    type Shield;

    /// The object can be protected.
    spec fn can_protect(&self, gc: Global<T>, a: u64) -> bool;

    /// The object has been protected.
    spec fn has_protected(
        &self,
        before: Global<T>,
        after: Global<T>,
        a: u64,
        shield: Self::Shield,
    ) -> bool;

    /// Protects the object that a pointer leads to.
    fn protect(&self, ptr: ManPtr<T>, gc: &mut Global<T>) -> (r: Self::Shield)
        requires
            self.can_protect(*old(gc), addr_of::<T>(ptr.data)),
        ensures
            self.has_protected(*old(gc), *final(gc), addr_of::<T>(ptr.data), r),
    ;
}

impl<T: TraceObj> Protector<T> for Guard {
    type Shield = ();

    /// The guard's participant is pinned and may use the object.
    open spec fn can_protect(&self, gc: Global<T>, a: u64) -> bool {
        gc.wf() && gc.guarded(*self) && gc.usable(self.lid as int, a)
    }

    /// Nothing has to be done.
    open spec fn has_protected(
        &self,
        before: Global<T>,
        after: Global<T>,
        a: u64,
        shield: (),
    ) -> bool {
        after == before
    }

    fn protect(&self, ptr: ManPtr<T>, gc: &mut Global<T>) -> (r: ()) {
    }
}

impl<T: TraceObj> Protector<T> for Handle {
    type Shield = HazardPointer;

    /// The participant is pinned and may use the object, or protects it already.
    open spec fn can_protect(&self, gc: Global<T>, a: u64) -> bool {
        gc.wf() && gc.knows(*self) && gc.may_protect(self.lid as int, a)
    }

    /// One more hazard pointer of the participant protects the object.
    open spec fn has_protected(
        &self,
        before: Global<T>,
        after: Global<T>,
        a: u64,
        shield: HazardPointer,
    ) -> bool {
        let l = self.lid as int;
        let h = before.abs().parts[l].hazards;
        &&& after.wf()
        &&& shield.lid == self.lid
        &&& after.owns_hp(shield)
        &&& after.hazard(shield) == a
        &&& after.abs() == set_hazards(
            before.abs(),
            l,
            if a == 0 {
                h
            } else {
                h.insert(a)
            },
        )
        &&& after.only_local(before, l)
        &&& after.local(l) == (Participant {
            hazards: after.local(l).hazards,
            hazards_marker: after.local(l).hazards_marker,
            available_hids: after.local(l).available_hids,
            ..before.local(l)
        })
        &&& forall|hp: HazardPointer| #[trigger]
            before.owns_hp(hp) ==> after.owns_hp(hp) && after.hazard(hp) == before.hazard(hp)
                && hp != shield
        &&& keeps_protected(before.abs(), after.abs())
    }

    fn protect(&self, ptr: ManPtr<T>, gc: &mut Global<T>) -> (r: HazardPointer) {
        let ghost before = *gc;
        let ghost l = self.lid as int;
        let ghost a = addr_of::<T>(ptr.data);
        let hp: HazardPointer = HazardPointer::new(self.lid, gc);
        let ghost mid = *gc;
        hp.protect(ptr, gc);
        proof {
            let h0 = mid.local(l).hazards@;
            let h1 = h0.update(hp.hid as int, a);
            let h = before.abs().parts[l].hazards;
            assert(h == hazard_set(h0));
            let want = if a == 0 {
                h
            } else {
                h.insert(a)
            };
            assert forall|x: u64| #[trigger] hazard_set(h1).contains(x) == want.contains(x) by {
                if want.contains(x) {
                    if x == a {
                        assert(h1[hp.hid as int] == x);
                        assert(h1.contains(x));
                    } else {
                        let k = choose|k: int| 0 <= k < h0.len() && h0[k] == x;
                        assert(h1[k] == x);
                        assert(h1.contains(x));
                    }
                }
                if hazard_set(h1).contains(x) && x != a {
                    let k = choose|k: int| 0 <= k < h1.len() && h1[k] == x;
                    assert(h0[k] == x);
                    assert(h0.contains(x));
                }
            }
            assert(hazard_set(h1) =~= want);
            assert(gc.nodes() =~= before.nodes().update(l, gc.nodes()[l]));
            assert forall|p: HazardPointer| #[trigger] before.owns_hp(p) implies gc.owns_hp(p)
                && gc.hazard(p) == before.hazard(p) && p != hp by {
                assert(mid.owns_hp(p));
            }
        }
        hp
    }
}

/// A pointer to an object that a guard or a hazard pointer protects.
pub struct Local<'g, G: Protector<T>, T: TraceObj> {
    pub ptr: u64,
    pub sh: G::Shield,
    pub marker: PhantomData<(&'g (), T)>,
}

impl<'g, T: TraceObj> Clone for Local<'g, Guard, T> {
    fn clone(&self) -> (r: Self)
        ensures
            r.ptr == self.ptr,
    {
        Local { ptr: self.ptr, sh: (), marker: PhantomData }
    }
}

impl<'g, T: TraceObj> Copy for Local<'g, Guard, T> {

}

impl<'g, G: Protector<T>, T: TraceObj> Local<'g, G, T> {
    /// The pointer without metadata or tag.
    pub fn as_man_ptr(&self) -> (r: ManPtr<T>)
        ensures
            r.data == self.ptr,
    {
        ManPtr::from(self.ptr)
    }

    /// Returns `true` if the two point to the same object, however it is protected.
    pub fn ptr_eq<'h, H: Protector<T>>(this: &Self, other: &Local<'h, H, T>) -> (r: bool)
        ensures
            r == (this.ptr == other.ptr),
    {
        this.ptr == other.ptr
    }

    /// Returns `true` if both point to the same object or are both `None`.
    pub fn opt_ptr_eq<'h, H: Protector<T>>(
        this: Option<&Self>,
        other: Option<&Local<'h, H, T>>,
    ) -> (r: bool)
        ensures
            r == (match (this, other) {
                (None, None) => true,
                (Some(a), Some(b)) => a.ptr == b.ptr,
                _ => false,
            }),
    {
        match (this, other) {
            (None, None) => true,
            (Some(l1), Some(l2)) => Self::ptr_eq(l1, l2),
            _ => false,
        }
    }
}

/// The word of an optional pointer: null if there is none.
pub open spec fn opt_word<'g, G: Protector<T>, T: TraceObj>(value: Option<&Local<'g, G, T>>) -> u64 {
    match value {
        Some(local) => local.ptr,
        None => 0,
    }
}

impl<T: TraceObj> ManPtr<T> {
    /// The pointer to what an optional local pointer leads to.
    pub fn from_local<'g, G: Protector<T>>(value: Option<&Local<'g, G, T>>) -> (r: Self)
        ensures
            r.data == opt_word(value),
    {
        match value {
            Some(local) => local.as_man_ptr(),
            None => ManPtr::null_base(),
        }
    }

    /// The pointer to what an optional local pointer leads to, with a tag.
    pub fn from_local_with_tag<'g, G: Protector<T>>(
        value: (Option<&Local<'g, G, T>>, u64),
    ) -> (r: Self)
        ensures
            r.data == set_tag::<T>(opt_word(value.0), value.1),
    {
        Self::from_local(value.0).with_tag(value.1)
    }
}

/// The address of an optional pointer, zero if there is none.
pub open spec fn opt_addr<'g, T: TraceObj>(value: Option<Local<'g, Guard, T>>) -> u64 {
    match value {
        Some(local) => local.ptr,
        None => 0,
    }
}

impl<T: TraceObj> ManPtr<T> {
    /// The pointer as a local one, and its tag.
    pub fn as_local_with_tag<'g>(self, guard: &'g Guard) -> (r: (
        Option<Local<'g, Guard, T>>,
        u64,
    ))
        ensures
            opt_addr(r.0) == addr_of::<T>(self.data),
            r.0 is Some <==> addr_of::<T>(self.data) != 0,
            is_addr::<T>(opt_addr(r.0)),
            r.1 == tag_of::<T>(self.data),
    {
        let tag: u64 = self.tag();
        let opt_local: Option<Local<'g, Guard, T>> = if self.is_null() {
            proof {
                lemma_null_word::<T>(0);
            }
            None
        } else {
            Some(Local { ptr: self.as_ptr(), sh: (), marker: PhantomData })
        };
        (opt_local, tag)
    }
}

impl<T: TraceObj> Global<T> {
    /// The word is that of a root that counts, or of an edge in an object that a pinned
    /// participant may use.
    pub open spec fn cell_ok(self, l: int, w: u64) -> bool {
        match meta_of(w) {
            PtrMeta::Rooted => self.rooted_ok(w),
            PtrMeta::Unrooted(c) => self.usable(l, w) && edge_color_ok(self.abs(), c),
        }
    }

    /// A pinned participant may use what the word leads to, and a root that comes to lead there
    /// can be counted.
    pub open spec fn target_ok(self, l: int, cell: u64, w: u64) -> bool {
        self.usable(l, w) && (meta_of(cell) == PtrMeta::Rooted ==> self.root_room(w))
    }
}

/// What the collector sees of a pointer that comes to lead elsewhere.
pub open spec fn cell_swapped(s: GcModel, l: int, cell: u64, after: u64) -> GcModel {
    match meta_of(cell) {
        PtrMeta::Rooted => root_swapped(s, s.addr(cell), after),
        PtrMeta::Unrooted(c) => edge_swapped(
            s,
            s.parts[l].epoch.white().flipped(),
            c,
            s.addr(cell),
            after,
        ),
    }
}

/// What is scheduled when a pointer comes to lead elsewhere.
pub open spec fn cell_shades(s: GcModel, l: int, cell: u64, after: u64) -> Seq<u64> {
    match meta_of(cell) {
        PtrMeta::Rooted => root_shades(
            if after != 0 {
                inc_root(s, after)
            } else {
                s
            },
            s.addr(cell),
        ),
        PtrMeta::Unrooted(c) => swap_shades(
            s,
            s.parts[l].epoch.white().flipped(),
            c,
            s.addr(cell),
            after,
        ),
    }
}

/// A nullable pointer to a managed object: a root where it stands alone, an edge where it is part
/// of an object.
pub struct AtomicSharedOption<T> {
    pub link: u64,
    pub marker: PhantomData<T>,
}

impl<T> Default for AtomicSharedOption<T> {
    /// A null pointer.
    fn default() -> (r: Self)
        ensures
            r.link == 0,
    {
        Self::none()
    }
}

impl<T> AtomicSharedOption<T> {
    /// A null pointer. All bits of it are zero.
    pub fn none() -> (r: Self)
        ensures
            r.link == 0,
            addr_of::<T>(r.link) == 0,
            tag_of::<T>(r.link) == 0,
            meta_of(r.link) == PtrMeta::Rooted,
    {
        proof {
            lemma_null_word::<T>(0);
        }
        AtomicSharedOption { link: 0, marker: PhantomData }
    }

    /// A null pointer with a tag.
    pub fn none_with_tag(tag: u64) -> (r: Self)
        ensures
            addr_of::<T>(r.link) == 0,
            tag_of::<T>(r.link) == tag & tag_bits::<T>(),
            meta_of(r.link) == PtrMeta::Rooted,
    {
        Self::from_raw(ManPtr::null_rooted_with_tag(tag))
    }

    /// A pointer with the given word.
    pub fn from_raw(ptr: ManPtr<T>) -> (r: Self)
        ensures
            r.link == ptr.data,
    {
        AtomicSharedOption { link: ptr.data, marker: PhantomData }
    }
}

impl<T: TraceObj> AtomicSharedOption<T> {
    /// Replaces a rooted pointer if it has the expected word, and releases the root it was.
    fn internal_exchange_rooted(
        &mut self,
        expected: ManPtr<T>,
        new_rooted: ManPtr<T>,
        guard: &Guard,
        gc: &mut Global<T>,
    ) -> (r: Result<ManPtr<T>, ManPtr<T>>)
        requires
            old(gc).wf(),
            old(gc).guarded(*guard),
            old(gc).rooted_ok(expected.data),
            meta_of(new_rooted.data) == PtrMeta::Rooted,
        ensures
            final(gc).wf(),
            keeps_protected(old(gc).abs(), final(gc).abs()),
            old(self).link == expected.data ==> {
                &&& final(gc).only_barriers(
                    *old(gc),
                    guard.lid as int,
                    guard.gid,
                    root_shades(old(gc).abs(), addr_of::<T>(expected.data)),
                )
                &&& r matches Ok(p) && p.data == expected.data
                &&& final(self).link == new_rooted.data
                &&& final(gc).abs() == (if addr_of::<T>(expected.data) == 0 {
                    old(gc).abs()
                } else {
                    root_released(old(gc).abs(), addr_of::<T>(expected.data))
                })
            },
            old(self).link != expected.data ==> {
                &&& r matches Err(p) && p.data == old(self).link
                &&& final(self).link == old(self).link
                &&& *final(gc) == *old(gc)
            },
    {
        proof {
            lemma_sched_none(*gc, guard.lid as int, guard.gid);
        }
        if self.link != expected.data {
            return Err(ManPtr::from(self.link));
        }
        self.link = new_rooted.data;
        if expected.is_null() {
            return Ok(expected);
        }
        gc.release_root(expected, guard.lid, guard.gid);
        Ok(expected)
    }
}

/// The color of an edge.
pub open spec fn edge_color(w: u64) -> Color {
    match meta_of(w) {
        PtrMeta::Unrooted(c) => c,
        PtrMeta::Rooted => Color::C0,
    }
}

impl<T: TraceObj> Global<T> {
    /// The word leads nowhere or to an object.
    pub open spec fn leads_somewhere(self, w: u64) -> bool {
        addr_of::<T>(w) != 0 ==> self.heap.has(addr_of::<T>(w))
    }
}

impl<T: TraceObj> AtomicSharedOption<T> {
    /// Replaces an edge if it has the expected word, with the barriers that its color asks for.
    /// It keeps its color.
    fn internal_exchange_unrooted_weak(
        &mut self,
        expected: ManPtr<T>,
        new: ManPtr<T>,
        guard: &Guard,
        gc: &mut Global<T>,
    ) -> (r: Result<ManPtr<T>, ManPtr<T>>)
        requires
            old(gc).fits(),
            old(gc).abs().epoch.valid(),
            old(gc).guarded(*guard),
            meta_of(expected.data) is Unrooted,
            old(gc).leads_somewhere(expected.data),
            old(gc).leads_somewhere(new.data),
        ensures
            final(gc).fits(),
            ({
                let b = old(gc).black_of(guard.lid as int);
                let c = edge_color(expected.data);
                let s = insertion_barrier(
                    old(gc).abs(),
                    b,
                    c,
                    addr_of::<T>(expected.data),
                    addr_of::<T>(new.data),
                );
                let first = insertion_shades(
                    old(gc).abs(),
                    b,
                    c,
                    addr_of::<T>(expected.data),
                    addr_of::<T>(new.data),
                );
                &&& old(self).link == expected.data ==> {
                    &&& final(gc).only_sched(
                        *old(gc),
                        guard.lid as int,
                        guard.gid,
                        swap_shades(
                            old(gc).abs(),
                            b,
                            c,
                            addr_of::<T>(expected.data),
                            addr_of::<T>(new.data),
                        ),
                    )
                    &&& r matches Ok(p) && p.data == expected.data
                    &&& final(self).link == set_meta(new.data, PtrMeta::Unrooted(c))
                    &&& final(gc).abs() == deletion_barrier(
                        s,
                        b,
                        c,
                        addr_of::<T>(expected.data),
                        addr_of::<T>(new.data),
                    )
                }
                &&& old(self).link != expected.data ==> {
                    &&& final(gc).only_sched(*old(gc), guard.lid as int, guard.gid, first)
                    &&& r matches Err(p) && p.data == old(self).link
                    &&& final(self).link == old(self).link
                    &&& final(gc).abs() == s
                }
            }),
    {
        let ghost before = *gc;
        let ghost l = guard.lid as int;
        let ghost b = gc.black_of(l);
        let ghost from = addr_of::<T>(expected.data);
        let ghost to = addr_of::<T>(new.data);
        proof {
            lemma_sched_none(before, l, guard.gid);
        }
        let lid: usize = guard.lid;
        let white: Color = gc.locals.nodes[lid].item.epoch.color();
        let color: Color = match expected.meta() {
            PtrMeta::Unrooted(c) => c,
            PtrMeta::Rooted => Color::C0,
        };
        if expected.as_ptr() != new.as_ptr() && color == white.flip() {
            gc.shade_pointee(new, guard.lid, guard.gid);
        }
        let ghost mid = *gc;
        let ghost first = insertion_shades(before.abs(), b, color, from, to);
        let ghost second = deletion_shades(before.abs(), b, color, from, to);
        proof {
            lemma_sched_none(mid, l, guard.gid);
        }
        if self.link != expected.data {
            return Err(ManPtr::from(self.link));
        }
        self.link = new.with_meta(PtrMeta::Unrooted(color)).data;
        if expected.as_ptr() != new.as_ptr() && color == white && gc.epoch.load().phase()
            != Phase::N {
            gc.shade_pointee(expected, guard.lid, guard.gid);
        }
        proof {
            lemma_sched_on(before, mid, *gc, l, guard.gid, first, second);
        }
        Ok(expected)
    }

    /// Replaces an edge if it has the expected address and tag. Where only its color is not the
    /// expected one, it tries once more with the color it has.
    fn internal_exchange_unrooted(
        &mut self,
        expected: ManPtr<T>,
        new: ManPtr<T>,
        guard: &Guard,
        gc: &mut Global<T>,
    ) -> (r: Result<ManPtr<T>, ManPtr<T>>)
        requires
            old(gc).fits(),
            old(gc).abs().epoch.valid(),
            old(gc).guarded(*guard),
            meta_of(expected.data) is Unrooted,
            meta_of(old(self).link) is Unrooted,
            old(gc).leads_somewhere(expected.data),
            old(gc).leads_somewhere(new.data),
        ensures
            final(gc).fits(),
            ({
                let b = old(gc).black_of(guard.lid as int);
                let link = old(self).link;
                let before = addr_of::<T>(expected.data);
                let after = addr_of::<T>(new.data);
                let s = insertion_barrier(
                    old(gc).abs(),
                    b,
                    edge_color(expected.data),
                    before,
                    after,
                );
                let first = insertion_shades(
                    old(gc).abs(),
                    b,
                    edge_color(expected.data),
                    before,
                    after,
                );
                let swapped = swap_shades(old(gc).abs(), b, edge_color(link), before, after);
                &&& clear_meta(link) == clear_meta(expected.data) ==> {
                    &&& final(gc).only_sched(
                        *old(gc),
                        guard.lid as int,
                        guard.gid,
                        if link == expected.data {
                            swapped
                        } else {
                            first + swapped
                        },
                    )
                    &&& r matches Ok(p) && p.data == link
                    &&& final(self).link == set_meta(new.data, meta_of(link))
                    &&& link == expected.data ==> final(gc).abs() == edge_swapped(
                        old(gc).abs(),
                        b,
                        edge_color(link),
                        before,
                        after,
                    )
                    &&& link != expected.data ==> final(gc).abs() == edge_swapped(
                        s,
                        b,
                        edge_color(link),
                        before,
                        after,
                    )
                }
                &&& clear_meta(link) != clear_meta(expected.data) ==> {
                    &&& final(gc).only_sched(*old(gc), guard.lid as int, guard.gid, first)
                    &&& r matches Err(p) && p.data == link
                    &&& final(self).link == link
                    &&& final(gc).abs() == s
                }
            }),
    {
        let ghost before = *gc;
        let ghost l = guard.lid as int;
        match self.internal_exchange_unrooted_weak(expected, new, guard, gc) {
            Ok(current) => Ok(current),
            Err(current) => {
                if current.without_meta().data == expected.without_meta().data {
                    proof {
                        lemma_word::<T>(current.data);
                        lemma_word::<T>(expected.data);
                        assert(gc.local(l).epoch == before.local(l).epoch);
                    }
                    let ghost mid = *gc;
                    let ghost link = self.link;
                    let r = self.internal_exchange_unrooted_weak(current, new, guard, gc);
                    proof {
                        let b = before.black_of(l);
                        let from = addr_of::<T>(expected.data);
                        let to = addr_of::<T>(new.data);
                        lemma_sched_on(
                            before,
                            mid,
                            *gc,
                            l,
                            guard.gid,
                            insertion_shades(
                                before.abs(),
                                b,
                                edge_color(expected.data),
                                from,
                                to,
                            ),
                            swap_shades(before.abs(), b, edge_color(link), from, to),
                        );
                    }
                    r
                } else {
                    Err(current)
                }
            },
        }
    }

    /// Replaces the pointer and returns the word it had.
    fn internal_swap(&mut self, new: ManPtr<T>, guard: &Guard, gc: &mut Global<T>) -> (r: ManPtr<T>)
        requires
            old(gc).wf(),
            old(gc).guarded(*guard),
            old(gc).cell_ok(guard.lid as int, old(self).link),
            old(gc).target_ok(guard.lid as int, old(self).link, new.data),
        ensures
            final(gc).wf(),
            r.data == old(self).link,
            final(self).link == set_meta(new.data, meta_of(old(self).link)),
            final(gc).abs() == cell_swapped(
                old(gc).abs(),
                guard.lid as int,
                old(self).link,
                addr_of::<T>(new.data),
            ),
            final(gc).only_barriers(
                *old(gc),
                guard.lid as int,
                guard.gid,
                cell_shades(
                    old(gc).abs(),
                    guard.lid as int,
                    old(self).link,
                    addr_of::<T>(new.data),
                ),
            ),
            keeps_protected(old(gc).abs(), final(gc).abs()),
            final(gc).usable(guard.lid as int, old(self).link),
            final(gc).usable(guard.lid as int, new.data),
            final(gc).cell_ok(guard.lid as int, final(self).link),
    {
        let ghost before = *gc;
        let ghost s = gc.abs();
        let ghost l = guard.lid as int;
        let current: ManPtr<T> = ManPtr::from(self.link);
        proof {
            assert(s.parts[l].pinned());
            if addr_of::<T>(self.link) != 0 && meta_of(self.link) == PtrMeta::Rooted {
                lemma_rooted_protected(s, l, addr_of::<T>(self.link));
            }
        }
        if current.meta() == PtrMeta::Rooted {
            proof {
                lemma_root_swapped(s, l, addr_of::<T>(self.link), addr_of::<T>(new.data));
            }
            Shared::try_inc_raw(new, gc);
            let ghost mid = *gc;
            let new_rooted: ManPtr<T> = new.with_meta(PtrMeta::Rooted);
            let r: ManPtr<T> = match self.internal_exchange_rooted(current, new_rooted, guard, gc) {
                Ok(previous) => previous,
                Err(previous) => previous,
            };
            proof {
                lemma_word::<T>(new.data);
                if addr_of::<T>(new.data) != 0 {
                    assert(mid.abs().objs[addr_of::<T>(new.data)].rc > 0);
                    assert(gc.abs().objs.contains_key(addr_of::<T>(new.data)));
                }
            }
            r
        } else {
            proof {
                lemma_edge_swapped(
                    s,
                    l,
                    edge_color(self.link),
                    addr_of::<T>(self.link),
                    addr_of::<T>(new.data),
                );
            }
            let r: ManPtr<T> = match self.internal_exchange_unrooted(current, new, guard, gc) {
                Ok(previous) => previous,
                Err(previous) => previous,
            };
            proof {
                lemma_word::<T>(new.data);
            }
            r
        }
    }
}

/// A non-nullable pointer to a managed object: a root where it stands alone, an edge where it is
/// part of an object.
pub struct AtomicShared<T> {
    pub inner: AtomicSharedOption<T>,
}

impl<T> AtomicShared<T> {
    /// A pointer with the given word.
    pub fn from_raw(ptr: ManPtr<T>) -> (r: Self)
        ensures
            r.inner.link == ptr.data,
    {
        AtomicShared { inner: AtomicSharedOption::from_raw(ptr) }
    }
}

/// An immutable pointer to a managed object: a root where it stands alone, an edge where it is
/// part of an object.
pub struct Shared<T> {
    pub inner: AtomicShared<T>,
}

impl<T> Shared<T> {
    /// The word of the pointer.
    pub open spec fn word(self) -> u64 {
        self.inner.inner.link
    }

    /// The pointer with its metadata.
    pub fn as_man_ptr(&self) -> (r: ManPtr<T>)
        ensures
            r.data == self.word(),
    {
        ManPtr::from(self.inner.inner.link)
    }

    /// Returns `true` if the two point to the same object.
    pub fn ptr_eq(this: &Self, other: &Self) -> (r: bool)
        ensures
            r == (addr_of::<T>(this.word()) == addr_of::<T>(other.word())),
    {
        this.as_man_ptr().as_ptr() == other.as_man_ptr().as_ptr()
    }

    /// Returns `true` if both point to the same object or are both `None`.
    pub fn opt_ptr_eq(this: Option<&Self>, other: Option<&Self>) -> (r: bool)
        ensures
            r == same_allocation(this, other),
            r == (match (this, other) {
                (None, None) => true,
                (Some(a), Some(b)) => addr_of::<T>(a.inner.inner.link) == addr_of::<T>(
                    b.inner.inner.link,
                ),
                _ => false,
            }),
    {
        match (this, other) {
            (None, None) => true,
            (Some(l1), Some(l2)) => Self::ptr_eq(l1, l2),
            _ => false,
        }
    }
}

/// Both point to the same object, whatever the color of the edges or whether they are roots, or
/// both are `None`.
pub open spec fn same_allocation<T>(x: Option<&Shared<T>>, y: Option<&Shared<T>>) -> bool {
    match (x, y) {
        (None, None) => true,
        (Some(a), Some(b)) => addr_of::<T>(a.word()) == addr_of::<T>(b.word()),
        _ => false,
    }
}

/// Pointing to the same object is an equivalence, and rooting or coloring a pointer does not
/// change what it points to.
pub proof fn law_same_allocation<T>(
    x: Option<&Shared<T>>,
    y: Option<&Shared<T>>,
    z: Option<&Shared<T>>,
)
    ensures
        same_allocation(x, x),
        same_allocation(x, y) == same_allocation(y, x),
        same_allocation(x, y) && same_allocation(y, z) ==> same_allocation(x, z),
        forall|a: Shared<T>, b: Shared<T>, m: PtrMeta|
            #![trigger set_meta(a.word(), m), b.word()]
            b.word() == set_meta(a.word(), m) ==> same_allocation(Some(&a), Some(&b)),
{
    assert forall|a: Shared<T>, b: Shared<T>, m: PtrMeta|
        #![trigger set_meta(a.word(), m), b.word()]
        b.word() == set_meta(a.word(), m) implies same_allocation(Some(&a), Some(&b)) by {
        lemma_word::<T>(a.word());
    }
}

impl<T: TraceObj> Shared<T> {
    /// A new root of what the pointer leads to, if it leads anywhere.
    pub fn try_inc_raw(ptr: ManPtr<T>, gc: &mut Global<T>) -> (r: Option<Self>)
        requires
            old(gc).fits(),
            old(gc).leads_somewhere(ptr.data),
            old(gc).root_room(ptr.data),
        ensures
            final(gc).fits(),
            final(gc).only_headers(*old(gc)),
            addr_of::<T>(ptr.data) == 0 ==> r is None && *final(gc) == *old(gc),
            addr_of::<T>(ptr.data) != 0 ==> {
                &&& r matches Some(shared) && shared.word() == set_meta(ptr.data, PtrMeta::Rooted)
                &&& final(gc).abs() == inc_root(old(gc).abs(), addr_of::<T>(ptr.data))
            },
    {
        if ptr.is_null() {
            return None;
        }
        gc.increment_root_count(ptr.as_ptr());
        Some(Shared { inner: AtomicShared::from_raw(ptr.with_meta(PtrMeta::Rooted)) })
    }
}

/// The pointer and the tag in a word.
pub open spec fn is_local_of<'g, T: TraceObj>(
    r: (Option<Local<'g, Guard, T>>, u64),
    w: u64,
) -> bool {
    &&& opt_addr(r.0) == addr_of::<T>(w)
    &&& r.0 is Some <==> addr_of::<T>(w) != 0
    &&& is_addr::<T>(opt_addr(r.0))
    &&& r.1 == tag_of::<T>(w)
}

/// The word of an optional pointer, with a tag.
pub open spec fn tagged_word<'g, G: Protector<T>, T: TraceObj>(
    value: Option<&Local<'g, G, T>>,
    tag: u64,
) -> u64 {
    set_tag::<T>(opt_word(value), tag)
}

impl<T: TraceObj> AtomicSharedOption<T> {
    /// Allocates an object and returns a pointer that is its only root.
    pub fn some(item: T, guard: &Guard, gc: &mut Global<T>) -> (r: Self)
        requires
            old(gc).wf(),
            old(gc).guarded(*guard),
            old(gc).can_allocate(item),
        ensures
            final(gc).wf(),
            final(gc).guarded(*guard),
            final(gc).is_allocated(*old(gc), *guard, item, 1, addr_of::<T>(r.link)),
            final(gc).rooted_ok(r.link),
            tag_of::<T>(r.link) == 0,
    {
        let a: u64 = gc.allocate(item, 1, guard);
        proof {
            lemma_word::<T>(a);
        }
        Self::from_raw(ManPtr::from(a).with_meta(PtrMeta::Rooted))
    }

    /// Like [`some`](Self::some), with a tag in the pointer.
    pub fn some_with_tag(item: T, tag: u64, guard: &Guard, gc: &mut Global<T>) -> (r: Self)
        requires
            old(gc).wf(),
            old(gc).guarded(*guard),
            old(gc).can_allocate(item),
        ensures
            final(gc).wf(),
            final(gc).guarded(*guard),
            final(gc).is_allocated(*old(gc), *guard, item, 1, addr_of::<T>(r.link)),
            final(gc).rooted_ok(r.link),
            tag_of::<T>(r.link) == tag & tag_bits::<T>(),
    {
        let cell: Self = Self::some(item, guard, gc);
        Self::from_raw(ManPtr::from(cell.link).with_tag(tag))
    }

    /// Reads the pointer. It is valid for as long as the guard is there.
    pub fn load<'g>(&self, guard: &'g Guard, gc: &Global<T>) -> (r: Option<Local<'g, Guard, T>>)
        requires
            gc.wf(),
            gc.guarded(*guard),
            gc.rooted_ok(self.link) || gc.usable(guard.lid as int, self.link),
        ensures
            r is Some <==> addr_of::<T>(self.link) != 0,
            opt_addr(r) == addr_of::<T>(self.link),
            is_addr::<T>(opt_addr(r)),
            gc.usable(guard.lid as int, opt_addr(r)),
    {
        self.load_with_tag(guard, gc).0
    }

    /// Reads the pointer and its tag.
    pub fn load_with_tag<'g>(&self, guard: &'g Guard, gc: &Global<T>) -> (r: (
        Option<Local<'g, Guard, T>>,
        u64,
    ))
        requires
            gc.wf(),
            gc.guarded(*guard),
            gc.rooted_ok(self.link) || gc.usable(guard.lid as int, self.link),
        ensures
            is_local_of(r, self.link),
            gc.usable(guard.lid as int, opt_addr(r.0)),
    {
        proof {
            let l = guard.lid as int;
            if addr_of::<T>(self.link) != 0 && gc.rooted_ok(self.link) {
                lemma_rooted_protected(gc.abs(), l, addr_of::<T>(self.link));
            }
        }
        ManPtr::from(self.link).as_local_with_tag(guard)
    }

    /// Replaces the pointer, and returns what it was with its tag. Where the pointer is a root,
    /// the roots of the old and the new target are counted; where it is an edge, the write
    /// barriers are applied.
    pub fn swap_with_tag<'l, 'g, G: Protector<T>>(
        &mut self,
        new: Option<&Local<'l, G, T>>,
        tag: u64,
        guard: &'g Guard,
        gc: &mut Global<T>,
    ) -> (r: (Option<Local<'g, Guard, T>>, u64))
        requires
            old(gc).wf(),
            old(gc).guarded(*guard),
            old(gc).cell_ok(guard.lid as int, old(self).link),
            is_addr::<T>(opt_word(new)),
            old(gc).target_ok(guard.lid as int, old(self).link, opt_word(new)),
        ensures
            final(gc).wf(),
            final(gc).guarded(*guard),
            is_local_of(r, old(self).link),
            final(gc).usable(guard.lid as int, opt_addr(r.0)),
            final(self).link == set_meta(tagged_word(new, tag), meta_of(old(self).link)),
            holds::<T>(final(self).link, opt_word(new), tag),
            final(gc).cell_ok(guard.lid as int, final(self).link),
            final(gc).abs() == cell_swapped(
                old(gc).abs(),
                guard.lid as int,
                old(self).link,
                opt_word(new),
            ),
            final(gc).only_barriers(
                *old(gc),
                guard.lid as int,
                guard.gid,
                cell_shades(
                    old(gc).abs(),
                    guard.lid as int,
                    old(self).link,
                    opt_word(new),
                ),
            ),
            keeps_protected(old(gc).abs(), final(gc).abs()),
    {
        let word: ManPtr<T> = ManPtr::from_local_with_tag((new, tag));
        proof {
            lemma_word::<T>(opt_word(new));
            lemma_tag::<T>(opt_word(new), tag);
            lemma_word::<T>(word.data);
        }
        self.internal_swap(word, guard, gc).as_local_with_tag(guard)
    }

    /// Replaces the pointer, and returns what it was.
    pub fn swap<'l, 'g, G: Protector<T>>(
        &mut self,
        new: Option<&Local<'l, G, T>>,
        guard: &'g Guard,
        gc: &mut Global<T>,
    ) -> (r: Option<Local<'g, Guard, T>>)
        requires
            old(gc).wf(),
            old(gc).guarded(*guard),
            old(gc).cell_ok(guard.lid as int, old(self).link),
            is_addr::<T>(opt_word(new)),
            old(gc).target_ok(guard.lid as int, old(self).link, opt_word(new)),
        ensures
            final(gc).wf(),
            final(gc).guarded(*guard),
            r is Some <==> addr_of::<T>(old(self).link) != 0,
            opt_addr(r) == addr_of::<T>(old(self).link),
            is_addr::<T>(opt_addr(r)),
            final(gc).usable(guard.lid as int, opt_addr(r)),
            final(self).link == set_meta(tagged_word(new, 0), meta_of(old(self).link)),
            holds::<T>(final(self).link, opt_word(new), 0),
            final(gc).cell_ok(guard.lid as int, final(self).link),
            final(gc).abs() == cell_swapped(
                old(gc).abs(),
                guard.lid as int,
                old(self).link,
                opt_word(new),
            ),
            final(gc).only_barriers(
                *old(gc),
                guard.lid as int,
                guard.gid,
                cell_shades(
                    old(gc).abs(),
                    guard.lid as int,
                    old(self).link,
                    opt_word(new),
                ),
            ),
            keeps_protected(old(gc).abs(), final(gc).abs()),
    {
        self.swap_with_tag(new, 0, guard, gc).0
    }

    /// Replaces the pointer and its tag.
    pub fn store_with_tag<'l, G: Protector<T>>(
        &mut self,
        new: Option<&Local<'l, G, T>>,
        tag: u64,
        guard: &Guard,
        gc: &mut Global<T>,
    )
        requires
            old(gc).wf(),
            old(gc).guarded(*guard),
            old(gc).cell_ok(guard.lid as int, old(self).link),
            is_addr::<T>(opt_word(new)),
            old(gc).target_ok(guard.lid as int, old(self).link, opt_word(new)),
        ensures
            final(gc).wf(),
            final(gc).guarded(*guard),
            final(self).link == set_meta(tagged_word(new, tag), meta_of(old(self).link)),
            holds::<T>(final(self).link, opt_word(new), tag),
            final(gc).cell_ok(guard.lid as int, final(self).link),
            final(gc).abs() == cell_swapped(
                old(gc).abs(),
                guard.lid as int,
                old(self).link,
                opt_word(new),
            ),
            final(gc).only_barriers(
                *old(gc),
                guard.lid as int,
                guard.gid,
                cell_shades(
                    old(gc).abs(),
                    guard.lid as int,
                    old(self).link,
                    opt_word(new),
                ),
            ),
            keeps_protected(old(gc).abs(), final(gc).abs()),
    {
        self.swap_with_tag(new, tag, guard, gc);
    }

    /// Replaces the pointer. Its tag becomes zero.
    pub fn store<'l, G: Protector<T>>(
        &mut self,
        new: Option<&Local<'l, G, T>>,
        guard: &Guard,
        gc: &mut Global<T>,
    )
        requires
            old(gc).wf(),
            old(gc).guarded(*guard),
            old(gc).cell_ok(guard.lid as int, old(self).link),
            is_addr::<T>(opt_word(new)),
            old(gc).target_ok(guard.lid as int, old(self).link, opt_word(new)),
        ensures
            final(gc).wf(),
            final(gc).guarded(*guard),
            final(self).link == set_meta(tagged_word(new, 0), meta_of(old(self).link)),
            holds::<T>(final(self).link, opt_word(new), 0),
            final(gc).cell_ok(guard.lid as int, final(self).link),
            final(gc).abs() == cell_swapped(
                old(gc).abs(),
                guard.lid as int,
                old(self).link,
                opt_word(new),
            ),
            final(gc).only_barriers(
                *old(gc),
                guard.lid as int,
                guard.gid,
                cell_shades(
                    old(gc).abs(),
                    guard.lid as int,
                    old(self).link,
                    opt_word(new),
                ),
            ),
            keeps_protected(old(gc).abs(), final(gc).abs()),
    {
        self.store_with_tag(new, 0, guard, gc);
    }

    /// Removes and returns what the pointer leads to, with its tag, and leaves it null.
    pub fn take_with_tag<'g>(&mut self, guard: &'g Guard, gc: &mut Global<T>) -> (r: (
        Option<Local<'g, Guard, T>>,
        u64,
    ))
        requires
            old(gc).wf(),
            old(gc).guarded(*guard),
            old(gc).cell_ok(guard.lid as int, old(self).link),
        ensures
            final(gc).wf(),
            final(gc).guarded(*guard),
            is_local_of(r, old(self).link),
            final(gc).usable(guard.lid as int, opt_addr(r.0)),
            final(self).link == set_meta(0, meta_of(old(self).link)),
            holds::<T>(final(self).link, 0, 0),
            final(gc).cell_ok(guard.lid as int, final(self).link),
            final(gc).abs() == cell_swapped(
                old(gc).abs(),
                guard.lid as int,
                old(self).link,
                0,
            ),
            final(gc).only_barriers(
                *old(gc),
                guard.lid as int,
                guard.gid,
                cell_shades(
                    old(gc).abs(),
                    guard.lid as int,
                    old(self).link,
                    0,
                ),
            ),
            keeps_protected(old(gc).abs(), final(gc).abs()),
    {
        proof {
            lemma_null_word::<T>(0);
            lemma_word::<T>(0);
            assert(set_tag::<T>(0, 0) == 0);
        }
        self.internal_swap(ManPtr::null_base(), guard, gc).as_local_with_tag(guard)
    }

    /// Removes and returns what the pointer leads to, and leaves it null.
    pub fn take<'g>(&mut self, guard: &'g Guard, gc: &mut Global<T>) -> (r: Option<
        Local<'g, Guard, T>,
    >)
        requires
            old(gc).wf(),
            old(gc).guarded(*guard),
            old(gc).cell_ok(guard.lid as int, old(self).link),
        ensures
            final(gc).wf(),
            final(gc).guarded(*guard),
            r is Some <==> addr_of::<T>(old(self).link) != 0,
            opt_addr(r) == addr_of::<T>(old(self).link),
            is_addr::<T>(opt_addr(r)),
            final(gc).usable(guard.lid as int, opt_addr(r)),
            final(self).link == set_meta(0, meta_of(old(self).link)),
            holds::<T>(final(self).link, 0, 0),
            final(gc).cell_ok(guard.lid as int, final(self).link),
            final(gc).abs() == cell_swapped(
                old(gc).abs(),
                guard.lid as int,
                old(self).link,
                0,
            ),
            final(gc).only_barriers(
                *old(gc),
                guard.lid as int,
                guard.gid,
                cell_shades(
                    old(gc).abs(),
                    guard.lid as int,
                    old(self).link,
                    0,
                ),
            ),
            keeps_protected(old(gc).abs(), final(gc).abs()),
    {
        self.take_with_tag(guard, gc).0
    }
}

/// A conditional replacement of a pointer came out as it has to: it succeeds exactly where the
/// pointer and its tag are the expected ones, returns what they were either way, and changes
/// nothing where it fails.
pub open spec fn is_exchanged<'g, T: TraceObj>(
    before: Global<T>,
    after: Global<T>,
    l: int,
    gid: u64,
    link_before: u64,
    link_after: u64,
    expected: (u64, u64),
    new: (u64, u64),
    r: Result<(Option<Local<'g, Guard, T>>, u64), (Option<Local<'g, Guard, T>>, u64)>,
) -> bool {
    if holds::<T>(link_before, expected.0, expected.1) {
        &&& r matches Ok(p) && is_local_of(p, link_before)
        &&& link_after == set_meta(set_tag::<T>(new.0, new.1), meta_of(link_before))
        &&& holds::<T>(link_after, new.0, new.1)
        &&& after.abs() == cell_swapped(before.abs(), l, link_before, new.0)
        &&& after.only_barriers(before, l, gid, cell_shades(before.abs(), l, link_before, new.0))
    } else {
        &&& r matches Err(p) && is_local_of(p, link_before)
        &&& link_after == link_before
        &&& after == before
    }
}

impl<T: TraceObj> AtomicSharedOption<T> {
    /// Replaces the pointer and its tag if they are the expected ones.
    ///
    /// Both results hold the pointer and the tag that were there.
    pub fn compare_exchange_with_tag<'l1, 'l2, 'g, G1: Protector<T>, G2: Protector<T>>(
        &mut self,
        current_tag: (Option<&Local<'l1, G1, T>>, u64),
        new_tag: (Option<&Local<'l2, G2, T>>, u64),
        guard: &'g Guard,
        gc: &mut Global<T>,
    ) -> (r: Result<(Option<Local<'g, Guard, T>>, u64), (Option<Local<'g, Guard, T>>, u64)>)
        requires
            old(gc).wf(),
            old(gc).guarded(*guard),
            old(gc).cell_ok(guard.lid as int, old(self).link),
            is_addr::<T>(opt_word(current_tag.0)),
            is_addr::<T>(opt_word(new_tag.0)),
            old(gc).target_ok(guard.lid as int, old(self).link, opt_word(new_tag.0)),
        ensures
            final(gc).wf(),
            final(gc).guarded(*guard),
            is_exchanged(
                *old(gc),
                *final(gc),
                guard.lid as int,
                guard.gid,
                old(self).link,
                final(self).link,
                (opt_word(current_tag.0), current_tag.1),
                (opt_word(new_tag.0), new_tag.1),
                r,
            ),
            final(gc).usable(guard.lid as int, old(self).link),
            final(gc).cell_ok(guard.lid as int, final(self).link),
            keeps_protected(old(gc).abs(), final(gc).abs()),
    {
        proof {
            lemma_word::<T>(opt_word(new_tag.0));
            lemma_tag::<T>(opt_word(new_tag.0), new_tag.1);
            lemma_word::<T>(tagged_word(new_tag.0, new_tag.1));
            lemma_holds::<T>(self.link, opt_word(current_tag.0), current_tag.1);
            if addr_of::<T>(self.link) != 0 && gc.rooted_ok(self.link) {
                lemma_rooted_protected(gc.abs(), guard.lid as int, addr_of::<T>(self.link));
            }
        }
        let current: ManPtr<T> = ManPtr::from(self.link);
        if current.without_meta().data != ManPtr::<T>::from_local_with_tag(current_tag).data {
            return Err(current.as_local_with_tag(guard));
        }
        let new: ManPtr<T> = ManPtr::from_local_with_tag(new_tag);
        Ok(self.internal_swap(new, guard, gc).as_local_with_tag(guard))
    }

    /// Like [`compare_exchange_with_tag`](Self::compare_exchange_with_tag), but does not try again
    /// where only the color of an edge is not what it was.
    pub fn compare_exchange_weak_with_tag<'l1, 'l2, 'g, G1: Protector<T>, G2: Protector<T>>(
        &mut self,
        current_tag: (Option<&Local<'l1, G1, T>>, u64),
        new_tag: (Option<&Local<'l2, G2, T>>, u64),
        guard: &'g Guard,
        gc: &mut Global<T>,
    ) -> (r: Result<(Option<Local<'g, Guard, T>>, u64), (Option<Local<'g, Guard, T>>, u64)>)
        requires
            old(gc).wf(),
            old(gc).guarded(*guard),
            old(gc).cell_ok(guard.lid as int, old(self).link),
            is_addr::<T>(opt_word(current_tag.0)),
            is_addr::<T>(opt_word(new_tag.0)),
            old(gc).target_ok(guard.lid as int, old(self).link, opt_word(new_tag.0)),
        ensures
            final(gc).wf(),
            final(gc).guarded(*guard),
            is_exchanged(
                *old(gc),
                *final(gc),
                guard.lid as int,
                guard.gid,
                old(self).link,
                final(self).link,
                (opt_word(current_tag.0), current_tag.1),
                (opt_word(new_tag.0), new_tag.1),
                r,
            ),
            final(gc).usable(guard.lid as int, old(self).link),
            final(gc).cell_ok(guard.lid as int, final(self).link),
            keeps_protected(old(gc).abs(), final(gc).abs()),
    {
        let ghost s = gc.abs();
        let ghost l = guard.lid as int;
        let current: ManPtr<T> = ManPtr::from(self.link);
        let new: ManPtr<T> = ManPtr::from_local_with_tag(new_tag);
        proof {
            assert(s.parts[l].pinned());
            lemma_word::<T>(opt_word(new_tag.0));
            lemma_tag::<T>(opt_word(new_tag.0), new_tag.1);
            lemma_word::<T>(tagged_word(new_tag.0, new_tag.1));
            lemma_holds::<T>(self.link, opt_word(current_tag.0), current_tag.1);
            if addr_of::<T>(self.link) != 0 && gc.rooted_ok(self.link) {
                lemma_rooted_protected(s, l, addr_of::<T>(self.link));
            }
            assert(gc.nodes() =~= gc.nodes().update(l, gc.nodes()[l]));
        }
        if current.without_meta().data != ManPtr::<T>::from_local_with_tag(current_tag).data {
            return Err(current.as_local_with_tag(guard));
        }
        if current.meta() == PtrMeta::Rooted {
            return Ok(self.internal_swap(new, guard, gc).as_local_with_tag(guard));
        }
        proof {
            lemma_edge_swapped(
                s,
                l,
                edge_color(self.link),
                addr_of::<T>(self.link),
                addr_of::<T>(new.data),
            );
        }
        match self.internal_exchange_unrooted_weak(current, new, guard, gc) {
            Ok(previous) => Ok(previous.as_local_with_tag(guard)),
            Err(previous) => Err(previous.as_local_with_tag(guard)),
        }
    }

    /// Replaces the pointer if it is the expected one and has no tag.
    pub fn compare_exchange<'l1, 'l2, 'g, G1: Protector<T>, G2: Protector<T>>(
        &mut self,
        current: Option<&Local<'l1, G1, T>>,
        new: Option<&Local<'l2, G2, T>>,
        guard: &'g Guard,
        gc: &mut Global<T>,
    ) -> (r: Result<Option<Local<'g, Guard, T>>, Option<Local<'g, Guard, T>>>)
        requires
            old(gc).wf(),
            old(gc).guarded(*guard),
            old(gc).cell_ok(guard.lid as int, old(self).link),
            is_addr::<T>(opt_word(current)),
            is_addr::<T>(opt_word(new)),
            old(gc).target_ok(guard.lid as int, old(self).link, opt_word(new)),
        ensures
            final(gc).wf(),
            final(gc).guarded(*guard),
            is_exchanged(
                *old(gc),
                *final(gc),
                guard.lid as int,
                guard.gid,
                old(self).link,
                final(self).link,
                (opt_word(current), 0),
                (opt_word(new), 0),
                match r {
                    Ok(p) => Ok((p, tag_of::<T>(old(self).link))),
                    Err(p) => Err((p, tag_of::<T>(old(self).link))),
                },
            ),
            final(gc).usable(guard.lid as int, old(self).link),
            final(gc).cell_ok(guard.lid as int, final(self).link),
            keeps_protected(old(gc).abs(), final(gc).abs()),
    {
        match self.compare_exchange_with_tag((current, 0), (new, 0), guard, gc) {
            Ok(pt) => Ok(pt.0),
            Err(pt) => Err(pt.0),
        }
    }

    /// Takes away the tag bits that are not in the given tag, and returns what the pointer and
    /// the tag were. Only the tag changes.
    pub fn fetch_tag_and<'g>(&mut self, tag: u64, guard: &'g Guard) -> (r: (
        Option<Local<'g, Guard, T>>,
        u64,
    ))
        ensures
            is_local_of(r, old(self).link),
            final(self).link == set_tag::<T>(old(self).link, tag_of::<T>(old(self).link) & tag),
            holds::<T>(final(self).link, addr_of::<T>(old(self).link), tag_of::<T>(old(self).link) & tag),
            meta_of(final(self).link) == meta_of(old(self).link),
    {
        proof {
            lemma_word::<T>(self.link);
            lemma_tag::<T>(self.link, tag_of::<T>(self.link) & tag);
        }
        let previous: ManPtr<T> = ManPtr::from(self.link);
        self.link = previous.with_tag(previous.tag() & tag).data;
        previous.as_local_with_tag(guard)
    }

    /// Adds the bits of the given tag to the tag, and returns what the pointer and the tag were.
    /// Only the tag changes.
    pub fn fetch_tag_or<'g>(&mut self, tag: u64, guard: &'g Guard) -> (r: (
        Option<Local<'g, Guard, T>>,
        u64,
    ))
        ensures
            is_local_of(r, old(self).link),
            final(self).link == set_tag::<T>(old(self).link, tag_of::<T>(old(self).link) | tag),
            holds::<T>(final(self).link, addr_of::<T>(old(self).link), tag_of::<T>(old(self).link) | tag),
            meta_of(final(self).link) == meta_of(old(self).link),
    {
        proof {
            lemma_word::<T>(self.link);
            lemma_tag::<T>(self.link, tag_of::<T>(self.link) | tag);
        }
        let previous: ManPtr<T> = ManPtr::from(self.link);
        self.link = previous.with_tag(previous.tag() | tag).data;
        previous.as_local_with_tag(guard)
    }

    /// Flips the tag bits that are in the given tag, and returns what the pointer and the tag
    /// were. Only the tag changes.
    pub fn fetch_tag_xor<'g>(&mut self, tag: u64, guard: &'g Guard) -> (r: (
        Option<Local<'g, Guard, T>>,
        u64,
    ))
        ensures
            is_local_of(r, old(self).link),
            final(self).link == set_tag::<T>(old(self).link, tag_of::<T>(old(self).link) ^ tag),
            holds::<T>(final(self).link, addr_of::<T>(old(self).link), tag_of::<T>(old(self).link) ^ tag),
            meta_of(final(self).link) == meta_of(old(self).link),
    {
        proof {
            lemma_word::<T>(self.link);
            lemma_tag::<T>(self.link, tag_of::<T>(self.link) ^ tag);
        }
        let previous: ManPtr<T> = ManPtr::from(self.link);
        self.link = previous.with_tag(previous.tag() ^ tag).data;
        previous.as_local_with_tag(guard)
    }
}

// ---- Objects behind pointers ----

impl<T: TraceObj> Global<T> {
    /// The value at an address.
    pub open spec fn value_at(self, a: u64) -> T {
        self.heap.at(a).item
    }

    /// The value that a pointer leads to.
    fn value(&self, ptr: ManPtr<T>) -> (r: &T)
        requires
            self.fits(),
            self.heap.has(addr_of::<T>(ptr.data)),
        ensures
            *r == self.value_at(addr_of::<T>(ptr.data)),
    {
        &self.heap.get(ptr.as_ptr()).item
    }
}

impl<T: TraceObj> Shared<T> {
    /// Allocates an object and returns a pointer that is its only root.
    pub fn new(item: T, guard: &Guard, gc: &mut Global<T>) -> (r: Self)
        requires
            old(gc).wf(),
            old(gc).guarded(*guard),
            old(gc).can_allocate(item),
        ensures
            final(gc).wf(),
            final(gc).guarded(*guard),
            final(gc).is_allocated(*old(gc), *guard, item, 1, addr_of::<T>(r.word())),
            final(gc).rooted_ok(r.word()),
            tag_of::<T>(r.word()) == 0,
    {
        Shared { inner: AtomicShared::new(item, guard, gc) }
    }

    /// A pointer to the same object that is valid for as long as the guard is there.
    pub fn as_local<'g>(&self, guard: &'g Guard, gc: &Global<T>) -> (r: Local<'g, Guard, T>)
        requires
            gc.wf(),
            gc.guarded(*guard),
            gc.rooted_ok(self.word()) || gc.usable(guard.lid as int, self.word()),
            addr_of::<T>(self.word()) != 0,
        ensures
            r.ptr == addr_of::<T>(self.word()),
            is_addr::<T>(r.ptr),
            gc.usable(guard.lid as int, r.ptr),
    {
        self.inner.load(guard, gc)
    }

    /// Another root of the same object.
    pub fn clone(&self, gc: &mut Global<T>) -> (r: Self)
        requires
            old(gc).wf(),
            addr_of::<T>(self.word()) != 0,
            old(gc).abs().rootable(addr_of::<T>(self.word())),
            old(gc).root_room(self.word()),
        ensures
            final(gc).wf(),
            r.word() == set_meta(self.word(), PtrMeta::Rooted),
            addr_of::<T>(r.word()) == addr_of::<T>(self.word()),
            final(gc).abs() == inc_root(old(gc).abs(), addr_of::<T>(self.word())),
            final(gc).rooted_ok(r.word()),
            final(gc).only_headers(*old(gc)),
            keeps_protected(old(gc).abs(), final(gc).abs()),
    {
        let ptr: ManPtr<T> = self.as_man_ptr();
        proof {
            lemma_inc_root(gc.abs(), addr_of::<T>(ptr.data));
        }
        gc.increment_root_count(ptr.as_ptr());
        Shared { inner: AtomicShared::from_raw(ptr.with_meta(PtrMeta::Rooted)) }
    }

    /// The value that the pointer leads to.
    pub fn deref<'a>(&self, gc: &'a Global<T>) -> (r: &'a T)
        requires
            gc.fits(),
            gc.heap.has(addr_of::<T>(self.word())),
        ensures
            *r == gc.value_at(addr_of::<T>(self.word())),
            r.payload() == gc.heap.payloads()[addr_of::<T>(self.word())],
    {
        gc.value(self.as_man_ptr())
    }
}

impl<'g, T: TraceObj> Local<'g, Guard, T> {
    /// Allocates an object that has no root: it is kept for as long as the guard is there.
    pub fn new(item: T, guard: &'g Guard, gc: &mut Global<T>) -> (r: Self)
        requires
            old(gc).wf(),
            old(gc).guarded(*guard),
            old(gc).can_allocate(item),
        ensures
            final(gc).wf(),
            final(gc).guarded(*guard),
            final(gc).is_allocated(*old(gc), *guard, item, 0, r.ptr),
            final(gc).usable(guard.lid as int, r.ptr),
    {
        let a: u64 = gc.allocate(item, 0, guard);
        Local { ptr: a, sh: (), marker: PhantomData }
    }
}

impl<'g, G: Protector<T>, T: TraceObj> Local<'g, G, T> {
    /// A root of the same object, as a mutable pointer.
    pub fn as_atomic_shared(&self, gc: &mut Global<T>) -> (r: AtomicShared<T>)
        requires
            old(gc).wf(),
            is_addr::<T>(self.ptr),
            self.ptr != 0,
            old(gc).abs().rootable(self.ptr),
            old(gc).root_room(self.ptr),
        ensures
            final(gc).wf(),
            r.inner.link == set_meta(self.ptr, PtrMeta::Rooted),
            addr_of::<T>(r.inner.link) == self.ptr,
            final(gc).abs() == inc_root(old(gc).abs(), self.ptr),
            final(gc).rooted_ok(r.inner.link),
            final(gc).only_headers(*old(gc)),
            keeps_protected(old(gc).abs(), final(gc).abs()),
    {
        let ptr: ManPtr<T> = self.as_man_ptr();
        proof {
            lemma_inc_root(gc.abs(), self.ptr);
        }
        gc.increment_root_count(self.ptr);
        AtomicShared::from_raw(ptr.with_meta(PtrMeta::Rooted))
    }

    /// A root of the same object, as an immutable pointer.
    pub fn as_shared(&self, gc: &mut Global<T>) -> (r: Shared<T>)
        requires
            old(gc).wf(),
            is_addr::<T>(self.ptr),
            self.ptr != 0,
            old(gc).abs().rootable(self.ptr),
            old(gc).root_room(self.ptr),
        ensures
            final(gc).wf(),
            r.word() == set_meta(self.ptr, PtrMeta::Rooted),
            addr_of::<T>(r.word()) == self.ptr,
            final(gc).abs() == inc_root(old(gc).abs(), self.ptr),
            final(gc).rooted_ok(r.word()),
            final(gc).only_headers(*old(gc)),
            keeps_protected(old(gc).abs(), final(gc).abs()),
    {
        Shared { inner: self.as_atomic_shared(gc) }
    }

    /// A pointer to the same object that something else protects.
    pub fn protect<'h, H: Protector<T>>(&self, prot: &'h H, gc: &mut Global<T>) -> (r: Local<
        'h,
        H,
        T,
    >)
        requires
            is_addr::<T>(self.ptr),
            prot.can_protect(*old(gc), self.ptr),
        ensures
            r.ptr == self.ptr,
            prot.has_protected(*old(gc), *final(gc), self.ptr, r.sh),
    {
        let sh: H::Shield = prot.protect(self.as_man_ptr(), gc);
        Local { ptr: self.ptr, sh, marker: PhantomData }
    }

    /// The value that the pointer leads to.
    pub fn deref<'a>(&self, gc: &'a Global<T>) -> (r: &'a T)
        requires
            gc.fits(),
            is_addr::<T>(self.ptr),
            gc.heap.has(self.ptr),
        ensures
            *r == gc.value_at(self.ptr),
            r.payload() == gc.heap.payloads()[self.ptr],
    {
        gc.value(self.as_man_ptr())
    }
}

impl<'h, T: TraceObj> Local<'h, Handle, T> {
    /// Gives up the protection by a hazard pointer.
    pub fn release(self, gc: &mut Global<T>)
        requires
            old(gc).wf(),
            old(gc).owns_hp(self.sh),
        ensures
            final(gc).wf(),
            final(gc).only_local(*old(gc), self.sh.lid as int),
            final(gc).abs() == set_hazards(
                old(gc).abs(),
                self.sh.lid as int,
                hazard_set(
                    old(gc).local(self.sh.lid as int).hazards@.update(self.sh.hid as int, 0u64),
                ),
            ),
            final(gc).gave_back(*old(gc), self.sh),
            keeps_protected(old(gc).abs(), final(gc).abs()),
    {
        self.sh.release(gc);
    }
}

// ---- Pointers that are never null ----

/// The pointer of a result that is never null.
pub open spec fn is_nonnull_of<'g, T: TraceObj>(r: (Local<'g, Guard, T>, u64), w: u64) -> bool {
    r.0.ptr == addr_of::<T>(w) && is_addr::<T>(r.0.ptr) && r.1 == tag_of::<T>(w)
}

/// The pointer that is there.
fn expect_local<'g, T: TraceObj>(value: Option<Local<'g, Guard, T>>) -> (r: Local<'g, Guard, T>)
    requires
        value is Some,
    ensures
        r == value->0,
{
    match value {
        Some(local) => local,
        None => vstd::pervasive::unreached(),
    }
}

impl<T: TraceObj> AtomicShared<T> {
    /// Allocates an object and returns a pointer that is its only root.
    pub fn new(item: T, guard: &Guard, gc: &mut Global<T>) -> (r: Self)
        requires
            old(gc).wf(),
            old(gc).guarded(*guard),
            old(gc).can_allocate(item),
        ensures
            final(gc).wf(),
            final(gc).guarded(*guard),
            final(gc).is_allocated(*old(gc), *guard, item, 1, addr_of::<T>(r.inner.link)),
            final(gc).rooted_ok(r.inner.link),
            addr_of::<T>(r.inner.link) != 0,
            tag_of::<T>(r.inner.link) == 0,
    {
        AtomicShared { inner: AtomicSharedOption::some(item, guard, gc) }
    }

    /// Like [`new`](Self::new), with a tag in the pointer.
    pub fn new_with_tag(item: T, tag: u64, guard: &Guard, gc: &mut Global<T>) -> (r: Self)
        requires
            old(gc).wf(),
            old(gc).guarded(*guard),
            old(gc).can_allocate(item),
        ensures
            final(gc).wf(),
            final(gc).guarded(*guard),
            final(gc).is_allocated(*old(gc), *guard, item, 1, addr_of::<T>(r.inner.link)),
            final(gc).rooted_ok(r.inner.link),
            addr_of::<T>(r.inner.link) != 0,
            tag_of::<T>(r.inner.link) == tag & tag_bits::<T>(),
    {
        AtomicShared { inner: AtomicSharedOption::some_with_tag(item, tag, guard, gc) }
    }

    /// Reads the pointer. It is valid for as long as the guard is there.
    pub fn load<'g>(&self, guard: &'g Guard, gc: &Global<T>) -> (r: Local<'g, Guard, T>)
        requires
            gc.wf(),
            gc.guarded(*guard),
            gc.rooted_ok(self.inner.link) || gc.usable(guard.lid as int, self.inner.link),
            addr_of::<T>(self.inner.link) != 0,
        ensures
            r.ptr == addr_of::<T>(self.inner.link),
            is_addr::<T>(r.ptr),
            gc.usable(guard.lid as int, r.ptr),
    {
        expect_local(self.inner.load(guard, gc))
    }

    /// Reads the pointer and its tag.
    pub fn load_with_tag<'g>(&self, guard: &'g Guard, gc: &Global<T>) -> (r: (
        Local<'g, Guard, T>,
        u64,
    ))
        requires
            gc.wf(),
            gc.guarded(*guard),
            gc.rooted_ok(self.inner.link) || gc.usable(guard.lid as int, self.inner.link),
            addr_of::<T>(self.inner.link) != 0,
        ensures
            is_nonnull_of(r, self.inner.link),
            gc.usable(guard.lid as int, r.0.ptr),
    {
        let r = self.inner.load_with_tag(guard, gc);
        (expect_local(r.0), r.1)
    }

    /// Replaces the pointer and its tag, and returns what they were.
    pub fn swap_with_tag<'l, 'g, G: Protector<T>>(
        &mut self,
        new: &Local<'l, G, T>,
        tag: u64,
        guard: &'g Guard,
        gc: &mut Global<T>,
    ) -> (r: (Local<'g, Guard, T>, u64))
        requires
            old(gc).wf(),
            old(gc).guarded(*guard),
            old(gc).cell_ok(guard.lid as int, old(self).inner.link),
            addr_of::<T>(old(self).inner.link) != 0,
            is_addr::<T>(new.ptr),
            new.ptr != 0,
            old(gc).target_ok(guard.lid as int, old(self).inner.link, new.ptr),
        ensures
            final(gc).wf(),
            final(gc).guarded(*guard),
            is_nonnull_of(r, old(self).inner.link),
            final(gc).usable(guard.lid as int, r.0.ptr),
            final(self).inner.link == set_meta(
                set_tag::<T>(new.ptr, tag),
                meta_of(old(self).inner.link),
            ),
            addr_of::<T>(final(self).inner.link) == new.ptr,
            addr_of::<T>(final(self).inner.link) != 0,
            final(gc).cell_ok(guard.lid as int, final(self).inner.link),
            final(gc).abs() == cell_swapped(
                old(gc).abs(),
                guard.lid as int,
                old(self).inner.link,
                new.ptr,
            ),
            final(gc).only_barriers(
                *old(gc),
                guard.lid as int,
                guard.gid,
                cell_shades(
                    old(gc).abs(),
                    guard.lid as int,
                    old(self).inner.link,
                    new.ptr,
                ),
            ),
            keeps_protected(old(gc).abs(), final(gc).abs()),
    {
        proof {
            lemma_word::<T>(new.ptr);
            lemma_tag::<T>(new.ptr, tag);
            lemma_word::<T>(set_tag::<T>(new.ptr, tag));
        }
        let r = self.inner.swap_with_tag(Some(new), tag, guard, gc);
        (expect_local(r.0), r.1)
    }

    /// Replaces the pointer, and returns what it was. The tag becomes zero.
    pub fn swap<'l, 'g, G: Protector<T>>(
        &mut self,
        new: &Local<'l, G, T>,
        guard: &'g Guard,
        gc: &mut Global<T>,
    ) -> (r: Local<'g, Guard, T>)
        requires
            old(gc).wf(),
            old(gc).guarded(*guard),
            old(gc).cell_ok(guard.lid as int, old(self).inner.link),
            addr_of::<T>(old(self).inner.link) != 0,
            is_addr::<T>(new.ptr),
            new.ptr != 0,
            old(gc).target_ok(guard.lid as int, old(self).inner.link, new.ptr),
        ensures
            final(gc).wf(),
            final(gc).guarded(*guard),
            r.ptr == addr_of::<T>(old(self).inner.link),
            is_addr::<T>(r.ptr),
            final(gc).usable(guard.lid as int, r.ptr),
            final(self).inner.link == set_meta(set_tag::<T>(new.ptr, 0), meta_of(old(self).inner.link)),
            addr_of::<T>(final(self).inner.link) == new.ptr,
            addr_of::<T>(final(self).inner.link) != 0,
            final(gc).cell_ok(guard.lid as int, final(self).inner.link),
            final(gc).abs() == cell_swapped(
                old(gc).abs(),
                guard.lid as int,
                old(self).inner.link,
                new.ptr,
            ),
            final(gc).only_barriers(
                *old(gc),
                guard.lid as int,
                guard.gid,
                cell_shades(
                    old(gc).abs(),
                    guard.lid as int,
                    old(self).inner.link,
                    new.ptr,
                ),
            ),
            keeps_protected(old(gc).abs(), final(gc).abs()),
    {
        self.swap_with_tag(new, 0, guard, gc).0
    }

    /// Replaces the pointer and its tag.
    pub fn store_with_tag<'l, G: Protector<T>>(
        &mut self,
        new: &Local<'l, G, T>,
        tag: u64,
        guard: &Guard,
        gc: &mut Global<T>,
    )
        requires
            old(gc).wf(),
            old(gc).guarded(*guard),
            old(gc).cell_ok(guard.lid as int, old(self).inner.link),
            is_addr::<T>(new.ptr),
            new.ptr != 0,
            old(gc).target_ok(guard.lid as int, old(self).inner.link, new.ptr),
        ensures
            final(gc).wf(),
            final(gc).guarded(*guard),
            final(self).inner.link == set_meta(
                set_tag::<T>(new.ptr, tag),
                meta_of(old(self).inner.link),
            ),
            addr_of::<T>(final(self).inner.link) == new.ptr,
            addr_of::<T>(final(self).inner.link) != 0,
            final(gc).cell_ok(guard.lid as int, final(self).inner.link),
            final(gc).abs() == cell_swapped(
                old(gc).abs(),
                guard.lid as int,
                old(self).inner.link,
                new.ptr,
            ),
            final(gc).only_barriers(
                *old(gc),
                guard.lid as int,
                guard.gid,
                cell_shades(
                    old(gc).abs(),
                    guard.lid as int,
                    old(self).inner.link,
                    new.ptr,
                ),
            ),
            keeps_protected(old(gc).abs(), final(gc).abs()),
    {
        proof {
            lemma_word::<T>(new.ptr);
            lemma_tag::<T>(new.ptr, tag);
            lemma_word::<T>(set_tag::<T>(new.ptr, tag));
        }
        self.inner.store_with_tag(Some(new), tag, guard, gc);
    }

    /// Replaces the pointer. The tag becomes zero.
    pub fn store<'l, G: Protector<T>>(
        &mut self,
        new: &Local<'l, G, T>,
        guard: &Guard,
        gc: &mut Global<T>,
    )
        requires
            old(gc).wf(),
            old(gc).guarded(*guard),
            old(gc).cell_ok(guard.lid as int, old(self).inner.link),
            is_addr::<T>(new.ptr),
            new.ptr != 0,
            old(gc).target_ok(guard.lid as int, old(self).inner.link, new.ptr),
        ensures
            final(gc).wf(),
            final(gc).guarded(*guard),
            final(self).inner.link == set_meta(set_tag::<T>(new.ptr, 0), meta_of(old(self).inner.link)),
            addr_of::<T>(final(self).inner.link) == new.ptr,
            addr_of::<T>(final(self).inner.link) != 0,
            final(gc).cell_ok(guard.lid as int, final(self).inner.link),
            final(gc).abs() == cell_swapped(
                old(gc).abs(),
                guard.lid as int,
                old(self).inner.link,
                new.ptr,
            ),
            final(gc).only_barriers(
                *old(gc),
                guard.lid as int,
                guard.gid,
                cell_shades(
                    old(gc).abs(),
                    guard.lid as int,
                    old(self).inner.link,
                    new.ptr,
                ),
            ),
            keeps_protected(old(gc).abs(), final(gc).abs()),
    {
        self.store_with_tag(new, 0, guard, gc);
    }

    /// Returns what the pointer leads to, with its tag. The pointer still leads there: it is never
    /// null, and there is nothing to replace it with.
    pub fn take_with_tag<'g>(&self, guard: &'g Guard, gc: &Global<T>) -> (r: (
        Local<'g, Guard, T>,
        u64,
    ))
        requires
            gc.wf(),
            gc.guarded(*guard),
            gc.rooted_ok(self.inner.link) || gc.usable(guard.lid as int, self.inner.link),
            addr_of::<T>(self.inner.link) != 0,
        ensures
            is_nonnull_of(r, self.inner.link),
            gc.usable(guard.lid as int, r.0.ptr),
    {
        self.load_with_tag(guard, gc)
    }

    /// Returns what the pointer leads to. The pointer still leads there: it is never null, and
    /// there is nothing to replace it with.
    pub fn take<'g>(&self, guard: &'g Guard, gc: &Global<T>) -> (r: Local<'g, Guard, T>)
        requires
            gc.wf(),
            gc.guarded(*guard),
            gc.rooted_ok(self.inner.link) || gc.usable(guard.lid as int, self.inner.link),
            addr_of::<T>(self.inner.link) != 0,
        ensures
            r.ptr == addr_of::<T>(self.inner.link),
            is_addr::<T>(r.ptr),
            gc.usable(guard.lid as int, r.ptr),
    {
        self.take_with_tag(guard, gc).0
    }

    /// Replaces the pointer and its tag if they are the expected ones.
    ///
    /// Both results hold the pointer and the tag that were there.
    pub fn compare_exchange_with_tag<'l1, 'l2, 'g, G1: Protector<T>, G2: Protector<T>>(
        &mut self,
        current_tag: (&Local<'l1, G1, T>, u64),
        new_tag: (&Local<'l2, G2, T>, u64),
        guard: &'g Guard,
        gc: &mut Global<T>,
    ) -> (r: Result<(Local<'g, Guard, T>, u64), (Local<'g, Guard, T>, u64)>)
        requires
            old(gc).wf(),
            old(gc).guarded(*guard),
            old(gc).cell_ok(guard.lid as int, old(self).inner.link),
            addr_of::<T>(old(self).inner.link) != 0,
            is_addr::<T>(current_tag.0.ptr),
            is_addr::<T>(new_tag.0.ptr),
            new_tag.0.ptr != 0,
            old(gc).target_ok(guard.lid as int, old(self).inner.link, new_tag.0.ptr),
        ensures
            final(gc).wf(),
            final(gc).guarded(*guard),
            is_exchanged(
                *old(gc),
                *final(gc),
                guard.lid as int,
                guard.gid,
                old(self).inner.link,
                final(self).inner.link,
                (current_tag.0.ptr, current_tag.1),
                (new_tag.0.ptr, new_tag.1),
                match r {
                    Ok(p) => Ok((Some(p.0), p.1)),
                    Err(p) => Err((Some(p.0), p.1)),
                },
            ),
            addr_of::<T>(final(self).inner.link) != 0,
            final(gc).cell_ok(guard.lid as int, final(self).inner.link),
            final(gc).usable(guard.lid as int, old(self).inner.link),
            keeps_protected(old(gc).abs(), final(gc).abs()),
    {
        proof {
            lemma_word::<T>(new_tag.0.ptr);
            lemma_tag::<T>(new_tag.0.ptr, new_tag.1);
            lemma_word::<T>(set_tag::<T>(new_tag.0.ptr, new_tag.1));
        }
        match self.inner.compare_exchange_with_tag(
            (Some(current_tag.0), current_tag.1),
            (Some(new_tag.0), new_tag.1),
            guard,
            gc,
        ) {
            Ok(pt) => Ok((expect_local(pt.0), pt.1)),
            Err(pt) => Err((expect_local(pt.0), pt.1)),
        }
    }

    /// Replaces the pointer if it is the expected one and has no tag.
    pub fn compare_exchange<'l1, 'l2, 'g, G1: Protector<T>, G2: Protector<T>>(
        &mut self,
        current: &Local<'l1, G1, T>,
        new: &Local<'l2, G2, T>,
        guard: &'g Guard,
        gc: &mut Global<T>,
    ) -> (r: Result<Local<'g, Guard, T>, Local<'g, Guard, T>>)
        requires
            old(gc).wf(),
            old(gc).guarded(*guard),
            old(gc).cell_ok(guard.lid as int, old(self).inner.link),
            addr_of::<T>(old(self).inner.link) != 0,
            is_addr::<T>(current.ptr),
            is_addr::<T>(new.ptr),
            new.ptr != 0,
            old(gc).target_ok(guard.lid as int, old(self).inner.link, new.ptr),
        ensures
            final(gc).wf(),
            final(gc).guarded(*guard),
            is_exchanged(
                *old(gc),
                *final(gc),
                guard.lid as int,
                guard.gid,
                old(self).inner.link,
                final(self).inner.link,
                (current.ptr, 0),
                (new.ptr, 0),
                match r {
                    Ok(p) => Ok((Some(p), tag_of::<T>(old(self).inner.link))),
                    Err(p) => Err((Some(p), tag_of::<T>(old(self).inner.link))),
                },
            ),
            addr_of::<T>(final(self).inner.link) != 0,
            final(gc).cell_ok(guard.lid as int, final(self).inner.link),
            final(gc).usable(guard.lid as int, old(self).inner.link),
            keeps_protected(old(gc).abs(), final(gc).abs()),
    {
        match self.compare_exchange_with_tag((current, 0), (new, 0), guard, gc) {
            Ok(pt) => Ok(pt.0),
            Err(pt) => Err(pt.0),
        }
    }

    /// Takes away the tag bits that are not in the given tag, and returns what the pointer and
    /// the tag were. Only the tag changes.
    pub fn fetch_tag_and<'g>(&mut self, tag: u64, guard: &'g Guard) -> (r: (
        Local<'g, Guard, T>,
        u64,
    ))
        requires
            addr_of::<T>(old(self).inner.link) != 0,
        ensures
            is_nonnull_of(r, old(self).inner.link),
            final(self).inner.link == set_tag::<T>(
                old(self).inner.link,
                tag_of::<T>(old(self).inner.link) & tag,
            ),
            holds::<T>(
                final(self).inner.link,
                addr_of::<T>(old(self).inner.link),
                tag_of::<T>(old(self).inner.link) & tag,
            ),
            meta_of(final(self).inner.link) == meta_of(old(self).inner.link),
            addr_of::<T>(final(self).inner.link) != 0,
    {
        let r = self.inner.fetch_tag_and(tag, guard);
        (expect_local(r.0), r.1)
    }

    /// Adds the bits of the given tag to the tag, and returns what the pointer and the tag were.
    /// Only the tag changes.
    pub fn fetch_tag_or<'g>(&mut self, tag: u64, guard: &'g Guard) -> (r: (Local<'g, Guard, T>, u64))
        requires
            addr_of::<T>(old(self).inner.link) != 0,
        ensures
            is_nonnull_of(r, old(self).inner.link),
            final(self).inner.link == set_tag::<T>(
                old(self).inner.link,
                tag_of::<T>(old(self).inner.link) | tag,
            ),
            holds::<T>(
                final(self).inner.link,
                addr_of::<T>(old(self).inner.link),
                tag_of::<T>(old(self).inner.link) | tag,
            ),
            meta_of(final(self).inner.link) == meta_of(old(self).inner.link),
            addr_of::<T>(final(self).inner.link) != 0,
    {
        let r = self.inner.fetch_tag_or(tag, guard);
        (expect_local(r.0), r.1)
    }

    /// Flips the tag bits that are in the given tag, and returns what the pointer and the tag
    /// were. Only the tag changes.
    pub fn fetch_tag_xor<'g>(&mut self, tag: u64, guard: &'g Guard) -> (r: (
        Local<'g, Guard, T>,
        u64,
    ))
        requires
            addr_of::<T>(old(self).inner.link) != 0,
        ensures
            is_nonnull_of(r, old(self).inner.link),
            final(self).inner.link == set_tag::<T>(
                old(self).inner.link,
                tag_of::<T>(old(self).inner.link) ^ tag,
            ),
            holds::<T>(
                final(self).inner.link,
                addr_of::<T>(old(self).inner.link),
                tag_of::<T>(old(self).inner.link) ^ tag,
            ),
            meta_of(final(self).inner.link) == meta_of(old(self).inner.link),
            addr_of::<T>(final(self).inner.link) != 0,
    {
        let r = self.inner.fetch_tag_xor(tag, guard);
        (expect_local(r.0), r.1)
    }
}
} // verus!
