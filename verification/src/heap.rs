//! The managed heap: objects at addresses.

use crate::epoch::Color;
use crate::man_ptr::{is_addr, lemma_tag_bits, tag_bits, tag_width, ManPtr};
use crate::model::ObjModel;
use crate::obj_meta::{AtomicObjMeta, ObjMeta, ROOT_COUNT_MASK};
use crate::trace::TraceObj;
use vstd::prelude::*;

verus! {

/// A managed object: a header and an item.
pub struct ManObj<T> {
    pub header: AtomicObjMeta,
    pub item: T,
}

impl<T: TraceObj> ManObj<T> {
    /// The object as the collector sees it.
    pub open spec fn model(self) -> ObjModel {
        ObjModel {
            color: self.header.0.color(),
            rc: self.header.0.rc() as nat,
            tid: self.header.0.tid(),
            links: self.item.outgoings(),
            kinds: self.item.kinds(),
        }
    }

    /// An object of a registered type.
    pub fn new(item: T, color: Color, root_count: u64, type_id: u8) -> (r: Self)
        requires
            root_count <= ROOT_COUNT_MASK,
        ensures
            r.item == item,
            r.model() == (ObjModel {
                color,
                rc: root_count as nat,
                tid: type_id,
                links: item.outgoings(),
                kinds: item.kinds(),
            }),
    {
        ManObj {
            header: AtomicObjMeta::from(ObjMeta::new_with_type_id(color, root_count, type_id)),
            item,
        }
    }

    /// Returns `true` if the object has the given color, which is to be the black one.
    pub fn is_marked(&self, black: Color) -> (r: bool)
        ensures
            r == (self.model().color == black),
    {
        self.header.load().marked() == black
    }
}

/// The number of objects whose addresses fit in a pointer word: objects are as far apart as their
/// alignment asks for.
pub open spec fn max_objects<T>() -> int {
    (0x4000_0000_0000_0000u64 >> tag_width::<T>()) - 1
}

/// The address of a slot.
pub open spec fn slot_addr<T>(i: int) -> u64 {
    ((i + 1) as u64) << tag_width::<T>()
}

/// The slot of an address.
pub open spec fn addr_slot<T>(a: u64) -> int {
    (a >> tag_width::<T>()) - 1
}

/// The address is that of one of the first slots.
pub open spec fn in_slots<T>(a: u64, n: nat) -> bool {
    a != 0 && is_addr::<T>(a) && 0 <= addr_slot::<T>(a) < n
}

/// Addresses of slots are addresses that a pointer word can hold.
pub proof fn lemma_slot_addr<T>(i: int)
    requires
        0 <= i < max_objects::<T>(),
    ensures
        addr_slot::<T>(slot_addr::<T>(i)) == i,
        slot_addr::<T>(i) != 0,
        is_addr::<T>(slot_addr::<T>(i)),
{
    let w = tag_width::<T>();
    let low = tag_bits::<T>();
    let n = (i + 1) as u64;
    lemma_tag_bits::<T>();
    assert(0x4000_0000_0000_0000u64 >> w <= 0x4000_0000_0000_0000u64) by (bit_vector)
        requires
            w <= 29,
    ;
    assert(({
        let a = n << w;
        &&& a >> w == n
        &&& a != 0
        &&& a & 0x3fff_ffff_ffff_ffff & !low == a
    })) by (bit_vector)
        requires
            w <= 29,
            0 < n,
            n < 0x4000_0000_0000_0000u64 >> w,
            low == !(0xffff_ffff_ffff_ffffu64 << w),
    ;
}

/// There is room for objects of any alignment.
proof fn lemma_max_objects<T>()
    ensures
        0x1_ffff_ffff <= max_objects::<T>() < 0x4000_0000_0000_0000,
{
    let w = tag_width::<T>();
    lemma_tag_bits::<T>();
    assert(0x2_0000_0000 <= 0x4000_0000_0000_0000u64 >> w <= 0x4000_0000_0000_0000) by (bit_vector)
        requires
            w <= 29,
    ;
}

/// Different addresses are those of different slots.
pub proof fn lemma_addr_slot<T>(a: u64)
    requires
        is_addr::<T>(a),
        addr_slot::<T>(a) >= 0,
    ensures
        slot_addr::<T>(addr_slot::<T>(a)) == a,
{
    let w = tag_width::<T>();
    let low = tag_bits::<T>();
    lemma_tag_bits::<T>();
    assert((a >> w) << w == a) by (bit_vector)
        requires
            w <= 29,
            a & 0x3fff_ffff_ffff_ffff & !low == a,
            low == !(0xffff_ffff_ffff_ffffu64 << w),
    ;
}

/// The managed heap.
pub struct Heap<T> {
    pub slots: Vec<Option<ManObj<T>>>,
    /// Slots that hold nothing.
    pub free: Vec<usize>,
}

impl<T: TraceObj> Heap<T> {
    /// There is an object at the address.
    pub open spec fn has(self, a: u64) -> bool {
        in_slots::<T>(a, self.slots@.len()) && self.slots@[addr_slot::<T>(a)] is Some
    }

    /// The object at an address.
    pub open spec fn at(self, a: u64) -> ManObj<T> {
        self.slots@[addr_slot::<T>(a)]->0
    }

    /// The objects as the collector sees them.
    pub open spec fn objs(self) -> Map<u64, ObjModel> {
        Map::new(|a: u64| self.has(a), |a: u64| self.at(a).model())
    }

    /// What the objects hold besides managed pointers.
    pub open spec fn payloads(self) -> Map<u64, T::Payload> {
        Map::new(|a: u64| self.has(a), |a: u64| self.at(a).item.payload())
    }

    pub open spec fn wf(self) -> bool {
        &&& self.slots@.len() <= max_objects::<T>()
        &&& forall|k: int|
            0 <= k < self.free@.len() ==> (#[trigger] self.free@[k]) < self.slots@.len()
                && self.slots@[self.free@[k] as int] is None
        &&& self.free@.no_duplicates()
        &&& self.objs().dom().finite()
        &&& self.objs().len() + self.free@.len() == self.slots@.len()
    }

    /// There is room for one more object.
    pub open spec fn has_room(self) -> bool {
        self.objs().len() < max_objects::<T>()
    }

    /// Returns `true` if there is no room for one more object.
    pub fn is_full(&self) -> (r: bool)
        requires
            self.wf(),
        ensures
            r == !self.has_room(),
    {
        let width: u64 = ManPtr::<T>::low_width();
        proof {
            lemma_max_objects::<T>();
        }
        self.slots.len() as u64 >= (0x4000_0000_0000_0000u64 >> width) - 1 && self.free.is_empty()
    }

    /// An empty heap.
    pub fn new() -> (r: Self)
        ensures
            r.wf(),
            r.has_room(),
            r.objs() == Map::<u64, ObjModel>::empty(),
            r.payloads() == Map::<u64, T::Payload>::empty(),
    {
        proof {
            lemma_max_objects::<T>();
        }
        let r = Heap { slots: Vec::new(), free: Vec::new() };
        assert(r.objs().dom() =~= Set::<u64>::empty());
        assert(r.objs() =~= Map::<u64, ObjModel>::empty());
        assert(r.payloads() =~= Map::<u64, T::Payload>::empty());
        r
    }

    /// Places an object and returns its address.
    pub fn place(&mut self, obj: ManObj<T>) -> (r: u64)
        requires
            old(self).wf(),
            old(self).has_room(),
        ensures
            final(self).wf(),
            final(self).objs().len() == old(self).objs().len() + 1,
            !old(self).has(r),
            r != 0,
            is_addr::<T>(r),
            final(self).objs() == old(self).objs().insert(r, obj.model()),
            final(self).payloads() == old(self).payloads().insert(r, obj.item.payload()),
    {
        let ghost model = obj.model();
        let ghost payload = obj.item.payload();
        let ghost before = *self;
        assert(self.slots@.len() == self.slots.len());
        proof {
            lemma_max_objects::<T>();
        }
        let i: usize = match self.free.pop() {
            Some(i) => {
                assert(before.free@[before.free@.len() - 1] == i);
                self.slots[i] = Some(obj);
                i
            },
            None => {
                self.slots.push(Some(obj));
                self.slots.len() - 1
            },
        };
        proof {
            lemma_slot_addr::<T>(i as int);
            let a = slot_addr::<T>(i as int);
            assert forall|b: u64| b != a && #[trigger] self.has(b) implies before.has(b)
                && self.at(b) == before.at(b) by {
                if addr_slot::<T>(b) == i as int {
                    lemma_addr_slot::<T>(b);
                }
                assert(addr_slot::<T>(b) != i as int);
            }
            assert forall|b: u64| #[trigger] before.has(b) implies b != a && self.has(b)
                && self.at(b) == before.at(b) by {
                if addr_slot::<T>(b) == i as int {
                    lemma_addr_slot::<T>(b);
                }
                assert(addr_slot::<T>(b) != i as int);
            }
            assert(self.has(a) && self.at(a).model() == model);
            assert(self.objs() =~= before.objs().insert(a, model));
            assert(self.payloads() =~= before.payloads().insert(a, payload));
            assert(self.objs().dom() =~= before.objs().dom().insert(a));
        }
        (i as u64 + 1) << ManPtr::<T>::low_width()
    }

    /// Takes an object out of the heap.
    pub fn remove(&mut self, a: u64) -> (r: ManObj<T>)
        requires
            old(self).wf(),
            old(self).has(a),
        ensures
            final(self).wf(),
            final(self).has_room(),
            final(self).objs().len() + 1 == old(self).objs().len(),
            r == old(self).at(a),
            final(self).objs() == old(self).objs().remove(a),
            final(self).payloads() == old(self).payloads().remove(a),
    {
        let i: usize = self.slot_of(a);
        let ghost before = *self;
        proof {
            lemma_addr_slot::<T>(a);
        }
        let mut taken: Option<ManObj<T>> = None;
        std::mem::swap(&mut self.slots[i], &mut taken);
        self.free.push(i);
        proof {
            assert forall|k: int| 0 <= k < before.free@.len() implies before.free@[k] != i by {}
            assert forall|b: u64| b != a && #[trigger] before.has(b) implies self.has(b)
                && self.at(b) == before.at(b) by {
                if addr_slot::<T>(b) == i as int {
                    lemma_addr_slot::<T>(b);
                }
                assert(addr_slot::<T>(b) != i as int);
            }
            assert forall|b: u64| #[trigger] self.has(b) implies b != a && before.has(b) by {
                if addr_slot::<T>(b) == i as int {
                    lemma_addr_slot::<T>(b);
                }
                assert(addr_slot::<T>(b) != i as int);
            }
            assert(self.objs() =~= before.objs().remove(a));
            assert(self.payloads() =~= before.payloads().remove(a));
            assert(self.objs().dom() =~= before.objs().dom().remove(a));
            assert(before.objs().dom().contains(a));
            assert(self.wf());
        }
        match taken {
            Some(obj) => obj,
            None => {
                proof {
                    assert(false);
                }
                vstd::pervasive::unreached()
            },
        }
    }

    fn slot_of(&self, a: u64) -> (r: usize)
        requires
            self.wf(),
            in_slots::<T>(a, self.slots@.len()),
        ensures
            r == addr_slot::<T>(a),
            r < self.slots@.len(),
    {
        proof {
            assert(self.slots@.len() == self.slots.len());
        }
        ((a >> ManPtr::<T>::low_width()) - 1) as usize
    }

    /// The object at an address.
    pub fn get(&self, a: u64) -> (r: &ManObj<T>)
        requires
            self.wf(),
            self.has(a),
        ensures
            *r == self.at(a),
    {
        let i: usize = self.slot_of(a);
        match &self.slots[i] {
            Some(obj) => obj,
            None => {
                proof {
                    assert(false);
                }
                vstd::pervasive::unreached()
            },
        }
    }

    /// Access to the object at an address.
    pub fn get_mut(&mut self, a: u64) -> (r: &mut ManObj<T>)
        requires
            old(self).wf(),
            old(self).has(a),
        ensures
            *r == old(self).at(a),
            final(self).wf(),
            final(self).has_room() == old(self).has_room(),
            final(self).objs() == old(self).objs().insert(a, final(r).model()),
            final(self).payloads() == old(self).payloads().insert(a, final(r).item.payload()),
    {
        let i: usize = self.slot_of(a);
        proof {
            assert forall|x: u64| #[trigger] in_slots::<T>(x, self.slots@.len()) && x
                != a implies addr_slot::<T>(x) != i by {
                lemma_addr_slot::<T>(x);
                lemma_addr_slot::<T>(a);
            }
            assert forall|b: Heap<T>|
                b.slots@.len() == self.slots@.len() && (forall|k: int|
                    0 <= k < b.slots@.len() ==> (#[trigger] b.slots@[k] is Some) == (self.slots@[k]
                        is Some)) implies #[trigger] b.objs().dom() == self.objs().dom() by {
                assert forall|x: u64| b.objs().dom().contains(x) == self.objs().dom().contains(
                    x,
                ) by {
                    if in_slots::<T>(x, self.slots@.len()) {
                        assert(b.slots@[addr_slot::<T>(x)] is Some == (self.slots@[addr_slot::<T>(x)]
                            is Some));
                    }
                }
                assert(b.objs().dom() =~= self.objs().dom());
            }
        }
        match &mut self.slots[i] {
            Some(obj) => obj,
            None => {
                proof {
                    assert(false);
                }
                vstd::pervasive::unreached()
            },
        }
    }
}

} // verus!
