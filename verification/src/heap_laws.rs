//! What is in the heap, by its slots and by the words in its objects.

use crate::collector::{holds_roots, reachable, reclaimed_exactly};
use crate::epoch::Color;
use crate::global::Global;
use crate::heap::{lemma_addr_slot, max_objects, slot_addr};
use crate::internal::part_of;
use crate::man_ptr::{addr_of, clear_meta, lemma_tag_bits, tag_width};
use crate::survival::spares;
use crate::trace::TraceObj;
use crate::word_laws::{
    law_header_is_its_fields, law_pointer_word_is_its_fields, lemma_one_shifted, stride,
};
use vstd::arithmetic::power2::pow2;
use vstd::bits::lemma_u64_shl_is_mul;
use vstd::prelude::*;

verus! {

/// The address of a slot is so many times the distance between objects.
proof fn lemma_slot_distance<T>(i: int)
    requires
        0 <= i < max_objects::<T>(),
    ensures
        slot_addr::<T>(i) as int == (i + 1) * stride::<T>(),
        0 < slot_addr::<T>(i) < 0x4000_0000_0000_0000,
{
    let w = tag_width::<T>();
    lemma_tag_bits::<T>();
    lemma_one_shifted(w);
    crate::heap::lemma_slot_addr::<T>(i);
    vstd::bits::lemma_u64_shr_is_div(0x4000_0000_0000_0000, w);
    let n = (i + 1) as u64;
    let p = pow2(w as nat) as int;
    let q = 0x4000_0000_0000_0000int / p;
    assert(n as int * p < 0x4000_0000_0000_0000) by (nonlinear_arith)
        requires
            0 < n < q,
            q == 0x4000_0000_0000_0000int / p,
            p > 0,
    ;
    lemma_u64_shl_is_mul(n, w);
}

/// An object is found at the address of its slot, which is so many times the distance between
/// objects, and is seen there as it is: with the root count, the color and the type of its header,
/// and with the words of its managed pointers.
pub proof fn law_objects_are_at_their_addresses<T: TraceObj>(gc: Global<T>, i: int)
    requires
        gc.wf(),
        0 <= i < gc.heap.slots@.len(),
        gc.heap.slots@[i] is Some,
    ensures
        ({
            let obj = gc.heap.slots@[i]->Some_0;
            let a = ((i + 1) * stride::<T>()) as u64;
            &&& a == (i + 1) * stride::<T>()
            &&& 0 < a < 0x4000_0000_0000_0000
            &&& gc.heap.has(a)
            &&& gc.heap.at(a) == obj
            &&& gc.value_at(a) == obj.item
            &&& gc.heap.payloads().contains_key(a)
            &&& gc.heap.payloads()[a] == obj.item.payload()
            &&& gc.heap.objs().contains_key(a)
            &&& gc.heap.objs()[a].links == obj.item.outgoings()
            &&& gc.heap.objs()[a].kinds == obj.item.kinds()
            &&& gc.heap.objs()[a].rc == obj.header.0.0 % 0x80_0000_0000_0000
            &&& gc.heap.objs()[a].tid as int == obj.header.0.0 / 0x80_0000_0000_0000 % 256
            &&& gc.heap.objs()[a].color == Color::C1 <==> obj.header.0.0 >= 0x8000_0000_0000_0000
            &&& gc.abs().objs == gc.heap.objs()
        }),
{
    lemma_slot_distance::<T>(i);
    crate::heap::lemma_slot_addr::<T>(i);
    law_header_is_its_fields(gc.heap.slots@[i]->Some_0.header.0);
}

/// There is nothing in the heap but what is in its slots.
pub proof fn law_addresses_are_those_of_objects<T: TraceObj>(gc: Global<T>, a: u64) -> (i: int)
    requires
        gc.wf(),
        gc.heap.has(a) || gc.heap.objs().contains_key(a) || gc.heap.payloads().contains_key(a)
            || gc.abs().live(a),
    ensures
        0 <= i < gc.heap.slots@.len(),
        gc.heap.slots@[i] is Some,
        a == (i + 1) * stride::<T>(),
        gc.heap.has(a),
{
    let i = crate::heap::addr_slot::<T>(a);
    lemma_addr_slot::<T>(a);
    lemma_slot_distance::<T>(i);
    i
}

/// There is room for one more object as long as its address would fit in a pointer word, whatever
/// the size of the heap.
pub proof fn law_room_in_the_heap<T: TraceObj>(gc: Global<T>)
    requires
        gc.wf(),
    ensures
        gc.heap.objs().len() + gc.heap.free@.len() == gc.heap.slots@.len(),
        (gc.heap.objs().len() + 1) * stride::<T>() + stride::<T>() <= 0x4000_0000_0000_0000
            <==> gc.heap.has_room(),
{
    let w = tag_width::<T>();
    lemma_tag_bits::<T>();
    lemma_one_shifted(w);
    vstd::bits::lemma_u64_shr_is_div(0x4000_0000_0000_0000, w);
    let p = pow2(w as nat) as int;
    let q = 0x4000_0000_0000_0000int / p;
    let n = gc.heap.objs().len() as int;
    assert(stride::<T>() == p);
    assert((n + 1) * p + p <= 0x4000_0000_0000_0000 <==> n + 2 <= q) by (nonlinear_arith)
        requires
            q == 0x4000_0000_0000_0000int / p,
            p > 0,
            n >= 0,
    ;
}

/// What has a root can be reached: the root count is in the header.
pub proof fn law_rooted_objects_are_reachable<T: TraceObj>(gc: Global<T>, x: u64)
    requires
        gc.wf(),
        gc.heap.has(x),
        gc.heap.at(x).header.0.0 % 0x80_0000_0000_0000 > 0,
    ensures
        reachable(gc.abs(), x),
{
    let s = gc.abs();
    law_header_is_its_fields(gc.heap.at(x).header.0);
    assert(s.live(x) && s.objs[x].rc > 0);
    assert forall|r: Set<u64>| #[trigger] holds_roots(s, r) implies r.contains(x) by {
        assert(s.objs.contains_key(x));
    }
}

/// What a hazard pointer holds can be reached: the address is in the list of its participant.
pub proof fn law_hazards_are_reachable<T: TraceObj>(gc: Global<T>, l: int, h: int)
    requires
        gc.wf(),
        0 <= l < gc.nodes().len(),
        0 <= h < gc.nodes()[l].item.hazards@.len(),
        gc.nodes()[l].item.hazards@[h] != 0,
    ensures
        reachable(gc.abs(), gc.nodes()[l].item.hazards@[h]),
        gc.heap.has(gc.nodes()[l].item.hazards@[h]),
{
    let s = gc.abs();
    let x = gc.nodes()[l].item.hazards@[h];
    assert(s.parts[l] == part_of(gc.nodes()[l]));
    assert(gc.nodes()[l].item.hazards@.contains(x));
    assert(s.parts[l].hazards.contains(x));
    crate::survival::lemma_hazards_there(s, l, x);
    assert forall|r: Set<u64>| #[trigger] holds_roots(s, r) implies r.contains(x) by {}
}

/// Whatever a managed pointer of something reachable leads to can be reached, whichever of the
/// pointers of the object it is.
pub proof fn law_pointers_lead_to_the_reachable<T: TraceObj>(gc: Global<T>, x: u64, i: int)
    requires
        gc.wf(),
        reachable(gc.abs(), x),
        0 <= i < gc.heap.at(x).item.outgoings().len(),
        addr_of::<T>(gc.heap.at(x).item.outgoings()[i]) != 0,
    ensures
        reachable(gc.abs(), addr_of::<T>(gc.heap.at(x).item.outgoings()[i])),
        gc.heap.has(addr_of::<T>(gc.heap.at(x).item.outgoings()[i])),
{
    let s = gc.abs();
    let y = addr_of::<T>(gc.heap.at(x).item.outgoings()[i]);
    assert(s.live(x));
    assert(s.objs[x].links[i] == gc.heap.at(x).item.outgoings()[i]);
    assert(s.edge(x, y));
    if !s.tracing() {
        let whites = Set::new(|z: u64| s.is_white(z));
        assert(holds_roots(s, whites)) by {
            assert forall|u: u64, v: u64| #[trigger] s.edge(u, v) && whites.contains(
                u,
            ) implies whites.contains(v) by {
                assert(s.is_white(u));
            }
            assert forall|u: u64|
                #![trigger s.objs.contains_key(u)]
                s.live(u) && s.objs[u].rc > 0 implies whites.contains(u) by {
                assert(s.is_white(u));
            }
            assert forall|l: int, u: u64|
                0 <= l < s.parts.len() && #[trigger] s.parts[l].hazards.contains(
                    u,
                ) implies whites.contains(u) by {
                assert(s.is_white(u));
            }
        }
        assert(whites.contains(x));
        assert(s.is_white(y));
    }
    assert(s.live(y));
    assert forall|r: Set<u64>| #[trigger] holds_roots(s, r) implies r.contains(y) by {
        assert(r.contains(x));
    }
}

/// Nothing else can be reached: any set that has what has a root, what a hazard pointer holds, and
/// with an object all that its managed pointers lead to, has everything that can be reached.
pub proof fn law_nothing_else_is_reachable<T: TraceObj>(gc: Global<T>, r: Set<u64>, x: u64)
    requires
        gc.wf(),
        forall|y: u64| #[trigger]
            gc.heap.has(y) && gc.heap.at(y).header.0.0 % 0x80_0000_0000_0000 > 0 ==> r.contains(y),
        forall|l: int, h: int|
            0 <= l < gc.nodes().len() && 0 <= h < gc.nodes()[l].item.hazards@.len()
                && #[trigger] gc.nodes()[l].item.hazards@[h] != 0 ==> r.contains(
                gc.nodes()[l].item.hazards@[h],
            ),
        forall|y: u64, i: int|
            #![trigger gc.heap.at(y).item.outgoings()[i]]
            gc.heap.has(y) && r.contains(y) && 0 <= i < gc.heap.at(y).item.outgoings().len()
                && addr_of::<T>(gc.heap.at(y).item.outgoings()[i]) != 0 ==> r.contains(
                addr_of::<T>(gc.heap.at(y).item.outgoings()[i]),
            ),
        reachable(gc.abs(), x),
    ensures
        r.contains(x),
        gc.heap.has(x),
{
    let s = gc.abs();
    assert(holds_roots(s, r)) by {
        assert forall|y: u64, z: u64| #[trigger] s.edge(y, z) && r.contains(y) implies r.contains(
            z,
        ) by {
            let i = choose|i: int|
                0 <= i < s.objs[y].links.len() && s.addr(#[trigger] s.objs[y].links[i]) == z;
            assert(gc.heap.at(y).item.outgoings()[i] == s.objs[y].links[i]);
        }
        assert forall|y: u64|
            #![trigger s.objs.contains_key(y)]
            s.live(y) && s.objs[y].rc > 0 implies r.contains(y) by {
            law_header_is_its_fields(gc.heap.at(y).header.0);
            assert(gc.heap.has(y));
        }
        assert forall|l: int, y: u64|
            0 <= l < s.parts.len() && #[trigger] s.parts[l].hazards.contains(y) implies r.contains(
            y,
        ) by {
            assert(s.parts[l] == part_of(gc.nodes()[l]));
            let h = choose|h: int|
                0 <= h < gc.nodes()[l].item.hazards@.len() && gc.nodes()[l].item.hazards@[h] == y;
            assert(gc.nodes()[l].item.hazards@[h] != 0);
        }
    }
    assert(s.live(x));
}

/// An object that is left has the root count and the type that it had, and its managed pointers
/// lead where they led, with the tags that they had.
pub proof fn law_what_is_left_is_as_it_was<T: TraceObj>(
    before: Global<T>,
    after: Global<T>,
    x: u64,
    i: int,
)
    requires
        spares(before.abs(), after.abs()) || reclaimed_exactly(before.abs(), after.abs()),
        after.keeps_payloads(before),
        before.wf(),
        after.wf(),
        after.heap.has(x),
    ensures
        before.heap.has(x),
        after.heap.at(x).item.payload() == before.heap.at(x).item.payload(),
        after.heap.at(x).header.0.0 % 0x8000_0000_0000_0000
            == before.heap.at(x).header.0.0 % 0x8000_0000_0000_0000,
        after.heap.at(x).item.outgoings().len() == before.heap.at(x).item.outgoings().len(),
        0 <= i < before.heap.at(x).item.outgoings().len() ==> after.heap.at(
            x,
        ).item.outgoings()[i] % 0x4000_0000_0000_0000 == before.heap.at(x).item.outgoings()[i]
            % 0x4000_0000_0000_0000,
{
    let s = before.abs();
    let t = after.abs();
    assert(t.objs.contains_key(x));
    assert(after.heap.payloads().contains_key(x));
    let a = before.heap.at(x).header.0;
    let b = after.heap.at(x).header.0;
    law_header_is_its_fields(a);
    law_header_is_its_fields(b);
    assert(a.rc() == b.rc() && a.tid() == b.tid());
    let p = a.0;
    let q = b.0;
    assert(p % 0x8000_0000_0000_0000 == p % 0x80_0000_0000_0000 + (p / 0x80_0000_0000_0000 % 256)
        * 0x80_0000_0000_0000);
    assert(q % 0x8000_0000_0000_0000 == q % 0x80_0000_0000_0000 + (q / 0x80_0000_0000_0000 % 256)
        * 0x80_0000_0000_0000);
    if 0 <= i < s.objs[x].links.len() {
        assert(clear_meta(t.objs[x].links[i]) == clear_meta(s.objs[x].links[i]));
        law_pointer_word_is_its_fields::<T>(t.objs[x].links[i]);
        law_pointer_word_is_its_fields::<T>(s.objs[x].links[i]);
    }
}

/// Nothing that can be reached is gone. Where a cycle reclaims exactly, everything else is.
pub proof fn law_reachable_objects_are_left<T: TraceObj>(
    before: Global<T>,
    after: Global<T>,
    x: u64,
)
    requires
        before.wf(),
        after.wf(),
    ensures
        spares(before.abs(), after.abs()) && reachable(before.abs(), x) ==> after.heap.has(x),
        reclaimed_exactly(before.abs(), after.abs()) ==> (after.heap.has(x) <==> reachable(
            before.abs(),
            x,
        )),
{
    assert(after.abs().objs.contains_key(x) == after.heap.has(x));
}

} // verus!
