//! Counts of bytes: what has been allocated and reclaimed, against what there is.

use crate::epoch::Color;
use crate::global::Global;
use crate::guards::Guard;
use crate::heap::ManObj;
use crate::internal::Local;
use crate::sync::reusable_slots::Node;
use crate::trace::TraceObj;
use vstd::prelude::*;

verus! {

/// A count of bytes. It wraps around.
pub open spec fn wrapped(x: int) -> int {
    x % (usize::MAX + 1)
}

/// The bytes that a participant has allocated and that are yet to be counted.
pub open spec fn uncounted(n: Node<Local>) -> int {
    n.item.objs@[0].1 + n.item.objs@[1].1
}

/// The bytes that participants have allocated and that are yet to be counted.
pub open spec fn pending_bytes(nodes: Seq<Node<Local>>) -> int
    decreases nodes.len(),
{
    if nodes.len() == 0 {
        0
    } else {
        pending_bytes(nodes.drop_last()) + uncounted(nodes.last())
    }
}

/// The bytes of one color that participants have allocated and that are yet to be counted.
pub open spec fn pending_bytes_of(nodes: Seq<Node<Local>>, color: Color) -> int
    decreases nodes.len(),
{
    if nodes.len() == 0 {
        0
    } else {
        pending_bytes_of(nodes.drop_last(), color) + nodes.last().item.objs@[color.code() as int].1
    }
}

/// The bytes that are yet to be counted are those of the two colors.
proof fn lemma_pending_split(nodes: Seq<Node<Local>>, color: Color)
    ensures
        pending_bytes(nodes) == pending_bytes_of(nodes, color) + pending_bytes_of(
            nodes,
            color.flipped(),
        ),
    decreases nodes.len(),
{
    if nodes.len() > 0 {
        lemma_pending_split(nodes.drop_last(), color);
        lemma_two_codes(color);
    }
}

/// The bytes of a color that are yet to be counted depend on those of each participant alone.
proof fn lemma_pending_color(a: Seq<Node<Local>>, b: Seq<Node<Local>>, color: Color)
    requires
        b.len() == a.len(),
        forall|k: int|
            0 <= k < a.len() ==> (#[trigger] b[k]).item.objs@[color.code() as int].1
                == a[k].item.objs@[color.code() as int].1,
    ensures
        pending_bytes_of(b, color) == pending_bytes_of(a, color),
    decreases a.len(),
{
    if a.len() > 0 {
        assert forall|k: int| 0 <= k < a.len() - 1 implies (
        #[trigger] b.drop_last()[k]).item.objs@[color.code() as int].1
            == a.drop_last()[k].item.objs@[color.code() as int].1 by {
            assert(b[k].item.objs@[color.code() as int].1 == a[k].item.objs@[color.code() as int].1);
        }
        lemma_pending_color(a.drop_last(), b.drop_last(), color);
        assert(b[a.len() - 1] == b.last());
    }
}

proof fn lemma_pending_none(a: Seq<Node<Local>>, color: Color)
    requires
        forall|k: int|
            0 <= k < a.len() ==> (#[trigger] a[k]).item.objs@[color.code() as int].1 == 0,
    ensures
        pending_bytes_of(a, color) == 0,
    decreases a.len(),
{
    if a.len() > 0 {
        assert forall|k: int| 0 <= k < a.len() - 1 implies (
        #[trigger] a.drop_last()[k]).item.objs@[color.code() as int].1 == 0 by {
            assert(a[k].item.objs@[color.code() as int].1 == 0);
        }
        lemma_pending_none(a.drop_last(), color);
        assert(a[a.len() - 1] == a.last());
    }
}

/// Where the bytes of one color are no longer to be counted, they have been counted as allocated.
pub proof fn lemma_color_counted<T: TraceObj>(a: Global<T>, b: Global<T>, color: Color)
    requires
        b.books().allocated == a.books().allocated,
        b.nodes().len() == a.nodes().len(),
        forall|k: int|
            0 <= k < a.nodes().len() ==> (#[trigger] b.nodes()[k]).item.objs@[color.code()
                as int].1 == 0 && b.nodes()[k].item.objs@[color.flipped().code() as int]
                == a.nodes()[k].item.objs@[color.flipped().code() as int],
    ensures
        b.stats.total_allocated == wrapped(
            a.stats.total_allocated + pending_bytes_of(a.nodes(), color),
        ),
{
    lemma_pending_split(a.nodes(), color);
    lemma_pending_split(b.nodes(), color);
    lemma_pending_none(b.nodes(), color);
    lemma_pending_color(a.nodes(), b.nodes(), color.flipped());
    let rest = pending_bytes_of(a.nodes(), color.flipped());
    let x = a.stats.total_allocated + pending_bytes_of(a.nodes(), color);
    let y = b.stats.total_allocated as int;
    assert(wrapped(y + rest) == wrapped(x + rest));
    lemma_wrapped_sum(y + rest, rest);
    lemma_wrapped_sum(x + rest, rest);
    assert(wrapped(y) == wrapped(x));
    lemma_wrapped_sum(y, 0);
}

/// The books of a heap.
pub struct Books {
    /// The bytes allocated so far, whether they have been counted or not.
    pub allocated: int,
    /// The bytes reclaimed so far.
    pub reclaimed: int,
    /// The number of objects.
    pub count: nat,
}

/// The number of objects is `gone` less than it was, and as many objects of the given size have
/// been counted as reclaimed.
pub open spec fn books_on(a: Books, b: Books, size: int) -> bool {
    &&& b.allocated == a.allocated
    &&& b.reclaimed == wrapped(a.reclaimed + size * (a.count - b.count))
}

/// The books balance: what has been allocated and not reclaimed is what there is.
pub open spec fn balanced(a: Books, size: int) -> bool {
    wrapped(a.allocated - a.reclaimed) == wrapped(size * a.count)
}

impl<T: TraceObj> Global<T> {
    /// The books.
    pub open spec fn books(self) -> Books {
        Books {
            allocated: wrapped(self.stats.total_allocated + pending_bytes(self.nodes())),
            reclaimed: self.stats.total_reclaimed as int,
            count: self.heap.objs().len(),
        }
    }

    /// Every object that is gone has been counted as reclaimed, and nothing else has; and nothing
    /// has been counted as allocated that had not been allocated before.
    pub open spec fn books_kept(self, before: Self) -> bool {
        books_on(before.books(), self.books(), Self::obj_size() as int)
    }
}

/// Sums can be wrapped part by part.
pub proof fn lemma_wrapped_sum(x: int, y: int)
    ensures
        wrapped(wrapped(x) + y) == wrapped(x + y),
        wrapped(x + wrapped(y)) == wrapped(x + y),
        wrapped(wrapped(x) - y) == wrapped(x - y),
        wrapped(x - wrapped(y)) == wrapped(x - y),
        wrapped(wrapped(x)) == wrapped(x),
        0 <= wrapped(x) <= usize::MAX,
        0 <= x <= usize::MAX ==> wrapped(x) == x,
{
    let m = usize::MAX + 1;
    vstd::arithmetic::div_mod::lemma_add_mod_noop(x, y, m);
    vstd::arithmetic::div_mod::lemma_add_mod_noop(x % m, y, m);
    vstd::arithmetic::div_mod::lemma_add_mod_noop(x, y % m, m);
    vstd::arithmetic::div_mod::lemma_sub_mod_noop(x, y, m);
    vstd::arithmetic::div_mod::lemma_sub_mod_noop(x % m, y, m);
    vstd::arithmetic::div_mod::lemma_sub_mod_noop(x, y % m, m);
    vstd::arithmetic::div_mod::lemma_mod_twice(x, m);
    vstd::arithmetic::div_mod::lemma_mod_twice(y, m);
    vstd::arithmetic::div_mod::lemma_mod_bound(x, m);
    if 0 <= x <= usize::MAX {
        vstd::arithmetic::div_mod::lemma_small_mod(x as nat, m as nat);
    }
}

/// Counting is adding.
pub proof fn lemma_counted(x: usize, y: usize)
    ensures
        x.wrapping_add(y) as int == wrapped(x + y),
{
    let m = usize::MAX + 1;
    if x + y <= usize::MAX {
        vstd::arithmetic::div_mod::lemma_small_mod((x + y) as nat, m as nat);
    } else {
        vstd::arithmetic::div_mod::lemma_small_mod((x + y - m) as nat, m as nat);
        vstd::arithmetic::div_mod::lemma_mod_add_multiples_vanish(x + y - m, m);
    }
}

/// One more object is counted.
pub proof fn lemma_one_counted(bytes: usize, size: usize, gone: int)
    requires
        bytes == wrapped(size * gone),
    ensures
        bytes.wrapping_add(size) == wrapped(size * (gone + 1)),
{
    lemma_counted(bytes, size);
    lemma_wrapped_sum(size * gone, size as int);
    assert(size * gone + size == size * (gone + 1)) by (nonlinear_arith);
}

/// The books are kept as they go on.
pub proof fn lemma_books_on(a: Books, b: Books, c: Books, size: int)
    requires
        books_on(a, b, size),
        books_on(b, c, size),
    ensures
        books_on(a, c, size),
{
    let p = size * (a.count - b.count);
    let q = size * (b.count - c.count);
    assert(p + q == size * (a.count - c.count)) by (nonlinear_arith)
        requires
            p == size * (a.count - b.count),
            q == size * (b.count - c.count),
    ;
    lemma_wrapped_sum(a.reclaimed + p, q);
}

/// Nothing has happened.
pub proof fn lemma_books_none(a: Books, size: int)
    requires
        0 <= a.reclaimed <= usize::MAX,
    ensures
        books_on(a, a, size),
{
    lemma_wrapped_sum(a.reclaimed, 0);
    assert(size * (a.count - a.count) == 0) by (nonlinear_arith);
}

/// What is pending depends on the batches alone.
pub proof fn lemma_pending_same(a: Seq<Node<Local>>, b: Seq<Node<Local>>)
    requires
        a.len() == b.len(),
        forall|k: int| 0 <= k < a.len() ==> uncounted(#[trigger] b[k]) == uncounted(a[k]),
    ensures
        pending_bytes(a) == pending_bytes(b),
    decreases a.len(),
{
    if a.len() > 0 {
        assert forall|k: int| 0 <= k < a.drop_last().len() implies uncounted(
            #[trigger] b.drop_last()[k],
        ) == uncounted(a.drop_last()[k]) by {
            assert(b[k] == b.drop_last()[k]);
        }
        lemma_pending_same(a.drop_last(), b.drop_last());
        assert(uncounted(b[b.len() - 1]) == uncounted(a[a.len() - 1]));
    }
}

/// A participant changes what it has pending.
pub proof fn lemma_pending_changed(a: Seq<Node<Local>>, l: int, n: Node<Local>)
    requires
        0 <= l < a.len(),
    ensures
        pending_bytes(a.update(l, n)) == pending_bytes(a) - uncounted(a[l]) + uncounted(n),
    decreases a.len(),
{
    let b = a.update(l, n);
    if l == a.len() - 1 {
        assert(b.drop_last() =~= a.drop_last());
    } else {
        assert(b.drop_last() =~= a.drop_last().update(l, n));
        lemma_pending_changed(a.drop_last(), l, n);
    }
}

/// Where the same objects are there and nothing was counted, the books are as they were.
pub proof fn lemma_books_same<T: TraceObj>(a: Global<T>, b: Global<T>)
    requires
        b.stats == a.stats,
        b.heap.objs().dom() == a.heap.objs().dom(),
        b.nodes().len() == a.nodes().len(),
        forall|k: int|
            0 <= k < a.nodes().len() ==> (#[trigger] b.nodes()[k]).item.objs == a.nodes()[k].item.objs,
    ensures
        b.books() == a.books(),
        b.books_kept(a),
{
    assert forall|k: int| 0 <= k < a.nodes().len() implies uncounted(#[trigger] b.nodes()[k])
        == uncounted(a.nodes()[k]) by {}
    lemma_pending_same(a.nodes(), b.nodes());
    lemma_books_none(a.books(), Global::<T>::obj_size() as int);
}

/// A participant hands over bytes to be counted as allocated.
pub proof fn lemma_books_published<T: TraceObj>(
    a: Global<T>,
    b: Global<T>,
    l: int,
    color: Color,
    bytes: usize,
)
    requires
        0 <= l < a.nodes().len(),
        b.nodes().len() == a.nodes().len(),
        forall|k: int|
            0 <= k < a.nodes().len() && k != l ==> (#[trigger] b.nodes()[k]).item.objs
                == a.nodes()[k].item.objs,
        b.local(l).objs@[color.flipped().code() as int] == a.local(
            l,
        ).objs@[color.flipped().code() as int],
        a.local(l).objs@[color.code() as int].1 == bytes + b.local(l).objs@[color.code() as int].1,
        b.stats.total_allocated == a.stats.total_allocated.wrapping_add(bytes),
        b.stats.total_reclaimed == a.stats.total_reclaimed,
        b.heap.objs().dom() == a.heap.objs().dom(),
    ensures
        b.books() == a.books(),
        b.books_kept(a),
{
    let t = a.nodes().update(l, b.nodes()[l]);
    lemma_pending_changed(a.nodes(), l, b.nodes()[l]);
    assert forall|k: int| 0 <= k < t.len() implies uncounted(#[trigger] b.nodes()[k]) == uncounted(
        t[k],
    ) by {}
    lemma_pending_same(t, b.nodes());
    lemma_two_codes(color);
    let total = a.stats.total_allocated;
    let rest = pending_bytes(b.nodes());
    assert(rest == pending_bytes(a.nodes()) - bytes);
    lemma_counted(total, bytes);
    lemma_wrapped_sum(total + bytes, rest);
    assert(total + bytes + rest == total + pending_bytes(a.nodes()));
    lemma_books_none(a.books(), Global::<T>::obj_size() as int);
}

/// A participant takes note of bytes that are to be counted later.
pub proof fn lemma_books_noted<T: TraceObj>(
    a: Global<T>,
    b: Global<T>,
    l: int,
    color: Color,
    bytes: usize,
)
    requires
        0 <= l < a.nodes().len(),
        b.nodes() == a.nodes().update(l, b.nodes()[l]),
        b.local(l).objs@[color.flipped().code() as int] == a.local(
            l,
        ).objs@[color.flipped().code() as int],
        b.local(l).objs@[color.code() as int].1 == a.local(l).objs@[color.code()
            as int].1.wrapping_add(bytes),
        b.stats == a.stats,
        b.heap.objs().dom() == a.heap.objs().dom(),
    ensures
        b.books() == (Books {
            allocated: wrapped(a.books().allocated + bytes),
            ..a.books()
        }),
{
    lemma_pending_changed(a.nodes(), l, b.nodes()[l]);
    lemma_two_codes(color);
    let had = a.local(l).objs@[color.code() as int].1;
    let rest = a.stats.total_allocated + pending_bytes(a.nodes()) - had;
    lemma_counted(had, bytes);
    lemma_wrapped_sum(rest, had + bytes);
    lemma_wrapped_sum(rest + had, bytes as int);
    assert(rest + (had + bytes) == (rest + had) + bytes);
}

proof fn lemma_two_codes(color: Color)
    ensures
        color.code() == 0 && color.flipped().code() == 1 || color.code() == 1
            && color.flipped().code() == 0,
{
}

/// An object less.
pub proof fn lemma_one_less<T: TraceObj>(a: Global<T>, b: Global<T>, x: u64)
    requires
        a.heap.objs().contains_key(x),
        b.heap.objs() == a.heap.objs().remove(x),
    ensures
        a.heap.objs().len() == b.heap.objs().len() + 1,
{
    lemma_finite(a.heap.objs().dom());
    assert(b.heap.objs().dom() =~= a.heap.objs().dom().remove(x));
}

/// An object more.
pub proof fn lemma_one_more<T: TraceObj>(a: Global<T>, b: Global<T>, x: u64)
    requires
        !a.heap.objs().contains_key(x),
        b.heap.objs().dom() == a.heap.objs().dom().insert(x),
    ensures
        b.heap.objs().len() == a.heap.objs().len() + 1,
{
    lemma_finite(a.heap.objs().dom());
}

/// There are only so many addresses.
proof fn lemma_finite(s: Set<u64>)
    ensures
        s.finite(),
{
    broadcast use vstd::set_lib::full_set_properties;

    vstd::set_lib::lemma_set_subset_finite(Set::<u64>::full(), s);
}

/// The books balance if they did, whatever is reclaimed.
pub proof fn law_books_stay_balanced(a: Books, b: Books, size: int)
    requires
        balanced(a, size),
        books_on(a, b, size),
    ensures
        balanced(b, size),
{
    let gone = size * (a.count - b.count);
    lemma_wrapped_sum(a.allocated, a.reclaimed + gone);
    lemma_wrapped_sum(a.allocated - a.reclaimed, gone);
    lemma_wrapped_sum(size * a.count, gone);
    assert(size * a.count - gone == size * b.count) by (nonlinear_arith)
        requires
            gone == size * (a.count - b.count),
    ;
    assert(a.allocated - (a.reclaimed + gone) == (a.allocated - a.reclaimed) - gone);
}

/// The books balance if they did, when an object is allocated.
pub proof fn law_books_balance_with_one_more(a: Books, b: Books, size: int)
    requires
        balanced(a, size),
        b.count == a.count + 1,
        b.allocated == wrapped(a.allocated + size),
        b.reclaimed == a.reclaimed,
    ensures
        balanced(b, size),
{
    lemma_wrapped_sum(a.allocated + size, a.reclaimed);
    lemma_wrapped_sum(a.allocated - a.reclaimed, size);
    lemma_wrapped_sum(size * a.count, size);
    assert(size * a.count + size == size * b.count) by (nonlinear_arith)
        requires
            b.count == a.count + 1,
    ;
    assert((a.allocated + size) - a.reclaimed == (a.allocated - a.reclaimed) + size);
}

/// Writing pointers, and rooting and unrooting objects, do not touch the books.
pub proof fn law_barriers_keep_books<T: TraceObj>(
    a: Global<T>,
    b: Global<T>,
    l: int,
    gid: u64,
    tasks: Seq<u64>,
)
    requires
        0 <= l < a.nodes().len(),
        b.only_barriers(a, l, gid, tasks),
    ensures
        b.books() == a.books(),
{
    assert(b.heap.objs().dom() =~= b.heap.payloads().dom());
    assert(a.heap.objs().dom() =~= a.heap.payloads().dom());
    lemma_books_same(a, b);
}

/// Where all batches have been published and counts have not wrapped around, what is estimated of
/// the heap is what there is: the bytes of its objects.
pub proof fn law_heap_usage_is_what_there_is<T: TraceObj>(gc: Global<T>)
    requires
        balanced(gc.books(), Global::<T>::obj_size() as int),
        pending_bytes(gc.nodes()) == 0,
        gc.stats.total_reclaimed <= gc.stats.total_allocated,
        Global::<T>::obj_size() * gc.heap.objs().len() <= usize::MAX,
    ensures
        gc.heap_usage() == Global::<T>::obj_size() * gc.heap.objs().len(),
{
    let size = Global::<T>::obj_size() as int;
    let bytes = size * gc.heap.objs().len();
    assert(0 <= bytes) by (nonlinear_arith)
        requires
            bytes == size * gc.heap.objs().len(),
            size >= 0,
    ;
    lemma_wrapped_sum(gc.stats.total_allocated as int, 0);
    lemma_wrapped_sum(bytes, 0);
    lemma_wrapped_sum(gc.stats.total_allocated - gc.stats.total_reclaimed, 0);
}

/// An object is counted as the bytes that it takes: those of its header and of its item together.
pub proof fn law_objects_are_counted_by_their_size<T: TraceObj>()
    requires
        vstd::layout::size_of::<ManObj<T>>() <= usize::MAX,
    ensures
        Global::<T>::obj_size() == vstd::layout::size_of::<ManObj<T>>(),
{
}

/// The books are what has been counted: as allocated, the bytes that are counted already and those
/// that participants have yet to hand over; as reclaimed, the bytes that are counted; and the
/// objects that there are.
pub proof fn law_books_are_the_counts<T: TraceObj>(gc: Global<T>)
    ensures
        gc.books().allocated == (gc.stats.total_allocated + gc.nodes().fold_left(
            0int,
            |sum: int, n: Node<Local>| sum + n.item.objs@[0].1 + n.item.objs@[1].1,
        )) % (usize::MAX + 1),
        gc.books().reclaimed == gc.stats.total_reclaimed,
        gc.books().count == gc.heap.objs().len(),
{
    lemma_pending_folded(gc.nodes());
}

/// What is pending is the sum over the participants.
proof fn lemma_pending_folded(nodes: Seq<Node<Local>>)
    ensures
        pending_bytes(nodes) == nodes.fold_left(
            0int,
            |sum: int, n: Node<Local>| sum + n.item.objs@[0].1 + n.item.objs@[1].1,
        ),
    decreases nodes.len(),
{
    if nodes.len() > 0 {
        lemma_pending_folded(nodes.drop_last());
    }
}

/// An allocation adds the size of the object to the bytes allocated, and nothing to the bytes
/// reclaimed. There is one object more.
pub proof fn law_allocations_add_their_size<T: TraceObj>(
    before: Global<T>,
    after: Global<T>,
    guard: Guard,
    item: T,
    rc: nat,
    a: u64,
)
    requires
        vstd::layout::size_of::<ManObj<T>>() <= usize::MAX,
        after.is_allocated(before, guard, item, rc, a),
    ensures
        ({
            let sum = |sum: int, n: Node<Local>| sum + n.item.objs@[0].1 + n.item.objs@[1].1;
            let was = before.stats.total_allocated + before.nodes().fold_left(0int, sum);
            let is = after.stats.total_allocated + after.nodes().fold_left(0int, sum);
            is % (usize::MAX + 1) == (was + vstd::layout::size_of::<ManObj<T>>()) % (usize::MAX
                + 1)
        }),
        after.stats.total_reclaimed == before.stats.total_reclaimed,
        after.heap.objs().len() == before.heap.objs().len() + 1,
{
    law_books_are_the_counts(before);
    law_books_are_the_counts(after);
    let sum = |sum: int, n: Node<Local>| sum + n.item.objs@[0].1 + n.item.objs@[1].1;
    let was = before.stats.total_allocated + before.nodes().fold_left(0int, sum);
    lemma_wrapped_sum(was, vstd::layout::size_of::<ManObj<T>>() as int);
}

/// Whatever is reclaimed is counted by its size: the bytes reclaimed grow by the size of an object
/// for each object that is gone. The bytes allocated stay.
pub proof fn law_reclaimed_objects_add_their_size<T: TraceObj>(before: Global<T>, after: Global<T>)
    requires
        vstd::layout::size_of::<ManObj<T>>() <= usize::MAX,
        after.books_kept(before),
    ensures
        after.stats.total_reclaimed == (before.stats.total_reclaimed + vstd::layout::size_of::<
            ManObj<T>,
        >() * (before.heap.objs().len() - after.heap.objs().len())) % (usize::MAX + 1),
        ({
            let sum = |sum: int, n: Node<Local>| sum + n.item.objs@[0].1 + n.item.objs@[1].1;
            let was = before.stats.total_allocated + before.nodes().fold_left(0int, sum);
            let is = after.stats.total_allocated + after.nodes().fold_left(0int, sum);
            is % (usize::MAX + 1) == was % (usize::MAX + 1)
        }),
{
    law_books_are_the_counts(before);
    law_books_are_the_counts(after);
}

/// Where nothing is left to be handed over and counts have not wrapped around, what is in use is
/// the size of an object for each object that there is.
pub proof fn law_heap_usage_is_the_size_of_the_objects<T: TraceObj>(gc: Global<T>)
    requires
        vstd::layout::size_of::<ManObj<T>>() <= usize::MAX,
        balanced(gc.books(), Global::<T>::obj_size() as int),
        forall|l: int|
            0 <= l < gc.nodes().len() ==> (#[trigger] gc.nodes()[l]).item.objs@[0].1 == 0
                && gc.nodes()[l].item.objs@[1].1 == 0,
        gc.stats.total_reclaimed <= gc.stats.total_allocated,
        vstd::layout::size_of::<ManObj<T>>() * gc.heap.objs().len() <= usize::MAX,
    ensures
        gc.heap_usage() == vstd::layout::size_of::<ManObj<T>>() * gc.heap.objs().len(),
        gc.stats.total_allocated - gc.stats.total_reclaimed == vstd::layout::size_of::<ManObj<T>>()
            * gc.heap.objs().len(),
{
    assert forall|l: int| 0 <= l < gc.nodes().len() implies uncounted(#[trigger] gc.nodes()[l])
        == 0 by {}
    lemma_pending_zero(gc.nodes());
    law_heap_usage_is_what_there_is(gc);
}

proof fn lemma_pending_zero(nodes: Seq<Node<Local>>)
    requires
        forall|l: int| 0 <= l < nodes.len() ==> uncounted(#[trigger] nodes[l]) == 0,
    ensures
        pending_bytes(nodes) == 0,
    decreases nodes.len(),
{
    if nodes.len() > 0 {
        assert forall|l: int| 0 <= l < nodes.len() - 1 implies uncounted(
            #[trigger] nodes.drop_last()[l],
        ) == 0 by {
            assert(uncounted(nodes[l]) == 0);
        }
        lemma_pending_zero(nodes.drop_last());
        assert(uncounted(nodes[nodes.len() - 1]) == 0);
    }
}

/// The books balance from the start: in a new heap nothing has been allocated or reclaimed and there
/// is nothing. What is allocated and what is reclaimed keeps them balanced.
pub proof fn law_books_balance_from_the_start<T: TraceObj>(
    before: Global<T>,
    after: Global<T>,
    guard: Guard,
    item: T,
    rc: nat,
    a: u64,
)
    requires
        balanced(before.books(), Global::<T>::obj_size() as int),
        after.books_kept(before) || after.is_allocated(before, guard, item, rc, a),
    ensures
        balanced(after.books(), Global::<T>::obj_size() as int),
{
    let size = Global::<T>::obj_size() as int;
    if after.books_kept(before) {
        law_books_stay_balanced(before.books(), after.books(), size);
    } else {
        law_books_balance_with_one_more(before.books(), after.books(), size);
    }
}

} // verus!
