//! Allocation: a value moves to the heap and its managed pointers become edges.

use crate::accounts::{lemma_books_same, lemma_one_more, wrapped, Books};
use crate::epoch::Color;
use crate::barriers::root_shades;
use crate::global::{lemma_part_changed, lemma_sched_none, lemma_sched_on, Global};
use crate::guards::Guard;
use crate::heap::ManObj;
use crate::internal::{help_due, Local, ALLOC_HELPING_PERIOD};
use crate::marking::partly;
use crate::man_ptr::{addr_in, addr_of, is_addr, lemma_word, meta_of, set_meta, tag_bits, tag_of, ManPtr, PtrMeta};
use crate::model::{GcModel, ObjModel};
use crate::obj_meta::ROOT_COUNT_MASK;
use crate::roots::{lemma_root_released, lemma_same_white, root_released};
use crate::steps::{
    alloc_obj, alloc_ok, keeps_protected, lemma_alloc_obj, recolor, safe_step,
};
use crate::trace::{LinkKind, TraceObj};
use vstd::prelude::*;

verus! {

/// How many of the words lead to the address.
pub open spec fn addr_count(low: u64, links: Seq<u64>, y: u64) -> nat
    decreases links.len(),
{
    if links.len() == 0 {
        0
    } else {
        addr_count(low, links.drop_first(), y) + (if addr_in(low, links[0]) == y {
            1nat
        } else {
            0nat
        })
    }
}

/// Every word has a kind, and is null only where it may be.
pub open spec fn fits_kinds(low: u64, links: Seq<u64>, kinds: Seq<LinkKind>) -> bool {
    &&& kinds.len() == links.len()
    &&& forall|i: int|
        0 <= i < links.len() && kinds[i] != LinkKind::Nullable ==> addr_in(
            low,
            #[trigger] links[i],
        ) != 0
}

/// The words are roots, and each counts for itself: an object has at least as many roots as words
/// that lead to it.
pub open spec fn owned_links(s: GcModel, links: Seq<u64>) -> bool {
    &&& forall|i: int|
        0 <= i < links.len() ==> meta_of(#[trigger] links[i]) == PtrMeta::Rooted
    &&& forall|y: u64|
        y != 0 && #[trigger] addr_count(s.low, links, y) > 0 ==> s.live(y) && addr_count(s.low, links, y)
            <= s.objs[y].rc
}

/// The root that a word is goes.
pub open spec fn word_released(s: GcModel, w: u64) -> GcModel {
    if s.addr(w) == 0 {
        s
    } else {
        root_released(s, s.addr(w))
    }
}

/// The roots that words are go, one after the other.
pub open spec fn links_released(s: GcModel, links: Seq<u64>) -> GcModel
    decreases links.len(),
{
    if links.len() == 0 {
        s
    } else {
        links_released(word_released(s, links[0]), links.drop_first())
    }
}

/// What is scheduled when the roots that words are go, one after the other.
pub open spec fn links_shades(s: GcModel, links: Seq<u64>) -> Seq<u64>
    decreases links.len(),
{
    if links.len() == 0 {
        Seq::empty()
    } else {
        root_shades(s, s.addr(links[0])) + links_shades(
            word_released(s, links[0]),
            links.drop_first(),
        )
    }
}

/// Only root counts and tasks differ.
pub open spec fn same_but_roots(s: GcModel, t: GcModel) -> bool {
    &&& t.epoch == s.epoch
    &&& t.young == s.young
    &&& t.scanned == s.scanned
    &&& t.parts == s.parts
    &&& forall|x: u64| #[trigger] t.objs.contains_key(x) == s.live(x)
    &&& forall|x: u64| #[trigger]
        t.objs.contains_key(x) ==> t.objs[x].color == s.objs[x].color && t.objs[x].links
            == s.objs[x].links && t.objs[x].tid == s.objs[x].tid && t.objs[x].kinds == s.objs[x].kinds
}

/// The first word of words that count for themselves does so, and so do the others without it.
pub proof fn lemma_owned_first(s: GcModel, links: Seq<u64>)
    requires
        s.sound(),
        links.len() > 0,
        owned_links(s, links),
    ensures
        s.addr(links[0]) != 0 ==> s.live(s.addr(links[0])) && s.objs[s.addr(links[0])].rc > 0,
        owned_links(word_released(s, links[0]), links.drop_first()),
        safe_step(s, word_released(s, links[0])),
        same_but_roots(s, word_released(s, links[0])),
        s.tracing() ==> forall|y: u64| #[trigger]
            s.kept(y) ==> word_released(s, links[0]).kept(y),
{
    let w = links[0];
    let y = s.addr(w);
    let rest = links.drop_first();
    let t = word_released(s, w);
    if y != 0 {
        assert(addr_count(s.low, links, y) > 0);
        lemma_root_released(s, y);
    }
    assert forall|i: int| 0 <= i < rest.len() implies meta_of(#[trigger] rest[i])
        == PtrMeta::Rooted by {
        assert(rest[i] == links[i + 1]);
    }
    assert forall|z: u64| z != 0 && #[trigger] addr_count(s.low, rest, z) > 0 implies t.live(z)
        && addr_count(s.low, rest, z) <= t.objs[z].rc by {
        assert(addr_count(s.low, links, z) > 0);
    }
}

/// Releasing the roots that words are is a safe step, and what they lead to stays in use.
pub proof fn lemma_links_released(s: GcModel, links: Seq<u64>)
    requires
        s.sound(),
        owned_links(s, links),
    ensures
        safe_step(s, links_released(s, links)),
        same_but_roots(s, links_released(s, links)),
        s.tracing() ==> forall|y: u64| #[trigger] s.kept(y) ==> links_released(s, links).kept(y),
        forall|x: u64|
            #![trigger links_released(s, links).objs[x]]
            x != 0 && s.live(x) ==> links_released(s, links).objs[x].rc == s.objs[x].rc
                - addr_count(s.low, links, x),
        forall|i: int|
            0 <= i < links.len() && s.addr(#[trigger] links[i]) != 0 ==> {
                let y = s.addr(links[i]);
                let t = links_released(s, links);
                &&& t.live(y)
                &&& t.tracing() ==> t.kept(y)
                &&& !t.tracing() ==> t.is_white(y)
            },
    decreases links.len(),
{
    if links.len() > 0 {
        lemma_owned_first(s, links);
        let m = word_released(s, links[0]);
        let rest = links.drop_first();
        lemma_links_released(m, rest);
        let t = links_released(s, links);
        assert forall|x: u64|
            #![trigger links_released(s, links).objs[x]]
            x != 0 && s.live(x) implies links_released(s, links).objs[x].rc == s.objs[x].rc
            - addr_count(s.low, links, x) by {
            assert(m.objs.contains_key(x));
            assert(links_released(m, rest).objs[x].rc == m.objs[x].rc - addr_count(s.low, rest, x));
        }
        assert forall|i: int| 0 <= i < links.len() && s.addr(#[trigger] links[i]) != 0 implies {
            let y = s.addr(links[i]);
            &&& t.live(y)
            &&& t.tracing() ==> t.kept(y)
            &&& !t.tracing() ==> t.is_white(y)
        } by {
            if i > 0 {
                assert(rest[i - 1] == links[i]);
            } else {
                let y = s.addr(links[0]);
                assert(s.live(y) && s.objs[y].rc > 0);
                if s.tracing() {
                    assert(s.kept(y));
                    assert(m.kept(y));
                } else {
                    assert(m.objs.contains_key(y));
                    assert(t.objs.contains_key(y));
                }
            }
        }
    }
}

/// A word that is a root counts for itself.
pub proof fn law_owned_one(s: GcModel, w: u64)
    requires
        meta_of(w) == PtrMeta::Rooted,
        s.addr(w) != 0 ==> s.live(s.addr(w)) && s.objs[s.addr(w)].rc > 0,
    ensures
        owned_links(s, seq![w]),
        forall|y: u64| #[trigger]
            addr_count(s.low, seq![w], y) == (if s.addr(w) == y {
                1nat
            } else {
                0nat
            }),
{
    assert forall|y: u64| #[trigger] addr_count(s.low, seq![w], y) == (if s.addr(w) == y {
        1nat
    } else {
        0nat
    }) by {
        assert(seq![w].drop_first().len() == 0);
        assert(addr_count(s.low, seq![w].drop_first(), y) == 0);
    }
}

/// Words that count for themselves do so with one more root, if its object has a root left for
/// it.
pub proof fn law_owned_more(s: GcModel, links: Seq<u64>, w: u64)
    requires
        owned_links(s, links),
        meta_of(w) == PtrMeta::Rooted,
        s.addr(w) != 0 ==> s.live(s.addr(w)) && addr_count(s.low, links, s.addr(w))
            < s.objs[s.addr(w)].rc,
    ensures
        owned_links(s, links.push(w)),
        forall|y: u64| #[trigger]
            addr_count(s.low, links.push(w), y) == addr_count(s.low, links, y) + (if s.addr(w) == y {
                1nat
            } else {
                0nat
            }),
{
    assert forall|y: u64| #[trigger]
        addr_count(s.low, links.push(w), y) == addr_count(s.low, links, y) + (if s.addr(w) == y {
            1nat
        } else {
            0nat
        }) by {
        lemma_addr_count_push(s.low, links, w, y);
    }
}

pub proof fn lemma_addr_count_push(low: u64, links: Seq<u64>, w: u64, y: u64)
    ensures
        addr_count(low, links.push(w), y) == addr_count(low, links, y) + (if addr_in(low, w) == y {
            1nat
        } else {
            0nat
        }),
    decreases links.len(),
{
    if links.len() == 0 {
        assert(links.push(w).drop_first().len() == 0);
        assert(addr_count(low, links.push(w).drop_first(), y) == 0);
    } else {
        assert(links.push(w).drop_first() =~= links.drop_first().push(w));
        lemma_addr_count_push(low, links.drop_first(), w, y);
    }
}

impl<T: TraceObj> Global<T> {
    /// Turns a root into an edge of the color that a pinned participant allocates in, and
    /// releases the root that it was.
    pub fn unroot_link(&mut self, ptr: ManPtr<T>, guard: &Guard) -> (r: ManPtr<T>)
        requires
            old(self).wf(),
            old(self).guarded(*guard),
            old(self).rooted_ok(ptr.data),
        ensures
            final(self).wf(),
            r.data == set_meta(
                ptr.data,
                PtrMeta::Unrooted(old(self).local(guard.lid as int).alloc_color()),
            ),
            final(self).abs() == word_released(old(self).abs(), ptr.data),
            final(self).only_barriers(
                *old(self),
                guard.lid as int,
                guard.gid,
                root_shades(old(self).abs(), addr_of::<T>(ptr.data)),
            ),
            keeps_protected(old(self).abs(), final(self).abs()),
    {
        proof {
            lemma_same_white(self.abs(), guard.lid as int);
            lemma_sched_none(*self, guard.lid as int, guard.gid);
        }
        if !ptr.is_null() {
            self.release_root(ptr, guard.lid, guard.gid);
        }
        let lid: usize = guard.lid;
        let color: Color = self.locals.nodes[lid].item.pinned_alloc_color();
        ptr.with_meta(PtrMeta::Unrooted(color))
    }

    /// Turns all managed pointers in a value, which are roots, into edges.
    pub fn unroot_outgoings(&mut self, item: &mut T, guard: &Guard)
        requires
            old(self).wf(),
            old(self).guarded(*guard),
            owned_links(old(self).abs(), old(item).outgoings()),
        ensures
            final(self).wf(),
            final(item).outgoings() == recolor(
                old(item).outgoings(),
                old(self).local(guard.lid as int).alloc_color(),
            ),
            final(item).payload() == old(item).payload(),
            final(item).key() == old(item).key(),
            final(item).kinds() == old(item).kinds(),
            final(self).abs() == links_released(old(self).abs(), old(item).outgoings()),
            final(self).only_barriers(
                *old(self),
                guard.lid as int,
                guard.gid,
                links_shades(old(self).abs(), old(item).outgoings()),
            ),
            keeps_protected(old(self).abs(), final(self).abs()),
            old(item).outgoings().len() == 0 ==> *final(self) == *old(self),
    {
        let ghost s = self.abs();
        let ghost before = *self;
        let ghost links = item.outgoings();
        let ghost l = guard.lid as int;
        let ghost c = self.local(l).alloc_color();
        let ghost mut shaded = Seq::<u64>::empty();
        let n: usize = item.outgoing_count();
        let mut i: usize = 0;
        proof {
            lemma_sched_none(before, l, guard.gid);
            assert(links.subrange(0, links.len() as int) =~= links);
            assert(partly(links, c, 0) =~= links);
            assert(links.skip(0) =~= links);
            assert(shaded + links_shades(s, links) =~= links_shades(s, links));
        }
        while i < n
            invariant
                before == *old(self),
                s == old(self).abs(),
                s.sound(),
                links == old(item).outgoings(),
                n == links.len(),
                i <= n,
                l == guard.lid,
                old(self).guarded(*guard),
                c == old(self).local(l).alloc_color(),
                self.wf(),
                self.guarded(*guard),
                self.local(l).epoch == old(self).local(l).epoch,
                item.outgoings() == partly(links, c, i as int),
                item.payload() == old(item).payload(),
                item.key() == old(item).key(),
                item.kinds() == old(item).kinds(),
                owned_links(self.abs(), links.skip(i as int)),
                links_released(s, links) == links_released(self.abs(), links.skip(i as int)),
                self.only_barriers(*old(self), l, guard.gid, shaded),
                shaded + links_shades(self.abs(), links.skip(i as int)) == links_shades(s, links),
                keeps_protected(s, self.abs()),
                self.abs().parts == s.parts,
                i == 0 ==> *self == before,
            decreases n - i,
        {
            let ghost mid = *self;
            let ghost rest = links.skip(i as int);
            let word: u64 = item.outgoing(i);
            proof {
                assert(word == links[i as int]);
                assert(rest[0] == word);
                lemma_owned_first(mid.abs(), rest);
                assert(rest.drop_first() =~= links.skip(i + 1));
            }
            let ptr: ManPtr<T> = ManPtr::from(word);
            let edge: ManPtr<T> = self.unroot_link(ptr, guard);
            item.set_outgoing(i, edge.data);
            proof {
                assert(partly(links, c, i as int).update(i as int, edge.data)
                    =~= partly(links, c, i + 1));
                let more = root_shades(mid.abs(), addr_of::<T>(word));
                lemma_sched_on(
                    before,
                    Global { heap: before.heap, ..mid },
                    Global { heap: before.heap, ..*self },
                    l,
                    guard.gid,
                    shaded,
                    more,
                );
                assert((shaded + more) + links_shades(self.abs(), links.skip(i + 1)) =~= shaded + (
                more + links_shades(self.abs(), links.skip(i + 1))));
                shaded = shaded + more;
            }
            i = i + 1;
        }
        assert(partly(links, c, n as int) =~= recolor(links, c));
        assert(links.skip(n as int).len() == 0);
        assert(shaded =~= links_shades(s, links));
    }

    /// What can be allocated: there is room in the heap, the type can be registered, and the
    /// managed pointers in the value are roots that count for themselves.
    pub open spec fn can_allocate(self, item: T) -> bool {
        &&& self.heap.has_room()
        &&& self.registry.accepts(item.key())
        &&& owned_links(self.abs(), item.outgoings())
        &&& fits_kinds(tag_bits::<T>(), item.outgoings(), item.kinds())
    }

    /// The new object.
    pub open spec fn new_obj(self, l: int, item: T, rc: nat, tid: u8) -> ObjModel {
        let c = self.local(l).alloc_color();
        ObjModel { color: c, rc, tid, links: recolor(item.outgoings(), c), kinds: item.kinds() }
    }

    /// Nothing differs but the heap, to which objects were added, the registry, the lists and one
    /// participant.
    pub open spec fn only_allocates(self, before: Self, l: int) -> bool {
        &&& self == (Global {
            heap: self.heap,
            locals: self.locals,
            registry: self.registry,
            fresh_objs: self.fresh_objs,
            stats: self.stats,
            ..before
        })
        &&& self.nodes().len() == before.nodes().len()
        &&& forall|k: int|
            0 <= k < self.nodes().len() && k != l ==> #[trigger] self.nodes()[k]
                == before.nodes()[k]
        &&& self.nodes()[l].using == before.nodes()[l].using
        &&& (Local {
            objs: before.local(l).objs,
            picker: before.local(l).picker,
            ..self.local(l)
        }).same_but_mark(before.local(l))
        &&& self.stats.total_reclaimed == before.stats.total_reclaimed
    }

    /// An object with the given value and number of roots has been allocated at an address, and
    /// nothing else has happened.
    pub open spec fn is_allocated(self, before: Self, g: Guard, item: T, rc: nat, a: u64) -> bool {
        let l = g.lid as int;
        let tid = self.abs().objs[a].tid;
        let tasks = links_shades(before.abs(), item.outgoings());
        &&& a != 0
        &&& is_addr::<T>(a)
        &&& !before.heap.has(a)
        &&& self.heap.has(a)
        &&& self.registry.knows(item.key())
        &&& self.registry.fns@[tid as int] == item.key()
        &&& self.abs() == alloc_obj(
            links_released(before.abs(), item.outgoings()),
            a,
            before.new_obj(l, item, rc, tid),
        )
        &&& forall|i: int|
            #![trigger self.abs().objs[a].links[i]]
            0 <= i < item.outgoings().len() ==> addr_of::<T>(self.abs().objs[a].links[i]) == addr_of::<T>(
                item.outgoings()[i],
            ) && tag_of::<T>(self.abs().objs[a].links[i]) == tag_of::<T>(item.outgoings()[i])
        &&& forall|x: u64|
            #![trigger self.abs().objs[x]]
            x != 0 && before.abs().live(x) ==> self.abs().live(x) && self.abs().objs[x].rc
                == before.abs().objs[x].rc - addr_count(tag_bits::<T>(), item.outgoings(), x)
        &&& self.heap.payloads() == before.heap.payloads().insert(a, item.payload())
        &&& self.abs().protected(l, a)
        &&& self.only_allocates(before, l)
        &&& keeps_protected(before.abs(), self.abs())
        &&& self.books() == (Books {
            allocated: wrapped(before.books().allocated + Self::obj_size()),
            reclaimed: before.books().reclaimed,
            count: before.books().count + 1,
        })
        &&& self.heap.objs().len() == before.heap.objs().len() + 1
        // The allocation is counted, and the guard is asked for help every now and then.
        &&& self.local(l).alloc_count == before.local(l).alloc_count.wrapping_add(1)
        &&& forall|h: u64| #[trigger]
            self.local(l).should_help@.contains(h) <==> before.local(l).should_help@.contains(h)
                || (h == g.gid && (self.local(l).alloc_count % ALLOC_HELPING_PERIOD == 0
                || help_due(before.local(l).sched_count, tasks.len())))
        // So are the tasks that the managed pointers in the value come to.
        &&& self.local(l).mark_tasks.items() == before.local(l).mark_tasks.items() + tasks
        &&& self.local(l).sched_count == (before.local(l).sched_count + tasks.len()) % (u64::MAX
            + 1)
    }

    /// Allocates an object with the given number of roots and returns its address.
    pub fn allocate(&mut self, item: T, root_count: u64, guard: &Guard) -> (r: u64)
        requires
            old(self).wf(),
            old(self).guarded(*guard),
            old(self).can_allocate(item),
            root_count <= ROOT_COUNT_MASK,
        ensures
            final(self).wf(),
            final(self).is_allocated(*old(self), *guard, item, root_count as nat, r),
            final(self).guarded(*guard),
            final(self).local(guard.lid as int).epoch == old(self).local(guard.lid as int).epoch,
    {
        let ghost s = self.abs();
        let ghost links = item.outgoings();
        let ghost before = *self;
        let ghost l = guard.lid as int;
        let ghost c = self.local(l).alloc_color();
        let lid: usize = guard.lid;
        proof {
            lemma_same_white(s, l);
            lemma_links_released(s, links);
        }
        let mut item = item;
        self.unroot_outgoings(&mut item, guard);
        let ghost t = self.abs();
        let ghost unrooted = *self;
        let color: Color = self.locals.nodes[lid].item.pinned_alloc_color();
        let type_id: u8 = self.registry.register_type(item.type_key());
        let ghost registered = *self;
        let obj: ManObj<T> = ManObj::new(item, color, root_count, type_id);
        let ghost o = obj.model();
        let a: u64 = self.heap.place(obj);
        let ghost placed = *self;
        proof {
            assert(self.fits()) by {
                assert forall|x: u64| #[trigger] self.heap.objs().contains_key(
                    x,
                ) implies self.heap.objs()[x].tid < self.registry.fns@.len() by {
                    if x != a {
                        assert(unrooted.heap.objs().contains_key(x));
                    }
                }
            }
        }
        self.push_fresh_obj(lid, a, true);
        let ghost pushed = *self;
        assert(self.nodes()[l].item.wf());
        self.locals.nodes[lid].item.count_alloc(guard.gid);
        proof {
            assert(self.nodes() =~= pushed.nodes().update(l, self.nodes()[l]));
            lemma_part_changed(pushed, *self, l);
            assert(self.abs() =~= pushed.abs());
            assert(self.abs() =~= alloc_obj(t, a, o));
            crate::steps::lemma_recolor(s.low, links, c);
            assert forall|i: int| 0 <= i < o.links.len() implies meta_of(#[trigger] o.links[i])
                == PtrMeta::Unrooted(o.color) && addr_of::<T>(o.links[i]) == addr_of::<T>(links[i]) by {}
            assert(!t.objs.contains_key(a));
            assert(alloc_ok(t, a, o));
            lemma_alloc_obj(t, a, o);
            assert forall|i: int|
                #![trigger self.abs().objs[a].links[i]]
                0 <= i < links.len() implies addr_of::<T>(self.abs().objs[a].links[i]) == addr_of::<T>(
                links[i],
            ) && tag_of::<T>(self.abs().objs[a].links[i]) == tag_of::<T>(links[i]) by {
                lemma_word::<T>(links[i]);
            }
            assert forall|x: u64|
                #![trigger self.abs().objs[x]]
                x != 0 && s.live(x) implies self.abs().live(x) && self.abs().objs[x].rc
                == s.objs[x].rc - addr_count(tag_bits::<T>(), links, x) by {
                assert(t.objs.contains_key(x));
                assert(links_released(s, links).objs[x].rc == s.objs[x].rc - addr_count(tag_bits::<T>(), links, x));
            }
            assert(self.registry.fns@.contains(item.key()));
            assert(self.abs().objs.contains_key(a));
            crate::guards::lemma_books_pinned(before, unrooted);
            assert(placed.heap.objs().dom() =~= unrooted.heap.objs().dom().insert(a));
            lemma_one_more(unrooted, placed, a);
            lemma_books_same(pushed, *self);
        }
        a
    }
}

} // verus!
