//! Shading and marking.

use crate::barriers::{all_shades, edge_shades, mark_shades, shade_for, shades};
use crate::epoch::Color;
use crate::global::{lemma_sched_none, lemma_sched_on, lemma_scheduled, Global};
use crate::man_ptr::{addr_of, lemma_same_meta, meta_of, set_meta, ManPtr, PtrMeta};
use crate::model::{GcModel, ObjModel};
use crate::steps::{add_task, mark_obj, recolor};
use crate::trace::TraceObj;
use vstd::prelude::*;

verus! {

/// The tasks once an object has been marked: all that it led to and that was not black.
pub open spec fn tasks_marked(s: GcModel, a: u64) -> Set<u64> {
    Set::new(
        |y: u64| s.tasks.contains(y) || (s.is_white(a) && s.edge(a, y) && s.is_white(y)),
    )
}

/// Edges of objects lead to objects.
pub open spec fn edges_live(s: GcModel) -> bool {
    forall|x: u64, y: u64| #[trigger] s.edge(x, y) ==> s.live(y)
}

impl<T: TraceObj> Global<T> {
    /// Shading the object is due to a participant: it is there, and not black.
    pub open spec fn shade_due(self, l: int, x: u64) -> bool {
        x != 0 && self.abs().objs[x].color != self.black_of(l)
    }

    /// One task has been scheduled, behind what had been scheduled before, if one was due. If not,
    /// nothing has changed.
    pub open spec fn shaded(self, before: Self, l: int, gid: u64, x: u64, due: bool) -> bool {
        &&& due ==> self.local(l).has_scheduled(before.local(l), seq![x], gid)
        &&& due ==> self.abs() == add_task(before.abs(), x)
        &&& !due ==> self == before
    }

    /// Schedules an object to be marked.
    pub fn schedule_mark(&mut self, addr: u64, lid: usize, gid: u64)
        requires
            old(self).fits(),
            lid < old(self).nodes().len(),
        ensures
            final(self).fits(),
            final(self).only_sched(*old(self), lid as int, gid, seq![addr]),
            final(self).abs() == add_task(old(self).abs(), addr),
    {
        let ghost before = *self;
        assert(self.nodes()[lid as int].item.wf());
        self.locals.nodes[lid].item.schedule_mark(addr, gid);
        proof {
            assert(self.nodes() =~= before.nodes().update(lid as int, self.nodes()[lid as int]));
            let items = before.local(lid as int).mark_tasks.items();
            assert(items + seq![addr] =~= items.push(addr));
            lemma_scheduled(before, *self, lid as int, addr);
        }
    }

    /// Schedules the object that a pointer leads to, unless the pointer is null or the object is
    /// already marked. Returns `true` if it scheduled a task.
    pub fn shade_pointee(&mut self, ptr: ManPtr<T>, lid: usize, gid: u64) -> (r: bool)
        requires
            old(self).fits(),
            lid < old(self).nodes().len(),
            addr_of::<T>(ptr.data) != 0 ==> old(self).heap.has(addr_of::<T>(ptr.data)),
        ensures
            final(self).fits(),
            final(self).only_sched(
                *old(self),
                lid as int,
                gid,
                shades(old(self).abs(), old(self).black_of(lid as int), addr_of::<T>(ptr.data)),
            ),
            r == old(self).shade_due(lid as int, addr_of::<T>(ptr.data)),
            final(self).shaded(*old(self), lid as int, gid, addr_of::<T>(ptr.data), r),
    {
        let a: u64 = ptr.as_ptr();
        let ghost before = *self;
        proof {
            lemma_sched_none(before, lid as int, gid);
        }
        if a == 0 {
            return false;
        }
        let black: Color = self.locals.nodes[lid].item.epoch.color().flip();
        if self.heap.get(a).is_marked(black) {
            return false;
        }
        self.schedule_mark(a, lid, gid);
        true
    }

    /// Shades what an edge leads to and turns the edge black, unless it is black already.
    pub fn shade_link(&mut self, ptr: ManPtr<T>, lid: usize, gid: u64) -> (r: ManPtr<T>)
        requires
            old(self).fits(),
            lid < old(self).nodes().len(),
            meta_of(ptr.data) is Unrooted,
            addr_of::<T>(ptr.data) != 0 ==> old(self).heap.has(addr_of::<T>(ptr.data)),
        ensures
            final(self).fits(),
            final(self).only_sched(
                *old(self),
                lid as int,
                gid,
                edge_shades(old(self).abs(), old(self).black_of(lid as int), ptr.data),
            ),
            r.data == set_meta(ptr.data, PtrMeta::Unrooted(old(self).black_of(lid as int))),
            meta_of(ptr.data) == PtrMeta::Unrooted(old(self).black_of(lid as int)) ==> *final(self)
                == *old(self),
            meta_of(ptr.data) != PtrMeta::Unrooted(old(self).black_of(lid as int)) ==> final(self).abs() == shade_for(
                old(self).abs(),
                old(self).black_of(lid as int),
                addr_of::<T>(ptr.data),
            ),
            final(self).shaded(
                *old(self),
                lid as int,
                gid,
                addr_of::<T>(ptr.data),
                meta_of(ptr.data) != PtrMeta::Unrooted(old(self).black_of(lid as int)) && old(
                    self).shade_due(lid as int, addr_of::<T>(ptr.data)),
            ),
    {
        let black: Color = self.locals.nodes[lid].item.epoch.color().flip();
        if ptr.meta() == PtrMeta::Unrooted(black) {
            proof {
                lemma_same_meta(ptr.data, black);
                lemma_sched_none(*self, lid as int, gid);
            }
            return ptr;
        }
        self.shade_pointee(ptr, lid, gid);
        ptr.with_meta(PtrMeta::Unrooted(black))
    }

    /// Marks an object: shades what it has edges to, and turns it and its edges black.
    pub fn mark_forced(&mut self, a: u64, lid: usize, gid: u64)
        requires
            old(self).fits(),
            lid < old(self).nodes().len(),
            old(self).heap.has(a),
            old(self).black_of(lid as int) == old(self).abs().black(),
            old(self).abs().colors_ok(),
            edges_live(old(self).abs()),
        ensures
            final(self).fits(),
            final(self).abs() == mark_obj(
                old(self).abs(),
                a,
                tasks_marked(old(self).abs(), a),
            ),
            final(self).heap.payloads() == old(self).heap.payloads(),
            final(self).heap.has_room() == old(self).heap.has_room(),
            (Global { heap: old(self).heap, ..*final(self) }).only_sched(
                *old(self),
                lid as int,
                gid,
                all_shades(old(self).abs(), old(self).abs().black(), old(self).abs().objs[a].links),
            ),
    {
        let ghost s = self.abs();
        let ghost links = s.objs[a].links;
        let ghost before = *self;
        let black: Color = self.locals.nodes[lid].item.epoch.color().flip();
        let n: usize = self.heap.get(a).item.outgoing_count();
        let mut i: usize = 0;
        proof {
            lemma_sched_none(before, lid as int, gid);
            assert(links.take(0) =~= Seq::<u64>::empty());
            assert(s.objs =~= s.objs.insert(
                a,
                ObjModel { links: partly(links, black, 0), ..s.objs[a] },
            )) by {
                assert(partly(links, black, 0) =~= links);
            }
            assert(before.heap.payloads() =~= before.heap.payloads().insert(
                a,
                before.heap.payloads()[a],
            ));
        }
        while i < n
            invariant
                s == old(self).abs(),
                s.colors_ok(),
                edges_live(s),
                before == *old(self),
                links == s.objs[a].links,
                n == links.len(),
                i <= n,
                lid < old(self).nodes().len(),
                old(self).heap.has(a),
                self.fits(),
                black == s.black(),
                old(self).black_of(lid as int) == black,
                (Global { heap: old(self).heap, ..*self }).only_sched(
                    *old(self),
                    lid as int,
                    gid,
                    all_shades(s, black, links.take(i as int)),
                ),
                self.heap.objs() == s.objs.insert(
                    a,
                    ObjModel { links: partly(links, black, i as int), ..s.objs[a] },
                ),
                self.heap.payloads() == old(self).heap.payloads(),
                self.heap.has_room() == old(self).heap.has_room(),
                self.abs() == (GcModel {
                    objs: self.heap.objs(),
                    tasks: self.abs().tasks,
                    ..s
                }),
                forall|y: u64| #[trigger]
                    self.abs().tasks.contains(y) <==> s.tasks.contains(y) || (s.is_white(a)
                        && s.is_white(y) && y != 0 && exists|k: int|
                        0 <= k < i && addr_of::<T>(#[trigger] links[k]) == y),
            decreases n - i,
        {
            let ghost t = self.abs();
            let ghost mid = *self;
            assert(self.heap.objs().contains_key(a));
            assert(self.heap.has(a));
            let word: u64 = self.heap.get(a).item.outgoing(i);
            assert(word == links[i as int]);
            let ptr: ManPtr<T> = ManPtr::from(word);
            assert(meta_of(word) == PtrMeta::Unrooted(s.objs[a].color));
            assert(addr_of::<T>(word) != 0 ==> s.edge(a, addr_of::<T>(word)));
            assert(addr_of::<T>(word) != 0 ==> mid.heap.objs().contains_key(addr_of::<T>(word)));
            let turned: ManPtr<T> = self.shade_link(ptr, lid, gid);
            self.heap.get_mut(a).item.set_outgoing(i, turned.data);
            proof {
                assert(partly(links, black, i as int).update(i as int, turned.data) =~= partly(
                    links,
                    black,
                    i + 1,
                ));
                assert(self.heap.objs() =~= s.objs.insert(
                    a,
                    ObjModel { links: partly(links, black, i + 1), ..s.objs[a] },
                ));
                assert(self.heap.payloads() =~= old(self).heap.payloads());
                assert(edge_shades(t, black, word) == edge_shades(s, black, word));
                assert(links.take(i + 1).drop_last() =~= links.take(i as int));
                lemma_sched_on(
                    before,
                    Global { heap: before.heap, ..mid },
                    Global { heap: before.heap, ..*self },
                    lid as int,
                    gid,
                    all_shades(s, black, links.take(i as int)),
                    edge_shades(s, black, word),
                );
            }
            i = i + 1;
        }
        let ghost looped = *self;
        assert(self.heap.objs().contains_key(a));
        self.heap.get_mut(a).header.mark(black);
        proof {
            assert(partly(links, black, n as int) =~= recolor(links, black));
            assert(links.take(n as int) =~= links);
            let goal = mark_obj(s, a, tasks_marked(s, a));
            assert(self.heap.objs() =~= goal.objs);
            assert(self.heap.payloads() =~= old(self).heap.payloads());
            assert forall|y: u64| self.abs().tasks.contains(y) == goal.tasks.contains(y) by {
                if s.edge(a, y) {
                    let k = choose|k: int|
                        0 <= k < links.len() && addr_of::<T>(#[trigger] links[k]) == y;
                    assert(0 <= k < n && addr_of::<T>(links[k]) == y);
                }
                assert(looped.abs().tasks == self.abs().tasks);
            }
            assert(self.abs().tasks =~= goal.tasks);
            assert(self.abs() =~= goal);
        }
    }

    /// Marks an object that is not marked yet.
    pub fn mark(&mut self, a: u64, lid: usize, gid: u64)
        requires
            old(self).fits(),
            lid < old(self).nodes().len(),
            old(self).heap.has(a),
            old(self).black_of(lid as int) == old(self).abs().black(),
            old(self).abs().colors_ok(),
            edges_live(old(self).abs()),
        ensures
            final(self).fits(),
            final(self).abs() == mark_obj(
                old(self).abs(),
                a,
                tasks_marked(old(self).abs(), a),
            ),
            final(self).heap.payloads() == old(self).heap.payloads(),
            final(self).heap.has_room() == old(self).heap.has_room(),
            (Global { heap: old(self).heap, ..*final(self) }).only_sched(
                *old(self),
                lid as int,
                gid,
                mark_shades(old(self).abs(), a),
            ),
            old(self).abs().is_black(a) ==> *final(self) == *old(self),
    {
        let black: Color = self.locals.nodes[lid].item.epoch.color().flip();
        if !self.heap.get(a).is_marked(black) {
            self.mark_forced(a, lid, gid);
        } else {
            proof {
                lemma_mark_black(self.abs(), a);
                lemma_sched_none(*self, lid as int, gid);
            }
        }
    }
}

/// The edges of an object of which the first have been recolored.
pub open spec fn partly(links: Seq<u64>, c: Color, n: int) -> Seq<u64> {
    Seq::new(
        links.len(),
        |k: int|
            if k < n {
                set_meta(links[k], PtrMeta::Unrooted(c))
            } else {
                links[k]
            },
    )
}

/// Marking a black object changes nothing.
pub proof fn lemma_mark_black(s: GcModel, a: u64)
    requires
        s.is_black(a),
        s.colors_ok(),
    ensures
        mark_obj(s, a, tasks_marked(s, a)) == s,
{
    let t = mark_obj(s, a, tasks_marked(s, a));
    let links = s.objs[a].links;
    assert(recolor(links, s.black()) =~= links) by {
        assert forall|k: int| 0 <= k < links.len() implies recolor(links, s.black())[k]
            == #[trigger] links[k] by {
            assert(s.objs[a].links[k] == links[k]);
            lemma_same_meta(links[k], s.black());
        }
    }
    assert(t.tasks =~= s.tasks);
    assert(t.objs =~= s.objs);
    assert(t =~= s);
}

} // verus!
