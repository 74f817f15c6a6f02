//! Mark tasks: how they are found and done.

use crate::epoch::Color;
use crate::barriers::mark_shades;
use crate::global::{
    is_prefix, lemma_asks_none, lemma_asks_on, lemma_fits_local, lemma_node_update, parts_of,
    pending_of, tasks_of, Global,
};
use crate::heap::{addr_slot, lemma_addr_slot, slot_addr, Heap};
use crate::internal::{part_of, Local};
use crate::mark_queue::{law_steal_moves_items, stolen_batch, MarkQueue};
use crate::marking::{edges_live, tasks_marked};
use crate::model::{GcModel, ObjModel};
use crate::pinning::marked;
use crate::roots::lemma_same_white;
use crate::scanning::{lemma_marked_within, traces_within, within};
use crate::steps::{
    keeps_protected, lemma_mark_obj, lemma_mark_shape, lemma_shape_on, mark_obj, safe_step,
    same_shape, tasks_after_mark,
};
use crate::sync::reusable_slots::Node;
use crate::trace::TraceObj;
use vstd::prelude::*;

verus! {

/// How many tasks are taken over from another participant at once.
pub const LOCAL_MARK_TASKS_BATCH_LIMIT: usize = 2048;

/// The number of tasks in all queues.
pub open spec fn queued(nodes: Seq<Node<Local>>) -> nat
    decreases nodes.len(),
{
    if nodes.len() == 0 {
        0
    } else {
        queued(nodes.drop_last()) + nodes.last().item.mark_tasks.items().len()
    }
}

proof fn lemma_queued_update(nodes: Seq<Node<Local>>, l: int, n: Node<Local>)
    requires
        0 <= l < nodes.len(),
    ensures
        queued(nodes.update(l, n)) + nodes[l].item.mark_tasks.items().len() == queued(nodes)
            + n.item.mark_tasks.items().len(),
    decreases nodes.len(),
{
    let t = nodes.update(l, n);
    if l == nodes.len() - 1 {
        assert(t.drop_last() =~= nodes.drop_last());
    } else {
        assert(t.drop_last() =~= nodes.drop_last().update(l, n));
        lemma_queued_update(nodes.drop_last(), l, n);
    }
}

/// The objects of a color.
pub open spec fn of_color(objs: Map<u64, ObjModel>, c: Color) -> Set<u64> {
    objs.dom().filter(|x: u64| objs[x].color == c)
}

/// There are finitely many objects.
pub proof fn lemma_heap_finite<T: TraceObj>(heap: Heap<T>)
    requires
        heap.wf(),
    ensures
        heap.objs().dom().finite(),
{
    let n = heap.slots@.len();
    let slots = vstd::set_lib::set_int_range(0, n as int);
    vstd::set_lib::lemma_int_range(0, n as int);
    let addrs = slots.map(|i: int| slot_addr::<T>(i));
    slots.lemma_map_finite(|i: int| slot_addr::<T>(i));
    assert forall|a: u64| heap.objs().dom().contains(a) implies addrs.contains(a) by {
        assert(heap.has(a));
        let i = addr_slot::<T>(a);
        assert(slots.contains(i));
        lemma_addr_slot::<T>(a);
    }
    vstd::set_lib::lemma_set_subset_finite(addrs, heap.objs().dom());
}

/// A task has been taken out of a queue: the state is as before but for the tasks, of which at
/// most that one is missing.
pub open spec fn task_taken(s: GcModel, a: u64, t: GcModel) -> bool {
    &&& t == (GcModel { tasks: t.tasks, ..s })
    &&& s.tasks.contains(a)
    &&& forall|x: u64| #[trigger] t.tasks.contains(x) ==> s.tasks.contains(x)
    &&& forall|x: u64| #[trigger] s.tasks.contains(x) && x != a ==> t.tasks.contains(x)
}

/// Marking the object of a task that has been taken is a safe step from before it was taken.
pub proof fn lemma_task_done(s: GcModel, a: u64, t: GcModel)
    requires
        s.sound(),
        task_taken(s, a, t),
    ensures
        s.tracing(),
        t.live(a),
        t.colors_ok(),
        edges_live(t),
        safe_step(s, marked(t, a)),
        traces_within(s, marked(t, a), Set::empty()),
        marked(t, a).parts == s.parts,
        marked(t, a).epoch == s.epoch,
        marked(t, a).young == s.young,
        marked(t, a).scanned == s.scanned,
        same_shape(s, marked(t, a)),
{
    assert(s.tracing());
    lemma_mark_shape(t, a, tasks_marked(t, a));
    let tasks = tasks_marked(t, a);
    assert(mark_obj(s, a, tasks) =~= marked(t, a));
    assert(tasks_after_mark(s, a, tasks));
    lemma_mark_obj(s, a, tasks);
    assert forall|r: Set<u64>| #[trigger] within(s, r) implies within(marked(t, a), r) by {
        assert(within(t, r)) by {
            assert forall|l: int, x: u64|
                0 <= l < t.parts.len() && #[trigger] t.parts[l].hazards.contains(
                    x,
                ) implies r.contains(x) by {
                assert(s.parts[l].hazards.contains(x));
            }
            assert forall|x: u64| #[trigger] t.is_black(x) implies r.contains(x) by {
                assert(s.is_black(x));
            }
        }
        lemma_marked_within(t, a, r);
    }
}

/// Marking an object leaves one white object less, or none less if it was black.
proof fn lemma_fewer_white(s: GcModel, a: u64)
    requires
        s.live(a),
        s.objs.dom().finite(),
    ensures
        of_color(marked(s, a).objs, s.white()).finite(),
        s.is_white(a) ==> of_color(marked(s, a).objs, s.white()).len() + 1 == of_color(
            s.objs,
            s.white(),
        ).len(),
        s.is_black(a) ==> of_color(marked(s, a).objs, s.white()).len() == of_color(
            s.objs,
            s.white(),
        ).len(),
{
    let before = of_color(s.objs, s.white());
    let after = of_color(marked(s, a).objs, s.white());
    assert(marked(s, a).objs.dom() =~= s.objs.dom());
    if s.is_white(a) {
        assert(after =~= before.remove(a));
    } else {
        assert(after =~= before);
    }
}

impl<T: TraceObj> Global<T> {
    /// Takes and does the oldest task of a participant. Returns `true` if there was one.
    pub fn do_own_task(&mut self, lid: usize, gid: u64) -> (r: bool)
        requires
            old(self).wf(),
            old(self).takes_part(lid as int),
        ensures
            final(self).wf(),
            final(self).only_tracing(*old(self), lid as int),
            final(self).fresh_objs == old(self).fresh_objs,
            final(self).marked_objs == old(self).marked_objs,
            final(self).abs().epoch == old(self).abs().epoch,
            final(self).abs().parts == old(self).abs().parts,
            traces_within(old(self).abs(), final(self).abs(), Set::empty()),
            keeps_protected(old(self).abs(), final(self).abs()),
            final(self).asks(*old(self), lid as int, gid),
            ({
                let items = old(self).local(lid as int).mark_tasks.items();
                &&& r == (items.len() > 0)
                &&& r ==> final(self).abs().is_black(items[0])
                &&& r ==> is_prefix(
                    items.skip(1),
                    final(self).local(lid as int).mark_tasks.items(),
                )
                &&& !r ==> *final(self) == *old(self)
            }),
            forall|x: u64| #[trigger]
                old(self).abs().is_black(x) ==> final(self).abs().is_black(x),
    {
        let ghost before = *self;
        let ghost s = self.abs();
        let ghost l = lid as int;
        assert(self.nodes()[l].item.wf());
        proof {
            assert(s.parts[l] == part_of(self.nodes()[l]));
            lemma_same_white(s, l);
            lemma_asks_none(before, before, l, gid);
            assert(self.nodes() =~= before.nodes().update(l, self.nodes()[l]));
        }
        if self.locals.nodes[lid].item.mark_tasks.is_empty() {
            return false;
        }
        match self.locals.nodes[lid].item.try_pop_mark_task() {
            Some(a) => {
                let ghost t = self.abs();
                proof {
                    assert(self.nodes() =~= before.nodes().update(l, self.nodes()[l]));
                    lemma_popped(before, *self, l, a);
                    lemma_task_done(s, a, t);
                    assert(self.abs().objs.contains_key(a));
                    lemma_asks_none(before, *self, l, gid);
                }
                let ghost popped = *self;
                self.mark(a, lid, gid);
                proof {
                    assert(self.asks(popped, l, gid));
                    lemma_asks_on(before, popped, *self, l, gid);
                    assert(self.nodes() =~= before.nodes().update(l, self.nodes()[l]));
                    assert(self.abs() == marked(t, a));
                }
                true
            },
            None => false,
        }
    }

    /// Does some of the tasks of a participant: half of them, but at least half of a batch, as
    /// long as there are any.
    pub fn help_draining_mark_tasks_inner(&mut self, lid: usize, gid: u64) -> (r: usize)
        requires
            old(self).wf(),
            old(self).takes_part(lid as int),
        ensures
            final(self).wf(),
            final(self).only_tracing(*old(self), lid as int),
            final(self).fresh_objs == old(self).fresh_objs,
            final(self).marked_objs == old(self).marked_objs,
            final(self).abs().epoch == old(self).abs().epoch,
            final(self).abs().parts == old(self).abs().parts,
            traces_within(old(self).abs(), final(self).abs(), Set::empty()),
            keeps_protected(old(self).abs(), final(self).abs()),
            final(self).asks(*old(self), lid as int, gid),
            forall|x: u64| #[trigger]
                old(self).abs().is_black(x) ==> final(self).abs().is_black(x),
            ({
                let n = help_share(old(self).local(lid as int).mark_tasks.items().len());
                &&& r <= n
                &&& r < n ==> final(self).local(lid as int).mark_tasks.items().len() == 0
            }),
            has_done(
                old(self).local(lid as int).mark_tasks.items(),
                final(self).local(lid as int).mark_tasks.items(),
                r as int,
                final(self).abs(),
            ),
            old(self).local(lid as int).mark_tasks.items().len() == 0 ==> *final(self) == *old(
                self),
            old(self).local(lid as int).mark_tasks.items().len() > 0 ==> final(
                self).abs().is_black(old(self).local(lid as int).mark_tasks.items()[0]),
    {
        let ghost before = *self;
        let ghost s = self.abs();
        let ghost l = lid as int;
        assert(self.nodes()[l].item.wf());
        let mt_len: usize = self.locals.nodes[lid].item.mark_tasks.len();
        let half: usize = mt_len / 2;
        let n: usize = if half < crate::lists::OBJ_BATCH_SIZE / 2 {
            crate::lists::OBJ_BATCH_SIZE / 2
        } else {
            half
        };
        let mut i: usize = 0;
        proof {
            assert(self.nodes() =~= before.nodes().update(l, self.nodes()[l]));
            let items = before.local(l).mark_tasks.items();
            lemma_asks_none(before, before, l, gid);
            assert(items + Seq::<u64>::empty() =~= items);
            assert(items.skip(0) =~= items);
            assert(has_done_of(items + Seq::<u64>::empty(), items, 0, s));
        }
        while i < n
            invariant
                before == *old(self),
                s == before.abs(),
                l == lid,
                before.takes_part(l),
                self.asks(before, l, gid),
                forall|x: u64| #[trigger] s.is_black(x) ==> self.abs().is_black(x),
                n == help_share(before.local(l).mark_tasks.items().len()),
                i <= n,
                self.wf(),
                self.only_tracing(before, l),
                self.fresh_objs == before.fresh_objs,
                self.marked_objs == before.marked_objs,
                self.abs().epoch == s.epoch,
                self.abs().parts == s.parts,
                traces_within(s, self.abs(), Set::empty()),
                keeps_protected(s, self.abs()),
                i == 0 ==> *self == before,
                i > 0 ==> before.local(l).mark_tasks.items().len() > 0 && self.abs().is_black(
                    before.local(l).mark_tasks.items()[0],
                ),
                has_done(
                    before.local(l).mark_tasks.items(),
                    self.local(l).mark_tasks.items(),
                    i as int,
                    self.abs(),
                ),
            decreases n - i,
        {
            let ghost mid = *self;
            if !self.do_own_task(lid, gid) {
                return i;
            }
            proof {
                assert(self.nodes() =~= before.nodes().update(l, self.nodes()[l]));
                lemma_asks_on(before, mid, *self, l, gid);
                assert forall|x: u64| #[trigger] s.is_black(x) implies self.abs().is_black(x) by {
                    assert(mid.abs().is_black(x));
                }
                lemma_traces_on(s, mid.abs(), self.abs(), Set::empty());
                lemma_shape_on(s, mid.abs(), self.abs());
                lemma_done_more(
                    before.local(l).mark_tasks.items(),
                    mid.local(l).mark_tasks.items(),
                    self.local(l).mark_tasks.items(),
                    i as int,
                    mid.abs(),
                    self.abs(),
                );
            }
            i = i + 1;
        }
        n
    }
}

/// So many tasks have been done of those in a queue and of those that came to stand behind them.
/// The objects of these are black, and the others are left in their order.
pub open spec fn has_done(before: Seq<u64>, after: Seq<u64>, n: int, t: GcModel) -> bool {
    exists|more: Seq<u64>| #[trigger] has_done_of(before + more, after, n, t)
}

pub open spec fn has_done_of(all: Seq<u64>, after: Seq<u64>, n: int, t: GcModel) -> bool {
    &&& 0 <= n <= all.len()
    &&& after == all.skip(n)
    &&& forall|k: int| 0 <= k < n ==> t.is_black(#[trigger] all[k])
}

/// The share of a helper has been done: that of the tasks there were, or all there are.
pub open spec fn has_done_share(before: Seq<u64>, after: Seq<u64>, t: GcModel) -> bool {
    exists|n: int|
        #![trigger has_done(before, after, n, t)]
        has_done(before, after, n, t) && (n >= help_share(before.len()) || after.len() == 0)
}

/// The share of the tasks there are is no less than that of some of them.
pub proof fn lemma_share_done(a: Seq<u64>, b: Seq<u64>, c: Seq<u64>, n: int, t: GcModel)
    requires
        is_prefix(a, b),
        has_done(b, c, n, t),
        n >= help_share(b.len()) || c.len() == 0,
    ensures
        has_done_share(a, c, t),
{
    let more = choose|more: Seq<u64>| #[trigger] has_done_of(b + more, c, n, t);
    let further = b.skip(a.len() as int) + more;
    assert(a + further =~= b + more);
    assert(has_done_of(a + further, c, n, t));
    assert(has_done(a, c, n, t));
}

/// One more task has been done.
proof fn lemma_done_more(a: Seq<u64>, b: Seq<u64>, c: Seq<u64>, n: int, s: GcModel, t: GcModel)
    requires
        has_done(a, b, n, s),
        b.len() > 0,
        is_prefix(b.skip(1), c),
        t.is_black(b[0]),
        forall|x: u64| #[trigger] s.is_black(x) ==> t.is_black(x),
    ensures
        has_done(a, c, n + 1, t),
{
    let more = choose|more: Seq<u64>| #[trigger] has_done_of(a + more, b, n, s);
    let all = a + more;
    let further = more + c.skip(b.len() - 1);
    assert(a + further =~= all + c.skip(b.len() - 1));
    assert(c =~= (a + further).skip(n + 1)) by {
        assert forall|k: int| 0 <= k < c.len() implies c[k] == (a + further).skip(n + 1)[k] by {
            if k < b.len() - 1 {
                assert(c[k] == b.skip(1)[k]);
                assert(b[k + 1] == all[n + k + 1]);
            }
        }
    }
    assert forall|k: int| 0 <= k < n + 1 implies t.is_black(#[trigger] (a + further)[k]) by {
        assert((a + further)[k] == all[k]);
        if k == n {
            assert(b[0] == all[n]);
        }
    }
    assert(has_done_of(a + further, c, n + 1, t));
}

/// How many tasks a participant does when it helps.
pub open spec fn help_share(len: nat) -> int {
    if len / 2 < 32 {
        32
    } else {
        len as int / 2
    }
}

/// Tracing goes on within the same bounds.
pub proof fn lemma_traces_on(s: GcModel, t: GcModel, u: GcModel, also: Set<u64>)
    requires
        traces_within(s, t, also),
        traces_within(t, u, Set::empty()),
    ensures
        traces_within(s, u, also),
{
    assert forall|r: Set<u64>| #[trigger]
        within(s, r) && (forall|x: u64|
            s.live(x) && #[trigger] also.contains(x) ==> r.contains(x)) implies within(u, r) by {
        assert(within(t, r));
    }
}

/// The oldest task of a participant has been taken.
proof fn lemma_popped<T: TraceObj>(before: Global<T>, after: Global<T>, l: int, a: u64)
    requires
        before.fits(),
        0 <= l < before.nodes().len(),
        before.local(l).mark_tasks.items().len() > 0,
        a == before.local(l).mark_tasks.items()[0],
        after.only_local(before, l),
        after.local(l).same_but_mark(before.local(l)),
        after.local(l).mark_tasks.wf(),
        after.local(l).mt_modified_ts <= before.epoch.data.ts(),
        after.local(l).mark_tasks.items() == before.local(l).mark_tasks.items().subrange(
            1,
            before.local(l).mark_tasks.items().len() as int,
        ),
    ensures
        after.fits(),
        task_taken(before.abs(), a, after.abs()),
        queued(after.nodes()) + 1 == queued(before.nodes()),
{
    let n = after.nodes()[l];
    let items = before.local(l).mark_tasks.items();
    let rest = after.local(l).mark_tasks.items();
    lemma_node_update(before.nodes(), l, n);
    lemma_fits_local(before, after, l);
    lemma_queued_update(before.nodes(), l, n);
    assert(part_of(n) == part_of(before.nodes()[l]));
    assert(parts_of(after.nodes()) =~= parts_of(before.nodes()));
    assert(before.abs().tasks.contains(a)) by {
        assert(items.contains(a));
        assert(before.nodes()[l].item.mark_tasks.items().contains(a));
    }
    assert forall|x: u64| #[trigger] after.abs().tasks.contains(
        x,
    ) implies before.abs().tasks.contains(x) by {
        let k = choose|k: int|
            0 <= k < after.nodes().len() && (
            #[trigger] after.nodes()[k]).item.mark_tasks.items().contains(x);
        if k == l {
            let j = choose|j: int| 0 <= j < rest.len() && rest[j] == x;
            assert(items[j + 1] == x);
            assert(items.contains(x));
        }
        assert(before.nodes()[k].item.mark_tasks.items().contains(x));
    }
    assert forall|x: u64| #[trigger] before.abs().tasks.contains(
        x,
    ) && x != a implies after.abs().tasks.contains(x) by {
        let k = choose|k: int|
            0 <= k < before.nodes().len() && (
            #[trigger] before.nodes()[k]).item.mark_tasks.items().contains(x);
        if k == l {
            let j = choose|j: int| 0 <= j < items.len() && items[j] == x;
            assert(rest[j - 1] == x);
            assert(rest.contains(x));
        }
        assert(after.nodes()[k].item.mark_tasks.items().contains(x));
    }
    assert(after.abs() =~= (GcModel { tasks: after.abs().tasks, ..before.abs() }));
}

impl<T: TraceObj> Global<T> {
    /// Nothing differs but the queues of mark tasks.
    pub open spec fn only_queues(self, before: Self) -> bool {
        &&& self == (Global { locals: self.locals, ..before })
        &&& self.locals.active_count == before.locals.active_count
        &&& self.nodes().len() == before.nodes().len()
        &&& forall|k: int|
            0 <= k < before.nodes().len() ==> #[trigger] self.nodes()[k] == (Node {
                using: before.nodes()[k].using,
                item: Local { mark_tasks: self.local(k).mark_tasks, ..before.local(k) },
            })
    }

    /// Takes a task of another participant, and some more of them into the queue of this one.
    fn steal_task(&mut self, lid: usize, i: usize) -> (r: Option<u64>)
        requires
            old(self).fits(),
            lid < old(self).nodes().len(),
            i < old(self).nodes().len(),
            i != lid,
            old(self).local(lid as int).mark_tasks.items().len() == 0,
        ensures
            final(self).fits(),
            final(self).only_queues(*old(self)),
            old(self).local(i as int).mark_tasks.items().len() == 0 <==> r is None,
            r is None ==> final(self).abs() == old(self).abs() && final(self).local(
                lid as int,
            ).mark_tasks.items().len() == 0 && final(self).local(i as int).mark_tasks.items().len()
                == 0,
            r is None ==> forall|k: int|
                0 <= k < final(self).nodes().len() ==> (
                #[trigger] final(self).nodes()[k]).item.mark_tasks.items() == old(
                    self).nodes()[k].item.mark_tasks.items(),
            r matches Some(a) ==> task_taken(old(self).abs(), a, final(self).abs())
                && queued(final(self).nodes()) + 1 == queued(old(self).nodes()),
            r matches Some(a) ==> {
                let items = old(self).local(i as int).mark_tasks.items();
                let n = 1 + stolen_batch(items.len(), LOCAL_MARK_TASKS_BATCH_LIMIT);
                &&& a == items[0]
                &&& final(self).local(lid as int).mark_tasks.items() == items.subrange(1, n)
                &&& final(self).local(i as int).mark_tasks.items() == items.subrange(
                    n,
                    items.len() as int,
                )
            },
    {
        let ghost before = *self;
        let ghost l = lid as int;
        let ghost k = i as int;
        assert(self.nodes()[l].item.wf());
        assert(self.nodes()[k].item.wf());
        let mut mine: MarkQueue = MarkQueue::new();
        std::mem::swap(&mut self.locals.nodes[lid].item.mark_tasks, &mut mine);
        let r: Option<u64> = mine.steal_batch_and_pop(
            &mut self.locals.nodes[i].item.mark_tasks,
            LOCAL_MARK_TASKS_BATCH_LIMIT,
        );
        std::mem::swap(&mut self.locals.nodes[lid].item.mark_tasks, &mut mine);
        proof {
            let nl = self.nodes()[l];
            let nk = self.nodes()[k];
            assert(self.nodes() =~= before.nodes().update(k, nk).update(l, nl));
            let items = before.local(k).mark_tasks.items();
            if items.len() > 0 {
                law_steal_moves_items(items, LOCAL_MARK_TASKS_BATCH_LIMIT);
            }
            lemma_stolen(before, *self, l, k, r);
            assert(Seq::<u64>::empty() =~= before.local(l).mark_tasks.items());
            if items.len() > 0 {
                let n = 1 + stolen_batch(items.len(), LOCAL_MARK_TASKS_BATCH_LIMIT);
                assert(self.local(l).mark_tasks.items() =~= items.subrange(1, n));
            }
        }
        r
    }

    /// The task is the oldest of the participant itself or, where that one has none, the oldest
    /// of the first participant that has any.
    pub open spec fn is_next_task(self, l: int, a: u64) -> bool {
        let own = self.local(l).mark_tasks.items();
        if own.len() > 0 {
            a == own[0]
        } else {
            exists|k: int|
                0 <= k < self.nodes().len() && (
                #[trigger] self.nodes()[k]).item.mark_tasks.items().len() > 0
                    && self.nodes()[k].item.mark_tasks.items()[0] == a && forall|j: int|
                    0 <= j < k ==> (#[trigger] self.nodes()[j]).item.mark_tasks.items().len() == 0
        }
    }

    /// Finds a task: the oldest of the participant itself, or else the oldest of the first other
    /// one that has any.
    pub fn find_task(&mut self, lid: usize) -> (r: Option<u64>)
        requires
            old(self).fits(),
            lid < old(self).nodes().len(),
        ensures
            final(self).fits(),
            final(self).only_queues(*old(self)),
            r is None <==> old(self).abs().tasks == Set::<u64>::empty(),
            r is None ==> final(self).abs() == old(self).abs() && queued(final(self).nodes())
                == queued(old(self).nodes()),
            r matches Some(a) ==> task_taken(old(self).abs(), a, final(self).abs())
                && queued(final(self).nodes()) + 1 == queued(old(self).nodes()),
            r matches Some(a) ==> old(self).is_next_task(lid as int, a),
    {
        let ghost before = *self;
        let ghost l = lid as int;
        assert(self.nodes()[l].item.wf());
        if !self.locals.nodes[lid].item.mark_tasks.is_empty() {
            let r: Option<u64> = self.locals.nodes[lid].item.mark_tasks.pop();
            proof {
                assert(self.nodes() =~= before.nodes().update(l, self.nodes()[l]));
                lemma_popped(before, *self, l, r->0);
            }
            return r;
        }
        let mut i: usize = 0;
        while i < self.locals.nodes.len()
            invariant
                before == *old(self),
                l == lid,
                lid < before.nodes().len(),
                i <= before.nodes().len(),
                self.fits(),
                self.only_queues(before),
                self.abs() == before.abs(),
                queued(self.nodes()) == queued(before.nodes()),
                self.local(l).mark_tasks.items().len() == 0,
                forall|k: int|
                    0 <= k < i ==> (#[trigger] self.nodes()[k]).item.mark_tasks.items().len() == 0,
                forall|k: int|
                    0 <= k < before.nodes().len() ==> (
                    #[trigger] before.nodes()[k]).item.mark_tasks.items()
                        == self.nodes()[k].item.mark_tasks.items(),
            decreases before.nodes().len() - i,
        {
            if i != lid {
                let ghost mid = *self;
                let r: Option<u64> = self.steal_task(lid, i);
                if r.is_some() {
                    proof {
                        assert(before.nodes()[i as int].item.mark_tasks.items()
                            == mid.nodes()[i as int].item.mark_tasks.items());
                        assert(before.is_next_task(l, r->0));
                    }
                    return r;
                }
                proof {
                    lemma_queued_same(mid.nodes(), self.nodes());
                    assert forall|k: int| 0 <= k < before.nodes().len() implies (
                    #[trigger] before.nodes()[k]).item.mark_tasks.items()
                        == self.nodes()[k].item.mark_tasks.items() by {
                        assert(self.nodes()[k].item.mark_tasks.items()
                            == mid.nodes()[k].item.mark_tasks.items());
                    }
                }
            }
            i = i + 1;
        }
        proof {
            assert forall|x: u64| !tasks_of(self.nodes()).contains(x) by {
                if tasks_of(self.nodes()).contains(x) {
                    let k = choose|k: int|
                        0 <= k < self.nodes().len() && (
                        #[trigger] self.nodes()[k]).item.mark_tasks.items().contains(x);
                    assert(self.nodes()[k].item.mark_tasks.items().len() == 0);
                }
            }
            assert(self.abs().tasks =~= Set::<u64>::empty());
        }
        None
    }

    /// Does all tasks, and those that come of them, for a pinned participant. Returns `true` if
    /// there were any.
    pub fn drain_tasks(&mut self, lid: usize, gid: u64) -> (r: bool)
        requires
            old(self).wf(),
            old(self).pinned(lid as int),
        ensures
            final(self).wf(),
            final(self).drained_from(*old(self), lid as int),
            final(self).abs().tasks == Set::<u64>::empty(),
            r == (old(self).abs().tasks != Set::<u64>::empty()),
    {
        let ghost before = *self;
        let ghost s = self.abs();
        let ghost l = lid as int;
        let mut executed = false;
        let mut more = true;
        proof {
            assert(s.parts[l].pinned());
            lemma_same_white(s, l);
        }
        while more
            invariant
                before == *old(self),
                s == before.abs(),
                s.sound(),
                l == lid,
                before.pinned(l),
                self.wf(),
                self.drained_from(before, l),
                executed ==> s.tasks != Set::<u64>::empty(),
                !executed ==> self.abs().tasks == s.tasks,
                !more ==> self.abs().tasks == Set::<u64>::empty(),
            decreases
                of_color(self.abs().objs, s.white()).len(),
                queued(self.nodes()),
                if more {
                    1nat
                } else {
                    0nat
                },
        {
            let ghost prior = *self;
            match self.find_task(lid) {
                Some(a) => {
                    let ghost t = self.abs();
                    let ghost taken = *self;
                    proof {
                        lemma_task_done(prior.abs(), a, t);
                        lemma_heap_finite(self.heap);
                        lemma_fewer_white(t, a);
                        assert(t.objs.contains_key(a));
                        assert(prior.abs().parts[l] == s.parts[l]);
                        assert(self.nodes()[l].item.epoch == prior.nodes()[l].item.epoch);
                        lemma_same_white(prior.abs(), l);
                        assert(prior.abs().tasks.contains(a));
                    }
                    executed = true;
                    self.mark(a, lid, gid);
                    proof {
                        assert(self.abs() == marked(t, a));
                        lemma_drained_on(before, prior, taken, *self, l, gid, a);
                        assert(self.abs().white() == s.white());
                    }
                },
                None => {
                    more = false;
                    proof {
                        lemma_drained_queues(before, prior, *self, l);
                    }
                },
            }
        }
        executed
    }

    /// Nothing differs but tasks and colors of objects and edges, and tracing has stayed within
    /// its bounds.
    pub open spec fn drained_from(self, before: Self, l: int) -> bool {
        &&& self == (Global { heap: self.heap, locals: self.locals, ..before })
        &&& self.locals.active_count == before.locals.active_count
        &&& self.nodes().len() == before.nodes().len()
        &&& forall|k: int|
            0 <= k < before.nodes().len() && k != l ==> #[trigger] self.nodes()[k] == (Node {
                using: before.nodes()[k].using,
                item: Local { mark_tasks: self.local(k).mark_tasks, ..before.local(k) },
            })
        &&& self.nodes()[l].using == before.nodes()[l].using
        &&& self.local(l).same_but_sched(before.local(l))
        &&& same_shape(before.abs(), self.abs())
        &&& self.heap.payloads() == before.heap.payloads()
        &&& self.heap.has_room() == before.heap.has_room()
        &&& self.abs().epoch == before.abs().epoch
        &&& self.abs().parts == before.abs().parts
        &&& self.abs().young == before.abs().young
        &&& self.abs().scanned == before.abs().scanned
        &&& traces_within(before.abs(), self.abs(), Set::empty())
        &&& keeps_protected(before.abs(), self.abs())
    }
}

/// One more task has been done.
proof fn lemma_drained_on<T: TraceObj>(
    before: Global<T>,
    prior: Global<T>,
    taken: Global<T>,
    after: Global<T>,
    l: int,
    gid: u64,
    a: u64,
)
    requires
        0 <= l < before.nodes().len(),
        prior.wf(),
        prior.drained_from(before, l),
        taken.only_queues(prior),
        task_taken(prior.abs(), a, taken.abs()),
        after.fits(),
        after.abs() == marked(taken.abs(), a),
        (Global { heap: taken.heap, ..after }).only_sched(taken, l, gid, mark_shades(taken.abs(), a)),
        after.heap.payloads() == taken.heap.payloads(),
        after.heap.has_room() == taken.heap.has_room(),
    ensures
        after.wf(),
        after.drained_from(before, l),
{
    lemma_task_done(prior.abs(), a, taken.abs());
    lemma_traces_on(before.abs(), prior.abs(), after.abs(), Set::empty());
    lemma_shape_on(before.abs(), prior.abs(), after.abs());
    assert(after.abs().parts == before.abs().parts);
    assert forall|k: int| 0 <= k < before.nodes().len() && k != l implies #[trigger] after.nodes()[k]
        == (Node {
        using: before.nodes()[k].using,
        item: Local { mark_tasks: after.local(k).mark_tasks, ..before.local(k) },
    }) by {
        assert(after.nodes()[k] == taken.nodes()[k]);
        assert(taken.nodes()[k].using == prior.nodes()[k].using);
        assert(prior.nodes()[k].using == before.nodes()[k].using);
    }
    assert(taken.nodes()[l].using == prior.nodes()[l].using);
}

/// Moving tasks between queues does nothing else.
proof fn lemma_drained_queues<T: TraceObj>(
    before: Global<T>,
    prior: Global<T>,
    after: Global<T>,
    l: int,
)
    requires
        0 <= l < before.nodes().len(),
        prior.wf(),
        prior.drained_from(before, l),
        after.fits(),
        after.only_queues(prior),
        after.abs() == prior.abs(),
    ensures
        after.wf(),
        after.drained_from(before, l),
{
    assert forall|k: int| 0 <= k < before.nodes().len() && k != l implies #[trigger] after.nodes()[k]
        == (Node {
        using: before.nodes()[k].using,
        item: Local { mark_tasks: after.local(k).mark_tasks, ..before.local(k) },
    }) by {
        assert(after.nodes()[k].using == prior.nodes()[k].using);
        assert(prior.nodes()[k].using == before.nodes()[k].using);
    }
    assert(after.nodes()[l].using == prior.nodes()[l].using);
}

proof fn lemma_queued_same(a: Seq<Node<Local>>, b: Seq<Node<Local>>)
    requires
        a.len() == b.len(),
        forall|k: int|
            0 <= k < b.len() ==> (#[trigger] b[k]).item.mark_tasks.items()
                == a[k].item.mark_tasks.items(),
    ensures
        queued(a) == queued(b),
    decreases a.len(),
{
    if a.len() > 0 {
        assert forall|k: int| 0 <= k < b.drop_last().len() implies (
        #[trigger] b.drop_last()[k]).item.mark_tasks.items()
            == a.drop_last()[k].item.mark_tasks.items() by {
            assert(b[k].item.mark_tasks.items() == a[k].item.mark_tasks.items());
        }
        lemma_queued_same(a.drop_last(), b.drop_last());
        assert(b[b.len() - 1].item.mark_tasks.items() == a[a.len() - 1].item.mark_tasks.items());
    }
}

/// Tasks have gone from one queue to another, and one of them out of both.
proof fn lemma_stolen<T: TraceObj>(
    before: Global<T>,
    after: Global<T>,
    l: int,
    k: int,
    r: Option<u64>,
)
    requires
        before.fits(),
        0 <= l < before.nodes().len(),
        0 <= k < before.nodes().len(),
        k != l,
        after == (Global { locals: after.locals, ..before }),
        after.locals.active_count == before.locals.active_count,
        after.nodes() == before.nodes().update(k, after.nodes()[k]).update(l, after.nodes()[l]),
        after.nodes()[l] == (Node {
            using: before.nodes()[l].using,
            item: Local { mark_tasks: after.local(l).mark_tasks, ..before.local(l) },
        }),
        after.nodes()[k] == (Node {
            using: before.nodes()[k].using,
            item: Local { mark_tasks: after.local(k).mark_tasks, ..before.local(k) },
        }),
        after.local(l).mark_tasks.wf(),
        after.local(k).mark_tasks.wf(),
        before.local(l).mark_tasks.items().len() == 0,
        ({
            let items = before.local(k).mark_tasks.items();
            let n = 1 + stolen_batch(items.len(), LOCAL_MARK_TASKS_BATCH_LIMIT);
            &&& items.len() == 0 ==> r is None && after.local(l).mark_tasks.items()
                == before.local(l).mark_tasks.items() && after.local(k).mark_tasks.items() == items
            &&& items.len() > 0 ==> {
                &&& 1 <= n <= items.len()
                &&& r == Some(items[0])
                &&& after.local(k).mark_tasks.items() == items.subrange(n, items.len() as int)
                &&& after.local(l).mark_tasks.items() == before.local(l).mark_tasks.items()
                    + items.subrange(1, n)
            }
        }),
    ensures
        after.fits(),
        after.only_queues(before),
        r is None ==> after.abs() == before.abs(),
        r matches Some(a) ==> task_taken(before.abs(), a, after.abs()) && queued(after.nodes()) + 1
            == queued(before.nodes()),
{
    let items = before.local(k).mark_tasks.items();
    let n = 1 + stolen_batch(items.len(), LOCAL_MARK_TASKS_BATCH_LIMIT);
    let mid = before.nodes().update(k, after.nodes()[k]);
    assert(after.nodes() =~= mid.update(l, after.nodes()[l]));
    lemma_node_update(before.nodes(), k, after.nodes()[k]);
    lemma_node_update(mid, l, after.nodes()[l]);
    lemma_queued_update(before.nodes(), k, after.nodes()[k]);
    lemma_queued_update(mid, l, after.nodes()[l]);
    crate::sync::reusable_slots::lemma_using_same(before.nodes(), after.nodes());
    assert(parts_of(after.nodes()) =~= parts_of(before.nodes()));
    assert forall|c: Color| #[trigger] pending_of(after.nodes(), c) == pending_of(
        before.nodes(),
        c,
    ) by {
        assert(pending_of(mid, c) == pending_of(before.nodes(), c));
    }
    assert forall|j: int| 0 <= j < after.nodes().len() implies (
    #[trigger] after.nodes()[j]).item.wf() && after.nodes()[j].item.clock_ok(
        after.epoch.data.ts(),
    ) by {
        assert(before.nodes()[j].item.wf());
    }
    if items.len() > 0 {
        let a = items[0];
        let left = after.local(k).mark_tasks.items();
        let got = after.local(l).mark_tasks.items();
        assert(got =~= items.subrange(1, n));
        assert(before.nodes()[k].item.mark_tasks.items().contains(a));
        assert(before.abs().tasks.contains(a));
        assert forall|x: u64| #[trigger] after.abs().tasks.contains(
            x,
        ) implies before.abs().tasks.contains(x) by {
            let j = choose|j: int|
                0 <= j < after.nodes().len() && (
                #[trigger] after.nodes()[j]).item.mark_tasks.items().contains(x);
            if j == k {
                let i = choose|i: int| 0 <= i < left.len() && left[i] == x;
                assert(items[n + i] == x);
                assert(before.nodes()[k].item.mark_tasks.items().contains(x));
            } else if j == l {
                let i = choose|i: int| 0 <= i < got.len() && got[i] == x;
                assert(items[1 + i] == x);
                assert(before.nodes()[k].item.mark_tasks.items().contains(x));
            } else {
                assert(before.nodes()[j].item.mark_tasks.items().contains(x));
            }
        }
        assert forall|x: u64| #[trigger] before.abs().tasks.contains(
            x,
        ) && x != a implies after.abs().tasks.contains(x) by {
            let j = choose|j: int|
                0 <= j < before.nodes().len() && (
                #[trigger] before.nodes()[j]).item.mark_tasks.items().contains(x);
            if j == k {
                let i = choose|i: int| 0 <= i < items.len() && items[i] == x;
                if i < n {
                    assert(got[i - 1] == x);
                    assert(after.nodes()[l].item.mark_tasks.items().contains(x));
                } else {
                    assert(left[i - n] == x);
                    assert(after.nodes()[k].item.mark_tasks.items().contains(x));
                }
            } else {
                assert(j != l);
                assert(after.nodes()[j].item.mark_tasks.items().contains(x));
            }
        }
        assert(after.abs() =~= (GcModel { tasks: after.abs().tasks, ..before.abs() }));
    } else {
        assert(after.abs() =~= before.abs());
    }
}

} // verus!
