//! The collector's state: the heap, the lists of objects, the participants and the settings.

use crate::bags::bag_sum;
use crate::config::{mode_of, CollectionMode, HeapHeadroom};
use crate::epoch::{AtomicEpoch, Color};
use crate::heap::Heap;
use crate::internal::{lemma_asked_on, lemma_scheduled_none, lemma_scheduled_on, part_of, Local};
use crate::lists::ObjLists;
use crate::man_ptr::tag_bits;
use crate::model::{GcModel, PartModel};
use crate::registry::TypeRegistry;
use crate::shards::OBJ_BATCHES_SHARD;
use crate::stats::{CollectionStats, GlobalStats, HeartbeatStats};
use crate::steps::{add_task, set_part};
use crate::sync::reusable_slots::{Node, ReusableSlots};
use crate::trace::TraceObj;
use vstd::multiset::Multiset;
use vstd::prelude::*;

verus! {

/// The garbage collector: its state, its configuration and its statistics.
pub struct Global<T> {
    /// The managed objects.
    pub heap: Heap<T>,
    /// The participants.
    pub locals: ReusableSlots<Local>,
    /// The global epoch.
    pub epoch: AtomicEpoch,
    /// Bytes allocated and reclaimed.
    pub stats: GlobalStats,
    /// By color: objects that have not been looked at since they were allocated or survived.
    pub fresh_objs: ObjLists,
    /// By color: objects whose root counts have been looked at.
    pub marked_objs: ObjLists,
    /// Collection is not paused.
    pub collection_enabled: bool,
    /// Somebody has asked for a collection.
    pub collection_requested: bool,
    /// The heap headroom, packed.
    pub headroom: u64,
    /// The number of threads for parallel collection.
    pub collector_threads: usize,
    /// The mode of collection, and whether it is latched.
    pub collection_mode: u8,
    /// The types of the objects.
    pub registry: TypeRegistry,
    /// What the heartbeat last measured.
    pub hbstats: HeartbeatStats,
    /// What is known of past collections.
    pub cstats: CollectionStats,
    /// Somebody is running a collection cycle.
    pub driving: bool,
    /// There can be background threads.
    pub has_threads: bool,
}

/// The first sequence is the beginning of the second.
pub open spec fn is_prefix(a: Seq<u64>, b: Seq<u64>) -> bool {
    &&& a.len() <= b.len()
    &&& forall|i: int| 0 <= i < a.len() ==> #[trigger] b[i] == a[i]
}

/// The participants as the collector sees them.
pub open spec fn parts_of(nodes: Seq<Node<Local>>) -> Seq<PartModel> {
    nodes.map_values(|n: Node<Local>| part_of(n))
}

/// The objects that some participant has scheduled to be marked.
pub open spec fn tasks_of(nodes: Seq<Node<Local>>) -> Set<u64> {
    Set::new(
        |x: u64|
            exists|l: int|
                0 <= l < nodes.len() && (#[trigger] nodes[l]).item.mark_tasks.items().contains(x),
    )
}

/// The objects of a color that participants have allocated and not yet published.
pub open spec fn pending_of(nodes: Seq<Node<Local>>, c: Color) -> Multiset<u64> {
    bag_sum(nodes.map_values(|n: Node<Local>| n.item.objs@[c.code() as int].0.bag()))
}

/// A participant changes.
pub proof fn lemma_node_update(nodes: Seq<Node<Local>>, l: int, n: Node<Local>)
    requires
        0 <= l < nodes.len(),
    ensures
        parts_of(nodes.update(l, n)) == parts_of(nodes).update(l, part_of(n)),
        n.item.mark_tasks.items() == nodes[l].item.mark_tasks.items() ==> tasks_of(
            nodes.update(l, n),
        ) == tasks_of(nodes),
        forall|x: u64|
            n.item.mark_tasks.items() == #[trigger] nodes[l].item.mark_tasks.items().push(x)
                ==> tasks_of(nodes.update(l, n)) == tasks_of(nodes).insert(x),
        forall|c: Color|
            n.item.objs@[c.code() as int].0.bag() == nodes[l].item.objs@[c.code() as int].0.bag()
                ==> #[trigger] pending_of(nodes.update(l, n), c) == pending_of(nodes, c),
{
    let after = nodes.update(l, n);
    assert(parts_of(after) =~= parts_of(nodes).update(l, part_of(n)));
    if n.item.mark_tasks.items() == nodes[l].item.mark_tasks.items() {
        assert(tasks_of(after) =~= tasks_of(nodes)) by {
            assert forall|x: u64| tasks_of(after).contains(x) == tasks_of(nodes).contains(x) by {
                lemma_tasks_other(nodes, after, l, x);
                lemma_tasks_other(after, nodes, l, x);
            }
        }
    }
    assert forall|x: u64|
        n.item.mark_tasks.items() == #[trigger] nodes[l].item.mark_tasks.items().push(
            x,
        ) implies tasks_of(after) == tasks_of(nodes).insert(x) by {
        let items = nodes[l].item.mark_tasks.items();
        assert(items.push(x)[items.len() as int] == x);
        assert(after[l].item.mark_tasks.items().contains(x));
        assert forall|y: u64| tasks_of(after).contains(y) == tasks_of(nodes).insert(x).contains(
            y,
        ) by {
            assert(items.push(x).contains(y) == (items.contains(y) || x == y)) by {
                if items.contains(y) {
                    let k = choose|k: int| 0 <= k < items.len() && items[k] == y;
                    assert(items.push(x)[k] == y);
                }
            }
            lemma_tasks_other(nodes, after, l, y);
            lemma_tasks_other(after, nodes, l, y);
        }
        assert(tasks_of(after) =~= tasks_of(nodes).insert(x));
    }
    assert forall|c: Color|
        n.item.objs@[c.code() as int].0.bag() == nodes[l].item.objs@[c.code() as int].0.bag()
            implies #[trigger] pending_of(after, c) == pending_of(nodes, c) by {
        let f = |n: Node<Local>| n.item.objs@[c.code() as int].0.bag();
        assert(after.map_values(f) =~= nodes.map_values(f));
    }
}

/// A task of another participant, or of this one if it still has it, is still there.
proof fn lemma_tasks_other(nodes: Seq<Node<Local>>, after: Seq<Node<Local>>, l: int, x: u64)
    requires
        0 <= l < nodes.len(),
        after.len() == nodes.len(),
        forall|k: int| 0 <= k < nodes.len() && k != l ==> after[k] == nodes[k],
    ensures
        tasks_of(nodes).contains(x) ==> tasks_of(after).contains(x)
            || (nodes[l].item.mark_tasks.items().contains(x)
            && !after[l].item.mark_tasks.items().contains(x)),
        nodes[l].item.mark_tasks.items().contains(x) ==> tasks_of(nodes).contains(x),
{
    if tasks_of(nodes).contains(x) {
        let k = choose|k: int|
            0 <= k < nodes.len() && (#[trigger] nodes[k]).item.mark_tasks.items().contains(x);
        if k != l {
            assert(after[k].item.mark_tasks.items().contains(x));
        } else if after[l].item.mark_tasks.items().contains(x) {
            assert(after[l].item.mark_tasks.items().contains(x));
        }
    }
}

impl<T: TraceObj> Global<T> {
    /// The participants with their use.
    #[verifier::inline]
    pub open spec fn nodes(self) -> Seq<Node<Local>> {
        self.locals.nodes@
    }

    /// A participant.
    #[verifier::inline]
    pub open spec fn local(self, l: int) -> Local {
        self.locals.nodes@[l].item
    }

    /// The objects of a color that have not been looked at.
    pub open spec fn young(self, c: Color) -> Multiset<u64> {
        self.fresh_objs.bag(c).add(pending_of(self.nodes(), c))
    }

    /// The state as the proofs see it.
    pub open spec fn abs(self) -> GcModel {
        GcModel {
            low: tag_bits::<T>(),
            epoch: self.epoch.data,
            objs: self.heap.objs(),
            young: seq![self.young(Color::C0), self.young(Color::C1)],
            scanned: seq![self.marked_objs.bag(Color::C0), self.marked_objs.bag(Color::C1)],
            tasks: tasks_of(self.nodes()),
            parts: parts_of(self.nodes()),
        }
    }

    /// The parts of the state fit together.
    pub open spec fn fits(self) -> bool {
        &&& self.heap.wf()
        &&& self.locals.wf()
        &&& forall|l: int|
            0 <= l < self.nodes().len() ==> (#[trigger] self.nodes()[l]).item.wf()
                && self.nodes()[l].item.clock_ok(self.epoch.data.ts())
        &&& self.fresh_objs.wf()
        &&& self.marked_objs.wf()
        &&& self.registry.wf()
        &&& forall|x: u64| #[trigger]
            self.heap.objs().contains_key(x) ==> self.heap.objs()[x].tid < self.registry.fns@.len()
        &&& 1 <= self.collector_threads <= OBJ_BATCHES_SHARD
        &&& HeapHeadroom::unpacked(self.headroom) == HeapHeadroom::unpacked(self.headroom).bounded()
        &&& !self.has_threads ==> mode_of(self.collection_mode) == CollectionMode::Cooperative
    }

    /// The state is sound.
    pub open spec fn wf(self) -> bool {
        self.fits() && self.abs().sound()
    }

    /// The participant is pinned.
    pub open spec fn pinned(self, l: int) -> bool {
        0 <= l < self.nodes().len() && self.local(l).epoch.pinned_flag()
    }

    /// The participant is pinned, or on its way in: it has come to the current epoch.
    pub open spec fn takes_part(self, l: int) -> bool {
        self.pinned(l) || (0 <= l < self.nodes().len() && self.local(l).epoch == self.epoch.data)
    }

    /// A participant has scheduled tasks in the name of a guard, which is asked for help if it was
    /// time to. No other guard is.
    pub open spec fn asks(self, before: Self, l: int, gid: u64) -> bool {
        exists|n: nat| #[trigger] self.local(l).has_asked(before.local(l), n, gid)
    }

    /// The color that counts as black for a participant.
    pub open spec fn black_of(self, l: int) -> Color {
        self.local(l).epoch.white().flipped()
    }

    /// Nothing differs but what one participant has scheduled in the name of a guard, behind what
    /// it had scheduled before, and that the guard is asked for help if it was time to.
    pub open spec fn only_sched(self, before: Self, l: int, gid: u64, tasks: Seq<u64>) -> bool {
        &&& self.only_local(before, l)
        &&& self.local(l).same_but_sched(before.local(l))
        &&& self.local(l).has_scheduled(before.local(l), tasks, gid)
    }

    /// Nothing but one participant differs, and that not in its use.
    pub open spec fn only_local(self, before: Self, l: int) -> bool {
        &&& self == (Global { locals: self.locals, ..before })
        &&& self.locals.active_count == before.locals.active_count
        &&& self.nodes() == before.nodes().update(
            l,
            (Node { using: before.nodes()[l].using, item: self.local(l) }),
        )
    }
}

/// Nothing has been scheduled where nothing differs.
pub proof fn lemma_sched_none<T: TraceObj>(a: Global<T>, l: int, gid: u64)
    requires
        0 <= l < a.nodes().len(),
    ensures
        a.only_sched(a, l, gid, Seq::empty()),
{
    assert(a.nodes() =~= a.nodes().update(l, a.nodes()[l]));
    lemma_scheduled_none(a.local(l), gid);
}

/// Some tasks have been scheduled and then some more.
pub proof fn lemma_sched_on<T: TraceObj>(
    a: Global<T>,
    b: Global<T>,
    c: Global<T>,
    l: int,
    gid: u64,
    first: Seq<u64>,
    second: Seq<u64>,
)
    requires
        0 <= l < a.nodes().len(),
        b.only_sched(a, l, gid, first),
        c.only_sched(b, l, gid, second),
    ensures
        c.only_sched(a, l, gid, first + second),
{
    assert(c.nodes() =~= a.nodes().update(l, c.nodes()[l]));
    lemma_scheduled_on(a.local(l), b.local(l), c.local(l), first, second, gid);
}

/// A guard has been asked for help, or not, and then again.
pub proof fn lemma_asks_on<T: TraceObj>(a: Global<T>, b: Global<T>, c: Global<T>, l: int, gid: u64)
    requires
        b.asks(a, l, gid),
        c.asks(b, l, gid),
    ensures
        c.asks(a, l, gid),
{
    let n = choose|n: nat| #[trigger] b.local(l).has_asked(a.local(l), n, gid);
    let m = choose|m: nat| #[trigger] c.local(l).has_asked(b.local(l), m, gid);
    lemma_asked_on(a.local(l), b.local(l), c.local(l), n, m, gid);
}

/// Where nothing has been scheduled, no guard has been asked for help.
pub proof fn lemma_asks_none<T: TraceObj>(a: Global<T>, b: Global<T>, l: int, gid: u64)
    requires
        b.local(l).sched_count == a.local(l).sched_count,
        b.local(l).should_help == a.local(l).should_help,
    ensures
        b.asks(a, l, gid),
{
    assert(b.local(l).has_asked(a.local(l), 0, gid));
}

/// One more task is all that the collector sees of scheduling it.
pub proof fn lemma_scheduled<T: TraceObj>(before: Global<T>, after: Global<T>, l: int, x: u64)
    requires
        before.fits(),
        0 <= l < before.nodes().len(),
        after.only_local(before, l),
        after.local(l).same_but_mark(before.local(l)),
        after.local(l).mark_tasks.wf(),
        after.local(l).mt_modified_ts <= before.epoch.data.ts(),
        after.local(l).mark_tasks.items() == before.local(l).mark_tasks.items().push(x),
    ensures
        after.fits(),
        after.abs() == add_task(before.abs(), x),
{
    let n = after.nodes()[l];
    lemma_node_update(before.nodes(), l, n);
    lemma_fits_local(before, after, l);
    assert(part_of(n) == part_of(before.nodes()[l]));
    assert(parts_of(after.nodes()) =~= parts_of(before.nodes()));
    assert(after.abs() =~= add_task(before.abs(), x));
}

/// A participant that fits changes alone.
pub proof fn lemma_fits_local<T: TraceObj>(before: Global<T>, after: Global<T>, l: int)
    requires
        before.fits(),
        0 <= l < before.nodes().len(),
        after.only_local(before, l),
        after.local(l).wf(),
        after.local(l).clock_ok(before.epoch.data.ts()),
    ensures
        after.fits(),
{
    crate::sync::reusable_slots::lemma_using_same(before.nodes(), after.nodes());
    assert forall|k: int| 0 <= k < after.nodes().len() implies (
    #[trigger] after.nodes()[k]).item.wf() && after.nodes()[k].item.clock_ok(
        after.epoch.data.ts(),
    ) by {
        if k != l {
            assert(before.nodes()[k].item.wf());
        }
    }
}

/// A participant changes in nothing but what the collector sees of it as a participant.
pub proof fn lemma_part_changed<T: TraceObj>(before: Global<T>, after: Global<T>, l: int)
    requires
        before.fits(),
        0 <= l < before.nodes().len(),
        after.only_local(before, l),
        after.local(l).wf(),
        after.local(l).clock_ok(before.epoch.data.ts()),
        after.local(l).mark_tasks.items() == before.local(l).mark_tasks.items(),
        after.local(l).objs == before.local(l).objs,
    ensures
        after.fits(),
        after.abs() == set_part(before.abs(), l, part_of(after.nodes()[l])),
{
    lemma_node_update(before.nodes(), l, after.nodes()[l]);
    lemma_fits_local(before, after, l);
    assert(after.abs() =~= set_part(before.abs(), l, part_of(after.nodes()[l])));
}

} // verus!
