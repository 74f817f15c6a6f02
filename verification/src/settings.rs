//! The settings of the collector, and what can be read of its state.

use crate::accounts::{balanced, lemma_wrapped_sum};
use crate::config::{mode_latched, mode_of, CollectionMode, HeapHeadroom, MODE_LATCH};
use crate::epoch::{AtomicEpoch, Color, Epoch};
use crate::global::{parts_of, pending_of, tasks_of, Global};
use crate::heap::Heap;
use crate::internal::Local;
use crate::lists::ObjLists;
use crate::man_ptr::tag_bits;
use crate::model::{GcModel, PartModel};
use crate::registry::TypeRegistry;
use crate::shards::{clamp, clamped, default_collector_threads, OBJ_BATCHES_SHARD};
use crate::stats::{CollectionStats, GlobalStats, HeartbeatStats};
use crate::sync::reusable_slots::{Node, ReusableSlots};
use crate::trace::TraceObj;
use vstd::multiset::Multiset;
use vstd::prelude::*;

verus! {

/// The empty state.
pub open spec fn empty_model(low: u64) -> GcModel {
    GcModel {
        low,
        epoch: Epoch { data: 0 },
        objs: Map::empty(),
        young: seq![Multiset::empty(), Multiset::empty()],
        scanned: seq![Multiset::empty(), Multiset::empty()],
        tasks: Set::empty(),
        parts: Seq::empty(),
    }
}

impl<T: TraceObj> Global<T> {
    /// A collector with an empty heap, for a platform that reports the given parallelism, if any,
    /// and has threads or not.
    pub fn new(parallelism: Option<usize>, has_threads: bool) -> (r: Self)
        ensures
            r.wf(),
            r.abs() == empty_model(tag_bits::<T>()),
            r.epoch.data.ts() == 0,
            crate::collector::at_rest(r.abs()),
            r.heap.has_room(),
            r.registry.fns@ == Seq::<u64>::empty(),
            r.stats.total_allocated == 0,
            r.stats.total_reclaimed == 0,
            balanced(r.books(), Self::obj_size() as int),
            r.collection_enabled,
            !r.collection_requested,
            HeapHeadroom::unpacked(r.headroom) == HeapHeadroom::FixedMiB(1),
            r.collector_threads == clamped(
                match parallelism {
                    Some(n) => (n / 8) as usize,
                    None => 0,
                },
                1,
                OBJ_BATCHES_SHARD,
            ),
            !mode_latched(r.collection_mode),
            mode_of(r.collection_mode) == (if has_threads {
                CollectionMode::Threaded
            } else {
                CollectionMode::Cooperative
            }),
            r.has_threads == has_threads,
            !r.driving,
            r.hbstats == (HeartbeatStats {
                measured_time: 0,
                heap_usage: 0,
                total_alloc: 0,
                alloc_per_ms: 0,
                alloc_per_ms_smooth: 0,
            }),
            r.cstats == (CollectionStats {
                alloc_per_ms_smooth: 0,
                reclm_per_ms_smooth: 0,
                coll_time_ms_smooth: 0,
                desired_heap_limit: 0,
            }),
    {
        let mode: CollectionMode = if has_threads {
            CollectionMode::Threaded
        } else {
            CollectionMode::Cooperative
        };
        proof {
            crate::config::law_headroom_roundtrip(HeapHeadroom::FixedMiB(1));
        }
        let r = Global {
            heap: Heap::new(),
            locals: ReusableSlots::default(),
            epoch: AtomicEpoch::new(Epoch::starting()),
            stats: GlobalStats::default(),
            fresh_objs: ObjLists::new(),
            marked_objs: ObjLists::new(),
            collection_enabled: true,
            collection_requested: false,
            headroom: HeapHeadroom::FixedMiB(1).pack(),
            collector_threads: default_collector_threads(parallelism),
            collection_mode: mode.number(),
            registry: TypeRegistry::new(),
            hbstats: HeartbeatStats {
                measured_time: 0,
                heap_usage: 0,
                total_alloc: 0,
                alloc_per_ms: 0,
                alloc_per_ms_smooth: 0,
            },
            cstats: CollectionStats {
                alloc_per_ms_smooth: 0,
                reclm_per_ms_smooth: 0,
                coll_time_ms_smooth: 0,
                desired_heap_limit: 0,
            },
            driving: false,
            has_threads,
        };
        proof {
            let n = r.nodes();
            assert(n =~= Seq::<Node<Local>>::empty());
            assert(parts_of(n) =~= Seq::<PartModel>::empty());
            assert(tasks_of(n) =~= Set::<u64>::empty());
            assert forall|c: Color| #[trigger] pending_of(n, c) == Multiset::<u64>::empty() by {
                assert(n.map_values(|n: Node<Local>| n.item.objs@[c.code() as int].0.bag()).len()
                    == 0);
            }
            assert(r.young(Color::C0) =~= Multiset::<u64>::empty());
            assert(r.young(Color::C1) =~= Multiset::<u64>::empty());
            assert(r.abs() =~= empty_model(tag_bits::<T>()));
            assert(r.abs().normal_ok());
            assert(r.heap.objs().len() == 0);
            lemma_wrapped_sum(0, 0);
            assert(Self::obj_size() * r.heap.objs().len() == 0) by (nonlinear_arith)
                requires
                    r.heap.objs().len() == 0,
            ;
            assert(crate::accounts::pending_bytes(r.nodes()) == 0);
        }
        r
    }

    /// The current global epoch.
    pub fn load_epoch(&self) -> (r: Epoch)
        ensures
            r == self.epoch.data,
    {
        self.epoch.load()
    }

    /// Enables or pauses collection.
    pub fn enable_collection(&mut self, set: bool)
        ensures
            *final(self) == (Global { collection_enabled: set, ..*old(self) }),
            old(self).wf() ==> final(self).wf(),
            final(self).abs() == old(self).abs(),
    {
        let ghost before = *self;
        self.collection_enabled = set;
        proof {
            lemma_settings(before, *self);
        }
    }

    /// The number of bytes allocated so far, as far as it has been counted.
    pub fn estimate_total_alloc(&self) -> (r: usize)
        ensures
            r == self.stats.total_allocated,
    {
        self.stats.total_allocated
    }

    /// The number of bytes reclaimed so far.
    pub fn estimate_total_reclm(&self) -> (r: usize)
        ensures
            r == self.stats.total_reclaimed,
    {
        self.stats.total_reclaimed
    }

    /// The number of bytes in use: what was allocated and has not been reclaimed.
    pub open spec fn heap_usage(self) -> usize {
        if self.stats.total_allocated < self.stats.total_reclaimed {
            0
        } else {
            (self.stats.total_allocated - self.stats.total_reclaimed) as usize
        }
    }

    /// The number of bytes in use: what was allocated and has not been reclaimed.
    pub fn estimate_heap_usage(&self) -> (r: usize)
        ensures
            r == self.heap_usage(),
    {
        let allocated: usize = self.estimate_total_alloc();
        let reclaimed: usize = self.estimate_total_reclm();
        if allocated < reclaimed {
            0
        } else {
            allocated - reclaimed
        }
    }

    /// Sets the heap headroom.
    pub fn set_heap_headroom(&mut self, headroom: HeapHeadroom)
        ensures
            *final(self) == (Global { headroom: headroom.packed(), ..*old(self) }),
            HeapHeadroom::unpacked(final(self).headroom) == headroom.bounded(),
            old(self).wf() ==> final(self).wf(),
            final(self).abs() == old(self).abs(),
    {
        let ghost before = *self;
        self.headroom = headroom.pack();
        proof {
            crate::config::law_headroom_roundtrip(headroom);
            lemma_settings(before, *self);
        }
    }

    /// The heap headroom.
    pub fn heap_headroom(&self) -> (r: HeapHeadroom)
        ensures
            r == HeapHeadroom::unpacked(self.headroom),
    {
        HeapHeadroom::unpack(self.headroom)
    }

    /// Sets the number of threads for parallel collection, held within 1 and the number of shards.
    pub fn set_collector_threads(&mut self, count: usize)
        ensures
            *final(self) == (Global {
                collector_threads: clamped(count, 1, OBJ_BATCHES_SHARD),
                ..*old(self)
            }),
            old(self).wf() ==> final(self).wf(),
            final(self).abs() == old(self).abs(),
    {
        let ghost before = *self;
        self.collector_threads = clamp(count, 1, OBJ_BATCHES_SHARD);
        proof {
            lemma_settings(before, *self);
        }
    }

    /// The number of threads for parallel collection.
    pub fn collector_threads(&self) -> (r: usize)
        ensures
            r == self.collector_threads,
    {
        self.collector_threads
    }

    /// Selects how collection is driven. This is only possible before the first participant is
    /// registered. Returns `true` if collection is now driven in the requested way.
    pub fn set_collection_mode(&mut self, mode: CollectionMode) -> (r: bool)
        ensures
            *final(self) == (Global { collection_mode: final(self).collection_mode, ..*old(self) }),
            ({
                let impossible = !old(self).has_threads && mode == CollectionMode::Threaded;
                let latched = mode_latched(old(self).collection_mode);
                &&& r == (!impossible && (latched ==> mode_of(old(self).collection_mode) == mode))
                &&& impossible || latched ==> *final(self) == *old(self)
                &&& !impossible && !latched ==> mode_of(final(self).collection_mode) == mode
                    && !mode_latched(final(self).collection_mode)
            }),
            old(self).fits() ==> r == (mode_of(final(self).collection_mode) == mode),
            old(self).wf() ==> final(self).wf(),
            final(self).abs() == old(self).abs(),
    {
        let ghost before = *self;
        proof {
            lemma_settings(before, *self);
        }
        if !self.has_threads && mode == CollectionMode::Threaded {
            return false;
        }
        if self.collection_mode & MODE_LATCH != 0 {
            return CollectionMode::from_u8(self.collection_mode) == mode;
        }
        self.collection_mode = mode.number();
        proof {
            lemma_settings(before, *self);
        }
        true
    }

    /// How collection is driven.
    pub fn collection_mode(&self) -> (r: CollectionMode)
        ensures
            r == mode_of(self.collection_mode),
    {
        CollectionMode::from_u8(self.collection_mode)
    }
}

/// Settings have no part in whether the state is sound.
pub proof fn lemma_settings<T: TraceObj>(a: Global<T>, b: Global<T>)
    requires
        b == (Global {
            collection_enabled: b.collection_enabled,
            collection_requested: b.collection_requested,
            headroom: b.headroom,
            collector_threads: b.collector_threads,
            collection_mode: b.collection_mode,
            hbstats: b.hbstats,
            cstats: b.cstats,
            driving: b.driving,
            ..a
        }),
        1 <= b.collector_threads <= OBJ_BATCHES_SHARD || b.collector_threads
            == a.collector_threads,
        HeapHeadroom::unpacked(b.headroom) == HeapHeadroom::unpacked(b.headroom).bounded()
            || b.headroom == a.headroom,
        b.collection_mode == a.collection_mode || b.has_threads || mode_of(b.collection_mode)
            == CollectionMode::Cooperative,
    ensures
        b.abs() == a.abs(),
        a.wf() ==> b.wf(),
{
}

} // verus!
