//! Counts and rates.

use crate::config::HeapHeadroom;
use crate::global::Global;
use crate::settings::lemma_settings;
use crate::trace::TraceObj;
use vstd::prelude::*;

verus! {

/// Bytes allocated and reclaimed so far.
pub struct GlobalStats {
    pub total_allocated: usize,
    pub total_reclaimed: usize,
}

impl Default for GlobalStats {
    /// Nothing so far.
    fn default() -> (r: Self)
        ensures
            r.total_allocated == 0,
            r.total_reclaimed == 0,
    {
        GlobalStats { total_allocated: 0, total_reclaimed: 0 }
    }
}

/// What the heartbeat last measured.
#[derive(Clone, Copy, Debug, PartialEq, Eq, Structural)]
pub struct HeartbeatStats {
    /// In milliseconds.
    pub measured_time: u64,
    pub heap_usage: usize,
    pub total_alloc: usize,
    pub alloc_per_ms: usize,
    pub alloc_per_ms_smooth: usize,
}

/// What is known of past collections.
#[derive(Clone, Copy, Debug, PartialEq, Eq, Structural)]
pub struct CollectionStats {
    pub alloc_per_ms_smooth: usize,
    pub reclm_per_ms_smooth: usize,
    pub coll_time_ms_smooth: usize,
    pub desired_heap_limit: usize,
}

/// A sample of the heap, to be stored as the last heartbeat.
#[derive(Clone, Copy, Debug, PartialEq, Eq, Structural)]
pub struct HeartbeatSample {
    /// In milliseconds.
    pub measured_time: u64,
    pub heap_usage: usize,
    pub total_alloc: usize,
    pub alloc_per_ms: usize,
}

/// The factor that keeps the extra headroom small.
pub const EXTRA_TUNING_FACTOR: u128 = 10;

/// The least headroom for a heap of the given size, in bytes.
pub open spec fn headroom_min_of(h: HeapHeadroom, heap_usage: usize) -> int {
    match h {
        HeapHeadroom::FixedMiB(mib) => mib * 1_048_576,
        HeapHeadroom::Proportional(divisor) => heap_usage as int / divisor as int,
    }
}

/// The least headroom for a heap of the given size, in bytes.
pub fn headroom_min(headroom: HeapHeadroom, heap_usage: usize) -> (r: usize)
    requires
        headroom == headroom.bounded(),
    ensures
        r == headroom_min_of(headroom, heap_usage),
{
    match headroom {
        HeapHeadroom::FixedMiB(mib) => mib * 1_048_576,
        HeapHeadroom::Proportional(divisor) => heap_usage / divisor,
    }
}

/// The number whose square root is the extra headroom that balances the rates of allocation and
/// of reclamation.
pub fn extra_squared(heap_usage: usize, alloc_rate: usize, reclm_rate: usize) -> (r: u128)
    requires
        reclm_rate > 0,
    ensures
        r as int == heap_usage as int * alloc_rate as int / reclm_rate as int / 10,
{
    assert(heap_usage as int * alloc_rate as int <= 0xffff_ffff_ffff_ffff
        * 0xffff_ffff_ffff_ffff) by (nonlinear_arith)
        requires
            0 <= heap_usage <= 0xffff_ffff_ffff_ffff,
            0 <= alloc_rate <= 0xffff_ffff_ffff_ffff,
    ;
    heap_usage as u128 * alloc_rate as u128 / reclm_rate as u128 / EXTRA_TUNING_FACTOR
}

/// The extra headroom: the balanced one, but not less than the least one.
pub fn extra_headroom(balanced: usize, least: usize) -> (r: usize)
    ensures
        r == (if balanced < least {
            least
        } else {
            balanced
        }),
{
    if balanced < least {
        least
    } else {
        balanced
    }
}

/// How long a collection took, at least one millisecond.
pub fn collection_time_ms(start: u64, end: u64) -> (r: u64)
    requires
        start <= end,
    ensures
        r == (if end == start {
            1
        } else {
            end - start
        }),
        r > 0,
{
    let dur: u64 = end - start;
    if dur == 0 {
        1
    } else {
        dur
    }
}

impl<T: TraceObj> Global<T> {
    /// Takes what has been allocated so far as the base of the next heartbeat.
    pub fn init_heartbeat_stats(&mut self)
        ensures
            *final(self) == (Global {
                hbstats: HeartbeatStats {
                    total_alloc: old(self).stats.total_allocated,
                    ..old(self).hbstats
                },
                ..*old(self)
            }),
            old(self).wf() ==> final(self).wf(),
            final(self).abs() == old(self).abs(),
    {
        self.hbstats.total_alloc = self.estimate_total_alloc();
        proof {
            lemma_settings(*old(self), *self);
        }
    }

    /// Measures the rate of allocation since the last heartbeat. There is none where no time has
    /// passed.
    pub fn heartbeat_sample(&self, now: u64) -> (r: Option<HeartbeatSample>)
        requires
            self.hbstats.measured_time <= now,
            now - self.hbstats.measured_time <= usize::MAX,
            self.hbstats.total_alloc <= self.stats.total_allocated,
            self.stats.total_reclaimed <= self.stats.total_allocated,
        ensures
            r is None <==> now == self.hbstats.measured_time,
            r matches Some(sample) ==> sample == (HeartbeatSample {
                measured_time: now,
                heap_usage: (self.stats.total_allocated - self.stats.total_reclaimed) as usize,
                total_alloc: self.stats.total_allocated,
                alloc_per_ms: ((self.stats.total_allocated - self.hbstats.total_alloc) as int / (now
                    - self.hbstats.measured_time)) as usize,
            }),
    {
        let dur: u64 = now - self.hbstats.measured_time;
        if dur == 0 {
            return None;
        }
        let new_total_alloc: usize = self.estimate_total_alloc();
        let new_total_reclm: usize = self.estimate_total_reclm();
        let alloc_diff: usize = new_total_alloc - self.hbstats.total_alloc;
        Some(
            HeartbeatSample {
                measured_time: now,
                heap_usage: new_total_alloc - new_total_reclm,
                total_alloc: new_total_alloc,
                alloc_per_ms: alloc_diff / (dur as usize),
            },
        )
    }

    /// Stores a sample with its smoothed rate of allocation, and returns what is now known.
    pub fn heartbeat(&mut self, sample: HeartbeatSample, alloc_per_ms_smooth: usize) -> (r:
        HeartbeatStats)
        ensures
            r == final(self).hbstats,
            *final(self) == (Global {
                hbstats: HeartbeatStats {
                    measured_time: sample.measured_time,
                    heap_usage: sample.heap_usage,
                    total_alloc: sample.total_alloc,
                    alloc_per_ms: sample.alloc_per_ms,
                    alloc_per_ms_smooth,
                },
                cstats: CollectionStats { alloc_per_ms_smooth, ..old(self).cstats },
                ..*old(self)
            }),
            old(self).wf() ==> final(self).wf(),
            final(self).abs() == old(self).abs(),
    {
        self.hbstats = HeartbeatStats {
            measured_time: sample.measured_time,
            heap_usage: sample.heap_usage,
            total_alloc: sample.total_alloc,
            alloc_per_ms: sample.alloc_per_ms,
            alloc_per_ms_smooth,
        };
        self.cstats.alloc_per_ms_smooth = alloc_per_ms_smooth;
        proof {
            lemma_settings(*old(self), *self);
        }
        self.hbstats
    }

    /// The extra headroom of the heap: a MiB for each participant where nothing is being
    /// reclaimed, or else the balanced one, which is the square root of
    /// [`extra_squared`](crate::stats::extra_squared), but not less than the set one.
    pub open spec fn extra_of(self, reclm_rate: usize, balanced: usize, heap_usage: usize) -> int {
        if reclm_rate == 0 {
            self.locals.active_count * 1_048_576
        } else {
            let least = headroom_min_of(HeapHeadroom::unpacked(self.headroom), heap_usage);
            if balanced < least {
                least
            } else {
                balanced as int
            }
        }
    }

    /// The extra headroom of the heap in bytes, if it is in range.
    pub fn extra(&self, reclm_rate: usize, balanced: usize, heap_usage: usize) -> (r: Option<usize>)
        requires
            self.wf(),
        ensures
            r is Some <==> self.extra_of(reclm_rate, balanced, heap_usage) <= usize::MAX,
            r matches Some(extra) ==> extra == self.extra_of(reclm_rate, balanced, heap_usage),
    {
        if reclm_rate == 0 {
            self.locals.active_count().checked_mul(1_048_576)
        } else {
            Some(extra_headroom(balanced, headroom_min(self.heap_headroom(), heap_usage)))
        }
    }

    /// The number whose square root is the balanced headroom, or zero where nothing is being
    /// reclaimed and there is nothing to balance.
    pub fn balance_squared(&self, reclm_rate: usize) -> (r: u128)
        ensures
            reclm_rate == 0 ==> r == 0,
            reclm_rate > 0 ==> r as int == self.heap_usage() as int
                * self.hbstats.alloc_per_ms_smooth as int / reclm_rate as int / 10,
    {
        if reclm_rate == 0 {
            return 0;
        }
        extra_squared(self.estimate_heap_usage(), self.hbstats.alloc_per_ms_smooth, reclm_rate)
    }

    /// The limit of the heap after a collection, if it is in range and no more has been reclaimed
    /// than allocated.
    pub fn heap_limit(&self, reclm_rate: usize, balanced: usize) -> (r: Option<usize>)
        requires
            self.wf(),
        ensures
            r is Some <==> self.stats.total_reclaimed <= self.stats.total_allocated
                && self.heap_usage() + self.extra_of(reclm_rate, balanced, self.heap_usage())
                <= usize::MAX,
            r matches Some(limit) ==> limit == self.heap_usage() + self.extra_of(
                reclm_rate,
                balanced,
                self.heap_usage(),
            ),
    {
        if self.estimate_total_alloc() < self.estimate_total_reclm() {
            return None;
        }
        let heap_usage: usize = self.estimate_heap_usage();
        match self.extra(reclm_rate, balanced, heap_usage) {
            Some(extra) => heap_usage.checked_add(extra),
            None => None,
        }
    }

    /// Records the rate of reclamation and the time of a collection, both smoothed, and derives
    /// the limit of the heap for the next one.
    pub fn record_collection_stats(
        &mut self,
        coll_time_ms_smooth: usize,
        reclm_per_ms_smooth: usize,
        balanced: usize,
    )
        requires
            old(self).wf(),
            old(self).stats.total_reclaimed <= old(self).stats.total_allocated,
            old(self).heap_usage() + old(self).extra_of(
                reclm_per_ms_smooth,
                balanced,
                old(self).heap_usage(),
            ) <= usize::MAX,
        ensures
            final(self).wf(),
            final(self).abs() == old(self).abs(),
            *final(self) == (Global {
                cstats: CollectionStats {
                    alloc_per_ms_smooth: old(self).cstats.alloc_per_ms_smooth,
                    reclm_per_ms_smooth,
                    coll_time_ms_smooth,
                    desired_heap_limit: (old(self).heap_usage() + old(self).extra_of(
                        reclm_per_ms_smooth,
                        balanced,
                        old(self).heap_usage(),
                    )) as usize,
                },
                ..*old(self)
            }),
    {
        let desired_heap_limit: usize = match self.heap_limit(reclm_per_ms_smooth, balanced) {
            Some(limit) => limit,
            None => vstd::pervasive::unreached(),
        };
        self.cstats = CollectionStats {
            alloc_per_ms_smooth: self.cstats.alloc_per_ms_smooth,
            reclm_per_ms_smooth,
            coll_time_ms_smooth,
            desired_heap_limit,
        };
        proof {
            lemma_settings(*old(self), *self);
        }
    }
}
} // verus!
