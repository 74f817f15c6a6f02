use cdpt::config::HeapHeadroom;
use cdpt::global::Global;
use cdpt::record::Record;
use cdpt::stats::{
    collection_time_ms, extra_headroom, extra_squared, headroom_min, CollectionStats,
    HeartbeatSample,
};

type Node = Record<usize>;

fn collector() -> Global<Node> {
    Global::new(None, true)
}

#[test]
fn headroom_has_a_least_value() {
    assert_eq!(headroom_min(HeapHeadroom::FixedMiB(3), 0), 3 * 1024 * 1024);
    assert_eq!(headroom_min(HeapHeadroom::Proportional(4), 100), 25);
    assert_eq!(headroom_min(HeapHeadroom::Proportional(4), 0), 0);
    assert_eq!(
        headroom_min(HeapHeadroom::Proportional(4), 1_000_000),
        250_000
    );
    assert_eq!(extra_headroom(10, 20), 20);
    assert_eq!(extra_headroom(30, 20), 30);
    assert_eq!(extra_squared(1000, 50, 10), 500);
    assert_eq!(
        extra_squared(usize::MAX, usize::MAX, usize::MAX),
        usize::MAX as u128 / 10
    );
}

#[test]
fn collections_take_at_least_a_millisecond() {
    assert_eq!(collection_time_ms(5, 5), 1);
    assert_eq!(collection_time_ms(5, 12), 7);
}

#[test]
fn heartbeat_measures_the_rate_of_allocation() {
    let mut gc = collector();
    gc.stats.total_allocated = 1000;
    gc.init_heartbeat_stats();
    assert_eq!(gc.heartbeat_sample(0), None);
    gc.stats.total_allocated = 6000;
    gc.stats.total_reclaimed = 500;
    let sample = gc.heartbeat_sample(10).unwrap();
    assert_eq!(
        sample,
        HeartbeatSample {
            measured_time: 10,
            heap_usage: 5500,
            total_alloc: 6000,
            alloc_per_ms: 500,
        }
    );
    let stats = gc.heartbeat(sample, 250);
    assert_eq!(stats.alloc_per_ms_smooth, 250);
    assert_eq!(gc.cstats.alloc_per_ms_smooth, 250);
    assert_eq!(gc.heartbeat_sample(10), None);
}

#[test]
fn limit_follows_the_headroom() {
    let mut gc = collector();
    gc.register();
    gc.register();
    gc.stats.total_allocated = 10_000;
    gc.stats.total_reclaimed = 4_000;
    // Nothing is being reclaimed: a MiB for each participant.
    gc.record_collection_stats(3, 0, 0);
    assert_eq!(gc.cstats.desired_heap_limit, 6_000 + 2 * 1024 * 1024);
    assert_eq!(gc.cstats.coll_time_ms_smooth, 3);
    gc.set_heap_headroom(HeapHeadroom::Proportional(1));
    gc.record_collection_stats(4, 100, 20_000);
    assert_eq!(gc.cstats.desired_heap_limit, 26_000);
    gc.record_collection_stats(4, 100, 5);
    assert_eq!(gc.cstats.desired_heap_limit, 12_000);
    assert_eq!(gc.cstats.reclm_per_ms_smooth, 100);
}

#[test]
fn necessity_of_a_collection() {
    let mut gc = collector();
    assert!(!gc.is_collection_necessary());
    gc.stats.total_allocated = 100;
    // Over the limit.
    assert!(gc.is_collection_necessary());
    gc.cstats = CollectionStats {
        alloc_per_ms_smooth: 10,
        reclm_per_ms_smooth: 10,
        coll_time_ms_smooth: 5,
        desired_heap_limit: 200,
    };
    // The heap does not grow.
    assert!(!gc.is_collection_necessary());
    // It would be full in ten milliseconds.
    gc.cstats.alloc_per_ms_smooth = 20;
    assert!(!gc.is_collection_necessary());
    gc.cstats.coll_time_ms_smooth = 10;
    assert!(gc.is_collection_necessary());
    // It shrinks, and is just at its limit.
    gc.cstats.reclm_per_ms_smooth = 30;
    assert!(!gc.is_collection_necessary());
    gc.stats.total_allocated = 200;
    assert!(gc.is_collection_necessary());
    gc.stats.total_allocated = 100;
    gc.collection_requested = true;
    assert!(gc.is_collection_necessary());
    // A pause forgets nothing.
    gc.enable_collection(false);
    assert!(!gc.is_collection_necessary());
    assert_eq!(gc.cstats.desired_heap_limit, 200);
    assert!(gc.collection_requested);
    gc.enable_collection(true);
    assert!(gc.is_collection_necessary());
}

#[test]
fn limits_out_of_range_are_none() {
    let mut gc = collector();
    gc.register();
    gc.stats.total_allocated = 10_000;
    gc.stats.total_reclaimed = 4_000;
    gc.hbstats.alloc_per_ms_smooth = 500;
    assert_eq!(gc.balance_squared(0), 0);
    assert_eq!(gc.balance_squared(100), 6_000 * 500 / 100 / 10);
    assert_eq!(gc.extra(0, 9, 6_000), Some(1024 * 1024));
    gc.set_heap_headroom(HeapHeadroom::Proportional(3));
    assert_eq!(gc.extra(100, 9, 6_000), Some(2_000));
    assert_eq!(gc.extra(100, 2_001, 6_000), Some(2_001));
    assert_eq!(gc.heap_limit(0, 9), Some(6_000 + 1024 * 1024));
    assert_eq!(gc.heap_limit(100, 9), Some(8_000));
    assert_eq!(gc.heap_limit(100, usize::MAX), None);
    gc.stats.total_reclaimed = 10_001;
    assert_eq!(gc.heap_limit(100, 9), None);
}
