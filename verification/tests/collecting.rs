use cdpt::config::{CollectionMode, HeapHeadroom};
use cdpt::epoch::{Color, Phase};
use cdpt::global::Global;
use cdpt::guards::Handle;
use cdpt::pointers::{AtomicSharedOption, Local, Shared};
use cdpt::record::Record;

type Node = Record<usize>;

fn simple(value: usize) -> Node {
    Record::new(value, vec![AtomicSharedOption::none()])
}

fn threaded() -> (Global<Node>, Handle) {
    let mut gc = Global::new(Some(8), true);
    let (handle, deploy) = gc.register();
    assert!(deploy);
    (gc, handle)
}

fn live(gc: &Global<Node>) -> usize {
    gc.heap.slots.iter().filter(|slot| slot.is_some()).count()
}

#[test]
fn hp_protected_ref_survives_guard_drop() {
    let (mut gc, h) = threaded();

    let hp_ref;
    {
        let guard = h.pin(&mut gc);
        let local = Local::new(simple(123), &guard, &mut gc);
        // Protect with Handle -> creates hazard pointer.
        hp_ref = local.protect(&h, &mut gc);
        guard.release(&mut gc);
    }
    // Guard is dropped, but HP-protected reference is still valid.
    assert_eq!(hp_ref.deref(&gc).value, 123);
    // It is so after collections, too.
    assert!(gc.collect_once(&h));
    assert!(gc.collect_once(&h));
    assert_eq!(hp_ref.deref(&gc).value, 123);
    // Without the hazard pointer the object goes.
    hp_ref.release(&mut gc);
    assert!(gc.collect_once(&h));
    assert_eq!(live(&gc), 0);
}

#[test]
fn help_collect_does_not_crash() {
    let (mut gc, h) = threaded();
    let guard = h.pin(&mut gc);
    // Allocate some objects to create work.
    for i in 0..100 {
        let _ = Local::new(simple(i), &guard, &mut gc);
    }
    // Calling help_collect should not panic.
    guard.help_collect(&mut gc);
}

#[test]
fn handle_help_collect() {
    let (mut gc, h) = threaded();
    let guard = h.pin(&mut gc);
    for i in 0..100 {
        let _ = Local::new(simple(i), &guard, &mut gc);
    }
    guard.release(&mut gc);
    // Calling help_collect on handle should not panic.
    h.help_collect(&mut gc);
}

#[test]
fn collection_mode_latched_after_deploy() {
    let (mut gc, h) = threaded();
    h.pin(&mut gc).release(&mut gc);
    assert_eq!(gc.collection_mode(), CollectionMode::Threaded);
    assert!(!gc.set_collection_mode(CollectionMode::Cooperative));
    assert!(gc.set_collection_mode(CollectionMode::Threaded));
    assert_eq!(gc.collection_mode(), CollectionMode::Threaded);
}

#[test]
fn collection_mode_before_deploy() {
    let mut gc: Global<Node> = Global::new(None, true);
    assert_eq!(gc.collection_mode(), CollectionMode::Threaded);
    assert!(gc.set_collection_mode(CollectionMode::Cooperative));
    assert_eq!(gc.collection_mode(), CollectionMode::Cooperative);
    assert!(gc.set_collection_mode(CollectionMode::Threaded));
    assert!(gc.set_collection_mode(CollectionMode::Cooperative));
    // No background thread is asked for in cooperative mode.
    let (_, deploy) = gc.register();
    assert!(!deploy);
    assert!(!gc.set_collection_mode(CollectionMode::Threaded));
}

#[test]
fn collection_mode_without_threads() {
    let mut gc: Global<Node> = Global::new(None, false);
    assert_eq!(gc.collection_mode(), CollectionMode::Cooperative);
    assert!(!gc.set_collection_mode(CollectionMode::Threaded));
    assert!(gc.set_collection_mode(CollectionMode::Cooperative));
}

/// In cooperative mode there is no background collector thread: a cycle only
/// makes progress when `request_collection` drives it synchronously on the
/// calling thread.
#[test]
fn cooperative_collects_on_request() {
    let mut gc = Global::new(Some(8), true);
    // Select the mode before the collector is ever deployed.
    assert!(gc.set_collection_mode(CollectionMode::Cooperative));
    assert_eq!(gc.collection_mode(), CollectionMode::Cooperative);
    let (h, _) = gc.register();

    // Allocate a batch of unreachable nodes, then drop every root.
    {
        let guard = h.pin(&mut gc);
        let mut nodes = Vec::new();
        for value in 0..2000 {
            nodes.push(Shared::new(simple(value), &guard, &mut gc));
        }
        guard.release(&mut gc);
        for node in nodes {
            node.release(&h, &mut gc);
        }
    }

    assert!(
        gc.estimate_total_alloc() > 0,
        "allocations should be recorded"
    );

    // The last roots went outside of a collection.
    gc.request_collection(&h);
    assert_eq!(live(&gc), 0);
    assert!(
        gc.estimate_total_reclm() > 0,
        "cooperative mode must reclaim garbage synchronously on request"
    );
    assert_eq!(gc.estimate_heap_usage(), 0);
}

/// Heap pressure alone must trigger a cycle at a safepoint (dropping the last
/// guard), without any explicit `request_collection`.
#[test]
fn cooperative_collects_at_safepoints() {
    let mut gc = Global::new(Some(8), true);
    assert!(gc.set_collection_mode(CollectionMode::Cooperative));
    let (h, _) = gc.register();

    let baseline = gc.estimate_total_reclm();
    let mut reclaimed = baseline;
    for _ in 0..512 {
        let guard = h.pin(&mut gc);
        for value in 0..1000 {
            let node = Shared::new(simple(value), &guard, &mut gc);
            node.release(&h, &mut gc);
        }
        guard.release(&mut gc); // a safepoint

        reclaimed = gc.estimate_total_reclm();
        if reclaimed > baseline {
            break;
        }
    }

    assert!(
        reclaimed > baseline,
        "safepoint-driven collection must reclaim without an explicit request"
    );
}

#[test]
fn paused_collection_does_not_run() {
    let mut gc = Global::new(Some(8), true);
    assert!(gc.set_collection_mode(CollectionMode::Cooperative));
    let (h, _) = gc.register();
    gc.enable_collection(false);
    let guard = h.pin(&mut gc);
    for value in 0..200 {
        let _ = Local::new(simple(value), &guard, &mut gc);
    }
    guard.release(&mut gc);
    gc.request_collection(&h);
    assert_eq!(live(&gc), 200);
    gc.enable_collection(true);
    gc.request_collection(&h);
    assert_eq!(live(&gc), 0);
}

#[test]
fn request_in_threaded_mode_waits_for_the_driver() {
    let (mut gc, h) = threaded();
    let guard = h.pin(&mut gc);
    let _ = Local::new(simple(1), &guard, &mut gc);
    guard.release(&mut gc);
    gc.request_collection(&h);
    assert_eq!(live(&gc), 1);
    assert!(gc.drive_collection_if_necessary(&h));
    assert_eq!(live(&gc), 0);
    // The request has been served.
    assert!(!gc.collection_requested);
}

#[test]
fn rooted_objects_and_what_they_lead_to_survive() {
    let (mut gc, h) = threaded();
    let guard = h.pin(&mut gc);
    let tail = Shared::new(simple(2), &guard, &mut gc);
    let head = Shared::new(
        Record::new(1, vec![AtomicSharedOption::from(tail)]),
        &guard,
        &mut gc,
    );
    let _garbage = Local::new(simple(3), &guard, &mut gc);
    guard.release(&mut gc);
    assert_eq!(live(&gc), 3);

    assert!(gc.collect_once(&h));
    assert_eq!(live(&gc), 2);
    let guard = h.pin(&mut gc);
    let local = head.as_local(&guard, &gc);
    assert_eq!(local.deref(&gc).value, 1);
    let next = local.edge(0).load(&guard, &gc).unwrap();
    assert_eq!(next.deref(&gc).value, 2);
    guard.release(&mut gc);

    head.release(&h, &mut gc);
    assert!(gc.collect_once(&h));
    assert_eq!(live(&gc), 0);
}

#[test]
fn cycles_are_reclaimed() {
    let (mut gc, h) = threaded();
    let guard = h.pin(&mut gc);
    let a = Local::new(simple(1), &guard, &mut gc);
    let to_a = AtomicSharedOption::from_local(Some(&a), &mut gc);
    let b = Local::new(Record::new(2, vec![to_a]), &guard, &mut gc);
    a.edge(0).store(Some(&b), &guard, &mut gc);
    let root = a.as_shared(&mut gc);
    guard.release(&mut gc);

    // The cycle is kept while there is a root.
    assert!(gc.collect_once(&h));
    assert_eq!(live(&gc), 2);
    root.release(&h, &mut gc);
    assert!(gc.collect_once(&h));
    assert_eq!(live(&gc), 0);
}

#[test]
fn pinned_participants_hold_the_cycle_up() {
    let (mut gc, collector) = threaded();
    let (mutator, deploy) = gc.register();
    assert!(!deploy);
    let guard = mutator.pin(&mut gc);
    let local = Local::new(simple(7), &guard, &mut gc);

    // The cycle begins, but cannot go on.
    assert!(!gc.collect_once(&collector));
    assert_eq!(gc.load_epoch().phase(), Phase::RT);
    assert_eq!(local.deref(&gc).value, 7);
    // What is allocated now is of the old epoch's color.
    let other = Local::new(simple(8), &guard, &mut gc);
    assert_eq!(other.deref(&gc).value, 8);
    assert!(!gc.collect_once(&collector));

    // A root given meanwhile counts.
    let root = local.as_shared(&mut gc);
    guard.release(&mut gc);
    assert!(gc.collect_once(&collector));
    assert_eq!(gc.load_epoch().phase(), Phase::N);
    assert_eq!(gc.load_epoch().color(), Color::C1);
    assert_eq!(live(&gc), 1);
    assert_eq!(root.deref(&gc).value, 7);
}

#[test]
fn repin_lets_the_cycle_go_on() {
    let (mut gc, collector) = threaded();
    let (mutator, _) = gc.register();
    let mut guard = mutator.pin(&mut gc);
    assert!(!gc.collect_once(&collector));
    guard.repin(&mut gc);
    assert_eq!(guard.phase(&gc), Phase::RT);
    // The participant is now held up in root tracing.
    assert!(!gc.collect_once(&collector));
    assert_eq!(gc.load_epoch().phase(), Phase::CT);
    guard.repin(&mut gc);
    assert!(!gc.collect_once(&collector));
    guard.release(&mut gc);
    assert!(gc.collect_once(&collector));
}

#[test]
fn mutators_during_tracing_lose_nothing() {
    let (mut gc, collector) = threaded();
    let (mutator, _) = gc.register();

    // A list 1 -> 2 -> 3 with a root.
    let guard = mutator.pin(&mut gc);
    let c = Shared::new(simple(3), &guard, &mut gc);
    let b = Shared::new(
        Record::new(2, vec![AtomicSharedOption::from(c)]),
        &guard,
        &mut gc,
    );
    let a = Shared::new(
        Record::new(1, vec![AtomicSharedOption::from(b)]),
        &guard,
        &mut gc,
    );
    // The participant stays pinned in the normal phase while root tracing begins.
    assert!(!gc.collect_once(&collector));

    // It cuts the list after the first node, and hangs the rest behind a new root.
    let first = a.as_local(&guard, &gc);
    let second = first.edge(0).take(&guard, &mut gc).unwrap();
    let third = second.edge(0).load(&guard, &gc).unwrap();
    let other = Shared::new(simple(4), &guard, &mut gc);
    other
        .as_local(&guard, &gc)
        .edge(0)
        .store(Some(&third), &guard, &mut gc);
    guard.release(&mut gc);

    assert!(gc.collect_once(&collector));
    // One more cycle without anybody in the way reclaims what is not reachable.
    assert!(gc.collect_once(&collector));
    assert_eq!(live(&gc), 3);
    let guard = mutator.pin(&mut gc);
    let local = other.as_local(&guard, &gc);
    let kept = local.edge(0).load(&guard, &gc).unwrap();
    assert_eq!(kept.deref(&gc).value, 3);
    assert!(a.as_local(&guard, &gc).edge(0).load(&guard, &gc).is_none());
}

#[test]
fn helpers_sweep_and_trace() {
    let (mut gc, collector) = threaded();
    let (mutator, _) = gc.register();
    let guard = mutator.pin(&mut gc);
    let mut roots = Vec::new();
    for i in 0..1000 {
        let s = Shared::new(simple(i), &guard, &mut gc);
        if i % 10 == 0 {
            roots.push(s);
        } else {
            s.release(&mutator, &mut gc);
        }
    }
    guard.release(&mut gc);

    // Root tracing, with a helper that scans some of the batches.
    gc.begin_root_tracing();
    let guard = mutator.pin(&mut gc);
    assert_eq!(guard.phase(&gc), Phase::RT);
    guard.help_collect(&mut gc);
    guard.help_collect(&mut gc);
    guard.release(&mut gc);
    assert!(gc.collect_once(&collector));
    assert_eq!(live(&gc), 100);
    for (k, s) in roots.iter().enumerate() {
        assert_eq!(s.deref(&gc).value, 10 * k);
    }
}

#[test]
fn bytes_are_accounted_for() {
    let (mut gc, h) = threaded();
    let guard = h.pin(&mut gc);
    for i in 0..640 {
        let _ = Local::new(simple(i), &guard, &mut gc);
    }
    guard.release(&mut gc);
    assert!(gc.collect_once(&h));
    let size = std::mem::size_of::<cdpt::heap::ManObj<Node>>();
    assert_eq!(gc.estimate_total_alloc(), 640 * size);
    assert_eq!(gc.estimate_total_reclm(), 640 * size);
    assert_eq!(gc.estimate_heap_usage(), 0);
}

#[test]
fn participants_are_reused() {
    let (mut gc, first) = threaded();
    let (second, _) = gc.register();
    assert_eq!(first.lid, 0);
    assert_eq!(second.lid, 1);
    assert_eq!(gc.locals.active_count(), 2);
    gc.unregister(first);
    assert_eq!(gc.locals.active_count(), 1);
    let (third, _) = gc.register();
    assert_eq!(third.lid, 0);
}

#[test]
fn settings_are_bounded() {
    let mut gc: Global<Node> = Global::new(Some(64), true);
    assert_eq!(gc.collector_threads(), 8);
    gc.set_collector_threads(0);
    assert_eq!(gc.collector_threads(), 1);
    gc.set_collector_threads(3);
    assert_eq!(gc.collector_threads(), 3);
    gc.set_collector_threads(99);
    assert_eq!(gc.collector_threads(), 8);
    assert_eq!(gc.heap_headroom(), HeapHeadroom::FixedMiB(1));
    gc.set_heap_headroom(HeapHeadroom::Proportional(8));
    assert_eq!(gc.heap_headroom(), HeapHeadroom::Proportional(8));
    gc.set_heap_headroom(HeapHeadroom::FixedMiB(5000));
    assert_eq!(gc.heap_headroom(), HeapHeadroom::FixedMiB(1024));
    gc.set_heap_headroom(HeapHeadroom::FixedMiB(0));
    assert_eq!(gc.heap_headroom(), HeapHeadroom::FixedMiB(1));
}

#[test]
fn any_number_of_collector_threads_collects_everything() {
    for threads in 1..=8 {
        let (mut gc, h) = threaded();
        gc.set_collector_threads(threads);
        let guard = h.pin(&mut gc);
        for i in 0..500 {
            let _ = Local::new(simple(i), &guard, &mut gc);
        }
        guard.release(&mut gc);
        assert!(gc.collect_once(&h));
        assert_eq!(live(&gc), 0);
    }
}
