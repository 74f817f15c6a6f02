use std::mem::size_of;

use cdpt::config::CollectionMode;
use cdpt::epoch::{Color, Phase};
use cdpt::global::Global;
use cdpt::guards::Handle;
use cdpt::heap::ManObj;
use cdpt::lists::OBJ_BATCH_SIZE;
use cdpt::pointers::{AtomicShared, AtomicSharedOption, Local, Shared};
use cdpt::record::{Field, Record};
use cdpt::trace::LinkKind;

type Node = Record<usize>;

fn node(value: usize, links: Vec<AtomicSharedOption<Node>>) -> Node {
    Record::new(value, links)
}

fn collector() -> (Global<Node>, Handle) {
    let mut gc = Global::new(None, true);
    let (handle, _) = gc.register();
    (gc, handle)
}

fn objects(gc: &Global<Node>) -> usize {
    gc.heap.slots.iter().filter(|slot| slot.is_some()).count()
}

#[test]
fn promoted_references_outlive_the_guard() {
    let (mut gc, handle) = collector();
    let guard = handle.pin(&mut gc);
    let item = node(42, vec![AtomicSharedOption::none()]);
    assert!(!gc.heap.is_full() && gc.registry.can_register(item.kind));
    let local = Local::new(item, &guard, &mut gc);
    assert_eq!(local.deref(&gc).value, 42);

    let kept = local.protect(&handle, &mut gc);
    let shared = local.as_shared(&mut gc);
    guard.release(&mut gc);
    assert!(gc.collect_once(&handle));

    assert_eq!(kept.deref(&gc).value, 42);
    let alias = shared.clone(&mut gc);
    assert_eq!(alias.deref(&gc).value, 42);

    // Each of them is enough to keep the object.
    kept.release(&mut gc);
    shared.release(&handle, &mut gc);
    assert!(gc.collect_once(&handle));
    assert_eq!(alias.deref(&gc).value, 42);
    alias.release(&handle, &mut gc);
    assert!(gc.collect_once(&handle));
    assert_eq!(objects(&gc), 0);
}

#[test]
fn children_stay_with_their_parents() {
    let (mut gc, handle) = collector();
    let guard = handle.pin(&mut gc);
    let leaf = Shared::new(node(1, vec![]), &guard, &mut gc);
    let child = leaf.clone(&mut gc);
    let root = Shared::new(
        node(2, vec![AtomicSharedOption::from(child)]),
        &guard,
        &mut gc,
    );
    guard.release(&mut gc);
    leaf.release(&handle, &mut gc);
    for _ in 0..3 {
        assert!(gc.collect_once(&handle));
    }
    let guard = handle.pin(&mut gc);
    let parent = root.as_local(&guard, &gc);
    assert_eq!(parent.deref(&gc).value, 2);
    let found = parent.edge(0).load(&guard, &gc).unwrap();
    assert_eq!(found.deref(&gc).value, 1);
    guard.release(&mut gc);
    root.release(&handle, &mut gc);
    assert!(gc.collect_once(&handle));
    assert_eq!(objects(&gc), 0);
}

#[test]
fn books_balance() {
    let size = size_of::<ManObj<Node>>();
    let (mut gc, handle) = collector();
    let mut roots = Vec::new();
    for i in 0..200 {
        let guard = handle.pin(&mut gc);
        if i % 4 == 0 {
            roots.push(Shared::new(node(i, vec![]), &guard, &mut gc));
        } else {
            let _ = Local::new(node(i, vec![]), &guard, &mut gc);
        }
        guard.release(&mut gc);
    }
    let pending = |gc: &Global<Node>| -> usize {
        gc.locals
            .nodes
            .iter()
            .map(|n| n.item.objs[0].1 + n.item.objs[1].1)
            .sum()
    };
    assert_eq!(gc.estimate_total_alloc() + pending(&gc), 200 * size);
    assert_eq!(gc.estimate_total_reclm(), 0);
    assert!(gc.collect_once(&handle));
    // The cycle has published what was pending.
    assert_eq!(pending(&gc), 0);
    assert_eq!(gc.estimate_total_alloc(), 200 * size);
    assert_eq!(gc.estimate_total_reclm(), 150 * size);
    assert_eq!(gc.estimate_heap_usage(), objects(&gc) * size);
    for root in roots {
        root.release(&handle, &mut gc);
    }
    assert!(gc.collect_once(&handle));
    assert_eq!(gc.estimate_heap_usage(), 0);
}

#[test]
fn blocked_cycles_are_resumed() {
    let (mut gc, driver) = collector();
    let (other, _) = gc.register();
    assert!(gc.resume_collection(&driver));
    let guard = other.pin(&mut gc);
    let held = Local::new(node(5, vec![]), &guard, &mut gc);
    gc.request_collection(&driver);
    assert!(gc.drive_collection_if_necessary(&driver));
    // The other participant is pinned in the normal phase.
    assert!(gc.driving);
    assert!(!gc.resume_collection(&driver));
    // Nobody else drives meanwhile.
    gc.request_collection(&driver);
    assert!(!gc.drive_collection_if_necessary(&driver));
    assert_eq!(held.deref(&gc).value, 5);
    guard.release(&mut gc);
    assert!(gc.resume_collection(&driver));
    assert!(!gc.driving);
    assert_eq!(objects(&gc), 0);
}

#[test]
fn colors_follow_the_epoch() {
    let (mut gc, handle) = collector();
    let guard = handle.pin(&mut gc);
    assert_eq!(guard.white_color(&gc), Color::C0);
    assert_eq!(guard.black_color(&gc), Color::C1);
    assert_eq!(guard.alloc_color(&gc), Color::C0);
    guard.release(&mut gc);
    assert!(gc.collect_once(&handle));
    let guard = handle.pin(&mut gc);
    assert_eq!(guard.white_color(&gc), Color::C1);
    assert_eq!(guard.black_color(&gc), Color::C0);
    guard.release(&mut gc);
}

#[test]
fn tasks_are_found_in_order() {
    let (mut gc, handle) = collector();
    let (second, _) = gc.register();
    let (third, _) = gc.register();
    gc.locals.nodes[second.lid].item.mark_tasks.push(24);
    for i in 4..=8 {
        gc.locals.nodes[third.lid].item.mark_tasks.push(8 * i);
    }
    gc.locals.nodes[handle.lid].item.mark_tasks.push(8);
    assert_eq!(gc.find_task(handle.lid), Some(8));
    assert_eq!(gc.find_task(handle.lid), Some(24));
    // The first of five, and with it half of the others.
    assert_eq!(gc.find_task(handle.lid), Some(32));
    assert_eq!(gc.locals.nodes[handle.lid].item.mark_tasks.len(), 2);
    assert_eq!(gc.locals.nodes[third.lid].item.mark_tasks.len(), 2);
    for a in [40, 48, 56, 64] {
        assert_eq!(gc.find_task(handle.lid), Some(a));
    }
    assert_eq!(gc.find_task(handle.lid), None);
}

#[test]
fn cooperative_collection_waits_for_a_safepoint() {
    let mut gc: Global<Node> = Global::new(None, false);
    assert_eq!(gc.collection_mode(), CollectionMode::Cooperative);
    let (handle, deploy) = gc.register();
    assert!(!deploy);
    let guard = handle.pin(&mut gc);
    let _ = Local::new(node(1, vec![]), &guard, &mut gc);
    gc.request_collection(&handle);
    assert!(gc.collection_requested);
    assert_eq!(objects(&gc), 1);
    guard.release(&mut gc);
    assert!(!gc.collection_requested);
    assert_eq!(objects(&gc), 0);
}

#[test]
fn guards_help_once_where_asked() {
    let (mut gc, handle) = collector();
    let guard = handle.pin(&mut gc);
    let mut roots = Vec::new();
    for i in 0..1000 {
        roots.push(Shared::new(node(i, vec![]), &guard, &mut gc));
    }
    guard.release(&mut gc);
    let white = gc.epoch.load().color() as usize;
    let fresh = |gc: &Global<Node>| -> usize {
        gc.fresh_objs.shards[white].iter().map(|q| q.items.len()).sum()
    };
    let before = fresh(&gc);
    assert!(before > 8);
    gc.begin_root_tracing();
    let guard = handle.pin(&mut gc);
    guard.help_collect_if_scheduled(&mut gc);
    assert_eq!(fresh(&gc), before);
    guard.schedule_helping_collect(&mut gc);
    guard.help_collect_if_scheduled(&mut gc);
    assert_eq!(fresh(&gc), before - 4);
    guard.release(&mut gc);
    assert!(gc.collect_once(&handle));
    assert_eq!(objects(&gc), 1000);
}

#[test]
fn cycles_go_on_while_others_run() {
    let (mut gc, driver) = collector();
    let (mutator, _) = gc.register();
    let mut guard = mutator.pin(&mut gc);
    let root = Shared::new(node(1, vec![]), &guard, &mut gc);
    let _ = Local::new(node(2, vec![]), &guard, &mut gc);
    // The mutator stays pinned all the time, and only repins. Each call gets to a later epoch.
    let mut ended = false;
    let mut calls = 0;
    while !ended {
        let before = gc.epoch.load().timestamp();
        ended = gc.collect_once(&driver);
        assert!(gc.epoch.load().timestamp() > before);
        guard.repin(&mut gc);
        calls += 1;
        if gc.epoch.load().phase() == Phase::N {
            break;
        }
        assert!(calls < 10);
    }
    assert_eq!(objects(&gc), 1);
    assert_eq!(root.deref(&gc).value, 1);
    assert_eq!(guard.white_color(&gc), Color::C1);
    guard.release(&mut gc);
    root.release(&mutator, &mut gc);
}

#[test]
fn cycles_can_be_run_in_pieces() {
    let (mut gc, driver) = collector();
    let (mutator, _) = gc.register();
    assert!(!gc.begin_collection(&driver));
    let guard = mutator.pin(&mut gc);
    let root = Shared::new(node(1, vec![]), &guard, &mut gc);
    for value in 0..4 * OBJ_BATCH_SIZE {
        let _ = Local::new(node(value, vec![]), &guard, &mut gc);
    }
    guard.release(&mut gc);
    let count = objects(&gc);
    gc.request_collection(&driver);
    assert!(gc.begin_collection(&driver));
    assert!(gc.driving);
    assert!(gc.epoch.load().phase() == Phase::RT);
    assert!(!gc.begin_collection(&driver));
    let mut pieces = 0;
    loop {
        if gc.has_pieces(&driver) {
            driver.help_collect(&mut gc);
            pieces += 1;
        } else if gc.advance_collection(&driver) {
            break;
        }
        assert!(pieces < 1000);
    }
    assert!(pieces > 1);
    assert!(!gc.driving);
    assert!(gc.advance_collection(&driver));
    assert!(objects(&gc) < count);
    assert_eq!(objects(&gc), 1);
    assert_eq!(root.deref(&gc).value, 1);
    root.release(&mutator, &mut gc);
}

#[test]
fn resumed_cycles_end_and_begin_no_other() {
    let (mut gc, driver) = collector();
    let (mutator, _) = gc.register();
    let mut guard = mutator.pin(&mut gc);
    let _ = Local::new(node(1, vec![]), &guard, &mut gc);
    gc.request_collection(&driver);
    assert!(gc.drive_collection_if_necessary(&driver));
    while gc.epoch.load().phase() != Phase::N {
        guard.repin(&mut gc);
        assert!(!gc.resume_collection(&driver));
    }
    // All is swept, but the mutator has yet to come to the normal phase.
    assert!(gc.driving);
    assert_eq!(objects(&gc), 0);
    let epoch = gc.epoch.load();
    assert!(!gc.resume_collection(&driver));
    assert!(gc.epoch.load() == epoch);
    guard.repin(&mut gc);
    // While collection is paused, nothing happens.
    gc.enable_collection(false);
    assert!(!gc.resume_collection(&driver));
    assert!(gc.driving);
    gc.enable_collection(true);
    assert!(gc.resume_collection(&driver));
    assert!(!gc.driving);
    assert!(gc.epoch.load() == epoch);
    guard.release(&mut gc);
}

#[test]
fn pauses_stop_reclamation() {
    let (mut gc, driver) = collector();
    let (mutator, _) = gc.register();
    let guard = mutator.pin(&mut gc);
    let _ = Local::new(node(1, vec![]), &guard, &mut gc);
    gc.request_collection(&driver);
    assert!(gc.drive_collection_if_necessary(&driver));
    guard.release(&mut gc);
    gc.enable_collection(false);
    assert!(!gc.resume_collection(&driver));
    assert_eq!(objects(&gc), 1);
    gc.enable_collection(true);
    assert!(gc.resume_collection(&driver));
    assert_eq!(objects(&gc), 0);
}

#[test]
fn safepoints_collect_though_help_was_asked_for() {
    let mut gc: Global<Node> = Global::new(None, false);
    let (handle, _) = gc.register();
    for _ in 0..3 {
        let guard = handle.pin(&mut gc);
        for i in 0..1000 {
            let _ = Local::new(node(i, vec![]), &guard, &mut gc);
        }
        guard.schedule_helping_collect(&mut gc);
        guard.release(&mut gc);
        assert_eq!(objects(&gc), 0);
        assert!(!gc.driving);
    }
}

#[test]
fn batches_have_the_usual_size() {
    let (mut gc, handle) = collector();
    let guard = handle.pin(&mut gc);
    let mut roots = Vec::new();
    for i in 0..500 {
        roots.push(Shared::new(node(i, vec![]), &guard, &mut gc));
    }
    guard.release(&mut gc);
    for _ in 0..3 {
        assert!(gc.collect_once(&handle));
        let mut count = 0;
        for shard in gc.fresh_objs.shards.iter().flatten() {
            for batch in &shard.items {
                assert!(batch.items.len() <= 64);
                count += batch.items.len();
            }
        }
        assert_eq!(count, 500);
    }
}

#[test]
fn allocations_ask_for_help_every_now_and_then() {
    let (mut gc, handle) = collector();
    let guard = handle.pin(&mut gc);
    for i in 1..=64 {
        let asked = gc.locals.nodes[handle.lid].item.should_help.contains(&guard.gid);
        assert!(!asked);
        let _ = Local::new(node(i, vec![]), &guard, &mut gc);
        assert_eq!(gc.locals.nodes[handle.lid].item.alloc_count, i as u64);
    }
    assert!(gc.locals.nodes[handle.lid].item.should_help.contains(&guard.gid));
    guard.release(&mut gc);
}

#[test]
fn last_roots_are_shaded_while_tracing() {
    let (mut gc, handle) = collector();
    let guard = handle.pin(&mut gc);
    let root = Shared::new(node(7, vec![]), &guard, &mut gc);
    let held = root.as_local(&guard, &gc).protect(&handle, &mut gc);
    guard.release(&mut gc);
    gc.begin_root_tracing();
    let guard = handle.pin(&mut gc);
    root.release(&handle, &mut gc);
    guard.release(&mut gc);
    assert!(gc.collect_once(&handle));
    // It was reachable when the cycle began.
    assert_eq!(held.deref(&gc).value, 7);
    held.release(&mut gc);
    assert!(gc.collect_once(&handle));
    assert_eq!(objects(&gc), 0);
}

#[test]
fn same_allocation_whatever_the_edge() {
    let (mut gc, handle) = collector();
    let guard = handle.pin(&mut gc);
    let a = Shared::new(node(1, vec![]), &guard, &mut gc);
    let b = Shared::new(node(1, vec![]), &guard, &mut gc);
    let c = a.clone(&mut gc);
    assert!(Shared::opt_ptr_eq(Some(&a), Some(&c)));
    assert!(Shared::opt_ptr_eq(Some(&c), Some(&a)));
    assert!(!Shared::opt_ptr_eq(Some(&a), Some(&b)));
    assert!(!Shared::opt_ptr_eq(Some(&a), None));
    assert!(Shared::<Node>::opt_ptr_eq(None, None));
    guard.release(&mut gc);
    for root in [a, b, c] {
        root.release(&handle, &mut gc);
    }
}

#[test]
fn modes_are_those_of_the_platform() {
    let mut gc: Global<Node> = Global::new(None, false);
    assert!(!gc.set_collection_mode(CollectionMode::Threaded));
    assert_eq!(gc.collection_mode(), CollectionMode::Cooperative);
    assert!(gc.set_collection_mode(CollectionMode::Cooperative));
    gc.register();
    assert!(!gc.set_collection_mode(CollectionMode::Threaded));
    assert!(gc.set_collection_mode(CollectionMode::Cooperative));
}

/// Begins to trace while a hazard pointer protects an object with so many children, and pins.
/// Returns how many tasks are left then.
fn tasks_after_barrier(children: usize) -> usize {
    let (mut gc, handle) = collector();
    let guard = handle.pin(&mut gc);
    let links = (0..children)
        .map(|value| AtomicSharedOption::from(Shared::new(node(value, vec![]), &guard, &mut gc)))
        .collect();
    let kept = Local::new(node(7, links), &guard, &mut gc).protect(&handle, &mut gc);
    guard.release(&mut gc);
    gc.begin_root_tracing();
    let guard = handle.pin(&mut gc);
    let local = &gc.locals.nodes[handle.lid].item;
    assert_eq!(local.sched_count, children as u64);
    // The guard itself has not been asked.
    assert!(local.should_help.is_empty());
    let left = local.mark_tasks.len();
    guard.release(&mut gc);
    assert_eq!(gc.locals.nodes[handle.lid].item.mark_tasks.len(), left);
    assert!(gc.collect_once(&handle));
    assert_eq!(objects(&gc), children + 1);
    kept.release(&mut gc);
    assert!(gc.collect_once(&handle));
    assert_eq!(objects(&gc), 0);
    left
}

#[test]
fn phase_barriers_help_at_once() {
    assert_eq!(tasks_after_barrier(0), 0);
    assert_eq!(tasks_after_barrier(31), 31);
    assert_eq!(tasks_after_barrier(32), 0);
    assert_eq!(tasks_after_barrier(40), 8);
}

#[test]
fn barriers_ask_their_own_guard() {
    let (mut gc, handle) = collector();
    let guard = handle.pin(&mut gc);
    let mut cells: Vec<AtomicSharedOption<Node>> = (0..32)
        .map(|value| AtomicSharedOption::from(Shared::new(node(value, vec![]), &guard, &mut gc)))
        .collect();
    guard.release(&mut gc);
    gc.begin_root_tracing();
    let one = handle.pin(&mut gc);
    let other = handle.pin(&mut gc);
    assert!(one.gid != other.gid);
    for (taken, cell) in cells.iter_mut().enumerate() {
        assert!(gc.locals.nodes[handle.lid].item.should_help.is_empty());
        assert_eq!(gc.locals.nodes[handle.lid].item.mark_tasks.len(), taken);
        assert!(cell.take(&one, &mut gc).is_some());
    }
    assert_eq!(gc.locals.nodes[handle.lid].item.should_help, vec![one.gid]);
    other.release(&mut gc);
    assert_eq!(gc.locals.nodes[handle.lid].item.mark_tasks.len(), 32);
    one.release(&mut gc);
    assert_eq!(gc.locals.nodes[handle.lid].item.mark_tasks.len(), 0);
    assert!(gc.locals.nodes[handle.lid].item.should_help.is_empty());
}

#[test]
fn cycles_reclaim_exactly_whatever_is_unswept() {
    let (mut gc, handle) = collector();
    let guard = handle.pin(&mut gc);
    let root = Shared::new(node(1, vec![]), &guard, &mut gc);
    let other = Shared::new(node(2, vec![]), &guard, &mut gc);
    let _ = Local::new(node(3, vec![]), &guard, &mut gc);
    guard.release(&mut gc);
    gc.begin_root_tracing();
    assert!(gc.finish_tracing(&handle));
    // The colors have changed, and nothing has been swept.
    assert!(gc.epoch.load().phase() == Phase::N);
    assert_eq!(objects(&gc), 3);
    other.release(&handle, &mut gc);
    assert!(gc.collect_once(&handle));
    assert_eq!(objects(&gc), 1);
    assert_eq!(root.deref(&gc).value, 1);
    root.release(&handle, &mut gc);
}

#[test]
fn pieces_make_up_a_cycle() {
    let (mut gc, driver) = collector();
    let (mutator, _) = gc.register();
    let guard = mutator.pin(&mut gc);
    let root = Shared::new(node(1, vec![]), &guard, &mut gc);
    for value in 0..4 * OBJ_BATCH_SIZE {
        let _ = Local::new(node(value, vec![]), &guard, &mut gc);
    }
    // Nothing happens while the participant is pinned or collection is paused.
    assert!(!gc.collect_piece(&mutator));
    assert!(!gc.driving);
    gc.enable_collection(false);
    assert!(!gc.collect_piece(&driver));
    assert!(!gc.driving);
    gc.enable_collection(true);
    guard.release(&mut gc);
    assert!(!gc.collect_piece(&driver));
    assert!(gc.driving);
    let mut pieces = 1;
    while !gc.collect_piece(&driver) {
        pieces += 1;
        assert!(pieces < 1000);
    }
    assert!(pieces > 4);
    assert!(!gc.driving);
    assert_eq!(objects(&gc), 1);
    assert_eq!(root.deref(&gc).value, 1);
    root.release(&mutator, &mut gc);
}

#[test]
fn fields_have_kinds() {
    let (mut gc, handle) = collector();
    let guard = handle.pin(&mut gc);
    let fields = vec![
        Field::Nullable(AtomicSharedOption::none()),
        Field::NonNull(AtomicShared::new(node(1, vec![]), &guard, &mut gc)),
        Field::Fixed(Shared::new(node(2, vec![]), &guard, &mut gc)),
    ];
    let owner = Local::new(Record::with_fields(0, 3, fields), &guard, &mut gc);
    assert_eq!(owner.edge(0).kind(&gc), LinkKind::Nullable);
    assert_eq!(owner.edge(1).kind(&gc), LinkKind::NonNull);
    assert_eq!(owner.edge(2).kind(&gc), LinkKind::Fixed);
    assert!(owner.edge(0).load(&guard, &gc).is_none());
    let other = Local::new(node(4, vec![]), &guard, &mut gc);
    let before = owner.edge(1).swap(Some(&other), &guard, &mut gc).unwrap();
    assert_eq!(before.deref(&gc).value, 1);
    let kept = owner.protect(&handle, &mut gc);
    guard.release(&mut gc);
    assert!(gc.collect_once(&handle));
    let guard = handle.pin(&mut gc);
    assert_eq!(kept.edge(1).load(&guard, &gc).unwrap().deref(&gc).value, 4);
    assert_eq!(kept.edge(2).load(&guard, &gc).unwrap().deref(&gc).value, 2);
    guard.release(&mut gc);
    kept.release(&mut gc);
}

#[test]
fn guards_hold_whatever_others_do() {
    let (mut gc, one) = collector();
    let (other, _) = gc.register();
    gc.set_collection_mode(CollectionMode::Cooperative);
    let guard = one.pin(&mut gc);
    let second = one.pin(&mut gc);
    let local = Local::new(node(1, vec![]), &guard, &mut gc);
    let root = local.as_shared(&mut gc);
    let kept = local.protect(&one, &mut gc);
    // Others drop roots, come and go, and collect meanwhile.
    root.release(&other, &mut gc);
    let (third, _) = gc.register();
    third.help_collect(&mut gc);
    gc.request_collection(&other);
    gc.unregister(third);
    assert!(one.is_pinned(&gc));
    assert_eq!(local.deref(&gc).value, 1);
    // The last of the guards unpins.
    guard.release(&mut gc);
    assert!(one.is_pinned(&gc));
    second.release(&mut gc);
    assert!(!one.is_pinned(&gc));
    assert_eq!(kept.deref(&gc).value, 1);
    kept.release(&mut gc);
}

#[test]
fn hazard_pointers_are_given_back_one_by_one() {
    let (mut gc, handle) = collector();
    let guard = handle.pin(&mut gc);
    let one = Local::new(node(1, vec![]), &guard, &mut gc).protect(&handle, &mut gc);
    let two = Local::new(node(2, vec![]), &guard, &mut gc).protect(&handle, &mut gc);
    guard.release(&mut gc);
    one.release(&mut gc);
    assert!(gc.collect_once(&handle));
    assert_eq!(objects(&gc), 1);
    assert_eq!(two.deref(&gc).value, 2);
    two.release(&mut gc);
    assert!(gc.collect_once(&handle));
    assert_eq!(objects(&gc), 0);
}
