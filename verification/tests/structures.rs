use cdpt::config::{CollectionMode, HeapHeadroom};
use cdpt::epoch::Color;
use cdpt::hazards::AddressSet;
use cdpt::internal::Local;
use cdpt::lists::{ObjBatch, ObjLists};
use cdpt::mark_queue::MarkQueue;
use cdpt::registry::TypeRegistry;
use cdpt::shards::{default_collector_threads, shard_range, ShardPicker};
use cdpt::sync::pile::Pile;
use cdpt::sync::queue::Queue;
use cdpt::sync::reusable_slots::ReusableSlots;

#[test]
fn mark_queue_is_first_in_first_out() {
    let mut q = MarkQueue::new();
    assert!(q.is_empty());
    assert_eq!(q.pop(), None);
    for i in 1..=5 {
        q.push(i * 8);
    }
    assert_eq!(q.len(), 5);
    assert_eq!(q.pop(), Some(8));
    assert_eq!(q.pop(), Some(16));
    q.push(99);
    assert_eq!(q.pop(), Some(24));
    assert_eq!(q.len(), 3);
    assert!(!q.is_empty());
}

#[test]
fn mark_queue_steals_half() {
    let mut source = MarkQueue::new();
    let mut dest = MarkQueue::new();
    for i in 0..10 {
        source.push(i);
    }
    dest.push(100);
    // The first is handed back, and half of the other nine go along.
    assert_eq!(dest.steal_batch_and_pop(&mut source, 2048), Some(0));
    assert_eq!(dest.len(), 5);
    assert_eq!(source.len(), 5);
    let moved: Vec<_> = (0..5).map(|_| dest.pop().unwrap()).collect();
    assert_eq!(moved, vec![100, 1, 2, 3, 4]);
    let left: Vec<_> = (0..5).map(|_| source.pop().unwrap()).collect();
    assert_eq!(left, vec![5, 6, 7, 8, 9]);
    assert_eq!(dest.steal_batch_and_pop(&mut source, 2048), None);
}

#[test]
fn mark_queue_steals_no_more_than_the_limit() {
    let mut source = MarkQueue::new();
    let mut dest = MarkQueue::new();
    for i in 0..100 {
        source.push(i);
    }
    assert_eq!(dest.steal_batch_and_pop(&mut source, 3), Some(0));
    assert_eq!(dest.len(), 2);
    assert_eq!(source.len(), 97);
    let mut one = MarkQueue::new();
    one.push(7);
    assert_eq!(dest.steal_batch_and_pop(&mut one, 1), Some(7));
    assert_eq!(dest.len(), 2);
}

#[test]
fn address_set_holds_what_is_inserted() {
    let mut set = AddressSet::new();
    assert!(!set.contains(8));
    assert!(set.insert(8));
    assert!(!set.insert(8));
    set.extend(&vec![0, 16, 24]);
    assert!(set.contains(8) && set.contains(0) && set.contains(16) && set.contains(24));
    assert!(!set.contains(32));
}

#[test]
fn shards_are_picked_within_bounds() {
    let mut picker = ShardPicker::new();
    let mut seen = [false; 8];
    for _ in 0..1000 {
        seen[picker.select_obj_shard()] = true;
    }
    assert_eq!(seen, [true; 8]);
    let mut moved = false;
    for _ in 0..100 {
        let order = picker.generate_shard_permut();
        moved = moved || order != [0, 1, 2, 3, 4, 5, 6, 7];
        let mut sorted = order;
        sorted.sort();
        assert_eq!(sorted, [0, 1, 2, 3, 4, 5, 6, 7]);
    }
    assert!(moved);
}

#[test]
fn shard_ranges_cover_all_shards() {
    assert_eq!(shard_range(0, 1), (0, 8));
    assert_eq!(shard_range(0, 3), (0, 2));
    assert_eq!(shard_range(1, 3), (2, 4));
    // The last thread picks up the remainder.
    assert_eq!(shard_range(2, 3), (4, 8));
    for n in 1..=8 {
        let mut next = 0;
        for t in 0..n {
            let (start, end) = shard_range(t, n);
            assert_eq!(start, next);
            next = end;
        }
        assert_eq!(next, 8);
    }
}

#[test]
fn default_threads_are_an_eighth() {
    assert_eq!(default_collector_threads(None), 1);
    assert_eq!(default_collector_threads(Some(1)), 1);
    assert_eq!(default_collector_threads(Some(8)), 1);
    assert_eq!(default_collector_threads(Some(32)), 4);
    assert_eq!(default_collector_threads(Some(64)), 8);
    assert_eq!(default_collector_threads(Some(1000)), 8);
}

#[test]
fn headroom_words() {
    assert_eq!(HeapHeadroom::FixedMiB(4).pack(), 4 * 1024 * 1024);
    assert_eq!(
        HeapHeadroom::Proportional(8).pack(),
        8 | 0x8000_0000_0000_0000
    );
    for h in [
        HeapHeadroom::FixedMiB(1),
        HeapHeadroom::FixedMiB(1024),
        HeapHeadroom::Proportional(1),
        HeapHeadroom::Proportional(1024),
    ] {
        assert_eq!(HeapHeadroom::unpack(h.pack()), h);
    }
    assert_eq!(
        HeapHeadroom::unpack(HeapHeadroom::Proportional(0).pack()),
        HeapHeadroom::Proportional(1)
    );
}

#[test]
fn mode_words() {
    assert_eq!(CollectionMode::from_u8(0), CollectionMode::Threaded);
    assert_eq!(CollectionMode::from_u8(1), CollectionMode::Cooperative);
    assert_eq!(CollectionMode::from_u8(2), CollectionMode::Threaded);
    assert_eq!(CollectionMode::from_u8(3), CollectionMode::Cooperative);
}

#[test]
fn types_are_numbered_in_order() {
    let mut reg = TypeRegistry::new();
    assert_eq!(reg.register_type(77), 0);
    assert_eq!(reg.register_type(5), 1);
    assert_eq!(reg.register_type(77), 0);
    assert_eq!(reg.get_shade_fn(1), 5);
    for key in 1000..1254 {
        reg.register_type(key);
    }
    assert_eq!(reg.register_type(1253), 255);
    assert_eq!(reg.get_shade_fn(255), 1253);
    assert_eq!(reg.get_shade_fn(0), 77);
}

#[test]
fn pile_is_taken_as_a_whole() {
    let mut pile = Pile::new();
    pile.push(1);
    pile.push(2);
    pile.push_batch(vec![10, 11, 12]);
    pile.push_batch(vec![]);
    assert_eq!(pile.take(), vec![10, 11, 12, 2, 1]);
    assert_eq!(pile.take(), Vec::<i32>::new());
}

#[test]
fn queue_is_first_in_first_out() {
    let mut q = Queue::new();
    assert_eq!(q.try_pop(), None);
    q.push('a');
    q.push('b');
    assert_eq!(q.try_pop(), Some('a'));
    q.push('c');
    assert_eq!(q.try_pop(), Some('b'));
    assert_eq!(q.try_pop(), Some('c'));
    assert_eq!(q.try_pop(), None);
}

#[test]
fn slots_are_reused_with_what_they_hold() {
    let mut slots: ReusableSlots<u32> = ReusableSlots::default();
    assert_eq!(slots.acquire_or_default(), 0);
    assert_eq!(slots.acquire_or_default(), 1);
    assert_eq!(slots.acquire_or_default(), 2);
    slots.nodes[1].item = 42;
    slots.release(1);
    assert_eq!(slots.active_count(), 2);
    assert_eq!(slots.acquire_or_default(), 1);
    assert_eq!(slots.nodes[1].item, 42);
    assert_eq!(slots.acquire_or_default(), 3);
    assert_eq!(slots.nodes[3].item, 0);
    assert_eq!(slots.active_count(), 4);
}

#[test]
fn batches_do_not_outgrow_their_capacity() {
    let mut batch = ObjBatch::with_capacity(2);
    assert!(batch.is_empty());
    assert_eq!(batch.push_within_capacity(8), Ok(()));
    assert_eq!(batch.push_within_capacity(16), Ok(()));
    assert_eq!(batch.push_within_capacity(24), Err(24));
    assert_eq!(batch.items, vec![8, 16]);
    assert_eq!(ObjBatch::default().capacity, 64);
}

#[test]
fn lists_keep_colors_and_shards_apart() {
    let mut lists = ObjLists::new();
    let mut batch = ObjBatch::default();
    batch.push_within_capacity(8).unwrap();
    lists.push(Color::C1, 3, batch);
    assert!(lists.try_pop(Color::C0, 3).is_none());
    assert!(lists.try_pop(Color::C1, 2).is_none());
    assert!(!lists.is_shard_empty(Color::C1, 3));
    assert_eq!(lists.try_pop(Color::C1, 3).unwrap().items, vec![8]);
    assert!(lists.is_shard_empty(Color::C1, 3));
}

#[test]
fn hazard_pointers_double_when_they_run_out() {
    let mut local = Local::default();
    let mut hids: Vec<usize> = (0..8).map(|_| local.acquire_hp()).collect();
    hids.sort();
    assert_eq!(hids, vec![0, 1, 2, 3, 4, 5, 6, 7]);
    local.set_hazard(3, 0x40);
    assert_eq!(local.acquire_hp(), 15);
    assert_eq!(local.hazards.len(), 16);
    assert_eq!(local.hazards[3], 0x40);
    local.set_hazard(3, 0);
    local.release_hp(3);
    assert_eq!(local.acquire_hp(), 3);
}

#[test]
fn scheduling_asks_for_help_every_now_and_then() {
    let mut local = Local::default();
    for i in 1..=31 {
        local.schedule_mark(8 * i, 5);
    }
    assert!(!local.take_helping(5));
    local.schedule_mark(8, 5);
    assert!(!local.take_helping(6));
    assert!(local.take_helping(5));
    assert!(!local.take_helping(5));
    for _ in 0..63 {
        local.count_alloc(9);
    }
    assert!(!local.take_helping(9));
    local.count_alloc(9);
    assert!(local.take_helping(9));
}
