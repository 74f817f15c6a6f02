use cdpt::global::Global;
use cdpt::guards::{Guard, Handle};
use cdpt::pointers::{AtomicShared, AtomicSharedOption, Local, Shared};
use cdpt::record::Record;

type SimpleNode = Record<usize>;

fn simple(value: usize) -> SimpleNode {
    Record::new(value, vec![AtomicSharedOption::none()])
}

fn linked(value: usize, next: AtomicSharedOption<SimpleNode>) -> SimpleNode {
    Record::new(value, vec![next])
}

fn collector() -> (Global<SimpleNode>, Handle) {
    let mut gc = Global::new(Some(8), true);
    let (handle, _) = gc.register();
    (gc, handle)
}

// ---- Guard & Handle tests ----

#[test]
fn handle_pin_unpin() {
    let (mut gc, h) = collector();
    assert!(!h.is_pinned(&gc));

    let guard = h.pin(&mut gc);
    assert!(h.is_pinned(&gc));

    guard.release(&mut gc);
    assert!(!h.is_pinned(&gc));
}

#[test]
fn nested_guards() {
    let (mut gc, h) = collector();
    assert!(!h.is_pinned(&gc));

    let g1 = h.pin(&mut gc);
    assert!(h.is_pinned(&gc));

    let g2 = h.pin(&mut gc);
    assert!(h.is_pinned(&gc));

    g1.release(&mut gc);
    // Still pinned because g2 is alive.
    assert!(h.is_pinned(&gc));

    g2.release(&mut gc);
    assert!(!h.is_pinned(&gc));
}

#[test]
fn guard_repin() {
    let (mut gc, h) = collector();
    let mut guard = h.pin(&mut gc);
    assert!(h.is_pinned(&gc));

    guard.repin(&mut gc);
    assert!(h.is_pinned(&gc));

    guard.release(&mut gc);
    assert!(!h.is_pinned(&gc));
}

#[test]
fn handle_clone() {
    let (mut gc, h1) = collector();
    let h2 = h1.clone();

    let g1 = h1.pin(&mut gc);
    // Both handles share the same participant, so both should see pinned.
    assert!(h1.is_pinned(&gc));
    assert!(h2.is_pinned(&gc));

    g1.release(&mut gc);
    assert!(!h1.is_pinned(&gc));
    assert!(!h2.is_pinned(&gc));
}

#[test]
fn pin_convenience() {
    let (mut gc, h) = collector();
    let guard = h.pin(&mut gc);
    // Just verify we can use it to allocate.
    let local = Local::new(simple(42), &guard, &mut gc);
    assert_eq!(local.deref(&gc).value, 42);
}

// ---- Local tests ----

#[test]
fn local_new_and_deref() {
    let (mut gc, h) = collector();
    let guard = h.pin(&mut gc);
    let local = Local::new(simple(99), &guard, &mut gc);
    assert_eq!(local.deref(&gc).value, 99);
}

#[test]
fn local_as_shared() {
    let (mut gc, h) = collector();
    let guard = h.pin(&mut gc);
    let local = Local::new(simple(7), &guard, &mut gc);
    let shared = local.as_shared(&mut gc);
    assert_eq!(shared.deref(&gc).value, 7);
}

#[test]
fn local_as_atomic_shared() {
    let (mut gc, h) = collector();
    let guard = h.pin(&mut gc);
    let local = Local::new(simple(11), &guard, &mut gc);
    let atomic = local.as_atomic_shared(&mut gc);
    let loaded = atomic.load(&guard, &gc);
    assert_eq!(loaded.deref(&gc).value, 11);
}

#[test]
fn local_ptr_eq() {
    let (mut gc, h) = collector();
    let guard = h.pin(&mut gc);
    let a = Local::new(simple(1), &guard, &mut gc);
    let b = a; // Copy
    assert!(Local::ptr_eq(&a, &b));

    let c = Local::new(simple(1), &guard, &mut gc);
    assert!(!Local::ptr_eq(&a, &c));
}

#[test]
fn local_opt_ptr_eq() {
    let (mut gc, h) = collector();
    let guard = h.pin(&mut gc);
    let a = Local::new(simple(1), &guard, &mut gc);

    let none: Option<&Local<Guard, SimpleNode>> = None;
    assert!(Local::opt_ptr_eq(none, none));
    assert!(Local::opt_ptr_eq(Some(&a), Some(&a)));
    assert!(!Local::opt_ptr_eq(Some(&a), none));
    assert!(!Local::opt_ptr_eq(none, Some(&a)));
}

#[test]
fn local_value_eq() {
    let (mut gc, h) = collector();
    let guard = h.pin(&mut gc);
    let a = Local::new(simple(42), &guard, &mut gc);
    let b = Local::new(simple(42), &guard, &mut gc);
    assert_eq!(a.deref(&gc).value, b.deref(&gc).value);
}

#[test]
fn local_copy_semantics() {
    let (mut gc, h) = collector();
    let guard = h.pin(&mut gc);
    let a = Local::new(simple(5), &guard, &mut gc);
    let b = a;
    // Both should still be usable (Copy trait).
    assert_eq!(a.deref(&gc).value, 5);
    assert_eq!(b.deref(&gc).value, 5);
}

#[test]
fn local_protect_with_handle() {
    let (mut gc, h) = collector();
    let guard = h.pin(&mut gc);
    let local_guard = Local::new(simple(77), &guard, &mut gc);

    // Protect the local reference with a Handle (creates a hazard pointer).
    let local_hp = local_guard.protect(&h, &mut gc);
    assert_eq!(local_hp.deref(&gc).value, 77);
    // The HP-protected local can outlive the guard.
    guard.release(&mut gc);
    assert_eq!(local_hp.deref(&gc).value, 77);
}

// ---- Shared tests ----

#[test]
fn shared_new_and_deref() {
    let (mut gc, h) = collector();
    let guard = h.pin(&mut gc);
    let s = Shared::new(simple(42), &guard, &mut gc);
    assert_eq!(s.deref(&gc).value, 42);
}

#[test]
fn shared_clone() {
    let (mut gc, h) = collector();
    let guard = h.pin(&mut gc);
    let s1 = Shared::new(simple(10), &guard, &mut gc);
    let s2 = s1.clone(&mut gc);
    assert_eq!(s1.deref(&gc).value, 10);
    assert_eq!(s2.deref(&gc).value, 10);
    assert!(Shared::ptr_eq(&s1, &s2));
}

#[test]
fn shared_ptr_eq() {
    let (mut gc, h) = collector();
    let guard = h.pin(&mut gc);
    let a = Shared::new(simple(1), &guard, &mut gc);
    let b = a.clone(&mut gc);
    assert!(Shared::ptr_eq(&a, &b));

    let c = Shared::new(simple(1), &guard, &mut gc);
    assert!(!Shared::ptr_eq(&a, &c));
}

#[test]
fn shared_opt_ptr_eq() {
    let (mut gc, h) = collector();
    let guard = h.pin(&mut gc);
    let a = Shared::new(simple(1), &guard, &mut gc);

    assert!(Shared::<SimpleNode>::opt_ptr_eq(None, None));
    assert!(Shared::opt_ptr_eq(Some(&a), Some(&a)));
    assert!(!Shared::opt_ptr_eq(Some(&a), None));
    assert!(!Shared::opt_ptr_eq(None, Some(&a)));
}

#[test]
fn shared_as_local() {
    let (mut gc, h) = collector();
    let guard = h.pin(&mut gc);
    let s = Shared::new(simple(88), &guard, &mut gc);
    let local = s.as_local(&guard, &gc);
    assert_eq!(local.deref(&gc).value, 88);
}

#[test]
fn shared_as_ref() {
    let (mut gc, h) = collector();
    let guard = h.pin(&mut gc);
    let s = Shared::new(simple(55), &guard, &mut gc);
    let r: &SimpleNode = s.deref(&gc);
    assert_eq!(r.value, 55);
}

#[test]
fn shared_survives_guard_drop() {
    let (mut gc, h) = collector();
    let guard = h.pin(&mut gc);
    let s = Shared::new(simple(100), &guard, &mut gc);
    guard.release(&mut gc);
    // Shared is root-counted, so it should still be accessible.
    assert_eq!(s.deref(&gc).value, 100);
}

#[test]
fn shared_multiple_clones() {
    let (mut gc, h) = collector();
    let guard = h.pin(&mut gc);
    let s = Shared::new(simple(1), &guard, &mut gc);
    let clones: Vec<_> = (0..10).map(|_| s.clone(&mut gc)).collect();
    for c in &clones {
        assert!(Shared::ptr_eq(&s, c));
        assert_eq!(c.deref(&gc).value, 1);
    }
}

// ---- AtomicSharedOption tests ----

#[test]
fn atomic_shared_option_none() {
    let (mut gc, h) = collector();
    let guard = h.pin(&mut gc);
    let opt: AtomicSharedOption<SimpleNode> = AtomicSharedOption::none();
    assert!(opt.load(&guard, &gc).is_none());
}

#[test]
fn atomic_shared_option_some() {
    let (mut gc, h) = collector();
    let guard = h.pin(&mut gc);
    let opt = AtomicSharedOption::some(simple(42), &guard, &mut gc);
    let loaded = opt.load(&guard, &gc);
    assert!(loaded.is_some());
    assert_eq!(loaded.unwrap().deref(&gc).value, 42);
}

#[test]
fn atomic_shared_option_store_some() {
    let (mut gc, h) = collector();
    let guard = h.pin(&mut gc);
    let mut opt: AtomicSharedOption<SimpleNode> = AtomicSharedOption::none();

    let node = Local::new(simple(5), &guard, &mut gc);
    opt.store(Some(&node), &guard, &mut gc);

    let loaded = opt.load(&guard, &gc).unwrap();
    assert_eq!(loaded.deref(&gc).value, 5);
}

#[test]
fn atomic_shared_option_store_none() {
    let (mut gc, h) = collector();
    let guard = h.pin(&mut gc);
    let mut opt = AtomicSharedOption::some(simple(1), &guard, &mut gc);

    opt.store(None::<&Local<Guard, SimpleNode>>, &guard, &mut gc);
    assert!(opt.load(&guard, &gc).is_none());
}

#[test]
fn atomic_shared_option_swap() {
    let (mut gc, h) = collector();
    let guard = h.pin(&mut gc);
    let mut opt = AtomicSharedOption::some(simple(1), &guard, &mut gc);

    let new = Local::new(simple(2), &guard, &mut gc);
    let old = opt.swap(Some(&new), &guard, &mut gc);
    assert_eq!(old.unwrap().deref(&gc).value, 1);
    assert_eq!(opt.load(&guard, &gc).unwrap().deref(&gc).value, 2);
}

#[test]
fn atomic_shared_option_take() {
    let (mut gc, h) = collector();
    let guard = h.pin(&mut gc);
    let mut opt = AtomicSharedOption::some(simple(99), &guard, &mut gc);

    let taken = opt.take(&guard, &mut gc);
    assert_eq!(taken.unwrap().deref(&gc).value, 99);
    assert!(opt.load(&guard, &gc).is_none());
}

#[test]
fn atomic_shared_option_compare_exchange_success() {
    let (mut gc, h) = collector();
    let guard = h.pin(&mut gc);
    let mut opt = AtomicSharedOption::some(simple(1), &guard, &mut gc);

    let current = opt.load(&guard, &gc);
    let new = Local::new(simple(2), &guard, &mut gc);

    let result = opt.compare_exchange(current.as_ref(), Some(&new), &guard, &mut gc);
    assert!(result.is_ok());
    assert_eq!(opt.load(&guard, &gc).unwrap().deref(&gc).value, 2);
}

#[test]
fn atomic_shared_option_compare_exchange_failure() {
    let (mut gc, h) = collector();
    let guard = h.pin(&mut gc);
    let mut opt = AtomicSharedOption::some(simple(1), &guard, &mut gc);

    // Use a different pointer as expected value.
    let wrong = Local::new(simple(999), &guard, &mut gc);
    let new = Local::new(simple(2), &guard, &mut gc);

    let result = opt.compare_exchange(Some(&wrong), Some(&new), &guard, &mut gc);
    assert!(result.is_err());
    // Value should be unchanged.
    assert_eq!(opt.load(&guard, &gc).unwrap().deref(&gc).value, 1);
}

#[test]
fn atomic_shared_option_load_with_tag() {
    let (mut gc, h) = collector();
    let guard = h.pin(&mut gc);
    let opt = AtomicSharedOption::some_with_tag(simple(7), 1, &guard, &mut gc);

    let (loaded, tag) = opt.load_with_tag(&guard, &gc);
    assert!(loaded.is_some());
    assert_eq!(loaded.unwrap().deref(&gc).value, 7);
    assert_eq!(tag, 1);
}

#[test]
fn atomic_shared_option_none_with_tag() {
    let (mut gc, h) = collector();
    let guard = h.pin(&mut gc);
    let opt: AtomicSharedOption<SimpleNode> = AtomicSharedOption::none_with_tag(1);
    let (loaded, tag) = opt.load_with_tag(&guard, &gc);
    assert!(loaded.is_none());
    assert_eq!(tag, 1);
}

#[test]
fn atomic_shared_option_default_is_none() {
    let (mut gc, h) = collector();
    let guard = h.pin(&mut gc);
    let opt: AtomicSharedOption<SimpleNode> = AtomicSharedOption::default();
    assert!(opt.load(&guard, &gc).is_none());
}

// ---- AtomicSharedOption conversions ----

#[test]
fn atomic_shared_option_from_shared() {
    let (mut gc, h) = collector();
    let guard = h.pin(&mut gc);
    let s = Shared::new(simple(33), &guard, &mut gc);
    let opt = AtomicSharedOption::from(s);
    assert_eq!(opt.load(&guard, &gc).unwrap().deref(&gc).value, 33);
}

#[test]
fn atomic_shared_option_from_option_shared_some() {
    let (mut gc, h) = collector();
    let guard = h.pin(&mut gc);
    let s = Shared::new(simple(44), &guard, &mut gc);
    let opt = AtomicSharedOption::from_option(Some(s));
    assert_eq!(opt.load(&guard, &gc).unwrap().deref(&gc).value, 44);
}

#[test]
fn atomic_shared_option_from_option_shared_none() {
    let (mut gc, h) = collector();
    let guard = h.pin(&mut gc);
    let opt = AtomicSharedOption::<SimpleNode>::from_option(None::<Shared<SimpleNode>>);
    assert!(opt.load(&guard, &gc).is_none());
}

#[test]
fn atomic_shared_option_from_local() {
    let (mut gc, h) = collector();
    let guard = h.pin(&mut gc);
    let local = Local::new(simple(55), &guard, &mut gc);
    let opt = AtomicSharedOption::from(local.as_atomic_shared(&mut gc));
    assert_eq!(opt.load(&guard, &gc).unwrap().deref(&gc).value, 55);
}

#[test]
fn atomic_shared_option_from_option_local_some() {
    let (mut gc, h) = collector();
    let guard = h.pin(&mut gc);
    let local = Local::new(simple(66), &guard, &mut gc);
    let opt = AtomicSharedOption::from_local(Some(&local), &mut gc);
    assert_eq!(opt.load(&guard, &gc).unwrap().deref(&gc).value, 66);
}

#[test]
fn atomic_shared_option_from_option_local_none() {
    let (mut gc, h) = collector();
    let guard = h.pin(&mut gc);
    let opt =
        AtomicSharedOption::<SimpleNode>::from_local(None::<&Local<Guard, SimpleNode>>, &mut gc);
    assert!(opt.load(&guard, &gc).is_none());
}

// ---- AtomicShared tests ----

#[test]
fn atomic_shared_new_and_load() {
    let (mut gc, h) = collector();
    let guard = h.pin(&mut gc);
    let a = AtomicShared::new(simple(42), &guard, &mut gc);
    let loaded = a.load(&guard, &gc);
    assert_eq!(loaded.deref(&gc).value, 42);
}

#[test]
fn atomic_shared_store() {
    let (mut gc, h) = collector();
    let guard = h.pin(&mut gc);
    let mut a = AtomicShared::new(simple(1), &guard, &mut gc);

    let new_node = Local::new(simple(2), &guard, &mut gc);
    a.store(&new_node, &guard, &mut gc);

    assert_eq!(a.load(&guard, &gc).deref(&gc).value, 2);
}

#[test]
fn atomic_shared_swap() {
    let (mut gc, h) = collector();
    let guard = h.pin(&mut gc);
    let mut a = AtomicShared::new(simple(1), &guard, &mut gc);

    let new_node = Local::new(simple(2), &guard, &mut gc);
    let old = a.swap(&new_node, &guard, &mut gc);
    assert_eq!(old.deref(&gc).value, 1);
    assert_eq!(a.load(&guard, &gc).deref(&gc).value, 2);
}

#[test]
fn atomic_shared_compare_exchange_success() {
    let (mut gc, h) = collector();
    let guard = h.pin(&mut gc);
    let mut a = AtomicShared::new(simple(1), &guard, &mut gc);

    let current = a.load(&guard, &gc);
    let new_node = Local::new(simple(2), &guard, &mut gc);

    let result = a.compare_exchange(&current, &new_node, &guard, &mut gc);
    assert!(result.is_ok());
    assert_eq!(a.load(&guard, &gc).deref(&gc).value, 2);
}

#[test]
fn atomic_shared_compare_exchange_failure() {
    let (mut gc, h) = collector();
    let guard = h.pin(&mut gc);
    let mut a = AtomicShared::new(simple(1), &guard, &mut gc);

    let wrong = Local::new(simple(999), &guard, &mut gc);
    let new_node = Local::new(simple(2), &guard, &mut gc);

    let result = a.compare_exchange(&wrong, &new_node, &guard, &mut gc);
    assert!(result.is_err());
    assert_eq!(a.load(&guard, &gc).deref(&gc).value, 1);
}

#[test]
fn atomic_shared_take() {
    let (mut gc, h) = collector();
    let guard = h.pin(&mut gc);
    let a = AtomicShared::new(simple(77), &guard, &mut gc);
    let taken = a.take(&guard, &gc);
    assert_eq!(taken.deref(&gc).value, 77);
    // It is never null.
    assert_eq!(a.load(&guard, &gc).deref(&gc).value, 77);
}

#[test]
fn atomic_shared_load_with_tag() {
    let (mut gc, h) = collector();
    let guard = h.pin(&mut gc);
    let a = AtomicShared::new_with_tag(simple(3), 1, &guard, &mut gc);
    let (loaded, tag) = a.load_with_tag(&guard, &gc);
    assert_eq!(loaded.deref(&gc).value, 3);
    assert_eq!(tag, 1);
}

#[test]
fn atomic_shared_from_shared() {
    let (mut gc, h) = collector();
    let guard = h.pin(&mut gc);
    let s = Shared::new(simple(88), &guard, &mut gc);
    let a = AtomicShared::from(s);
    assert_eq!(a.load(&guard, &gc).deref(&gc).value, 88);
}

#[test]
fn atomic_shared_from_local() {
    let (mut gc, h) = collector();
    let guard = h.pin(&mut gc);
    let l = Local::new(simple(99), &guard, &mut gc);
    let a = l.as_atomic_shared(&mut gc);
    assert_eq!(a.load(&guard, &gc).deref(&gc).value, 99);
}

// ---- Linked structure tests ----

#[test]
fn simple_linked_list() {
    let (mut gc, h) = collector();
    let guard = h.pin(&mut gc);

    let node3 = Local::new(simple(3), &guard, &mut gc);
    let to3 = AtomicSharedOption::from_local(Some(&node3), &mut gc);
    let node2 = Local::new(linked(2, to3), &guard, &mut gc);
    let to2 = AtomicSharedOption::from_local(Some(&node2), &mut gc);
    let node1 = Local::new(linked(1, to2), &guard, &mut gc);

    assert_eq!(node1.deref(&gc).value, 1);
    let n2 = node1.edge(0).load(&guard, &gc).unwrap();
    assert_eq!(n2.deref(&gc).value, 2);
    let n3 = n2.edge(0).load(&guard, &gc).unwrap();
    assert_eq!(n3.deref(&gc).value, 3);
    assert!(n3.edge(0).load(&guard, &gc).is_none());
}

#[test]
fn modify_linked_list() {
    let (mut gc, h) = collector();
    let guard = h.pin(&mut gc);

    let node2 = Local::new(simple(2), &guard, &mut gc);
    let to2 = AtomicSharedOption::from_local(Some(&node2), &mut gc);
    let node1 = Local::new(linked(1, to2), &guard, &mut gc);

    // Insert node3 between node1 and node2.
    let to2 = AtomicSharedOption::from_local(Some(&node2), &mut gc);
    let node3 = Local::new(linked(3, to2), &guard, &mut gc);
    node1.edge(0).store(Some(&node3), &guard, &mut gc);

    // Verify: 1 -> 3 -> 2
    assert_eq!(node1.deref(&gc).value, 1);
    let n3 = node1.edge(0).load(&guard, &gc).unwrap();
    assert_eq!(n3.deref(&gc).value, 3);
    let n2 = n3.edge(0).load(&guard, &gc).unwrap();
    assert_eq!(n2.deref(&gc).value, 2);
}

// ---- Multiple allocations ----

#[test]
fn many_allocations() {
    let (mut gc, h) = collector();
    let guard = h.pin(&mut gc);
    let mut nodes = Vec::new();
    for i in 0..100 {
        let node = Local::new(simple(i), &guard, &mut gc);
        nodes.push(node);
    }
    for (i, node) in nodes.iter().enumerate() {
        assert_eq!(node.deref(&gc).value, i);
    }
}

#[test]
fn shared_vec() {
    let (mut gc, h) = collector();
    let guard = h.pin(&mut gc);
    let mut shareds = Vec::new();
    for i in 0..50 {
        shareds.push(Shared::new(simple(i), &guard, &mut gc));
    }
    for (i, s) in shareds.iter().enumerate() {
        assert_eq!(s.deref(&gc).value, i);
    }
    // Cloning all shareds.
    let clones: Vec<_> = shareds.iter().map(|s| s.clone(&mut gc)).collect();
    for (i, c) in clones.iter().enumerate() {
        assert_eq!(c.deref(&gc).value, i);
        assert!(Shared::ptr_eq(&shareds[i], c));
    }
}

#[test]
fn pointers_compare_by_value() {
    let mut gc: Global<i32> = Global::new(None, true);
    let (h, _) = gc.register();
    let guard = h.pin(&mut gc);
    let a = Local::new(1, &guard, &mut gc);
    let b = Local::new(2, &guard, &mut gc);
    let c = Local::new(1, &guard, &mut gc);
    assert!(a.value_eq(&c, &gc) && !Local::ptr_eq(&a, &c));
    assert!(!a.value_eq(&b, &gc));
    assert_eq!(a.value_cmp(&b, &gc), std::cmp::Ordering::Less);
    assert_eq!(b.value_partial_cmp(&a, &gc), Some(std::cmp::Ordering::Greater));
    let (x, y) = (a.as_shared(&mut gc), c.as_shared(&mut gc));
    assert!(x.value_eq(&y, &gc) && !Shared::ptr_eq(&x, &y));
    assert_eq!(x.value_cmp(&y, &gc), std::cmp::Ordering::Equal);
    assert_eq!(x.value_partial_cmp(&y, &gc), Some(std::cmp::Ordering::Equal));
}
