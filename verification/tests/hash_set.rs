use cdpt::sync::hash_set::FixedHashSet;

#[test]
fn insert_and_contains() {
    let mut set = FixedHashSet::<u64, 16>::new();
    assert!(set.insert(1));
    assert!(set.insert(2));
    assert!(set.insert(3));
    assert!(set.contains(&1));
    assert!(set.contains(&2));
    assert!(set.contains(&3));
    assert!(!set.contains(&4));
}

#[test]
fn duplicate_insert_returns_false() {
    let mut set = FixedHashSet::<u64, 16>::new();
    assert!(set.insert(42));
    assert!(!set.insert(42));
    assert!(!set.insert(42));
    assert!(set.contains(&42));
}

#[test]
fn get_or_insert_returns_same_ref() {
    let mut set = FixedHashSet::<u64, 16>::new();
    let (r1, inserted1) = set.get_or_insert(42);
    assert!(inserted1);
    assert_eq!(*r1, 42);
    let place = set.position(&42);

    let (r2, inserted2) = set.get_or_insert(42);
    assert!(!inserted2);
    assert_eq!(*r2, 42);
    assert!(place.is_some());
    assert_eq!(set.position(&42), place);
}

#[test]
fn insert_up_to_capacity() {
    let mut set = FixedHashSet::<u64, 8>::new();
    for i in 0..8 {
        assert!(set.insert(i));
    }
    for i in 0..8 {
        assert!(set.contains(&i));
        assert!(!set.insert(i));
    }
}

#[test]
fn static_set() {
    let mut set: FixedHashSet<u64, 16> = FixedHashSet::new();
    assert!(set.insert(100));
    assert!(!set.insert(100));
    assert!(set.contains(&100));
}

#[test]
fn string_keys() {
    let mut set = FixedHashSet::<String, 16>::new();
    assert!(set.insert("hello".to_string()));
    assert!(!set.insert("hello".to_string()));
    assert!(set.insert("world".to_string()));
    assert!(set.contains(&"hello".to_string()));
    assert!(!set.contains(&"missing".to_string()));
}

#[test]
fn full_set_still_finds_its_keys() {
    let mut set = FixedHashSet::<u64, 4>::new();
    for i in 10..14 {
        assert!(set.insert(i));
    }
    let places: Vec<_> = (10..14).map(|i| set.position(&i).unwrap()).collect();
    assert!(!set.contains(&99));
    assert_eq!(set.position(&99), None);
    for (k, i) in (10..14).enumerate() {
        assert!(!set.insert(i));
        assert_eq!(set.position(&i), Some(places[k]));
    }
}

#[test]
fn sets_start_empty_by_default() {
    let mut set: FixedHashSet<u64, 8> = FixedHashSet::default();
    assert!(!set.contains(&1));
    assert!(set.insert(1));
    let at = set.position(&1);
    assert!(set.insert(2));
    assert!(!set.insert(1));
    assert_eq!(set.position(&1), at);
}
