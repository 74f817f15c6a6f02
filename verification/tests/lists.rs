use std::collections::hash_map::DefaultHasher;
use std::hash::{Hash, Hasher};

use cdpt::global::Global;
use cdpt::guards::{Guard, Handle};
use cdpt::pointers::{AtomicShared, AtomicSharedOption, Local};
use cdpt::record::Record;

type Node = Record<(i32, String)>;
type Found<'g> = Result<(bool, Cursor<'g>), ()>;

fn node(key: i32, value: String) -> Node {
    Record::new((key, value), vec![AtomicSharedOption::none()])
}

struct Cursor<'g> {
    prev: Local<'g, Guard, Node>,
    curr: Option<Local<'g, Guard, Node>>,
}

/// A sorted list whose nodes are removed logically by a tag before they are unlinked.
struct List {
    head: AtomicShared<Node>,
}

impl List {
    fn new(handle: &Handle, gc: &mut Global<Node>) -> Self {
        let guard = handle.pin(gc);
        let head = AtomicShared::new(node(0, String::new()), &guard, gc);
        guard.release(gc);
        List { head }
    }

    fn start<'g>(&self, guard: &'g Guard, gc: &Global<Node>) -> Cursor<'g> {
        let prev = self.head.load(guard, gc);
        let curr = prev.edge(0).load(guard, gc);
        Cursor { prev, curr }
    }

    /// Cleans up a chain of logically removed nodes in each traversal.
    fn find_harris<'g>(&self, key: i32, guard: &'g Guard, gc: &mut Global<Node>) -> Found<'g> {
        let mut cursor = self.start(guard, gc);
        let mut prev_next = cursor.curr;
        let found = loop {
            let Some(curr) = cursor.curr else {
                break false;
            };
            let (next, next_tag) = curr.edge(0).load_with_tag(guard, gc);
            if next_tag != 0 {
                cursor.curr = next;
                continue;
            }
            let curr_key = curr.deref(gc).value.0;
            if curr_key < key {
                cursor.prev = curr;
                cursor.curr = next;
                prev_next = next;
            } else {
                break curr_key == key;
            }
        };
        if Local::opt_ptr_eq(prev_next.as_ref(), cursor.curr.as_ref()) {
            return Ok((found, cursor));
        }
        cursor
            .prev
            .edge(0)
            .compare_exchange_with_tag(
                (prev_next.as_ref(), 0),
                (cursor.curr.as_ref(), 0),
                guard,
                gc,
            )
            .map_err(|_| ())?;
        Ok((found, cursor))
    }

    /// Unlinks each logically removed node that it meets.
    fn find_harris_michael<'g>(
        &self,
        key: i32,
        guard: &'g Guard,
        gc: &mut Global<Node>,
    ) -> Found<'g> {
        let mut cursor = self.start(guard, gc);
        loop {
            let Some(curr) = cursor.curr else {
                return Ok((false, cursor));
            };
            let (next, next_tag) = curr.edge(0).load_with_tag(guard, gc);
            if next_tag != 0 {
                cursor
                    .prev
                    .edge(0)
                    .compare_exchange(cursor.curr.as_ref(), next.as_ref(), guard, gc)
                    .map_err(|_| ())?;
                cursor.curr = next;
                continue;
            }
            let curr_key = curr.deref(gc).value.0;
            if curr_key < key {
                cursor.prev = curr;
                cursor.curr = next;
            } else {
                return Ok((curr_key == key, cursor));
            }
        }
    }

    /// Walks over logically removed nodes. Does not fail.
    fn find_harris_herlihy_shavit<'g>(
        &self,
        key: i32,
        guard: &'g Guard,
        gc: &mut Global<Node>,
    ) -> Found<'g> {
        let mut cursor = self.start(guard, gc);
        loop {
            let Some(curr) = cursor.curr else {
                return Ok((false, cursor));
            };
            let (next, next_tag) = curr.edge(0).load_with_tag(guard, gc);
            let curr_key = curr.deref(gc).value.0;
            if curr_key < key {
                cursor.prev = curr;
                cursor.curr = next;
            } else {
                return Ok((curr_key == key && next_tag == 0, cursor));
            }
        }
    }

    fn find<'g>(
        &self,
        way: Way,
        key: i32,
        guard: &'g Guard,
        gc: &mut Global<Node>,
    ) -> Found<'g> {
        match way {
            Way::Harris => self.find_harris(key, guard, gc),
            Way::HarrisMichael => self.find_harris_michael(key, guard, gc),
            Way::HarrisHerlihyShavit => self.find_harris_herlihy_shavit(key, guard, gc),
        }
    }

    fn get<'h>(
        &self,
        way: Way,
        key: i32,
        handle: &'h Handle,
        gc: &mut Global<Node>,
    ) -> Option<Local<'h, Handle, Node>> {
        let guard = handle.pin(gc);
        let held = loop {
            if let Ok((found, cursor)) = self.find(way, key, &guard, gc) {
                break if found {
                    Some(cursor.curr.unwrap().protect(handle, gc))
                } else {
                    None
                };
            }
        };
        guard.release(gc);
        held
    }

    fn insert(
        &self,
        way: Way,
        key: i32,
        value: String,
        handle: &Handle,
        gc: &mut Global<Node>,
    ) -> bool {
        let guard = handle.pin(gc);
        let new = Local::new(node(key, value), &guard, gc);
        let inserted = loop {
            let Ok((found, cursor)) = self.find(way, key, &guard, gc) else {
                continue;
            };
            if found {
                break false;
            }
            new.edge(0).store(cursor.curr.as_ref(), &guard, gc);
            let linked = cursor.prev.edge(0).compare_exchange_with_tag(
                (cursor.curr.as_ref(), 0),
                (Some(&new), 0),
                &guard,
                gc,
            );
            if linked.is_ok() {
                break true;
            }
        };
        guard.release(gc);
        inserted
    }

    fn remove<'h>(
        &self,
        way: Way,
        key: i32,
        handle: &'h Handle,
        gc: &mut Global<Node>,
    ) -> Option<Local<'h, Handle, Node>> {
        let guard = handle.pin(gc);
        let held = loop {
            let Ok((found, cursor)) = self.find(way, key, &guard, gc) else {
                continue;
            };
            if !found {
                break None;
            }
            let curr = cursor.curr.unwrap();
            let (next, next_tag) = curr.edge(0).fetch_tag_or(1, &guard, gc);
            if next_tag == 1 {
                continue;
            }
            let _ = cursor.prev.edge(0).compare_exchange_with_tag(
                (cursor.curr.as_ref(), 0),
                (next.as_ref(), next_tag),
                &guard,
                gc,
            );
            break Some(curr.protect(handle, gc));
        };
        guard.release(gc);
        held
    }
}

/// How a list is searched.
#[derive(Clone, Copy)]
enum Way {
    Harris,
    HarrisMichael,
    HarrisHerlihyShavit,
}

/// Lists, of which each key has one, with the ways to read and to write them.
struct ListMap {
    buckets: Vec<List>,
    read: Way,
    write: Way,
}

impl ListMap {
    fn new(count: usize, read: Way, write: Way, handle: &Handle, gc: &mut Global<Node>) -> Self {
        let buckets = (0..count).map(|_| List::new(handle, gc)).collect();
        ListMap {
            buckets,
            read,
            write,
        }
    }

    fn bucket(&self, key: i32) -> &List {
        let mut hasher = DefaultHasher::new();
        key.hash(&mut hasher);
        &self.buckets[hasher.finish() as usize % self.buckets.len()]
    }

    fn get(&self, key: i32, handle: &Handle, gc: &mut Global<Node>) -> Option<String> {
        let held = self.bucket(key).get(self.read, key, handle, gc);
        value_of(held, gc)
    }

    fn insert(&self, key: i32, value: String, handle: &Handle, gc: &mut Global<Node>) -> bool {
        self.bucket(key).insert(self.write, key, value, handle, gc)
    }

    fn remove(&self, key: i32, handle: &Handle, gc: &mut Global<Node>) -> Option<String> {
        let held = self.bucket(key).remove(self.write, key, handle, gc);
        value_of(held, gc)
    }
}

/// The value of a node that is held by a hazard pointer, which is given back.
fn value_of(held: Option<Local<Handle, Node>>, gc: &mut Global<Node>) -> Option<String> {
    held.map(|held| {
        let value = held.deref(gc).value.1.clone();
        held.release(gc);
        value
    })
}

/// A map with a collector of its own.
fn setting(count: usize, read: Way, write: Way) -> (Global<Node>, Handle, ListMap) {
    let mut gc = Global::new(None, true);
    let (handle, _) = gc.register();
    let map = ListMap::new(count, read, write, &handle, &mut gc);
    (gc, handle, map)
}

fn harris() -> (Global<Node>, Handle, ListMap) {
    setting(1, Way::Harris, Way::Harris)
}

fn harris_michael() -> (Global<Node>, Handle, ListMap) {
    setting(1, Way::HarrisMichael, Way::HarrisMichael)
}

fn harris_herlihy_shavit() -> (Global<Node>, Handle, ListMap) {
    setting(1, Way::HarrisHerlihyShavit, Way::Harris)
}

fn hash_map() -> (Global<Node>, Handle, ListMap) {
    setting(30000, Way::HarrisHerlihyShavit, Way::Harris)
}

fn test_basic_operations((mut gc, handle, map): (Global<Node>, Handle, ListMap)) {
    // An empty map.
    assert!(map.get(1, &handle, &mut gc).is_none());
    assert!(map.remove(1, &handle, &mut gc).is_none());
    // Insert and get.
    assert!(map.insert(1, "one".to_string(), &handle, &mut gc));
    assert_eq!(Some("one".to_string()), map.get(1, &handle, &mut gc));
    // A duplicate.
    assert!(!map.insert(1, "one again".to_string(), &handle, &mut gc));
    assert_eq!(Some("one".to_string()), map.get(1, &handle, &mut gc));
    // Remove.
    assert_eq!(Some("one".to_string()), map.remove(1, &handle, &mut gc));
    assert!(map.get(1, &handle, &mut gc).is_none());
    // Remove once more.
    assert!(map.remove(1, &handle, &mut gc).is_none());
    assert!(gc.collect_once(&handle));
    assert!(map.get(1, &handle, &mut gc).is_none());
}

fn test_multiple_elements((mut gc, handle, map): (Global<Node>, Handle, ListMap)) {
    for i in 0..100 {
        assert!(map.insert(i, i.to_string(), &handle, &mut gc));
    }
    for i in 0..100 {
        assert_eq!(Some(i.to_string()), map.get(i, &handle, &mut gc));
    }
    for i in (1..100).step_by(2) {
        assert_eq!(Some(i.to_string()), map.remove(i, &handle, &mut gc));
    }
    assert!(gc.collect_once(&handle));
    for i in 0..100 {
        if i % 2 == 0 {
            assert_eq!(Some(i.to_string()), map.get(i, &handle, &mut gc));
        } else {
            assert!(map.get(i, &handle, &mut gc).is_none());
        }
    }
}

fn test_reverse_order_insert((mut gc, handle, map): (Global<Node>, Handle, ListMap)) {
    for i in (0..100).rev() {
        assert!(map.insert(i, i.to_string(), &handle, &mut gc));
    }
    assert!(gc.collect_once(&handle));
    for i in 0..100 {
        assert_eq!(Some(i.to_string()), map.get(i, &handle, &mut gc));
    }
}

#[test]
fn basic_operations_harris() {
    test_basic_operations(harris());
}

#[test]
fn basic_operations_harris_michael() {
    test_basic_operations(harris_michael());
}

#[test]
fn basic_operations_harris_herlihy_shavit() {
    test_basic_operations(harris_herlihy_shavit());
}

#[test]
fn basic_operations_hash_map() {
    test_basic_operations(hash_map());
}

#[test]
fn multiple_elements_harris() {
    test_multiple_elements(harris());
}

#[test]
fn multiple_elements_harris_michael() {
    test_multiple_elements(harris_michael());
}

#[test]
fn multiple_elements_harris_herlihy_shavit() {
    test_multiple_elements(harris_herlihy_shavit());
}

#[test]
fn multiple_elements_hash_map() {
    test_multiple_elements(hash_map());
}

#[test]
fn reverse_order_insert_harris() {
    test_reverse_order_insert(harris());
}

#[test]
fn reverse_order_insert_harris_michael() {
    test_reverse_order_insert(harris_michael());
}

#[test]
fn reverse_order_insert_harris_herlihy_shavit() {
    test_reverse_order_insert(harris_herlihy_shavit());
}

#[test]
fn reverse_order_insert_hash_map() {
    test_reverse_order_insert(hash_map());
}
