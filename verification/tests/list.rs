use cdpt::global::Global;
use cdpt::guards::{Guard, Handle};
use cdpt::pointers::{AtomicShared, AtomicSharedOption, Local};
use cdpt::record::Record;

type Node = Record<(i32, String)>;

/// A sorted list whose nodes are removed logically by a tag before they are unlinked.
struct List {
    head: AtomicShared<Node>,
}

struct Cursor<'g> {
    prev: Local<'g, Guard, Node>,
    curr: Option<Local<'g, Guard, Node>>,
}

fn node(key: i32, value: String) -> Node {
    Record::new((key, value), vec![AtomicSharedOption::none()])
}

impl List {
    fn new(handle: &Handle, gc: &mut Global<Node>) -> Self {
        let guard = handle.pin(gc);
        let head = AtomicShared::new(node(0, String::new()), &guard, gc);
        guard.release(gc);
        List { head }
    }

    /// Cleans up a chain of logically removed nodes in each traversal.
    fn find<'g>(&self, key: i32, guard: &'g Guard, gc: &mut Global<Node>) -> (bool, Cursor<'g>) {
        let prev = self.head.load(guard, gc);
        let curr = prev.edge(0).load(guard, gc);
        let mut cursor = Cursor { prev, curr };
        let mut prev_next = cursor.curr;
        let found = loop {
            let Some(curr) = cursor.curr else {
                break false;
            };
            let (next, next_tag) = curr.edge(0).load_with_tag(guard, gc);
            if next_tag != 0 {
                cursor.curr = next;
                continue;
            }
            let curr_key = curr.deref(gc).value.0;
            if curr_key < key {
                cursor.prev = curr;
                cursor.curr = next;
                prev_next = next;
            } else {
                break curr_key == key;
            }
        };
        if !Local::opt_ptr_eq(prev_next.as_ref(), cursor.curr.as_ref()) {
            let cleaned = cursor.prev.edge(0).compare_exchange_with_tag(
                (prev_next.as_ref(), 0),
                (cursor.curr.as_ref(), 0),
                guard,
                gc,
            );
            assert!(cleaned.is_ok());
        }
        (found, cursor)
    }

    fn get(&self, key: i32, handle: &Handle, gc: &mut Global<Node>) -> Option<String> {
        let guard = handle.pin(gc);
        let (found, cursor) = self.find(key, &guard, gc);
        let value = if found {
            Some(cursor.curr.unwrap().deref(gc).value.1.clone())
        } else {
            None
        };
        guard.release(gc);
        value
    }

    fn insert(&self, key: i32, value: String, handle: &Handle, gc: &mut Global<Node>) -> bool {
        let guard = handle.pin(gc);
        let (found, cursor) = self.find(key, &guard, gc);
        if !found {
            let new = Local::new(node(key, value), &guard, gc);
            new.edge(0).store(cursor.curr.as_ref(), &guard, gc);
            let linked = cursor.prev.edge(0).compare_exchange_with_tag(
                (cursor.curr.as_ref(), 0),
                (Some(&new), 0),
                &guard,
                gc,
            );
            assert!(linked.is_ok());
        }
        guard.release(gc);
        !found
    }

    fn remove(&self, key: i32, handle: &Handle, gc: &mut Global<Node>) -> Option<String> {
        let guard = handle.pin(gc);
        let (found, cursor) = self.find(key, &guard, gc);
        let value = if found {
            let curr = cursor.curr.unwrap();
            let (next, next_tag) = curr.edge(0).fetch_tag_or(1, &guard, gc);
            assert_eq!(next_tag, 0);
            // Every other node is left for a later traversal to unlink.
            if key % 2 == 0 {
                let unlinked = cursor.prev.edge(0).compare_exchange_with_tag(
                    (cursor.curr.as_ref(), 0),
                    (next.as_ref(), next_tag),
                    &guard,
                    gc,
                );
                assert!(unlinked.is_ok());
            }
            Some(curr.deref(gc).value.1.clone())
        } else {
            None
        };
        guard.release(gc);
        value
    }
}

#[test]
fn harris_list_smoke() {
    const ROUNDS: i32 = 6;
    const ELEMENTS: i32 = 50;

    let mut gc = Global::new(None, true);
    let (handle, _) = gc.register();
    let list = List::new(&handle, &mut gc);

    for t in 0..ROUNDS {
        let mut keys: Vec<i32> = (0..ELEMENTS).map(|k| k * ROUNDS + t).collect();
        fastrand::shuffle(&mut keys);
        for i in keys {
            assert!(list.insert(i, i.to_string(), &handle, &mut gc));
            assert!(!list.insert(i, String::new(), &handle, &mut gc));
        }
        assert!(gc.collect_once(&handle));
    }
    for t in 0..(ROUNDS / 2) {
        let mut keys: Vec<i32> = (0..ELEMENTS).map(|k| k * ROUNDS + t).collect();
        fastrand::shuffle(&mut keys);
        for i in keys {
            assert_eq!(Some(i.to_string()), list.remove(i, &handle, &mut gc));
            assert_eq!(None, list.remove(i, &handle, &mut gc));
        }
        assert!(gc.collect_once(&handle));
    }
    for t in (ROUNDS / 2)..ROUNDS {
        for k in 0..ELEMENTS {
            let i = k * ROUNDS + t;
            assert_eq!(Some(i.to_string()), list.get(i, &handle, &mut gc));
        }
    }
    for t in 0..(ROUNDS / 2) {
        assert_eq!(None, list.get(t, &handle, &mut gc));
    }
    // What has been unlinked is reclaimed: the head and half of the nodes are left.
    assert_eq!(list.get(ROUNDS * ELEMENTS, &handle, &mut gc), None);
    assert!(gc.collect_once(&handle));
    let live = gc.heap.slots.iter().filter(|slot| slot.is_some()).count();
    assert_eq!(live as i32, 1 + ELEMENTS * ROUNDS / 2);
}

#[test]
fn tags_live_in_pointers() {
    let mut gc = Global::new(None, true);
    let (handle, _) = gc.register();
    let guard = handle.pin(&mut gc);
    let mut cell = AtomicSharedOption::some(node(1, "a".to_string()), &guard, &mut gc);
    assert_eq!(cell.fetch_tag_or(5, &guard).1, 0);
    assert_eq!(cell.fetch_tag_xor(4, &guard).1, 5);
    let (before, tag) = cell.fetch_tag_and(6, &guard);
    assert_eq!(tag, 1);
    // Only the tag is affected.
    let (after, tag) = cell.load_with_tag(&guard, &gc);
    assert_eq!(tag, 0);
    assert!(Local::opt_ptr_eq(before.as_ref(), after.as_ref()));
    assert_eq!(after.unwrap().deref(&gc).value.0, 1);

    // A tag counts in a conditional replacement.
    let current = cell.load(&guard, &gc);
    let new = Local::new(node(2, "b".to_string()), &guard, &mut gc);
    let r = cell.compare_exchange_with_tag((current.as_ref(), 1), (Some(&new), 2), &guard, &mut gc);
    assert!(r.is_err());
    let r = cell.compare_exchange_with_tag((current.as_ref(), 0), (Some(&new), 2), &guard, &mut gc);
    assert!(r.is_ok());
    let (loaded, tag) = cell.load_with_tag(&guard, &gc);
    assert_eq!(tag, 2);
    assert_eq!(loaded.unwrap().deref(&gc).value.0, 2);
    let r = cell.compare_exchange_weak_with_tag(
        (Some(&new), 2),
        (None::<&Local<Guard, Node>>, 3),
        &guard,
        &mut gc,
    );
    assert!(r.is_ok());
    assert!(cell.load(&guard, &gc).is_none());
    assert_eq!(cell.load_with_tag(&guard, &gc).1, 3);
}
