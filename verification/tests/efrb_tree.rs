use cdpt::global::Global;
use cdpt::guards::{Guard, Handle};
use cdpt::pointers::{AtomicShared, AtomicSharedOption, Local};
use cdpt::record::{Field, Record};
use cdpt::trace::LinkKind;

const CLEAN: u64 = 0;
const DFLAG: u64 = 1;
const IFLAG: u64 = 2;
const MARK: u64 = 3;

// The managed pointers of a node.
const UPDATE: usize = 0;
const LEFT: usize = 1;
const RIGHT: usize = 2;

#[derive(Clone, PartialEq, Eq, PartialOrd, Debug)]
enum Key {
    Fin(i32),
    Inf1,
    Inf2,
}

enum Item {
    Node { key: Key, value: Option<String> },
    /// Its pointers are `p`, `new_internal` and `l`.
    Insert,
    /// Its pointers are `gp`, `p`, `l` and, if there is one, `pupdate`.
    Delete,
}

type Object = Record<Item>;
type Ref<'g> = Local<'g, Guard, Object>;

fn internal(key: Key, left: Object, right: Object, guard: &Guard, gc: &mut Global<Object>) -> Object {
    let left = AtomicSharedOption::some(left, guard, gc);
    let right = AtomicSharedOption::some(right, guard, gc);
    Record::new(
        Item::Node { key, value: None },
        vec![AtomicSharedOption::none(), left, right],
    )
}

fn leaf(key: Key, value: Option<String>) -> Object {
    Record::new(
        Item::Node { key, value },
        vec![
            AtomicSharedOption::none(),
            AtomicSharedOption::none(),
            AtomicSharedOption::none(),
        ],
    )
}

fn key_of(node: Ref, gc: &Global<Object>) -> Key {
    match &node.deref(gc).value {
        Item::Node { key, .. } => key.clone(),
        _ => panic!("an update is no node"),
    }
}

fn value_of(node: Ref, gc: &Global<Object>) -> Option<String> {
    match &node.deref(gc).value {
        Item::Node { value, .. } => value.clone(),
        _ => panic!("an update is no node"),
    }
}

/// A pointer of an update, which never changes.
fn part<'g>(op: Ref<'g>, index: usize, guard: &'g Guard, gc: &Global<Object>) -> Ref<'g> {
    assert_eq!(op.edge(index).kind(gc), LinkKind::Fixed);
    op.edge(index).load(guard, gc).unwrap()
}

struct Cursor<'g> {
    gp: Option<Ref<'g>>,
    p: Option<Ref<'g>>,
    l: Ref<'g>,
    pupdate: (Option<Ref<'g>>, u64),
    gpupdate: (Option<Ref<'g>>, u64),
}

impl<'g> Cursor<'g> {
    fn new(root: Ref<'g>) -> Self {
        Cursor {
            gp: None,
            p: None,
            l: root,
            pupdate: (None, 0),
            gpupdate: (None, 0),
        }
    }

    fn search(&mut self, key: i32, guard: &'g Guard, gc: &Global<Object>) {
        while self.l.edge(LEFT).load(guard, gc).is_some() {
            self.gp = self.p;
            self.p = Some(self.l);
            self.gpupdate = self.pupdate;
            self.pupdate = self.l.edge(UPDATE).load_with_tag(guard, gc);
            let side = if key_of(self.l, gc) > Key::Fin(key) { LEFT } else { RIGHT };
            self.l = self.l.edge(side).load(guard, gc).unwrap();
        }
    }
}

struct EfrbTree {
    root: AtomicShared<Object>,
}

impl EfrbTree {
    fn new(handle: &Handle, gc: &mut Global<Object>) -> Self {
        let guard = handle.pin(gc);
        let (left, right) = (leaf(Key::Inf1, None), leaf(Key::Inf2, None));
        let root = internal(Key::Inf2, left, right, &guard, gc);
        let root = AtomicShared::new(root, &guard, gc);
        guard.release(gc);
        EfrbTree { root }
    }

    fn get(&self, key: i32, handle: &Handle, gc: &mut Global<Object>) -> Option<String> {
        let guard = handle.pin(gc);
        let mut cursor = Cursor::new(self.root.load(&guard, gc));
        cursor.search(key, &guard, gc);
        let value = if key_of(cursor.l, gc) == Key::Fin(key) {
            value_of(cursor.l, gc)
        } else {
            None
        };
        guard.release(gc);
        value
    }

    fn insert(&self, key: i32, value: String, handle: &Handle, gc: &mut Global<Object>) -> bool {
        let guard = handle.pin(gc);
        let inserted = loop {
            let mut cursor = Cursor::new(self.root.load(&guard, gc));
            cursor.search(key, &guard, gc);
            let p = cursor.p.unwrap();
            if key_of(cursor.l, gc) == Key::Fin(key) {
                break false;
            }
            if cursor.pupdate.1 != CLEAN {
                self.help(cursor.pupdate.0.unwrap(), cursor.pupdate.1, &guard, gc);
                continue;
            }
            let sibling_key = key_of(cursor.l, gc);
            let new = leaf(Key::Fin(key), Some(value.clone()));
            let sibling = leaf(sibling_key.clone(), value_of(cursor.l, gc));
            let new_internal = if Key::Fin(key) < sibling_key {
                internal(sibling_key, new, sibling, &guard, gc)
            } else {
                internal(Key::Fin(key), sibling, new, &guard, gc)
            };
            let new_internal = Local::new(new_internal, &guard, gc);
            let fields = vec![
                Field::Fixed(p.as_shared(gc)),
                Field::Fixed(new_internal.as_shared(gc)),
                Field::Fixed(cursor.l.as_shared(gc)),
            ];
            let op = Local::new(Record::with_fields(1, Item::Insert, fields), &guard, gc);
            match p.edge(UPDATE).compare_exchange_with_tag(
                (cursor.pupdate.0.as_ref(), cursor.pupdate.1),
                (Some(&op), IFLAG),
                &guard,
                gc,
            ) {
                Ok(_) => {
                    self.help_insert(op, &guard, gc);
                    break true;
                }
                Err((e, tag)) => self.help(e.unwrap(), tag, &guard, gc),
            }
        };
        guard.release(gc);
        inserted
    }

    fn remove(&self, key: i32, handle: &Handle, gc: &mut Global<Object>) -> Option<String> {
        let guard = handle.pin(gc);
        let value = loop {
            let mut cursor = Cursor::new(self.root.load(&guard, gc));
            cursor.search(key, &guard, gc);
            let Some(gp) = cursor.gp else {
                break None;
            };
            if key_of(cursor.l, gc) != Key::Fin(key) {
                break None;
            }
            if cursor.gpupdate.1 != CLEAN {
                self.help(cursor.gpupdate.0.unwrap(), cursor.gpupdate.1, &guard, gc);
                continue;
            }
            if cursor.pupdate.1 != CLEAN {
                self.help(cursor.pupdate.0.unwrap(), cursor.pupdate.1, &guard, gc);
                continue;
            }
            let mut fields = vec![
                Field::Fixed(gp.as_shared(gc)),
                Field::Fixed(cursor.p.unwrap().as_shared(gc)),
                Field::Fixed(cursor.l.as_shared(gc)),
            ];
            if let Some(pupdate) = cursor.pupdate.0 {
                fields.push(Field::Fixed(pupdate.as_shared(gc)));
            }
            let op = Local::new(Record::with_fields(2, Item::Delete, fields), &guard, gc);
            match gp.edge(UPDATE).compare_exchange_with_tag(
                (cursor.gpupdate.0.as_ref(), cursor.gpupdate.1),
                (Some(&op), DFLAG),
                &guard,
                gc,
            ) {
                Ok(_) => {
                    if self.help_delete(op, &guard, gc) {
                        break value_of(cursor.l, gc);
                    }
                }
                Err((e, tag)) => self.help(e.unwrap(), tag, &guard, gc),
            }
        };
        guard.release(gc);
        value
    }

    fn help<'g>(&self, op: Ref<'g>, tag: u64, guard: &'g Guard, gc: &mut Global<Object>) {
        match tag {
            IFLAG => self.help_insert(op, guard, gc),
            MARK => self.help_marked(op, guard, gc),
            DFLAG => {
                self.help_delete(op, guard, gc);
            }
            _ => {}
        }
    }

    fn help_delete<'g>(&self, op: Ref<'g>, guard: &'g Guard, gc: &mut Global<Object>) -> bool {
        assert!(matches!(op.deref(gc).value, Item::Delete));
        let (gp, p) = (part(op, 0, guard, gc), part(op, 1, guard, gc));
        let pupdate = if op.deref(gc).links.len() > 3 {
            Some(part(op, 3, guard, gc))
        } else {
            None
        };
        match p.edge(UPDATE).compare_exchange_with_tag(
            (pupdate.as_ref(), CLEAN),
            (Some(&op), MARK),
            guard,
            gc,
        ) {
            Ok(_) => {
                self.help_marked(op, guard, gc);
                true
            }
            Err((e, tag)) => {
                if Local::opt_ptr_eq(e.as_ref(), Some(&op)) && tag == MARK {
                    self.help_marked(op, guard, gc);
                    return true;
                }
                if let Some(e) = e {
                    self.help(e, tag, guard, gc);
                    let _ = gp.edge(UPDATE).compare_exchange_with_tag(
                        (Some(&op), DFLAG),
                        (Some(&op), CLEAN),
                        guard,
                        gc,
                    );
                }
                false
            }
        }
    }

    fn help_marked<'g>(&self, op: Ref<'g>, guard: &'g Guard, gc: &mut Global<Object>) {
        assert!(matches!(op.deref(gc).value, Item::Delete));
        let gp = part(op, 0, guard, gc);
        let p = part(op, 1, guard, gc);
        let l = part(op, 2, guard, gc);
        let right = p.edge(RIGHT).load(guard, gc);
        let side = if Local::opt_ptr_eq(right.as_ref(), Some(&l)) { LEFT } else { RIGHT };
        let other = p.edge(side).load(guard, gc).unwrap();
        self.cas_child(gp, p, other, guard, gc);
        let _ = gp.edge(UPDATE).compare_exchange_with_tag(
            (Some(&op), DFLAG),
            (Some(&op), CLEAN),
            guard,
            gc,
        );
    }

    fn help_insert<'g>(&self, op: Ref<'g>, guard: &'g Guard, gc: &mut Global<Object>) {
        assert!(matches!(op.deref(gc).value, Item::Insert));
        let p = part(op, 0, guard, gc);
        let new_internal = part(op, 1, guard, gc);
        let l = part(op, 2, guard, gc);
        self.cas_child(p, l, new_internal, guard, gc);
        let _ = p.edge(UPDATE).compare_exchange_with_tag(
            (Some(&op), IFLAG),
            (Some(&op), CLEAN),
            guard,
            gc,
        );
    }

    fn cas_child<'g>(
        &self,
        parent: Ref<'g>,
        old: Ref<'g>,
        new: Ref<'g>,
        guard: &'g Guard,
        gc: &mut Global<Object>,
    ) {
        let side = if key_of(new, gc) < key_of(parent, gc) { LEFT } else { RIGHT };
        let _ = parent.edge(side).compare_exchange(Some(&old), Some(&new), guard, gc);
    }
}

fn setting() -> (Global<Object>, Handle, EfrbTree) {
    let mut gc = Global::new(None, true);
    let (handle, _) = gc.register();
    let tree = EfrbTree::new(&handle, &mut gc);
    (gc, handle, tree)
}

#[test]
fn basic_operations_efrb_tree() {
    let (mut gc, handle, map) = setting();
    // An empty map.
    assert!(map.get(1, &handle, &mut gc).is_none());
    assert!(map.remove(1, &handle, &mut gc).is_none());
    // Insert and get.
    assert!(map.insert(1, "one".to_string(), &handle, &mut gc));
    assert_eq!(Some("one".to_string()), map.get(1, &handle, &mut gc));
    // A duplicate.
    assert!(!map.insert(1, "one again".to_string(), &handle, &mut gc));
    assert_eq!(Some("one".to_string()), map.get(1, &handle, &mut gc));
    // Remove.
    assert_eq!(Some("one".to_string()), map.remove(1, &handle, &mut gc));
    assert!(map.get(1, &handle, &mut gc).is_none());
    // Remove once more.
    assert!(map.remove(1, &handle, &mut gc).is_none());
}

#[test]
fn multiple_elements_efrb_tree() {
    let (mut gc, handle, map) = setting();
    for i in 0..100 {
        assert!(map.insert(i, i.to_string(), &handle, &mut gc));
    }
    for i in 0..100 {
        assert_eq!(Some(i.to_string()), map.get(i, &handle, &mut gc));
    }
    for i in (1..100).step_by(2) {
        assert_eq!(Some(i.to_string()), map.remove(i, &handle, &mut gc));
    }
    assert!(gc.collect_once(&handle));
    for i in 0..100 {
        if i % 2 == 0 {
            assert_eq!(Some(i.to_string()), map.get(i, &handle, &mut gc));
        } else {
            assert!(map.get(i, &handle, &mut gc).is_none());
        }
    }
}

#[test]
fn reverse_order_insert_efrb_tree() {
    let (mut gc, handle, map) = setting();
    for i in (0..100).rev() {
        assert!(map.insert(i, i.to_string(), &handle, &mut gc));
    }
    assert!(gc.collect_once(&handle));
    for i in 0..100 {
        assert_eq!(Some(i.to_string()), map.get(i, &handle, &mut gc));
    }
}
