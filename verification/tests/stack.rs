use cdpt::global::Global;
use cdpt::guards::Handle;
use cdpt::pointers::{AtomicSharedOption, Local};
use cdpt::record::Record;

type Node<T> = Record<T>;

struct Stack<T> {
    top: AtomicSharedOption<Node<T>>,
}

impl<T: Copy> Stack<T> {
    fn new() -> Self {
        Self {
            top: AtomicSharedOption::none(),
        }
    }

    fn pop(&mut self, handle: &Handle, gc: &mut Global<Node<T>>) -> Option<T> {
        let guard = handle.pin(gc);
        let popped = loop {
            let old = self.top.load(&guard, gc);
            let new = match old.as_ref() {
                Some(old) => old.edge(0).load(&guard, gc),
                None => break None,
            };
            if self
                .top
                .compare_exchange(old.as_ref(), new.as_ref(), &guard, gc)
                .is_ok()
            {
                // The item is read through a hazard pointer.
                let kept = old.unwrap().protect(handle, gc);
                let item = kept.deref(gc).value;
                kept.release(gc);
                break Some(item);
            }
        };
        guard.release(gc);
        popped
    }

    fn push(&mut self, item: T, handle: &Handle, gc: &mut Global<Node<T>>) {
        let guard = handle.pin(gc);
        let new = Local::new(
            Record::new(item, vec![AtomicSharedOption::none()]),
            &guard,
            gc,
        );
        loop {
            let old = self.top.load(&guard, gc);
            new.edge(0).store(old.as_ref(), &guard, gc);
            if self
                .top
                .compare_exchange(old.as_ref(), Some(&new), &guard, gc)
                .is_ok()
            {
                break;
            }
        }
        guard.release(gc);
    }

    fn is_empty(&self, handle: &Handle, gc: &mut Global<Node<T>>) -> bool {
        let guard = handle.pin(gc);
        let empty = self.top.load(&guard, gc).is_none();
        guard.release(gc);
        empty
    }
}

fn collector<T>() -> (Global<Node<T>>, Handle) {
    let mut gc = Global::new(Some(16), true);
    let (handle, _) = gc.register();
    (gc, handle)
}

#[test]
fn simple() {
    let (mut gc, handle) = collector();
    let mut stack = Stack::new();
    stack.push(1, &handle, &mut gc);
    stack.push(2, &handle, &mut gc);
    stack.push(3, &handle, &mut gc);
    assert_eq!(Some(3), stack.pop(&handle, &mut gc));
    assert_eq!(Some(2), stack.pop(&handle, &mut gc));
    assert_eq!(Some(1), stack.pop(&handle, &mut gc));
    assert!(stack.pop(&handle, &mut gc).is_none());
}

#[test]
fn empty_stack() {
    let (mut gc, handle) = collector();
    let mut stack: Stack<i32> = Stack::new();

    // Pop from empty stack should return None
    assert!(stack.pop(&handle, &mut gc).is_none());
    assert!(stack.pop(&handle, &mut gc).is_none());
    assert!(stack.is_empty(&handle, &mut gc));
}

#[test]
fn push_pop_single() {
    let (mut gc, handle) = collector();
    let mut stack = Stack::new();

    // Push single element
    stack.push(42, &handle, &mut gc);
    assert!(!stack.is_empty(&handle, &mut gc));

    // Pop single element
    assert_eq!(Some(42), stack.pop(&handle, &mut gc));
    assert!(stack.is_empty(&handle, &mut gc));
    assert!(stack.pop(&handle, &mut gc).is_none());
}

#[test]
fn lifo_order() {
    let (mut gc, handle) = collector();
    let mut stack = Stack::new();

    // Push elements in order 1, 2, 3, 4, 5
    for i in 1..=5 {
        stack.push(i, &handle, &mut gc);
    }

    // Pop should return in reverse order: 5, 4, 3, 2, 1
    for i in (1..=5).rev() {
        assert_eq!(Some(i), stack.pop(&handle, &mut gc));
    }

    assert!(stack.is_empty(&handle, &mut gc));
}

#[test]
fn interleaved_push_pop() {
    let (mut gc, handle) = collector();
    let mut stack = Stack::new();

    stack.push(1, &handle, &mut gc);
    stack.push(2, &handle, &mut gc);
    assert_eq!(Some(2), stack.pop(&handle, &mut gc));

    stack.push(3, &handle, &mut gc);
    assert_eq!(Some(3), stack.pop(&handle, &mut gc));
    assert_eq!(Some(1), stack.pop(&handle, &mut gc));

    assert!(stack.is_empty(&handle, &mut gc));
}

#[test]
fn many_elements() {
    let (mut gc, handle) = collector();
    let mut stack = Stack::new();

    const N: i32 = 1000;

    // Push N elements
    for i in 0..N {
        stack.push(i, &handle, &mut gc);
    }

    // Pop and verify all elements in LIFO order
    for i in (0..N).rev() {
        assert_eq!(Some(i), stack.pop(&handle, &mut gc));
    }

    assert!(stack.is_empty(&handle, &mut gc));
}

#[test]
fn stack_survives_collections() {
    let (mut gc, handle) = collector();
    let mut stack = Stack::new();
    for round in 0..5 {
        for i in 0..100 {
            stack.push(round * 100 + i, &handle, &mut gc);
        }
        for i in (50..100).rev() {
            assert_eq!(Some(round * 100 + i), stack.pop(&handle, &mut gc));
        }
        assert!(gc.collect_once(&handle));
    }
    for round in (0..5).rev() {
        for i in (0..50).rev() {
            assert_eq!(Some(round * 100 + i), stack.pop(&handle, &mut gc));
        }
    }
    assert!(stack.is_empty(&handle, &mut gc));
}
