use cdpt::derive::{
    gen_body, gen_trace_for_type, Access, ArgShape, BodyTrace, DataShape, FieldTrace, FieldsShape,
    Pattern, Trace, TypeShape, VariantTrace,
};
use cdpt::global::Global;
use cdpt::guards::Handle;
use cdpt::pointers::{AtomicShared, AtomicSharedOption, Local, Shared};
use cdpt::record::Record;

fn path(name: &str, args: Vec<TypeShape>) -> TypeShape {
    TypeShape::Path(
        name.to_string(),
        args.into_iter().map(ArgShape::Type).collect(),
    )
}

fn plain(name: &str) -> TypeShape {
    path(name, vec![])
}

fn pointer(name: &str) -> TypeShape {
    path(name, vec![plain("Leaf")])
}

fn named(fields: Vec<(&str, TypeShape)>) -> FieldsShape {
    FieldsShape::Named(
        fields
            .into_iter()
            .map(|(name, ty)| (name.to_string(), ty))
            .collect(),
    )
}

fn of_self(index: usize, name: &str, trace: Trace) -> FieldTrace {
    FieldTrace {
        index,
        access: Access::OfSelf(name.to_string()),
        trace,
    }
}

fn each(trace: Trace) -> Trace {
    Trace::ForEach(Box::new(trace))
}

type Leaf = Record<usize>;

fn leaf(value: usize) -> Leaf {
    Record::new(value, vec![])
}

fn collector<P>() -> (Global<Record<P>>, Handle) {
    let mut gc = Global::new(None, true);
    let (handle, _) = gc.register();
    (gc, handle)
}

// ---- Struct with all pointer types ----

#[test]
fn derive_struct_with_all_pointer_types() {
    let data = DataShape::Struct(named(vec![
        ("shared", pointer("Shared")),
        ("atomic", pointer("AtomicShared")),
        ("atomic_opt", pointer("AtomicSharedOption")),
    ]));
    assert_eq!(
        gen_body(&data),
        BodyTrace::Struct(vec![
            of_self(0, "shared", Trace::Call),
            of_self(1, "atomic", Trace::Call),
            of_self(2, "atomic_opt", Trace::Call),
        ])
    );

    let (mut gc, h) = collector();
    let guard = h.pin(&mut gc);
    let leaf1 = Shared::new(leaf(1), &guard, &mut gc);
    let leaf2 = AtomicShared::new(leaf(2), &guard, &mut gc);
    let leaf3 = AtomicSharedOption::some(leaf(3), &guard, &mut gc);
    let parent = Local::new(
        Record::new(
            0,
            vec![
                AtomicSharedOption::from(leaf1),
                AtomicSharedOption::from(leaf2),
                leaf3,
            ],
        ),
        &guard,
        &mut gc,
    );
    for i in 0..3 {
        let child = parent.edge(i).load(&guard, &gc).unwrap();
        assert_eq!(child.deref(&gc).value, i + 1);
    }
}

// ---- Struct with Option<AtomicSharedOption<T>> ----

#[test]
fn derive_struct_with_option_some() {
    let ty = path("Option", vec![pointer("AtomicSharedOption")]);
    assert_eq!(
        gen_trace_for_type(&ty),
        Some(Trace::IfSome(Box::new(Trace::Call)))
    );
    let (mut gc, h) = collector();
    let guard = h.pin(&mut gc);
    let opt = AtomicSharedOption::some(leaf(42), &guard, &mut gc);
    let s = Local::new(Record::new(0, vec![opt]), &guard, &mut gc);
    assert_eq!(
        s.edge(0).load(&guard, &gc).unwrap().deref(&gc).value,
        42
    );
}

#[test]
fn derive_struct_with_option_none() {
    // An option of something that is not traced is not traced.
    assert_eq!(
        gen_trace_for_type(&path("Option", vec![plain("Leaf")])),
        None
    );
    let (mut gc, h) = collector();
    let guard = h.pin(&mut gc);
    let s = Local::new(leaf(0), &guard, &mut gc);
    assert_eq!(s.deref(&gc).links.len(), 0);
}

// ---- Struct with Vec<Shared<T>> ----

#[test]
fn derive_struct_with_vec() {
    for name in ["Vec", "VecDeque", "ArrayVec"] {
        let ty = path(name, vec![pointer("Shared")]);
        assert_eq!(gen_trace_for_type(&ty), Some(each(Trace::Call)));
    }
    let (mut gc, h) = collector();
    let guard = h.pin(&mut gc);
    let items: Vec<_> = (0..5)
        .map(|i| AtomicSharedOption::from(Shared::new(leaf(i), &guard, &mut gc)))
        .collect();
    let s = Local::new(Record::new(9, items), &guard, &mut gc);
    for i in 0..5 {
        assert_eq!(s.edge(i).load(&guard, &gc).unwrap().deref(&gc).value, i);
    }
}

// ---- Struct with Box<[Shared<T>]> (boxed slice, iterable) ----

#[test]
fn derive_struct_with_boxed_slice() {
    let ty = path("Box", vec![TypeShape::Slice(Box::new(pointer("Shared")))]);
    assert_eq!(
        gen_trace_for_type(&ty),
        Some(Trace::Deref(Box::new(each(Trace::Call))))
    );
}

// ---- Struct with tuple ----

#[test]
fn derive_struct_with_tuple() {
    let ty = TypeShape::Tuple(vec![pointer("Shared"), pointer("Shared")]);
    assert_eq!(
        gen_trace_for_type(&ty),
        Some(Trace::Fields(vec![(0, Trace::Call), (1, Trace::Call)]))
    );
    let mixed = TypeShape::Tuple(vec![plain("u8"), pointer("Shared"), plain("u8")]);
    assert_eq!(
        gen_trace_for_type(&mixed),
        Some(Trace::Fields(vec![(1, Trace::Call)]))
    );
}

// ---- Struct with non-traced fields ----

#[test]
fn derive_struct_with_non_traced_fields() {
    let data = DataShape::Struct(named(vec![
        ("name", plain("String")),
        ("count", plain("usize")),
        ("link", pointer("AtomicSharedOption")),
    ]));
    assert_eq!(
        gen_body(&data),
        BodyTrace::Struct(vec![of_self(2, "link", Trace::Call)])
    );
    let (mut gc, h) = collector();
    let guard = h.pin(&mut gc);
    let link = AtomicSharedOption::some(
        Record::new((String::new(), 7), vec![]),
        &guard,
        &mut gc,
    );
    let s = Local::new(
        Record::new(("hello".to_string(), 42), vec![link]),
        &guard,
        &mut gc,
    );
    assert_eq!(s.deref(&gc).value.0, "hello");
    assert_eq!(s.deref(&gc).value.1, 42);
    assert_eq!(
        s.edge(0).load(&guard, &gc).unwrap().deref(&gc).value.1,
        7
    );
}

// ---- Recursive struct ----

#[test]
fn derive_recursive_struct() {
    let data = DataShape::Struct(named(vec![
        ("value", plain("i32")),
        ("next", path("AtomicSharedOption", vec![plain("Self")])),
    ]));
    assert_eq!(
        gen_body(&data),
        BodyTrace::Struct(vec![of_self(1, "next", Trace::Call)])
    );
    let (mut gc, h) = collector();
    let guard = h.pin(&mut gc);
    let tail = Local::new(
        Record::new(2, vec![AtomicSharedOption::none()]),
        &guard,
        &mut gc,
    );
    let to_tail = AtomicSharedOption::from_local(Some(&tail), &mut gc);
    let head = Local::new(Record::new(1, vec![to_tail]), &guard, &mut gc);

    assert_eq!(head.deref(&gc).value, 1);
    let next = head.edge(0).load(&guard, &gc).unwrap();
    assert_eq!(next.deref(&gc).value, 2);
    assert!(next.edge(0).load(&guard, &gc).is_none());
}

// ---- Generic struct ----

#[test]
fn derive_generic_struct() {
    let (mut gc, h) = collector::<usize>();
    let guard = h.pin(&mut gc);
    let node = Local::new(
        Record::new(42, vec![AtomicSharedOption::none()]),
        &guard,
        &mut gc,
    );
    assert_eq!(node.deref(&gc).value, 42);
    // A type parameter is not traced.
    assert_eq!(gen_trace_for_type(&plain("T")), None);
}

#[test]
fn derive_generic_struct_string() {
    let (mut gc, h) = collector::<String>();
    let guard = h.pin(&mut gc);
    let node = Local::new(
        Record::new("test".to_string(), vec![AtomicSharedOption::none()]),
        &guard,
        &mut gc,
    );
    assert_eq!(node.deref(&gc).value, "test");
}

// ---- Enum ----

fn tree_node() -> DataShape {
    DataShape::Enum(vec![
        ("Leaf".to_string(), named(vec![("_value", plain("i32"))])),
        (
            "Internal".to_string(),
            named(vec![
                ("left", pointer("AtomicSharedOption")),
                ("right", pointer("AtomicSharedOption")),
            ]),
        ),
        ("Empty".to_string(), FieldsShape::Unit),
    ])
}

fn arms(data: &DataShape) -> Vec<VariantTrace> {
    match gen_body(data) {
        BodyTrace::Enum(arms) => arms,
        BodyTrace::Struct(_) => panic!("Expected Enum"),
    }
}

#[test]
fn derive_enum_leaf() {
    let arms = arms(&tree_node());
    assert_eq!(arms.len(), 3);
    assert_eq!(arms[0].name, "Leaf");
    assert_eq!(arms[0].pattern, Pattern::Named(vec!["_value".to_string()]));
    assert!(arms[0].fields.is_empty());
}

#[test]
fn derive_enum_internal() {
    let arms = arms(&tree_node());
    assert_eq!(arms[1].name, "Internal");
    assert_eq!(
        arms[1].pattern,
        Pattern::Named(vec!["left".to_string(), "right".to_string()])
    );
    assert_eq!(
        arms[1].fields,
        vec![
            FieldTrace {
                index: 0,
                access: Access::Bound("left".to_string()),
                trace: Trace::Call,
            },
            FieldTrace {
                index: 1,
                access: Access::Bound("right".to_string()),
                trace: Trace::Call,
            },
        ]
    );
}

#[test]
fn derive_enum_empty() {
    let arms = arms(&tree_node());
    assert_eq!(arms[2].name, "Empty");
    assert_eq!(arms[2].pattern, Pattern::Unit);
    assert!(arms[2].fields.is_empty());
}

// ---- Unnamed (tuple) struct ----

#[test]
fn derive_tuple_struct() {
    let data = DataShape::Struct(FieldsShape::Unnamed(vec![
        plain("usize"),
        pointer("AtomicSharedOption"),
    ]));
    assert_eq!(
        gen_body(&data),
        BodyTrace::Struct(vec![FieldTrace {
            index: 1,
            access: Access::OfSelfIndex(1),
            trace: Trace::Call,
        }])
    );
}

// ---- Unnamed (tuple) enum variants ----

fn tuple_enum() -> DataShape {
    DataShape::Enum(vec![
        (
            "Single".to_string(),
            FieldsShape::Unnamed(vec![pointer("Shared")]),
        ),
        (
            "Pair".to_string(),
            FieldsShape::Unnamed(vec![pointer("Shared"), pointer("Shared")]),
        ),
        ("None".to_string(), FieldsShape::Unit),
    ])
}

fn bound(index: usize) -> FieldTrace {
    FieldTrace {
        index,
        access: Access::BoundIndex(index),
        trace: Trace::Call,
    }
}

#[test]
fn derive_tuple_enum_single() {
    let arms = arms(&tuple_enum());
    assert_eq!(arms[0].pattern, Pattern::Unnamed(1));
    assert_eq!(arms[0].fields, vec![bound(0)]);
}

#[test]
fn derive_tuple_enum_pair() {
    let arms = arms(&tuple_enum());
    assert_eq!(arms[1].pattern, Pattern::Unnamed(2));
    assert_eq!(arms[1].fields, vec![bound(0), bound(1)]);
}

// ---- Box<Shared<T>> (single boxed pointer, deref) ----

#[test]
fn derive_struct_with_boxed_shared() {
    let ty = path("Box", vec![pointer("Shared")]);
    assert_eq!(
        gen_trace_for_type(&ty),
        Some(Trace::Deref(Box::new(Trace::Call)))
    );
}

// ---- Arc<[Shared<T>]> (Arc of slice) ----

#[test]
fn derive_struct_with_arc_slice() {
    let ty = path("Arc", vec![TypeShape::Slice(Box::new(pointer("Shared")))]);
    assert_eq!(
        gen_trace_for_type(&ty),
        Some(Trace::Deref(Box::new(each(Trace::Call))))
    );
}

// ---- Array of Shared ----

#[test]
fn derive_struct_with_array() {
    let ty = TypeShape::Array(Box::new(pointer("Shared")));
    assert_eq!(gen_trace_for_type(&ty), Some(each(Trace::Call)));
    let (mut gc, h) = collector();
    let guard = h.pin(&mut gc);
    let items: Vec<_> = [10, 20, 30]
        .into_iter()
        .map(|v| AtomicSharedOption::from(Shared::new(leaf(v), &guard, &mut gc)))
        .collect();
    let s = Local::new(Record::new(0, items), &guard, &mut gc);
    for (i, v) in [10, 20, 30].into_iter().enumerate() {
        assert_eq!(s.edge(i).load(&guard, &gc).unwrap().deref(&gc).value, v);
    }
}

// ---- Results, references and what is not traced ----

#[test]
fn derive_result_has_both_arms() {
    let ty = path("Result", vec![pointer("Shared"), plain("String")]);
    assert_eq!(
        gen_trace_for_type(&ty),
        Some(Trace::MatchResult(
            Some(Some(Box::new(Trace::Call))),
            Some(None)
        ))
    );
    // The arms are there even where there is nothing to trace.
    let ty = path("Result", vec![plain("u8"), plain("u8")]);
    assert_eq!(
        gen_trace_for_type(&ty),
        Some(Trace::MatchResult(Some(None), Some(None)))
    );
    assert_eq!(gen_trace_for_type(&plain("Result")), None);
}

#[test]
fn derive_reference_is_followed() {
    let ty = TypeShape::Reference(Box::new(pointer("Shared")));
    assert_eq!(
        gen_trace_for_type(&ty),
        Some(Trace::Borrow(Box::new(Trace::Call)))
    );
}

#[test]
fn derive_unknown_types_are_not_traced() {
    assert_eq!(
        gen_trace_for_type(&path("Mutex", vec![pointer("Shared")])),
        None
    );
    assert_eq!(gen_trace_for_type(&TypeShape::Other), None);
    let lifetime = TypeShape::Path(
        "Vec".to_string(),
        vec![ArgShape::Other, ArgShape::Type(pointer("Shared"))],
    );
    assert_eq!(gen_trace_for_type(&lifetime), None);
}
