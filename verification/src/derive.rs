//! What code has to be generated to trace a type: which of its fields are managed pointers or
//! hold some, and how to get to them.

use vstd::prelude::*;

verus! {

/// A type, as far as it matters for tracing.
#[derive(Debug, PartialEq, Eq)]
pub enum TypeShape {
    /// A path: its last name and, where it has angle brackets, what stands in them.
    Path(String, Vec<ArgShape>),
    Tuple(Vec<TypeShape>),
    Array(Box<TypeShape>),
    Slice(Box<TypeShape>),
    Reference(Box<TypeShape>),
    Other,
}

/// A generic argument.
#[derive(Debug, PartialEq, Eq)]
pub enum ArgShape {
    Type(TypeShape),
    /// A lifetime or a constant.
    Other,
}

/// How to trace a value.
#[derive(Debug, PartialEq, Eq)]
pub enum Trace {
    /// The value is a managed pointer: the method is called on it.
    Call,
    /// The value is an option: what is in it is traced.
    IfSome(Box<Trace>),
    /// The value is a collection: each of its items is traced.
    ForEach(Box<Trace>),
    /// The value is behind a box.
    Deref(Box<Trace>),
    /// The value is behind a reference.
    Borrow(Box<Trace>),
    /// The value is a result: what is in it is traced, on either side for which there is
    /// something to do. The outer options say which sides there are.
    MatchResult(Option<Option<Box<Trace>>>, Option<Option<Box<Trace>>>),
    /// The value is a tuple: some of its fields are traced.
    Fields(Vec<(usize, Trace)>),
}

fn is_name(ident: &String, name: &str) -> (r: bool)
    ensures
        r == (ident@ == name@),
{
    *ident == name.to_owned()
}

/// What a name stands for, as far as it matters for tracing.
#[derive(Clone, Copy, Debug, PartialEq, Eq, Structural)]
pub enum NameKind {
    Pointer,
    Optional,
    List,
    Boxed,
    Fallible,
    Other,
}

/// What a name stands for.
pub open spec fn kind_of(name: Seq<char>) -> NameKind {
    if name == "Shared"@ || name == "AtomicShared"@ || name == "AtomicSharedOption"@ {
        NameKind::Pointer
    } else if name == "Option"@ {
        NameKind::Optional
    } else if name == "Vec"@ || name == "VecDeque"@ || name == "ArrayVec"@ {
        NameKind::List
    } else if name == "Box"@ || name == "Arc"@ {
        NameKind::Boxed
    } else if name == "Result"@ {
        NameKind::Fallible
    } else {
        NameKind::Other
    }
}

/// What a name stands for.
fn name_kind(ident: &String) -> (r: NameKind)
    ensures
        r == kind_of(ident@),
{
    if is_name(ident, "Shared") || is_name(ident, "AtomicShared") || is_name(
        ident,
        "AtomicSharedOption",
    ) {
        NameKind::Pointer
    } else if is_name(ident, "Option") {
        NameKind::Optional
    } else if is_name(ident, "Vec") || is_name(ident, "VecDeque") || is_name(ident, "ArrayVec") {
        NameKind::List
    } else if is_name(ident, "Box") || is_name(ident, "Arc") {
        NameKind::Boxed
    } else if is_name(ident, "Result") {
        NameKind::Fallible
    } else {
        NameKind::Other
    }
}

/// The generic argument is there and is a type.
pub open spec fn has_type(args: Vec<ArgShape>, i: int) -> bool {
    0 <= i < args.len() && args[i] is Type
}

/// A value, as far as it matters for tracing: where its managed pointers are. What is in a box or
/// behind a reference is the value itself.
pub enum Value {
    /// No managed pointers, or none that can be traced.
    Leaf,
    /// A managed pointer.
    Pointer(u64),
    Absent,
    Present(Box<Value>),
    /// The items of a collection or the fields of a tuple.
    Items(Seq<Value>),
    OkValue(Box<Value>),
    ErrValue(Box<Value>),
}

/// The value is one of the type.
pub open spec fn conforms(ty: TypeShape, v: Value) -> bool
    decreases ty,
{
    match ty {
        TypeShape::Path(ident, args) => match kind_of(ident@) {
            NameKind::Pointer => v is Pointer,
            NameKind::Optional => match v {
                Value::Absent => true,
                Value::Present(x) => if has_type(args, 0) {
                    conforms(args[0]->Type_0, *x)
                } else {
                    *x is Leaf
                },
                _ => false,
            },
            NameKind::List => match v {
                Value::Items(s) => forall|k: int|
                    #![trigger s[k]]
                    0 <= k < s.len() ==> if has_type(args, 0) {
                        conforms(args[0]->Type_0, s[k])
                    } else {
                        s[k] is Leaf
                    },
                _ => false,
            },
            NameKind::Boxed => if has_type(args, 0) {
                conforms(args[0]->Type_0, v)
            } else {
                v is Leaf
            },
            NameKind::Fallible => match v {
                Value::OkValue(x) => if has_type(args, 0) {
                    conforms(args[0]->Type_0, *x)
                } else {
                    *x is Leaf
                },
                Value::ErrValue(x) => if has_type(args, 1) {
                    conforms(args[1]->Type_0, *x)
                } else {
                    *x is Leaf
                },
                _ => false,
            },
            NameKind::Other => v is Leaf,
        },
        TypeShape::Tuple(elems) => match v {
            Value::Items(s) => s.len() == elems.len() && forall|k: int|
                #![trigger s[k]]
                0 <= k < elems.len() ==> conforms(elems[k], s[k]),
            _ => false,
        },
        TypeShape::Array(elem) => match v {
            Value::Items(s) => forall|k: int|
                #![trigger s[k]]
                0 <= k < s.len() ==> conforms(*elem, s[k]),
            _ => false,
        },
        TypeShape::Slice(elem) => match v {
            Value::Items(s) => forall|k: int|
                #![trigger s[k]]
                0 <= k < s.len() ==> conforms(*elem, s[k]),
            _ => false,
        },
        TypeShape::Reference(elem) => conforms(*elem, v),
        TypeShape::Other => v is Leaf,
    }
}

/// The managed pointers in a value, in their order.
pub open spec fn pointers(v: Value) -> Seq<u64>
    decreases v, 0nat,
{
    match v {
        Value::Leaf => Seq::empty(),
        Value::Pointer(p) => seq![p],
        Value::Absent => Seq::empty(),
        Value::Present(x) => pointers(*x),
        Value::Items(s) => pointers_upto(s, s.len()),
        Value::OkValue(x) => pointers(*x),
        Value::ErrValue(x) => pointers(*x),
    }
}

/// The managed pointers in the first values of a sequence.
pub open spec fn pointers_upto(s: Seq<Value>, n: nat) -> Seq<u64>
    decreases s, n,
{
    if n == 0 || n > s.len() {
        Seq::empty()
    } else {
        pointers_upto(s, (n - 1) as nat) + pointers(s[n - 1])
    }
}

/// The pointers that the method is called on when a value is traced, in their order.
pub open spec fn visits(t: Trace, v: Value) -> Seq<u64>
    decreases t, 0nat,
{
    match t {
        Trace::Call => match v {
            Value::Pointer(p) => seq![p],
            _ => Seq::empty(),
        },
        Trace::IfSome(inner) => match v {
            Value::Present(x) => visits(*inner, *x),
            _ => Seq::empty(),
        },
        Trace::ForEach(inner) => match v {
            Value::Items(s) => visits_upto(*inner, s, s.len()),
            _ => Seq::empty(),
        },
        Trace::Deref(inner) => visits(*inner, v),
        Trace::Borrow(inner) => visits(*inner, v),
        Trace::MatchResult(ok, err) => match v {
            Value::OkValue(x) => match ok {
                Some(Some(inner)) => visits(*inner, *x),
                _ => Seq::empty(),
            },
            Value::ErrValue(x) => match err {
                Some(Some(inner)) => visits(*inner, *x),
                _ => Seq::empty(),
            },
            _ => Seq::empty(),
        },
        Trace::Fields(fields) => match v {
            Value::Items(s) => visits_fields(fields, s, fields.len() as nat),
            _ => Seq::empty(),
        },
    }
}

/// The pointers that the method is called on when the first values of a sequence are traced in
/// the same way.
pub open spec fn visits_upto(t: Trace, s: Seq<Value>, n: nat) -> Seq<u64>
    decreases t, n,
{
    if n == 0 || n > s.len() {
        Seq::empty()
    } else {
        visits_upto(t, s, (n - 1) as nat) + visits(t, s[n - 1])
    }
}

/// The pointers that the method is called on when some fields are traced.
pub open spec fn visits_fields(fields: Vec<(usize, Trace)>, s: Seq<Value>, n: nat) -> Seq<u64>
    decreases fields, n,
{
    if n == 0 || n > fields.len() {
        Seq::empty()
    } else {
        visits_fields(fields, s, (n - 1) as nat) + visits(fields[n - 1].1, s[fields[n - 1].0 as int])
    }
}

/// The pointers that are visited, if there is anything to trace.
pub open spec fn visits_opt(t: Option<Trace>, v: Value) -> Seq<u64> {
    match t {
        Some(t) => visits(t, v),
        None => Seq::empty(),
    }
}

/// Code is generated for the type: it has managed pointers that can be got to, or is a result.
pub open spec fn is_traced(ty: TypeShape) -> bool
    decreases ty,
{
    match ty {
        TypeShape::Path(ident, args) => match kind_of(ident@) {
            NameKind::Pointer => true,
            NameKind::Optional => has_type(args, 0) && is_traced(args[0]->Type_0),
            NameKind::List => has_type(args, 0) && is_traced(args[0]->Type_0),
            NameKind::Boxed => has_type(args, 0) && is_traced(args[0]->Type_0),
            NameKind::Fallible => has_type(args, 0) || has_type(args, 1),
            NameKind::Other => false,
        },
        TypeShape::Tuple(elems) => exists|k: int|
            #![trigger elems[k]]
            0 <= k < elems.len() && is_traced(elems[k]),
        TypeShape::Array(elem) => is_traced(*elem),
        TypeShape::Slice(elem) => is_traced(*elem),
        TypeShape::Reference(elem) => is_traced(*elem),
        TypeShape::Other => false,
    }
}

/// The code has the form that the type asks for: a call on a pointer, a test on an option, a loop
/// over a collection, and so on inwards. A result has an arm for each of its types, even where
/// there is nothing to do in it. Of a tuple, the fields that need code have it, in their order.
pub open spec fn has_form(ty: TypeShape, t: Trace) -> bool
    decreases ty,
{
    match ty {
        TypeShape::Path(ident, args) => match kind_of(ident@) {
            NameKind::Pointer => t is Call,
            NameKind::Optional => has_type(args, 0) && (t matches Trace::IfSome(inner) && has_form(
                args[0]->Type_0,
                *inner,
            )),
            NameKind::List => has_type(args, 0) && (t matches Trace::ForEach(inner) && has_form(
                args[0]->Type_0,
                *inner,
            )),
            NameKind::Boxed => has_type(args, 0) && (t matches Trace::Deref(inner) && has_form(
                args[0]->Type_0,
                *inner,
            )),
            NameKind::Fallible => match t {
                Trace::MatchResult(ok, err) => {
                    &&& ok is Some <==> has_type(args, 0)
                    &&& err is Some <==> has_type(args, 1)
                    &&& has_type(args, 0) ==> (ok->Some_0 is Some <==> is_traced(args[0]->Type_0))
                        && (ok->Some_0 is Some ==> has_form(args[0]->Type_0, *ok->Some_0->Some_0))
                    &&& has_type(args, 1) ==> (err->Some_0 is Some <==> is_traced(args[1]->Type_0))
                        && (err->Some_0 is Some ==> has_form(
                        args[1]->Type_0,
                        *err->Some_0->Some_0,
                    ))
                },
                _ => false,
            },
            NameKind::Other => false,
        },
        TypeShape::Tuple(elems) => match t {
            Trace::Fields(fields) => {
                &&& fields.len() > 0
                &&& forall|j: int|
                    #![trigger fields[j]]
                    0 <= j < fields.len() ==> fields[j].0 < elems.len() && is_traced(
                        elems[fields[j].0 as int],
                    ) && has_form(elems[fields[j].0 as int], fields[j].1)
                &&& forall|j: int, k: int|
                    #![trigger fields[j], fields[k]]
                    0 <= j < k < fields.len() ==> fields[j].0 < fields[k].0
                &&& forall|i: int|
                    #![trigger elems[i]]
                    0 <= i < elems.len() && is_traced(elems[i]) ==> exists|j: int|
                        #![trigger fields[j]]
                        0 <= j < fields.len() && fields[j].0 == i
            },
            _ => false,
        },
        TypeShape::Array(elem) => t matches Trace::ForEach(inner) && has_form(*elem, *inner),
        TypeShape::Slice(elem) => t matches Trace::ForEach(inner) && has_form(*elem, *inner),
        TypeShape::Reference(elem) => t matches Trace::Borrow(inner) && has_form(*elem, *inner),
        TypeShape::Other => false,
    }
}

/// The code for a type is right: it is there exactly if it has to be, it has the form that the
/// type asks for, and of every value of the type it visits exactly the managed pointers, each
/// once, in their order.
pub open spec fn traces_type(ty: TypeShape, t: Option<Trace>) -> bool {
    &&& t is Some <==> is_traced(ty)
    &&& t matches Some(t) ==> has_form(ty, t)
    &&& forall|v: Value| #[trigger] conforms(ty, v) ==> visits_opt(t, v) == pointers(v)
}

/// Items that are traced in the same way.
proof fn lemma_items(t: Option<Trace>, s: Seq<Value>, n: nat)
    requires
        n <= s.len(),
        forall|k: int| #![trigger s[k]] 0 <= k < s.len() ==> visits_opt(t, s[k]) == pointers(s[k]),
    ensures
        t matches Some(t) ==> visits_upto(t, s, n) == pointers_upto(s, n),
        t is None ==> pointers_upto(s, n) == Seq::<u64>::empty(),
    decreases n,
{
    if n > 0 {
        lemma_items(t, s, (n - 1) as nat);
        assert(visits_opt(t, s[n - 1]) == pointers(s[n - 1]));
        if t is None {
            assert(pointers_upto(s, n) =~= Seq::<u64>::empty());
        }
    }
}

/// Items whose type is not known are leaves.
proof fn lemma_leaves(s: Seq<Value>, n: nat)
    requires
        n <= s.len(),
        forall|k: int| #![trigger s[k]] 0 <= k < s.len() ==> s[k] is Leaf,
    ensures
        pointers_upto(s, n) == Seq::<u64>::empty(),
    decreases n,
{
    if n > 0 {
        lemma_leaves(s, (n - 1) as nat);
        assert(s[n - 1] is Leaf);
        assert(pointers(s[n - 1]) == Seq::<u64>::empty());
        assert(pointers_upto(s, n) =~= Seq::<u64>::empty());
    }
}

/// The code for an optional value.
pub proof fn lemma_trace_option(ty: TypeShape, ident: String, args: Vec<ArgShape>, t: Option<Trace>)
    requires
        ty == TypeShape::Path(ident, args),
        kind_of(ident@) == NameKind::Optional,
        has_type(args, 0) ==> traces_type(args[0]->Type_0, t),
        !has_type(args, 0) ==> t is None,
    ensures
        t matches Some(inner) ==> traces_type(ty, Some(Trace::IfSome(Box::new(inner)))),
        t is None ==> traces_type(ty, None),
{
    let r = match t {
        Some(inner) => Some(Trace::IfSome(Box::new(inner))),
        None => None,
    };
    assert forall|v: Value| #[trigger] conforms(ty, v) implies visits_opt(r, v) == pointers(v) by {
        match v {
            Value::Present(x) => {
                assert(pointers(v) == pointers(*x));
                if has_type(args, 0) {
                    assert(conforms(args[0]->Type_0, *x));
                }
            },
            _ => {},
        }
    }
}

/// The code for a boxed value.
pub proof fn lemma_trace_boxed(ty: TypeShape, ident: String, args: Vec<ArgShape>, t: Option<Trace>)
    requires
        ty == TypeShape::Path(ident, args),
        kind_of(ident@) == NameKind::Boxed,
        has_type(args, 0) ==> traces_type(args[0]->Type_0, t),
        !has_type(args, 0) ==> t is None,
    ensures
        t matches Some(inner) ==> traces_type(ty, Some(Trace::Deref(Box::new(inner)))),
        t is None ==> traces_type(ty, None),
{
    let r = match t {
        Some(inner) => Some(Trace::Deref(Box::new(inner))),
        None => None,
    };
    assert forall|v: Value| #[trigger] conforms(ty, v) implies visits_opt(r, v) == pointers(v) by {
        if has_type(args, 0) {
            assert(conforms(args[0]->Type_0, v));
        }
    }
}

/// The code for a value behind a reference.
pub proof fn lemma_trace_reference(ty: TypeShape, elem: TypeShape, t: Option<Trace>)
    requires
        ty == TypeShape::Reference(Box::new(elem)),
        traces_type(elem, t),
    ensures
        t matches Some(inner) ==> traces_type(ty, Some(Trace::Borrow(Box::new(inner)))),
        t is None ==> traces_type(ty, None),
{
    let r = match t {
        Some(inner) => Some(Trace::Borrow(Box::new(inner))),
        None => None,
    };
    assert forall|v: Value| #[trigger] conforms(ty, v) implies visits_opt(r, v) == pointers(v) by {
        assert(conforms(elem, v));
    }
}

/// The code for the items of a collection.
pub proof fn lemma_trace_items(ty: TypeShape, elem: Option<TypeShape>, t: Option<Trace>)
    requires
        is_traced(ty) == (elem matches Some(e) && is_traced(e)),
        elem matches Some(e) ==> forall|inner: Trace| #[trigger]
            has_form(e, inner) ==> has_form(ty, Trace::ForEach(Box::new(inner))),
        forall|v: Value| #[trigger]
            conforms(ty, v) ==> v is Items && forall|k: int|
                #![trigger v->Items_0[k]]
                0 <= k < v->Items_0.len() ==> (elem matches Some(e) ==> conforms(
                    e,
                    v->Items_0[k],
                )) && (elem is None ==> v->Items_0[k] is Leaf),
        elem matches Some(e) ==> traces_type(e, t),
        elem is None ==> t is None,
    ensures
        t matches Some(inner) ==> traces_type(ty, Some(Trace::ForEach(Box::new(inner)))),
        t is None ==> traces_type(ty, None),
{
    let r = match t {
        Some(inner) => Some(Trace::ForEach(Box::new(inner))),
        None => None,
    };
    assert forall|v: Value| #[trigger] conforms(ty, v) implies visits_opt(r, v) == pointers(v) by {
        let s = v->Items_0;
        assert(v == Value::Items(s));
        assert(pointers(v) == pointers_upto(s, s.len()));
        match elem {
            Some(e) => {
                assert forall|k: int|
                    #![trigger s[k]]
                    0 <= k < s.len() implies visits_opt(t, s[k]) == pointers(s[k]) by {
                    assert(conforms(e, s[k]));
                }
                lemma_items(t, s, s.len());
            },
            None => {
                lemma_leaves(s, s.len());
            },
        }
    }
}

/// The code for a result.
pub proof fn lemma_trace_result(
    ty: TypeShape,
    ident: String,
    args: Vec<ArgShape>,
    ok: Option<Option<Box<Trace>>>,
    err: Option<Option<Box<Trace>>>,
)
    requires
        ty == TypeShape::Path(ident, args),
        kind_of(ident@) == NameKind::Fallible,
        ok is Some <==> has_type(args, 0),
        err is Some <==> has_type(args, 1),
        ok matches Some(o) ==> traces_type(
            args[0]->Type_0,
            match o {
                Some(inner) => Some(*inner),
                None => None,
            },
        ),
        err matches Some(e) ==> traces_type(
            args[1]->Type_0,
            match e {
                Some(inner) => Some(*inner),
                None => None,
            },
        ),
    ensures
        ok is Some || err is Some ==> traces_type(ty, Some(Trace::MatchResult(ok, err))),
        ok is None && err is None ==> traces_type(ty, None),
{
    let r = if ok is Some || err is Some {
        Some(Trace::MatchResult(ok, err))
    } else {
        None
    };
    assert forall|v: Value| #[trigger] conforms(ty, v) implies visits_opt(r, v) == pointers(v) by {
        match v {
            Value::OkValue(x) => {
                assert(pointers(v) == pointers(*x));
                if has_type(args, 0) {
                    assert(conforms(args[0]->Type_0, *x));
                }
            },
            Value::ErrValue(x) => {
                assert(pointers(v) == pointers(*x));
                if has_type(args, 1) {
                    assert(conforms(args[1]->Type_0, *x));
                }
            },
            _ => {},
        }
    }
}

/// The code to trace a type, if it needs any.
pub fn gen_trace_for_type(ty: &TypeShape) -> (r: Option<Trace>)
    ensures
        traces_type(*ty, r),
    decreases *ty, 2nat,
{
    match ty {
        TypeShape::Path(ident, args) => gen_trace_for_path(ty, ident, args),
        TypeShape::Tuple(elems) => gen_trace_for_tuple(ty, elems),
        TypeShape::Array(elem) => {
            let inner: Option<Trace> = gen_trace_for_type(elem);
            proof {
                lemma_trace_items(*ty, Some(**elem), inner);
            }
            match inner {
                Some(inner) => Some(Trace::ForEach(Box::new(inner))),
                None => None,
            }
        },
        TypeShape::Slice(elem) => {
            let inner: Option<Trace> = gen_trace_for_type(elem);
            proof {
                lemma_trace_items(*ty, Some(**elem), inner);
            }
            match inner {
                Some(inner) => Some(Trace::ForEach(Box::new(inner))),
                None => None,
            }
        },
        TypeShape::Reference(elem) => {
            let inner: Option<Trace> = gen_trace_for_type(elem);
            proof {
                lemma_trace_reference(*ty, **elem, inner);
            }
            match inner {
                Some(inner) => Some(Trace::Borrow(Box::new(inner))),
                None => None,
            }
        },
        TypeShape::Other => None,
    }
}

/// The code to trace the type that is a generic argument, if it is one.
fn gen_trace_for_arg(ty: &TypeShape, ident: &String, args: &Vec<ArgShape>, i: usize) -> (r: Option<
    Option<Trace>,
>)
    requires
        *ty == TypeShape::Path(*ident, *args),
    ensures
        r is Some <==> has_type(*args, i as int),
        r matches Some(t) ==> traces_type(args[i as int]->Type_0, t),
    decreases *ty, 0nat,
{
    if i < args.len() {
        if let ArgShape::Type(inner) = &args[i] {
            proof {
                assert(args[i as int] == ArgShape::Type(*inner));
                assert(decreases_to!(*ty => ty->Path_1));
                assert(decreases_to!(*args => args[i as int]));
                assert(decreases_to!(args[i as int] => args[i as int]->Type_0));
                assert(decreases_to!(*ty => *inner));
            }
            return Some(gen_trace_for_type(inner));
        }
    }
    None
}

/// The code to trace a type that is a path.
fn gen_trace_for_path(ty: &TypeShape, ident: &String, args: &Vec<ArgShape>) -> (r: Option<Trace>)
    requires
        *ty == TypeShape::Path(*ident, *args),
    ensures
        traces_type(*ty, r),
    decreases *ty, 1nat,
{
    match name_kind(ident) {
        NameKind::Pointer => Some(Trace::Call),
        NameKind::Optional => {
            let inner: Option<Trace> = match gen_trace_for_arg(ty, ident, args, 0) {
                Some(inner) => inner,
                None => None,
            };
            proof {
                lemma_trace_option(*ty, *ident, *args, inner);
            }
            match inner {
                Some(inner) => Some(Trace::IfSome(Box::new(inner))),
                None => None,
            }
        },
        NameKind::List => {
            let inner: Option<Trace> = match gen_trace_for_arg(ty, ident, args, 0) {
                Some(inner) => inner,
                None => None,
            };
            proof {
                let elem = if has_type(*args, 0) {
                    Some(args[0]->Type_0)
                } else {
                    None
                };
                lemma_trace_items(*ty, elem, inner);
            }
            match inner {
                Some(inner) => Some(Trace::ForEach(Box::new(inner))),
                None => None,
            }
        },
        NameKind::Boxed => {
            let inner: Option<Trace> = match gen_trace_for_arg(ty, ident, args, 0) {
                Some(inner) => inner,
                None => None,
            };
            proof {
                lemma_trace_boxed(*ty, *ident, *args, inner);
            }
            match inner {
                Some(inner) => Some(Trace::Deref(Box::new(inner))),
                None => None,
            }
        },
        NameKind::Fallible => {
            let ok: Option<Option<Box<Trace>>> = match gen_trace_for_arg(ty, ident, args, 0) {
                Some(Some(inner)) => Some(Some(Box::new(inner))),
                Some(None) => Some(None),
                None => None,
            };
            let err: Option<Option<Box<Trace>>> = match gen_trace_for_arg(ty, ident, args, 1) {
                Some(Some(inner)) => Some(Some(Box::new(inner))),
                Some(None) => Some(None),
                None => None,
            };
            proof {
                lemma_trace_result(*ty, *ident, *args, ok, err);
            }
            if ok.is_some() || err.is_some() {
                Some(Trace::MatchResult(ok, err))
            } else {
                None
            }
        },
        NameKind::Other => None,
    }
}

/// Those of the first fields of a tuple that need code have it, in their order.
spec fn has_form_upto(elems: Vec<TypeShape>, fields: Vec<(usize, Trace)>, n: int) -> bool {
    &&& forall|j: int|
        #![trigger fields[j]]
        0 <= j < fields.len() ==> fields[j].0 < n && fields[j].0 < elems.len() && is_traced(
            elems[fields[j].0 as int],
        ) && has_form(elems[fields[j].0 as int], fields[j].1)
    &&& forall|j: int, k: int|
        #![trigger fields[j], fields[k]]
        0 <= j < k < fields.len() ==> fields[j].0 < fields[k].0
    &&& forall|i: int|
        #![trigger elems[i]]
        0 <= i < n && is_traced(elems[i]) ==> exists|j: int|
            #![trigger fields[j]]
            0 <= j < fields.len() && fields[j].0 == i
}

/// One more field of a tuple needs code.
proof fn lemma_form_push(
    elems: Vec<TypeShape>,
    before: Vec<(usize, Trace)>,
    after: Vec<(usize, Trace)>,
    n: usize,
    t: Trace,
)
    requires
        has_form_upto(elems, before, n as int),
        n < elems.len(),
        is_traced(elems[n as int]),
        has_form(elems[n as int], t),
        after@ == before@.push((n, t)),
    ensures
        has_form_upto(elems, after, n + 1),
{
    assert forall|j: int|
        #![trigger after[j]]
        0 <= j < after.len() implies after[j].0 < n + 1 && after[j].0 < elems.len() && is_traced(
        elems[after[j].0 as int],
    ) && has_form(elems[after[j].0 as int], after[j].1) by {
        if j < before.len() {
            assert(after[j] == before[j]);
        }
    }
    assert forall|j: int, k: int|
        #![trigger after[j], after[k]]
        0 <= j < k < after.len() implies after[j].0 < after[k].0 by {
        assert(after[j] == before[j]);
        if k < before.len() {
            assert(after[k] == before[k]);
        }
    }
    assert forall|i: int|
        #![trigger elems[i]]
        0 <= i < n + 1 && is_traced(elems[i]) implies exists|j: int|
        #![trigger after[j]]
        0 <= j < after.len() && after[j].0 == i by {
        if i < n {
            let j = choose|j: int|
                #![trigger before[j]]
                0 <= j < before.len() && before[j].0 == i;
            assert(after[j] == before[j]);
        } else {
            assert(after[before.len() as int].0 == i);
        }
    }
}

/// The code to trace a tuple.
fn gen_trace_for_tuple(ty: &TypeShape, elems: &Vec<TypeShape>) -> (r: Option<Trace>)
    requires
        *ty == TypeShape::Tuple(*elems),
    ensures
        traces_type(*ty, r),
    decreases *ty, 0nat,
{
    let mut fields: Vec<(usize, Trace)> = Vec::new();
    let mut i: usize = 0;
    while i < elems.len()
        invariant
            *ty == TypeShape::Tuple(*elems),
            i <= elems@.len(),
            has_form_upto(*elems, fields, i as int),
            forall|s: Seq<Value>| #[trigger]
                conforms(*ty, Value::Items(s)) ==> visits_fields(fields, s, fields.len() as nat)
                    == pointers_upto(s, i as nat),
        decreases elems@.len() - i,
    {
        let ghost before = fields;
        let elem: &TypeShape = &elems[i];
        proof {
            assert(*elem == elems[i as int]);
            assert(decreases_to!(*ty => ty->Tuple_0));
            assert(decreases_to!(*elems => elems[i as int]));
            assert(decreases_to!(*ty => *elem));
        }
        match gen_trace_for_type(elem) {
            Some(inner) => {
                fields.push((i, inner));
                proof {
                    lemma_form_push(*elems, before, fields, i, inner);
                    assert forall|s: Seq<Value>| #[trigger]
                        conforms(*ty, Value::Items(s)) implies visits_fields(
                        fields,
                        s,
                        fields.len() as nat,
                    ) == pointers_upto(s, (i + 1) as nat) by {
                        lemma_fields_prefix(before, fields, s, before.len() as nat);
                        assert(s[i as int] == s[i as int]);
                        assert(conforms(elems[i as int], s[i as int]));
                        assert(visits_opt(Some(inner), s[i as int]) == pointers(s[i as int]));
                        assert(fields[before.len() as int] == (i, inner));
                    }
                }
            },
            None => {
                proof {
                    assert forall|s: Seq<Value>| #[trigger]
                        conforms(*ty, Value::Items(s)) implies visits_fields(
                        fields,
                        s,
                        fields.len() as nat,
                    ) == pointers_upto(s, (i + 1) as nat) by {
                        assert(s[i as int] == s[i as int]);
                        assert(conforms(elems[i as int], s[i as int]));
                        assert(visits_opt(None, s[i as int]) == pointers(s[i as int]));
                        assert(pointers_upto(s, (i + 1) as nat) =~= pointers_upto(s, i as nat));
                    }
                }
            },
        }
        i = i + 1;
    }
    proof {
        lemma_trace_tuple(*ty, *elems, fields);
    }
    if fields.len() > 0 {
        Some(Trace::Fields(fields))
    } else {
        None
    }
}

/// The code for a tuple.
proof fn lemma_trace_tuple(ty: TypeShape, elems: Vec<TypeShape>, fields: Vec<(usize, Trace)>)
    requires
        ty == TypeShape::Tuple(elems),
        has_form_upto(elems, fields, elems.len() as int),
        forall|s: Seq<Value>| #[trigger]
            conforms(ty, Value::Items(s)) ==> visits_fields(fields, s, fields.len() as nat)
                == pointers_upto(s, elems.len() as nat),
    ensures
        fields@.len() > 0 ==> traces_type(ty, Some(Trace::Fields(fields))),
        fields@.len() == 0 ==> traces_type(ty, None),
{
    let r = if fields@.len() > 0 {
        Some(Trace::Fields(fields))
    } else {
        None
    };
    assert forall|v: Value| #[trigger] conforms(ty, v) implies visits_opt(r, v) == pointers(v) by {
        let s = v->Items_0;
        assert(v == Value::Items(s));
        assert(conforms(ty, Value::Items(s)));
        assert(s.len() == elems.len());
        assert(pointers(v) == pointers_upto(s, s.len()));
    }
}

/// What the first fields visit does not depend on those that follow.
proof fn lemma_fields_prefix(
    a: Vec<(usize, Trace)>,
    b: Vec<(usize, Trace)>,
    s: Seq<Value>,
    n: nat,
)
    requires
        n <= a.len(),
        a.len() <= b.len(),
        forall|k: int| #![trigger b[k]] 0 <= k < a.len() ==> b[k] == a[k],
    ensures
        visits_fields(b, s, n) == visits_fields(a, s, n),
    decreases n,
{
    if n > 0 {
        lemma_fields_prefix(a, b, s, (n - 1) as nat);
        assert(b[n - 1] == a[n - 1]);
    }
}

// ---- Fields, structs and enums ----

/// The fields of a struct or of a variant.
#[derive(Debug, PartialEq, Eq)]
pub enum FieldsShape {
    Named(Vec<(String, TypeShape)>),
    Unnamed(Vec<TypeShape>),
    Unit,
}

impl FieldsShape {
    /// The number of fields.
    pub open spec fn count(self) -> nat {
        match self {
            FieldsShape::Named(fields) => fields@.len(),
            FieldsShape::Unnamed(fields) => fields@.len(),
            FieldsShape::Unit => 0,
        }
    }

    /// The type of a field.
    pub open spec fn ty(self, i: int) -> TypeShape {
        match self {
            FieldsShape::Named(fields) => fields@[i].1,
            FieldsShape::Unnamed(fields) => fields@[i],
            FieldsShape::Unit => TypeShape::Other,
        }
    }
}

/// How to get to a field.
#[derive(Debug, PartialEq, Eq)]
pub enum Access {
    /// The field of the value itself with the given name.
    OfSelf(String),
    /// The field of the value itself with the given number.
    OfSelfIndex(usize),
    /// What a pattern has bound to the name of the field.
    Bound(String),
    /// What a pattern has bound to a name made of the number of the field.
    BoundIndex(usize),
}

/// The access is the one to the field.
pub open spec fn is_access(fields: FieldsShape, in_variant: bool, i: int, access: Access) -> bool {
    match fields {
        FieldsShape::Named(named) => if in_variant {
            access matches Access::Bound(name) && name@ == named@[i].0@
        } else {
            access matches Access::OfSelf(name) && name@ == named@[i].0@
        },
        FieldsShape::Unnamed(_) => if in_variant {
            access matches Access::BoundIndex(n) && n == i
        } else {
            access matches Access::OfSelfIndex(n) && n == i
        },
        FieldsShape::Unit => false,
    }
}

/// How to trace a field.
#[derive(Debug, PartialEq, Eq)]
pub struct FieldTrace {
    pub index: usize,
    pub access: Access,
    pub trace: Trace,
}

/// The pointers that the method is called on when some fields of a value are traced.
pub open spec fn visits_entries(entries: Seq<FieldTrace>, s: Seq<Value>) -> Seq<u64>
    decreases entries.len(),
{
    if entries.len() == 0 {
        Seq::empty()
    } else {
        visits_entries(entries.drop_last(), s) + visits(
            entries.last().trace,
            s[entries.last().index as int],
        )
    }
}

/// The values are those of the first fields.
pub open spec fn fields_conform(fields: FieldsShape, s: Seq<Value>) -> bool {
    &&& s.len() == fields.count()
    &&& forall|k: int| #![trigger s[k]] 0 <= k < s.len() ==> conforms(fields.ty(k), s[k])
}

/// The code for the first fields is right: there is code for exactly those that need it, in their
/// order and with the right access, and of all values it visits exactly the managed pointers.
pub open spec fn traces_fields(
    fields: FieldsShape,
    in_variant: bool,
    n: int,
    entries: Seq<FieldTrace>,
) -> bool {
    &&& forall|j: int|
        #![trigger entries[j]]
        0 <= j < entries.len() ==> {
            let e = entries[j];
            &&& e.index < n
            &&& is_access(fields, in_variant, e.index as int, e.access)
            &&& traces_type(fields.ty(e.index as int), Some(e.trace))
        }
    &&& forall|j: int, k: int|
        #![trigger entries[j], entries[k]]
        0 <= j < k < entries.len() ==> entries[j].index < entries[k].index
    &&& forall|i: int|
        0 <= i < n && is_traced(#[trigger] fields.ty(i)) ==> exists|j: int|
            #![trigger entries[j]]
            0 <= j < entries.len() && entries[j].index == i
    &&& forall|s: Seq<Value>| #[trigger]
        fields_conform(fields, s) ==> visits_entries(entries, s) == pointers_upto(s, n as nat)
}

/// One more field has been looked at.
proof fn lemma_next_field(
    fields: FieldsShape,
    in_variant: bool,
    i: int,
    before: Seq<FieldTrace>,
    t: Option<Trace>,
    access: Access,
)
    requires
        0 <= i < fields.count(),
        i <= usize::MAX,
        traces_fields(fields, in_variant, i, before),
        traces_type(fields.ty(i), t),
        is_access(fields, in_variant, i, access),
    ensures
        t matches Some(trace) ==> traces_fields(
            fields,
            in_variant,
            i + 1,
            before.push(FieldTrace { index: i as usize, access, trace }),
        ),
        t is None ==> traces_fields(fields, in_variant, i + 1, before),
{
    match t {
        Some(trace) => {
            let e = FieldTrace { index: i as usize, access, trace };
            let after = before.push(e);
            assert forall|k: int|
                0 <= k < i + 1 && is_traced(#[trigger] fields.ty(k)) implies exists|j: int|
                #![trigger after[j]]
                0 <= j < after.len() && after[j].index == k by {
                if k < i {
                    let j = choose|j: int|
                        #![trigger before[j]]
                        0 <= j < before.len() && before[j].index == k;
                    assert(after[j] == before[j]);
                } else {
                    assert(after[before.len() as int].index == k);
                }
            }
            assert forall|j: int, k: int|
                #![trigger after[j], after[k]]
                0 <= j < k < after.len() implies after[j].index < after[k].index by {
                assert(before[j].index < i);
                if k < before.len() {
                    assert(before[j].index < before[k].index);
                }
            }
            assert forall|j: int|
                #![trigger after[j]]
                0 <= j < after.len() implies {
                let e = after[j];
                &&& e.index < i + 1
                &&& is_access(fields, in_variant, e.index as int, e.access)
                &&& traces_type(fields.ty(e.index as int), Some(e.trace))
            } by {
                if j < before.len() {
                    assert(after[j] == before[j]);
                }
            }
            assert forall|s: Seq<Value>| #[trigger]
                fields_conform(fields, s) implies visits_entries(after, s) == pointers_upto(
                s,
                (i + 1) as nat,
            ) by {
                assert(after.drop_last() =~= before);
                assert(conforms(fields.ty(i), s[i]));
                assert(visits_opt(Some(trace), s[i]) == pointers(s[i]));
            }
        },
        None => {
            assert forall|s: Seq<Value>| #[trigger]
                fields_conform(fields, s) implies visits_entries(before, s) == pointers_upto(
                s,
                (i + 1) as nat,
            ) by {
                assert(conforms(fields.ty(i), s[i]));
                assert(visits_opt(None, s[i]) == pointers(s[i]));
                assert(pointers_upto(s, (i + 1) as nat) =~= pointers_upto(s, i as nat));
            }
            assert forall|k: int|
                0 <= k < i + 1 && is_traced(#[trigger] fields.ty(k)) implies exists|j: int|
                #![trigger before[j]]
                0 <= j < before.len() && before[j].index == k by {
                assert(k < i);
            }
        },
    }
}

/// The code to trace the fields of a struct or of a variant.
pub fn gen_fields_trace(fields: &FieldsShape, in_variant: bool) -> (r: Vec<FieldTrace>)
    ensures
        traces_fields(*fields, in_variant, fields.count() as int, r@),
{
    let mut entries: Vec<FieldTrace> = Vec::new();
    match fields {
        FieldsShape::Named(named) => {
            let mut i: usize = 0;
            while i < named.len()
                invariant
                    *fields == FieldsShape::Named(*named),
                    i <= named@.len(),
                    traces_fields(*fields, in_variant, i as int, entries@),
                decreases named@.len() - i,
            {
                let name: String = named[i].0.clone();
                let access: Access = if in_variant {
                    Access::Bound(name)
                } else {
                    Access::OfSelf(name)
                };
                let t: Option<Trace> = gen_trace_for_type(&named[i].1);
                proof {
                    lemma_next_field(*fields, in_variant, i as int, entries@, t, access);
                }
                match t {
                    Some(trace) => {
                        entries.push(FieldTrace { index: i, access, trace });
                    },
                    None => {},
                }
                i = i + 1;
            }
        },
        FieldsShape::Unnamed(types) => {
            let mut i: usize = 0;
            while i < types.len()
                invariant
                    *fields == FieldsShape::Unnamed(*types),
                    i <= types@.len(),
                    traces_fields(*fields, in_variant, i as int, entries@),
                decreases types@.len() - i,
            {
                let access: Access = if in_variant {
                    Access::BoundIndex(i)
                } else {
                    Access::OfSelfIndex(i)
                };
                let t: Option<Trace> = gen_trace_for_type(&types[i]);
                proof {
                    lemma_next_field(*fields, in_variant, i as int, entries@, t, access);
                }
                match t {
                    Some(trace) => {
                        entries.push(FieldTrace { index: i, access, trace });
                    },
                    None => {},
                }
                i = i + 1;
            }
        },
        FieldsShape::Unit => {},
    }
    entries
}

/// A type definition.
#[derive(Debug, PartialEq, Eq)]
pub enum DataShape {
    Struct(FieldsShape),
    /// The variants with their names.
    Enum(Vec<(String, FieldsShape)>),
    Union,
}

/// What a pattern binds in a variant.
#[derive(Debug, PartialEq, Eq)]
pub enum Pattern {
    Named(Vec<String>),
    /// As many names made of numbers.
    Unnamed(usize),
    Unit,
}

/// The pattern binds all fields.
pub open spec fn is_pattern(fields: FieldsShape, pattern: Pattern) -> bool {
    match fields {
        FieldsShape::Named(named) => {
            &&& pattern is Named
            &&& pattern->Named_0@.len() == named@.len()
            &&& forall|i: int|
                #![trigger named@[i]]
                0 <= i < named@.len() ==> pattern->Named_0@[i]@ == named@[i].0@
        },
        FieldsShape::Unnamed(types) => pattern matches Pattern::Unnamed(n) && n == types@.len(),
        FieldsShape::Unit => pattern is Unit,
    }
}

/// How to trace a variant.
#[derive(Debug, PartialEq, Eq)]
pub struct VariantTrace {
    pub name: String,
    pub pattern: Pattern,
    pub fields: Vec<FieldTrace>,
}

/// How to trace a type.
#[derive(Debug, PartialEq, Eq)]
pub enum BodyTrace {
    Struct(Vec<FieldTrace>),
    Enum(Vec<VariantTrace>),
}

/// The code for a type definition is right.
pub open spec fn traces_data(data: DataShape, body: BodyTrace) -> bool {
    match data {
        DataShape::Struct(fields) => body matches BodyTrace::Struct(entries) && traces_fields(
            fields,
            false,
            fields.count() as int,
            entries@,
        ),
        DataShape::Enum(variants) => {
            &&& body is Enum
            &&& body->Enum_0@.len() == variants@.len()
            &&& forall|i: int|
                #![trigger variants@[i]]
                0 <= i < variants@.len() ==> traces_variant(variants@[i], body->Enum_0@[i])
        },
        DataShape::Union => false,
    }
}

/// The code for a variant is right.
pub open spec fn traces_variant(variant: (String, FieldsShape), v: VariantTrace) -> bool {
    &&& v.name@ == variant.0@
    &&& is_pattern(variant.1, v.pattern)
    &&& traces_fields(variant.1, true, variant.1.count() as int, v.fields@)
}

/// The pattern that binds all fields of a variant.
fn gen_pattern(fields: &FieldsShape) -> (r: Pattern)
    ensures
        is_pattern(*fields, r),
{
    match fields {
        FieldsShape::Named(named) => {
            let mut names: Vec<String> = Vec::new();
            let mut i: usize = 0;
            while i < named.len()
                invariant
                    i <= named@.len(),
                    names@.len() == i,
                    forall|k: int| #![trigger named@[k]] 0 <= k < i ==> names@[k]@ == named@[k].0@,
                decreases named@.len() - i,
            {
                names.push(named[i].0.clone());
                i = i + 1;
            }
            Pattern::Named(names)
        },
        FieldsShape::Unnamed(types) => Pattern::Unnamed(types.len()),
        FieldsShape::Unit => Pattern::Unit,
    }
}

/// The code to trace a type definition. A union cannot be traced.
pub fn gen_body(data: &DataShape) -> (r: BodyTrace)
    requires
        !(*data is Union),
    ensures
        traces_data(*data, r),
{
    match data {
        DataShape::Struct(fields) => BodyTrace::Struct(gen_fields_trace(fields, false)),
        DataShape::Enum(variants) => {
            let mut arms: Vec<VariantTrace> = Vec::new();
            let mut i: usize = 0;
            while i < variants.len()
                invariant
                    i <= variants@.len(),
                    arms@.len() == i,
                    forall|k: int|
                        #![trigger variants@[k]]
                        0 <= k < i ==> traces_variant(variants@[k], arms@[k]),
                decreases variants@.len() - i,
            {
                let fields: Vec<FieldTrace> = gen_fields_trace(&variants[i].1, true);
                arms.push(
                    VariantTrace {
                        name: variants[i].0.clone(),
                        pattern: gen_pattern(&variants[i].1),
                        fields,
                    },
                );
                i = i + 1;
            }
            BodyTrace::Enum(arms)
        },
        DataShape::Union => vstd::pervasive::unreached(),
    }
}
} // verus!
