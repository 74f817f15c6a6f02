//! What code is derived for which types, by the names that stand in them.

use crate::derive::{
    conforms, has_form, has_type, is_traced, kind_of, pointers, pointers_upto, traces_data,
    traces_fields, traces_type, traces_variant, visits, visits_fields, visits_opt, visits_upto,
    Access, lemma_trace_boxed, lemma_trace_items, lemma_trace_option, lemma_trace_reference,
    lemma_trace_result, ArgShape, BodyTrace, DataShape, FieldTrace, FieldsShape, NameKind, Pattern,
    Trace, TypeShape, Value,
};
use vstd::prelude::*;

verus! {

/// Names of different lengths or with different first letters are different.
proof fn lemma_names()
    ensures
        "Shared"@.len() == 6 && "Shared"@[0] == 'S',
        "AtomicShared"@.len() == 12,
        "AtomicSharedOption"@.len() == 18,
        "Option"@.len() == 6 && "Option"@[0] == 'O',
        "Vec"@.len() == 3 && "Vec"@[0] == 'V',
        "VecDeque"@.len() == 8 && "VecDeque"@[0] == 'V',
        "ArrayVec"@.len() == 8 && "ArrayVec"@[0] == 'A',
        "Box"@.len() == 3 && "Box"@[0] == 'B',
        "Arc"@.len() == 3 && "Arc"@[0] == 'A',
        "Result"@.len() == 6 && "Result"@[0] == 'R',
{
    reveal_strlit("Shared");
    reveal_strlit("AtomicShared");
    reveal_strlit("AtomicSharedOption");
    reveal_strlit("Option");
    reveal_strlit("Vec");
    reveal_strlit("VecDeque");
    reveal_strlit("ArrayVec");
    reveal_strlit("Box");
    reveal_strlit("Arc");
    reveal_strlit("Result");
}

/// A type whose last name is that of a managed pointer gets a call, whatever its arguments are, and
/// no other path type gets a call. One whose name is none of the ten that are known gets nothing.
pub proof fn law_names_decide(name: String, args: Vec<ArgShape>, r: Option<Trace>)
    requires
        traces_type(TypeShape::Path(name, args), r),
    ensures
        name@ == "Shared"@ || name@ == "AtomicShared"@ || name@ == "AtomicSharedOption"@ <==> r
            == Some(Trace::Call),
        r is Some ==> name@ == "Shared"@ || name@ == "AtomicShared"@ || name@
            == "AtomicSharedOption"@ || name@ == "Option"@ || name@ == "Vec"@ || name@
            == "VecDeque"@ || name@ == "ArrayVec"@ || name@ == "Box"@ || name@ == "Arc"@ || name@
            == "Result"@,
{
    lemma_names();
}

/// An option gets code exactly if what may be in it does: a test, with that code inside. Where no
/// type stands in its brackets, it gets none.
pub proof fn law_options_are_tested(name: String, args: Vec<ArgShape>, r: Option<Trace>)
    requires
        name@ == "Option"@,
        traces_type(TypeShape::Path(name, args), r),
    ensures
        args.len() == 0 || !(args[0] is Type) ==> r is None,
        args.len() > 0 && args[0] is Type ==> {
            &&& r is None ==> traces_type(args[0]->Type_0, None)
            &&& r matches Some(t) ==> (t matches Trace::IfSome(inner) && traces_type(
                args[0]->Type_0,
                Some(*inner),
            ))
        },
{
    lemma_names();
    let ty = TypeShape::Path(name, args);
    if args.len() > 0 && args[0] is Type {
        let elem = args[0]->Type_0;
        assert(has_type(args, 0));
        let q = match r {
            Some(Trace::IfSome(inner)) => Some(*inner),
            _ => None,
        };
        assert forall|v: Value| #[trigger] conforms(elem, v) implies visits_opt(q, v) == pointers(
            v,
        ) by {
            let w = Value::Present(Box::new(v));
            assert(conforms(ty, w));
            assert(visits_opt(r, w) == pointers(w));
        }
        assert(traces_type(elem, q));
    }
}

/// A value is a collection of one item.
spec fn one(v: Value) -> Value {
    Value::Items(seq![v])
}

proof fn lemma_one(t: Trace, v: Value)
    ensures
        pointers(one(v)) == pointers(v),
        visits(Trace::ForEach(Box::new(t)), one(v)) == visits(t, v),
{
    let s = seq![v];
    assert(pointers_upto(s, 1) == pointers_upto(s, 0) + pointers(s[0]));
    assert(pointers_upto(s, 1) =~= pointers(v));
    assert(visits_upto(t, s, 1) == visits_upto(t, s, 0) + visits(t, s[0]));
    assert(visits_upto(t, s, 1) =~= visits(t, v));
}

/// A collection gets code exactly if its items do: a loop, with their code inside. Where no type
/// stands in its brackets, it gets none.
pub proof fn law_collections_are_walked(name: String, args: Vec<ArgShape>, r: Option<Trace>)
    requires
        name@ == "Vec"@ || name@ == "VecDeque"@ || name@ == "ArrayVec"@,
        traces_type(TypeShape::Path(name, args), r),
    ensures
        args.len() == 0 || !(args[0] is Type) ==> r is None,
        args.len() > 0 && args[0] is Type ==> {
            &&& r is None ==> traces_type(args[0]->Type_0, None)
            &&& r matches Some(t) ==> (t matches Trace::ForEach(inner) && traces_type(
                args[0]->Type_0,
                Some(*inner),
            ))
        },
{
    lemma_names();
    let ty = TypeShape::Path(name, args);
    if args.len() > 0 && args[0] is Type {
        let elem = args[0]->Type_0;
        assert(has_type(args, 0));
        let q = match r {
            Some(Trace::ForEach(inner)) => Some(*inner),
            _ => None,
        };
        assert forall|v: Value| #[trigger] conforms(elem, v) implies visits_opt(q, v) == pointers(
            v,
        ) by {
            lemma_item(ty, elem, r, v);
        }
        assert(traces_type(elem, q));
    }
}

/// Of a collection of one item that is walked, the pointers of the item are visited.
proof fn lemma_item(ty: TypeShape, elem: TypeShape, r: Option<Trace>, v: Value)
    requires
        traces_type(ty, r),
        conforms(ty, one(v)) <== conforms(elem, v),
        conforms(elem, v),
        r matches Some(t) ==> t is ForEach,
    ensures
        visits_opt(
            match r {
                Some(Trace::ForEach(inner)) => Some(*inner),
                _ => None,
            },
            v,
        ) == pointers(v),
{
    assert(conforms(ty, one(v)));
    assert(visits_opt(r, one(v)) == pointers(one(v)));
    match r {
        Some(Trace::ForEach(inner)) => {
            lemma_one(*inner, v);
        },
        _ => {
            lemma_one(Trace::Call, v);
        },
    }
}

/// What is in a box is traced through it. Where no type stands in the brackets, or nothing has to
/// be traced in it, there is no code.
pub proof fn law_boxes_are_opened(name: String, args: Vec<ArgShape>, r: Option<Trace>)
    requires
        name@ == "Box"@ || name@ == "Arc"@,
        traces_type(TypeShape::Path(name, args), r),
    ensures
        args.len() == 0 || !(args[0] is Type) ==> r is None,
        args.len() > 0 && args[0] is Type ==> {
            &&& r is None ==> traces_type(args[0]->Type_0, None)
            &&& r matches Some(t) ==> (t matches Trace::Deref(inner) && traces_type(
                args[0]->Type_0,
                Some(*inner),
            ))
        },
{
    lemma_names();
    let ty = TypeShape::Path(name, args);
    if args.len() > 0 && args[0] is Type {
        let elem = args[0]->Type_0;
        assert(has_type(args, 0));
        let q = match r {
            Some(Trace::Deref(inner)) => Some(*inner),
            _ => None,
        };
        assert forall|v: Value| #[trigger] conforms(elem, v) implies visits_opt(q, v) == pointers(
            v,
        ) by {
            assert(conforms(ty, v));
            assert(visits_opt(r, v) == pointers(v));
        }
        assert(traces_type(elem, q));
    }
}

/// A result gets code exactly if a type stands in its brackets: an arm for each of the first two
/// that do, with the code of what is in it, if any.
pub proof fn law_results_are_matched(name: String, args: Vec<ArgShape>, r: Option<Trace>)
    requires
        name@ == "Result"@,
        traces_type(TypeShape::Path(name, args), r),
    ensures
        ({
            let first = args.len() > 0 && args[0] is Type;
            let second = args.len() > 1 && args[1] is Type;
            &&& r is Some <==> first || second
            &&& r matches Some(t) ==> {
                &&& t is MatchResult
                &&& t->MatchResult_0 is Some <==> first
                &&& t->MatchResult_1 is Some <==> second
                &&& first ==> traces_type(
                    args[0]->Type_0,
                    match t->MatchResult_0->Some_0 {
                        Some(inner) => Some(*inner),
                        None => None,
                    },
                )
                &&& second ==> traces_type(
                    args[1]->Type_0,
                    match t->MatchResult_1->Some_0 {
                        Some(inner) => Some(*inner),
                        None => None,
                    },
                )
            }
        }),
{
    lemma_names();
    let ty = TypeShape::Path(name, args);
    if r is Some {
        let t = r->Some_0;
        if args.len() > 0 && args[0] is Type {
            assert(has_type(args, 0));
            let elem = args[0]->Type_0;
            let q = match t->MatchResult_0->Some_0 {
                Some(inner) => Some(*inner),
                None => None,
            };
            assert forall|v: Value| #[trigger] conforms(elem, v) implies visits_opt(q, v)
                == pointers(v) by {
                let w = Value::OkValue(Box::new(v));
                assert(conforms(ty, w));
                assert(visits_opt(r, w) == pointers(w));
            }
            assert(traces_type(elem, q));
        }
        if args.len() > 1 && args[1] is Type {
            assert(has_type(args, 1));
            let elem = args[1]->Type_0;
            let q = match t->MatchResult_1->Some_0 {
                Some(inner) => Some(*inner),
                None => None,
            };
            assert forall|v: Value| #[trigger] conforms(elem, v) implies visits_opt(q, v)
                == pointers(v) by {
                let w = Value::ErrValue(Box::new(v));
                assert(conforms(ty, w));
                assert(visits_opt(r, w) == pointers(w));
            }
            assert(traces_type(elem, q));
        }
    }
}

/// Arrays and slices are walked like collections, what is behind a reference is traced through it,
/// and other types get nothing.
pub proof fn law_other_types(elem: TypeShape, r: Option<Trace>)
    ensures
        traces_type(TypeShape::Array(Box::new(elem)), r) || traces_type(
            TypeShape::Slice(Box::new(elem)),
            r,
        ) ==> {
            &&& r is None ==> traces_type(elem, None)
            &&& r matches Some(t) ==> (t matches Trace::ForEach(inner) && traces_type(
                elem,
                Some(*inner),
            ))
        },
        traces_type(TypeShape::Reference(Box::new(elem)), r) ==> {
            &&& r is None ==> traces_type(elem, None)
            &&& r matches Some(t) ==> (t matches Trace::Borrow(inner) && traces_type(
                elem,
                Some(*inner),
            ))
        },
        traces_type(TypeShape::Other, r) ==> r is None,
{
    let a = TypeShape::Array(Box::new(elem));
    let s = TypeShape::Slice(Box::new(elem));
    let b = TypeShape::Reference(Box::new(elem));
    let q = match r {
        Some(Trace::ForEach(inner)) => Some(*inner),
        _ => None,
    };
    if traces_type(a, r) {
        assert forall|v: Value| #[trigger] conforms(elem, v) implies visits_opt(q, v) == pointers(
            v,
        ) by {
            lemma_item(a, elem, r, v);
        }
        assert(traces_type(elem, q));
    }
    if traces_type(s, r) {
        assert forall|v: Value| #[trigger] conforms(elem, v) implies visits_opt(q, v) == pointers(
            v,
        ) by {
            lemma_item(s, elem, r, v);
        }
        assert(traces_type(elem, q));
    }
    if traces_type(b, r) {
        let p = match r {
            Some(Trace::Borrow(inner)) => Some(*inner),
            _ => None,
        };
        assert forall|v: Value| #[trigger] conforms(elem, v) implies visits_opt(p, v) == pointers(
            v,
        ) by {
            assert(conforms(b, v));
            assert(visits_opt(r, v) == pointers(v));
        }
        assert(traces_type(elem, p));
    }
}

/// So many of the fields are among the first elements of a tuple: these, and no others.
spec fn among_first(fields: Vec<(usize, Trace)>, i: int, m: int) -> bool {
    &&& 0 <= m <= fields.len()
    &&& forall|j: int| #![trigger fields[j]] 0 <= j < m ==> fields[j].0 < i
    &&& forall|j: int| #![trigger fields[j]] m <= j < fields.len() ==> fields[j].0 >= i
}

/// The fields that are among the first elements visit exactly the pointers of these.
proof fn lemma_first_fields(
    elems: Vec<TypeShape>,
    fields: Vec<(usize, Trace)>,
    s: Seq<Value>,
    i: int,
) -> (m: int)
    requires
        has_form(TypeShape::Tuple(elems), Trace::Fields(fields)),
        conforms(TypeShape::Tuple(elems), Value::Items(s)),
        0 <= i <= elems.len(),
        forall|j: int|
            #![trigger fields[j]]
            0 <= j < fields.len() ==> traces_type(
                elems[fields[j].0 as int],
                Some(fields[j].1),
            ),
        forall|k: int|
            #![trigger elems[k]]
            0 <= k < elems.len() && !is_traced(elems[k]) ==> traces_type(elems[k], None),
    ensures
        among_first(fields, i, m),
        visits_fields(fields, s, m as nat) == pointers_upto(s, i as nat),
    decreases i,
{
    if i == 0 {
        0
    } else {
        let m = lemma_first_fields(elems, fields, s, i - 1);
        let k = i - 1;
        assert(s[k] == s[k]);
        assert(conforms(elems[k], s[k]));
        if m < fields.len() && fields[m].0 == k {
            assert forall|j: int| #![trigger fields[j]] m < j < fields.len() implies fields[j].0
                >= i by {
                assert(fields[m].0 < fields[j].0);
            }
            assert(visits_opt(Some(fields[m].1), s[k]) == pointers(s[k]));
            m + 1
        } else {
            if is_traced(elems[k]) {
                let j = choose|j: int|
                    #![trigger fields[j]]
                    0 <= j < fields.len() && fields[j].0 == k;
                assert(j >= m);
                assert(fields[m].0 >= k);
                if m < j {
                    assert(fields[m].0 < fields[j].0);
                }
                assert(false);
            }
            assert(visits_opt(None, s[k]) == pointers(s[k]));
            assert(pointers_upto(s, i as nat) =~= pointers_upto(s, k as nat));
            assert forall|j: int| #![trigger fields[j]] m <= j < fields.len() implies fields[j].0
                >= i by {
                if m < j {
                    assert(fields[m].0 < fields[j].0);
                }
            }
            m
        }
    }
}

/// Code of the form that the type asks for visits, of every value of the type, exactly the managed
/// pointers in it, each once and in their order.
pub proof fn law_the_right_form_traces(ty: TypeShape, r: Option<Trace>)
    requires
        r is Some <==> is_traced(ty),
        r matches Some(t) ==> has_form(ty, t),
    ensures
        traces_type(ty, r),
    decreases ty, 1nat,
{
    lemma_names();
    match ty {
        TypeShape::Path(name, args) => {
            if has_type(args, 0) {
                assert(decreases_to!(ty => ty->Path_1));
                assert(decreases_to!(args => args[0]));
                assert(decreases_to!(args[0] => args[0]->Type_0));
            }
            if has_type(args, 1) {
                assert(decreases_to!(ty => ty->Path_1));
                assert(decreases_to!(args => args[1]));
                assert(decreases_to!(args[1] => args[1]->Type_0));
            }
            match kind_of(name@) {
                NameKind::Optional => {
                    let q = match r {
                        Some(Trace::IfSome(inner)) => Some(*inner),
                        _ => None,
                    };
                    if has_type(args, 0) {
                        law_the_right_form_traces(args[0]->Type_0, q);
                    }
                    lemma_trace_option(ty, name, args, q);
                },
                NameKind::List => {
                    let q = match r {
                        Some(Trace::ForEach(inner)) => Some(*inner),
                        _ => None,
                    };
                    let elem = if has_type(args, 0) {
                        Some(args[0]->Type_0)
                    } else {
                        None
                    };
                    if has_type(args, 0) {
                        law_the_right_form_traces(args[0]->Type_0, q);
                    }
                    lemma_trace_items(ty, elem, q);
                },
                NameKind::Boxed => {
                    let q = match r {
                        Some(Trace::Deref(inner)) => Some(*inner),
                        _ => None,
                    };
                    if has_type(args, 0) {
                        law_the_right_form_traces(args[0]->Type_0, q);
                    }
                    lemma_trace_boxed(ty, name, args, q);
                },
                NameKind::Fallible => {
                    match r {
                        Some(Trace::MatchResult(ok, err)) => {
                            if has_type(args, 0) {
                                law_the_right_form_traces(
                                    args[0]->Type_0,
                                    match ok->Some_0 {
                                        Some(inner) => Some(*inner),
                                        None => None,
                                    },
                                );
                            }
                            if has_type(args, 1) {
                                law_the_right_form_traces(
                                    args[1]->Type_0,
                                    match err->Some_0 {
                                        Some(inner) => Some(*inner),
                                        None => None,
                                    },
                                );
                            }
                            lemma_trace_result(ty, name, args, ok, err);
                        },
                        _ => {
                            lemma_trace_result(ty, name, args, None, None);
                        },
                    }
                },
                _ => {},
            }
        },
        TypeShape::Tuple(elems) => {
            law_tuple_form_traces(ty, elems, r);
        },
        TypeShape::Array(elem) => {
            let q = match r {
                Some(Trace::ForEach(inner)) => Some(*inner),
                _ => None,
            };
            law_the_right_form_traces(*elem, q);
            lemma_trace_items(ty, Some(*elem), q);
        },
        TypeShape::Slice(elem) => {
            let q = match r {
                Some(Trace::ForEach(inner)) => Some(*inner),
                _ => None,
            };
            law_the_right_form_traces(*elem, q);
            lemma_trace_items(ty, Some(*elem), q);
        },
        TypeShape::Reference(elem) => {
            let q = match r {
                Some(Trace::Borrow(inner)) => Some(*inner),
                _ => None,
            };
            law_the_right_form_traces(*elem, q);
            lemma_trace_reference(ty, *elem, q);
        },
        TypeShape::Other => {},
    }
}

/// The same of a tuple.
proof fn law_tuple_form_traces(ty: TypeShape, elems: Vec<TypeShape>, r: Option<Trace>)
    requires
        ty == TypeShape::Tuple(elems),
        r is Some <==> is_traced(ty),
        r matches Some(t) ==> has_form(ty, t),
    ensures
        traces_type(ty, r),
    decreases ty, 0nat,
{
    assert(decreases_to!(ty => ty->Tuple_0));
    assert forall|k: int|
        #![trigger elems[k]]
        0 <= k < elems.len() && !is_traced(elems[k]) implies traces_type(elems[k], None) by {
        assert(decreases_to!(elems => elems[k]));
        law_the_right_form_traces(elems[k], None);
    }
    match r {
        Some(Trace::Fields(fields)) => {
            assert forall|j: int|
                #![trigger fields[j]]
                0 <= j < fields.len() implies traces_type(
                elems[fields[j].0 as int],
                Some(fields[j].1),
            ) by {
                let k = fields[j].0 as int;
                assert(decreases_to!(elems => elems[k]));
                law_the_right_form_traces(elems[k], Some(fields[j].1));
            }
            assert forall|v: Value| #[trigger] conforms(ty, v) implies visits_opt(r, v) == pointers(
                v,
            ) by {
                let s = v->Items_0;
                assert(v == Value::Items(s));
                let m = lemma_first_fields(elems, fields, s, elems.len() as int);
                if m < fields.len() {
                    assert(fields[m].0 >= elems.len());
                }
            }
        },
        _ => {
            assert forall|v: Value| #[trigger] conforms(ty, v) implies visits_opt(r, v) == pointers(
                v,
            ) by {
                let s = v->Items_0;
                assert(v == Value::Items(s));
                lemma_no_pointers(elems, s, elems.len() as int);
            }
        },
    }
}

/// Where no element of a tuple is traced, there are no pointers in it.
proof fn lemma_no_pointers(elems: Vec<TypeShape>, s: Seq<Value>, i: int)
    requires
        conforms(TypeShape::Tuple(elems), Value::Items(s)),
        0 <= i <= elems.len(),
        forall|k: int|
            #![trigger elems[k]]
            0 <= k < elems.len() ==> traces_type(elems[k], None),
    ensures
        pointers_upto(s, i as nat) == Seq::<u64>::empty(),
    decreases i,
{
    if i > 0 {
        lemma_no_pointers(elems, s, i - 1);
        assert(s[i - 1] == s[i - 1]);
        assert(conforms(elems[i - 1], s[i - 1]));
        assert(visits_opt(None, s[i - 1]) == pointers(s[i - 1]));
        assert(pointers_upto(s, i as nat) =~= Seq::<u64>::empty());
    }
}

/// A tuple is traced if one of its elements is.
proof fn lemma_tuple_is_traced(ty: TypeShape, elems: Vec<TypeShape>, i: int)
    requires
        ty == TypeShape::Tuple(elems),
        0 <= i < elems.len(),
        is_traced(elems[i]),
    ensures
        is_traced(ty),
{
    assert(ty->Tuple_0 == elems);
    let inner = ty->Tuple_0;
    assert(is_traced(inner[i]));
}

/// A tuple gets code exactly if one of its elements does: the code of each element that has some,
/// in their order, and nothing for the others.
pub proof fn law_tuples_go_by_their_elements(elems: Vec<TypeShape>, r: Option<Trace>)
    requires
        traces_type(TypeShape::Tuple(elems), r),
    ensures
        r is None ==> forall|i: int|
            #![trigger elems[i]]
            0 <= i < elems.len() ==> traces_type(elems[i], None),
        r matches Some(t) ==> {
            &&& t is Fields
            &&& t->Fields_0.len() > 0
            &&& forall|j: int|
                #![trigger t->Fields_0[j]]
                0 <= j < t->Fields_0.len() ==> t->Fields_0[j].0 < elems.len() && traces_type(
                    elems[t->Fields_0[j].0 as int],
                    Some(t->Fields_0[j].1),
                )
            &&& forall|j: int, k: int|
                #![trigger t->Fields_0[j], t->Fields_0[k]]
                0 <= j < k < t->Fields_0.len() ==> t->Fields_0[j].0 < t->Fields_0[k].0
            &&& forall|i: int|
                #![trigger elems[i]]
                0 <= i < elems.len() && (forall|j: int|
                    0 <= j < t->Fields_0.len() ==> (#[trigger] t->Fields_0[j]).0 != i)
                    ==> traces_type(elems[i], None)
        },
{
    assert forall|i: int|
        #![trigger elems[i]]
        0 <= i < elems.len() && !is_traced(elems[i]) implies traces_type(elems[i], None) by {
        law_the_right_form_traces(elems[i], None);
    }
    if r is None {
        assert forall|i: int| #![trigger elems[i]] 0 <= i < elems.len() implies traces_type(
            elems[i],
            None,
        ) by {
            let ty = TypeShape::Tuple(elems);
            assert(!is_traced(ty));
            if is_traced(elems[i]) {
                lemma_tuple_is_traced(ty, elems, i);
            }
        }
    }
    match r {
        Some(Trace::Fields(fields)) => {
            assert forall|j: int|
                #![trigger fields[j]]
                0 <= j < fields.len() implies fields[j].0 < elems.len() && traces_type(
                elems[fields[j].0 as int],
                Some(fields[j].1),
            ) by {
                law_the_right_form_traces(elems[fields[j].0 as int], Some(fields[j].1));
            }
        },
        _ => {},
    }
}

/// A type definition gets the code of each field that has some, in their order, with the field got
/// at by its own name or number: as a part of the value in a struct, as what the pattern has bound
/// in a variant. Other fields get none.
pub proof fn law_fields_get_their_code(
    fields: FieldsShape,
    in_variant: bool,
    n: int,
    entries: Seq<FieldTrace>,
)
    requires
        traces_fields(fields, in_variant, n, entries),
        fields matches FieldsShape::Named(named) ==> n == named.len(),
        fields matches FieldsShape::Unnamed(types) ==> n == types.len(),
        fields is Unit ==> n == 0,
    ensures
        fields is Unit ==> entries.len() == 0,
        forall|j: int, k: int|
            #![trigger entries[j], entries[k]]
            0 <= j < k < entries.len() ==> entries[j].index < entries[k].index,
        fields matches FieldsShape::Named(named) ==> {
            &&& forall|j: int|
                #![trigger entries[j]]
                0 <= j < entries.len() ==> {
                    let e = entries[j];
                    &&& e.index < named.len()
                    &&& traces_type(named[e.index as int].1, Some(e.trace))
                    &&& in_variant ==> (e.access matches Access::Bound(name) && name@
                        == named[e.index as int].0@)
                    &&& !in_variant ==> (e.access matches Access::OfSelf(name) && name@
                        == named[e.index as int].0@)
                }
            &&& forall|i: int|
                #![trigger named[i]]
                0 <= i < named.len() && (forall|j: int|
                    0 <= j < entries.len() ==> (#[trigger] entries[j]).index != i) ==> traces_type(
                    named[i].1,
                    None,
                )
        },
        fields matches FieldsShape::Unnamed(types) ==> {
            &&& forall|j: int|
                #![trigger entries[j]]
                0 <= j < entries.len() ==> {
                    let e = entries[j];
                    &&& e.index < types.len()
                    &&& traces_type(types[e.index as int], Some(e.trace))
                    &&& in_variant ==> e.access == Access::BoundIndex(e.index)
                    &&& !in_variant ==> e.access == Access::OfSelfIndex(e.index)
                }
            &&& forall|i: int|
                #![trigger types[i]]
                0 <= i < types.len() && (forall|j: int|
                    0 <= j < entries.len() ==> (#[trigger] entries[j]).index != i) ==> traces_type(
                    types[i],
                    None,
                )
        },
{
    assert forall|i: int| 0 <= i < n && !is_traced(#[trigger] fields.ty(i)) implies traces_type(
        fields.ty(i),
        None,
    ) by {
        law_the_right_form_traces(fields.ty(i), None);
    }
    match fields {
        FieldsShape::Named(named) => {
            assert forall|i: int|
                #![trigger named[i]]
                0 <= i < named.len() && (forall|j: int|
                    0 <= j < entries.len() ==> (#[trigger] entries[j]).index != i) implies traces_type(
                named[i].1,
                None,
            ) by {
                assert(fields.ty(i) == named[i].1);
            }
            assert forall|j: int| #![trigger entries[j]] 0 <= j < entries.len() implies traces_type(
                named[entries[j].index as int].1,
                Some(entries[j].trace),
            ) by {
                assert(fields.ty(entries[j].index as int) == named[entries[j].index as int].1);
            }
        },
        FieldsShape::Unnamed(types) => {
            assert forall|i: int|
                #![trigger types[i]]
                0 <= i < types.len() && (forall|j: int|
                    0 <= j < entries.len() ==> (#[trigger] entries[j]).index != i) implies traces_type(
                types[i],
                None,
            ) by {
                assert(fields.ty(i) == types[i]);
            }
            assert forall|j: int| #![trigger entries[j]] 0 <= j < entries.len() implies traces_type(
                types[entries[j].index as int],
                Some(entries[j].trace),
            ) by {
                assert(fields.ty(entries[j].index as int) == types[entries[j].index as int]);
            }
        },
        FieldsShape::Unit => {
            if entries.len() > 0 {
                assert(entries[0].index < 0);
            }
        },
    }
}

/// A struct gets the code of its fields, and an enum an arm for each variant, in their order: with
/// its name, a pattern that binds all its fields, and the code of the fields.
pub proof fn law_definitions_get_their_code(data: DataShape, body: BodyTrace)
    requires
        traces_data(data, body),
    ensures
        !(data is Union),
        data matches DataShape::Struct(fields) ==> body is Struct && traces_fields(
            fields,
            false,
            match fields {
                FieldsShape::Named(named) => named.len() as int,
                FieldsShape::Unnamed(types) => types.len() as int,
                FieldsShape::Unit => 0,
            },
            body->Struct_0@,
        ),
        data matches DataShape::Enum(variants) ==> {
            &&& body is Enum
            &&& body->Enum_0.len() == variants.len()
            &&& forall|i: int|
                #![trigger variants[i]]
                0 <= i < variants.len() ==> {
                    let v = body->Enum_0[i];
                    let fields = variants[i].1;
                    &&& v.name@ == variants[i].0@
                    &&& traces_fields(
                        fields,
                        true,
                        match fields {
                            FieldsShape::Named(named) => named.len() as int,
                            FieldsShape::Unnamed(types) => types.len() as int,
                            FieldsShape::Unit => 0,
                        },
                        v.fields@,
                    )
                    &&& fields matches FieldsShape::Named(named) ==> v.pattern is Named
                        && v.pattern->Named_0.len() == named.len() && forall|k: int|
                        #![trigger named[k]]
                        0 <= k < named.len() ==> v.pattern->Named_0[k]@ == named[k].0@
                    &&& fields matches FieldsShape::Unnamed(types) ==> v.pattern
                        == Pattern::Unnamed(types.len())
                    &&& fields is Unit ==> v.pattern is Unit
                }
        },
{
    match data {
        DataShape::Enum(variants) => {
            assert forall|i: int| #![trigger variants[i]] 0 <= i < variants.len() implies traces_variant(
                variants@[i],
                body->Enum_0@[i],
            ) by {}
        },
        _ => {},
    }
}

} // verus!
