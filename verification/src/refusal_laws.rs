//! What a refused build is refused for: each error about a body names something that is so, and
//! a body with nothing wrong in it is built.

use vstd::prelude::*;

use crate::building::{
    coerced, constructed, defaults_problem, fields_run, forms_run, is_repeated_name, items_run,
    list_run, no_shallower, overlaid, plain_list_run, struct_run, symbol_run, tuple_run,
    tuple_struct_run, wrapped_list, Body, Env, Nested, PartsRun, Progress,
};
use crate::model::{path_text, Path};
use crate::plan::{Answer, Failure, Query, Stop, Val};
use crate::plan_laws::{law_first_field_of_the_name, law_first_variant_of_the_name};
use crate::registry::{
    entry_of, field_index, is_registered, variant_index, Field, Shape, TypeKey, Variant,
    VariantKind,
};
use crate::span::Span;

verus! {

/// Whether building one of the values inside a body stops with `stop`.
pub open spec fn stops_inside(nested: Nested, ids: Seq<int>, stop: Stop) -> bool {
    exists|at: Progress, k: int, ty: TypeKey|
        0 <= k < ids.len() && (#[trigger] nested(at, ids[k], ty)).1 == Err::<Val, Stop>(stop)
}

/// Whether one of the fields has a type of that path that is not registered.
pub open spec fn has_unregistered(env: Env, fields: Seq<Field>, path: Seq<char>) -> bool {
    exists|i: int|
        0 <= i < fields.len() && (#[trigger] fields[i]).type_path@ == path && !is_registered(
            env.types,
            fields[i].ty,
        )
}

/// Whether one of the fields has the name.
pub open spec fn has_field(fields: Seq<Field>, name: Seq<char>) -> bool {
    exists|i: int| 0 <= i < fields.len() && (#[trigger] fields[i]).name@ == name
}

/// Whether the name stands in two places.
pub open spec fn stands_twice(names: Seq<Seq<char>>, name: Seq<char>) -> bool {
    exists|j: int, k: int|
        0 <= j < k < names.len() && #[trigger] names[j] == name && #[trigger] names[k] == name
}

/// Why the named values of a body are refused.
pub open spec fn fields_cause(
    env: Env,
    fields: Seq<Field>,
    path: Seq<char>,
    names: Seq<Seq<char>>,
    ids: Seq<int>,
    at: Span,
    nested: Nested,
    stop: Stop,
) -> bool {
    ||| stops_inside(nested, ids, stop)
    ||| match stop {
        Stop::Error(Failure::UnknownField { type_path, field, span }) => type_path == path && span
            == at && names.contains(field) && !has_field(fields, field),
        Stop::Error(Failure::DuplicateField { type_path, field, span }) => type_path == path
            && span == at && stands_twice(names, field),
        Stop::Error(Failure::UnregisteredType { type_path, span }) => span == at
            && has_unregistered(env, fields, type_path),
        _ => false,
    }
}

proof fn lemma_fields(
    env: Env,
    at: Progress,
    fields: Seq<Field>,
    path: Seq<char>,
    names: Seq<Seq<char>>,
    ids: Seq<int>,
    k: int,
    span: Span,
    nested: Nested,
)
    requires
        0 <= k <= ids.len(),
        names.len() == ids.len(),
    ensures
        match fields_run(env, at, fields, path, names, ids, k, span, nested).1 {
            Ok(parts) => {
                &&& parts.len() == ids.len() - k
                &&& forall|i: int|
                    k <= i < names.len() ==> has_field(fields, #[trigger] names[i])
                &&& forall|i: int, j: int|
                    0 <= j < i && k <= i < names.len() ==> #[trigger] names[j]
                        != #[trigger] names[i]
            },
            Err(stop) => fields_cause(env, fields, path, names, ids, span, nested, stop),
        },
    decreases ids.len() - k,
{
    if k < ids.len() {
        law_first_field_of_the_name(fields, names[k]);
        assert(names.contains(names[k]));
        if let Some(i) = field_index(fields, names[k]) {
            assert(has_field(fields, names[k]));
            if !is_repeated_name(names, k) {
                if is_registered(env.types, fields[i].ty) {
                    let first = nested(at, ids[k], fields[i].ty);
                    if first.1 is Ok {
                        let next = no_shallower(first.0, at.depth);
                        lemma_fields(env, next, fields, path, names, ids, k + 1, span, nested);
                    }
                } else {
                    assert(has_unregistered(env, fields, fields[i].type_path@));
                }
            }
        }
    }
}

/// A struct is refused for a reason: the type is no struct, a name that no field has, a name that
/// stands twice, a field of a type that is not registered, or what stops a value inside it. What
/// is built has none of these.
pub proof fn law_structs_are_refused_for_a_cause(
    env: Env,
    at: Progress,
    ty: TypeKey,
    names: Seq<Seq<char>>,
    ids: Seq<int>,
    span: Span,
    nested: Nested,
)
    requires
        names.len() == ids.len(),
    ensures
        ({
            let entry = entry_of(env.types, ty);
            match struct_run(env, at, ty, names, ids, span, nested).1 {
                Ok(_) => {
                    &&& entry.shape is Struct
                    &&& names.no_duplicates()
                    &&& forall|i: int|
                        0 <= i < names.len() ==> has_field(
                            entry.shape->Struct_0@,
                            #[trigger] names[i],
                        )
                },
                Err(stop) => if entry.shape is Struct {
                    fields_cause(
                        env,
                        entry.shape->Struct_0@,
                        entry.path@,
                        names,
                        ids,
                        span,
                        nested,
                        stop,
                    )
                } else {
                    stop == Stop::Error(Failure::TypeNotStruct { type_path: entry.path@, span })
                },
            }
        }),
{
    reveal(struct_run);
    let entry = entry_of(env.types, ty);
    if let Shape::Struct(fields) = entry.shape {
        lemma_fields(env, at, fields@, entry.path@, names, ids, 0, span, nested);
    }
}

/// Why the values of a body without names are refused.
pub open spec fn items_cause(
    env: Env,
    fields: Seq<Field>,
    ids: Seq<int>,
    at: Span,
    nested: Nested,
    stop: Stop,
) -> bool {
    ||| stops_inside(nested, ids, stop)
    ||| match stop {
        Stop::Error(Failure::UnregisteredType { type_path, span }) => span == at
            && has_unregistered(env, fields, type_path),
        _ => false,
    }
}

proof fn lemma_items(
    env: Env,
    at: Progress,
    fields: Seq<Field>,
    repeat: bool,
    ids: Seq<int>,
    k: int,
    span: Span,
    nested: Nested,
)
    requires
        0 <= k <= ids.len(),
        if repeat {
            fields.len() > 0
        } else {
            ids.len() <= fields.len()
        },
    ensures
        match items_run(env, at, fields, repeat, ids, k, span, nested).1 {
            Ok(parts) => parts.len() == ids.len() - k,
            Err(stop) => items_cause(env, fields, ids, span, nested, stop),
        },
    decreases ids.len() - k,
{
    if k < ids.len() {
        let i = if repeat {
            0
        } else {
            k
        };
        let field = fields[i];
        if is_registered(env.types, field.ty) {
            let first = nested(at, ids[k], field.ty);
            if first.1 is Ok {
                let next = no_shallower(first.0, at.depth);
                lemma_items(env, next, fields, repeat, ids, k + 1, span, nested);
            }
        } else {
            assert(has_unregistered(env, fields, field.type_path@));
        }
    }
}

/// Whether an error says that a body of `given` values has more than the `most` that fit.
pub open spec fn is_too_many(stop: Stop, path: Seq<char>, given: nat, most: nat, at: Span) -> bool {
    &&& given > most
    &&& stop == Stop::Error(
        Failure::TooManyTupleFields {
            type_path: path,
            given: given as int,
            expected: most as int,
            span: at,
        },
    )
}

/// A tuple struct is refused for a reason: the type is no tuple struct, more values than fields, a
/// field of a type that is not registered, or what stops a value inside it. What is built has no
/// more values than fields.
pub proof fn law_tuple_structs_are_refused_for_a_cause(
    env: Env,
    at: Progress,
    ty: TypeKey,
    ids: Seq<int>,
    span: Span,
    nested: Nested,
)
    ensures
        ({
            let entry = entry_of(env.types, ty);
            match tuple_struct_run(env, at, ty, ids, span, nested).1 {
                Ok(_) => entry.shape is TupleStruct && ids.len()
                    <= entry.shape->TupleStruct_0@.len(),
                Err(stop) => if entry.shape is TupleStruct {
                    let fields = entry.shape->TupleStruct_0@;
                    ||| is_too_many(stop, entry.path@, ids.len(), fields.len(), span)
                    ||| items_cause(env, fields, ids, span, nested, stop)
                } else {
                    stop == Stop::Error(
                        Failure::TypeNotTupleStruct { type_path: entry.path@, span },
                    )
                },
            }
        }),
{
    reveal(tuple_struct_run);
    if let Shape::TupleStruct(fields) = entry_of(env.types, ty).shape {
        if ids.len() <= fields@.len() {
            lemma_items(env, at, fields@, false, ids, 0, span, nested);
        }
    }
}

/// A tuple is refused for a reason: the type is no tuple, more values than positions, a position
/// of a type that is not registered, or what stops a value inside it. What is built has no more
/// values than positions.
pub proof fn law_tuples_are_refused_for_a_cause(
    env: Env,
    at: Progress,
    ty: TypeKey,
    ids: Seq<int>,
    span: Span,
    nested: Nested,
)
    ensures
        ({
            let entry = entry_of(env.types, ty);
            match tuple_run(env, at, ids, ty, span, nested).1 {
                Ok(_) => entry.shape is Tuple && ids.len() <= entry.shape->Tuple_0@.len(),
                Err(stop) => if entry.shape is Tuple {
                    let fields = entry.shape->Tuple_0@;
                    ||| is_too_many(stop, entry.path@, ids.len(), fields.len(), span)
                    ||| items_cause(env, fields, ids, span, nested, stop)
                } else {
                    stop matches Stop::Error(Failure::Mismatch { expected, span: place, .. })
                        && expected == entry.path@ && place == span
                },
            }
        }),
{
    reveal(tuple_run);
    if let Shape::Tuple(fields) = entry_of(env.types, ty).shape {
        if ids.len() <= fields@.len() {
            lemma_items(env, at, fields@, false, ids, 0, span, nested);
        }
    }
}

/// A list for a list type is refused for a reason: items of a type that is not registered, or what
/// stops an item. For another type than a list, or one that wraps a list, it does not fit.
pub proof fn law_lists_are_refused_for_a_cause(
    env: Env,
    at: Progress,
    ty: TypeKey,
    ids: Seq<int>,
    span: Span,
    nested: Nested,
)
    ensures
        ({
            let entry = entry_of(env.types, ty);
            match list_run(env, at, ids, ty, span, nested).1 {
                Ok(_) => entry.shape is List || (entry.shape is TupleStruct
                    && entry.shape->TupleStruct_0@.len() == 1),
                Err(stop) => match entry.shape {
                    Shape::List(item) => items_cause(env, seq![item], ids, span, nested, stop),
                    Shape::TupleStruct(fields) if fields@.len() == 1 && is_registered(
                        env.types,
                        fields@[0].ty,
                    ) && entry_of(env.types, fields@[0].ty).shape is List => items_cause(
                        env,
                        seq![entry_of(env.types, fields@[0].ty).shape->List_0],
                        ids,
                        span,
                        nested,
                        stop,
                    ),
                    _ => stop matches Stop::Error(
                        Failure::Mismatch { expected, span: place, .. },
                    ) && expected == entry.path@ && place == span,
                },
            }
        }),
{
    reveal(list_run);
    lemma_plain_list(env, at, ty, ids, span, nested);
    if let Some(inner) = wrapped_list(env, ty) {
        lemma_plain_list(env, at, inner, ids, span, nested);
    }
}

proof fn lemma_plain_list(
    env: Env,
    at: Progress,
    ty: TypeKey,
    ids: Seq<int>,
    span: Span,
    nested: Nested,
)
    ensures
        ({
            let entry = entry_of(env.types, ty);
            match plain_list_run(env, at, ids, ty, span, nested).1 {
                Ok(_) => entry.shape is List,
                Err(stop) => match entry.shape {
                    Shape::List(item) => items_cause(env, seq![item], ids, span, nested, stop),
                    _ => stop matches Stop::Error(
                        Failure::Mismatch { expected, span: place, .. },
                    ) && expected == entry.path@ && place == span,
                },
            }
        }),
{
    reveal(plain_list_run);
    if let Shape::List(item) = entry_of(env.types, ty).shape {
        let fields = seq![item];
        assert(fields[0] == item);
        if is_registered(env.types, item.ty) {
            lemma_items(env, at, fields, true, ids, 0, span, nested);
        } else {
            assert(has_unregistered(env, fields, item.type_path@));
        }
    }
}

// -- variants -----------------------------------------------------------------------------------

/// Whether one of the fields has a registered type of that path without a default value.
pub open spec fn has_no_default(env: Env, fields: Seq<Field>, path: Seq<char>) -> bool {
    exists|i: int|
        0 <= i < fields.len() && is_registered(env.types, (#[trigger] fields[i]).ty) && !entry_of(
            env.types,
            fields[i].ty,
        ).has_default && entry_of(env.types, fields[i].ty).path@ == path
}

/// Whether one of the answers is that it does not work, for that reason.
pub open spec fn answers_no(env: Env, reason: Seq<char>) -> bool {
    exists|i: int|
        0 <= i < env.answers.len() && (#[trigger] env.answers[i] matches Answer::Failed(r) && r@
            == reason)
}

proof fn lemma_defaults(env: Env, fields: Seq<Field>, k: int, span: Span)
    requires
        0 <= k <= fields.len(),
    ensures
        match defaults_problem(env, fields, k, span) {
            None => forall|i: int|
                k <= i < fields.len() ==> is_registered(env.types, (#[trigger] fields[i]).ty)
                    && entry_of(env.types, fields[i].ty).has_default,
            Some(Stop::Error(Failure::UnregisteredType { type_path, span: place })) => place == span
                && has_unregistered(env, fields, type_path),
            Some(Stop::Error(Failure::MissingDefault { type_path, span: place })) => place == span
                && has_no_default(env, fields, type_path),
            Some(_) => false,
        },
    decreases fields.len() - k,
{
    if k < fields.len() {
        let field = fields[k];
        if !is_registered(env.types, field.ty) {
            assert(has_unregistered(env, fields, field.type_path@));
        } else if !entry_of(env.types, field.ty).has_default {
            assert(has_no_default(env, fields, entry_of(env.types, field.ty).path@));
        } else {
            lemma_defaults(env, fields, k + 1, span);
        }
    }
}

/// Why the values of a variant, all in order, do not make one: a field of a type that is not
/// registered or has no default value, or they do not apply. Unless the answer is still awaited.
pub open spec fn overlay_cause(
    env: Env,
    fields: Seq<Field>,
    path: Seq<char>,
    at: Span,
    stop: Stop,
) -> bool {
    match stop {
        Stop::Ask(_) => true,
        Stop::Error(Failure::UnregisteredType { type_path, span }) => span == at
            && has_unregistered(env, fields, type_path),
        Stop::Error(Failure::MissingDefault { type_path, span }) => span == at && has_no_default(
            env,
            fields,
            type_path,
        ),
        Stop::Error(Failure::ApplyFailed { type_path, error, span }) => span == at && type_path
            == path && answers_no(env, error),
        _ => false,
    }
}

proof fn lemma_overlaid(
    env: Env,
    supplied: PartsRun,
    ty: TypeKey,
    variant: Seq<char>,
    kind: VariantKind,
    fields: Seq<Field>,
    span: Span,
)
    ensures
        match overlaid(env, supplied, ty, variant, kind, fields, span).1 {
            Ok(_) => supplied.1 is Ok && forall|i: int|
                0 <= i < fields.len() ==> is_registered(env.types, (#[trigger] fields[i]).ty)
                    && entry_of(env.types, fields[i].ty).has_default,
            Err(stop) => match supplied.1 {
                Err(inner) => stop == inner,
                Ok(_) => overlay_cause(
                    env,
                    fields,
                    entry_of(env.types, ty).path@ + seq![':', ':'] + variant,
                    span,
                    stop,
                ),
            },
        },
{
    reveal(overlaid);
    lemma_defaults(env, fields, 0, span);
    reveal_strlit("::");
    assert("::"@ =~= seq![':', ':']);
    if supplied.1 is Ok && supplied.0.asked < env.answers.len() {
        let answer = env.answers[supplied.0.asked as int];
        if let Answer::Failed(reason) = answer {
            assert(answers_no(env, reason@));
        }
    }
}

/// Whether one of the variants has the name.
pub open spec fn has_variant(variants: Seq<Variant>, name: Seq<char>) -> bool {
    exists|i: int| 0 <= i < variants.len() && (#[trigger] variants[i]).name@ == name
}

/// Why a body of the kind of a variant is refused for it.
pub open spec fn variant_cause(
    env: Env,
    variant: Variant,
    path: Seq<char>,
    body: Body,
    span: Span,
    nested: Nested,
    stop: Stop,
) -> bool {
    let fields = variant.fields@;
    match (variant.kind, body) {
        (VariantKind::Unit, Body::Unit) => false,
        (VariantKind::Unit, _) => is_too_many(stop, path, 1, 0, span),
        (VariantKind::Struct, Body::Tuple { .. }) => stop == Stop::Error(
            Failure::TypeNotTupleStruct { type_path: path, span },
        ),
        (VariantKind::Tuple, Body::Named { .. }) => stop == Stop::Error(
            Failure::TypeNotStruct { type_path: path, span },
        ),
        (_, Body::Unit) => overlay_cause(env, fields, path, span, stop),
        (_, Body::Named { names, ids }) => {
            ||| fields_cause(env, fields, path, names, ids, span, nested, stop)
            ||| overlay_cause(env, fields, path, span, stop)
        },
        (_, Body::Tuple { ids }) => {
            ||| is_too_many(stop, path, ids.len(), fields.len(), span)
            ||| items_cause(env, fields, ids, span, nested, stop)
            ||| overlay_cause(env, fields, path, span, stop)
        },
    }
}

/// A variant is refused for a reason: the type has no variant of the name, the body is of another
/// kind than the variant, the body has something wrong in it, or a field has no default value.
/// A variant without fields and body is always built.
pub proof fn law_variants_are_refused_for_a_cause(
    env: Env,
    at: Progress,
    ty: TypeKey,
    name: Seq<char>,
    body: Body,
    span: Span,
    nested: Nested,
)
    requires
        body matches Body::Named { names, ids } ==> names.len() == ids.len(),
    ensures
        ({
            let entry = entry_of(env.types, ty);
            let path = entry.path@ + seq![':', ':'] + name;
            match forms_run(env, at, ty, name, body, span, nested).1 {
                Ok(_) => entry.shape is Enum && has_variant(entry.shape->Enum_0@, name),
                Err(stop) => if entry.shape is Enum && has_variant(entry.shape->Enum_0@, name) {
                    exists|i: int|
                        0 <= i < entry.shape->Enum_0@.len() && (
                        #[trigger] entry.shape->Enum_0@[i]).name@ == name && variant_cause(
                            env,
                            entry.shape->Enum_0@[i],
                            path,
                            body,
                            span,
                            nested,
                            stop,
                        )
                } else {
                    stop == Stop::Error(
                        Failure::UnknownVariant { type_path: entry.path@, variant: name, span },
                    )
                },
            }
        }),
{
    reveal(forms_run);
    let entry = entry_of(env.types, ty);
    let path = entry.path@ + seq![':', ':'] + name;
    reveal_strlit("::");
    assert("::"@ =~= seq![':', ':']);
    if let Shape::Enum(list) = entry.shape {
        let variants = list@;
        law_first_variant_of_the_name(variants, name);
        if let Some(i) = variant_index(variants, name) {
            let variant = variants[i];
            let fields = variant.fields@;
            assert(has_variant(variants, name));
            let none: PartsRun = (at, Ok(Seq::empty()));
            match body {
                Body::Unit => {
                    lemma_overlaid(env, none, ty, name, variant.kind, fields, span);
                },
                Body::Named { names, ids } => {
                    let run = fields_run(env, at, fields, path, names, ids, 0, span, nested);
                    lemma_fields(env, at, fields, path, names, ids, 0, span, nested);
                    lemma_overlaid(env, run, ty, name, variant.kind, fields, span);
                },
                Body::Tuple { ids } => {
                    if ids.len() <= fields.len() {
                        let run = items_run(env, at, fields, false, ids, 0, span, nested);
                        lemma_items(env, at, fields, false, ids, 0, span, nested);
                        lemma_overlaid(env, run, ty, name, variant.kind, fields, span);
                    }
                },
            }
            let run = forms_run(env, at, ty, name, body, span, nested);
            if let Err(stop) = run.1 {
                assert(variants[i].name@ == name && variant_cause(
                    env,
                    variants[i],
                    path,
                    body,
                    span,
                    nested,
                    stop,
                ));
            }
        }
    }
}

// -- names and defaults -------------------------------------------------------------------------

/// A path is asked for by its text, and the answer counts: a type that is not registered is
/// refused, and so is a path that names nothing, for the reason given.
pub proof fn law_symbols_are_as_answered(env: Env, at: Progress, path: Path, span: Span)
    ensures
        ({
            let run = symbol_run(env, at, path, span);
            if at.asked >= env.answers.len() {
                run == (
                    at,
                    Err::<(TypeKey, Option<Seq<char>>), Stop>(
                        Stop::Ask(Query::Symbol(path_text(path))),
                    ),
                )
            } else {
                &&& run.0.asked == at.asked + 1
                &&& run.0.depth == at.depth
                &&& run.0.dependencies == at.dependencies
                &&& match env.answers[at.asked as int] {
                    Answer::Symbol(ty, variant) => if is_registered(env.types, ty) {
                        &&& run.1 is Ok
                        &&& run.1->Ok_0.0 == ty
                        &&& run.1->Ok_0.1 is None <==> variant is None
                        &&& variant matches Some(name) ==> run.1->Ok_0.1 == Some(name@)
                    } else {
                        run.1 matches Err(
                            Stop::Error(Failure::UnregisteredType { type_path, span: place }),
                        ) && type_path == path_text(path) && place == span
                    },
                    Answer::Failed(why) => run.1 matches Err(
                        Stop::Error(Failure::UnresolvedSymbol { reason, span: place }),
                    ) && reason == why@ && place == span,
                    Answer::Done => run.1 is Err,
                }
            }
        }),
{
    reveal(symbol_run);
}

/// A type that is named without a body, or with a body for another type, needs a default value:
/// without one it is refused. By its name alone, where it is expected, it is its default value.
pub proof fn law_defaults_are_needed(
    env: Env,
    at: Progress,
    named: TypeKey,
    partial: Option<Val>,
    expected: TypeKey,
    span: Span,
)
    ensures
        ({
            let run = constructed(env, at, named, partial, expected, span);
            let entry = entry_of(env.types, named);
            &&& !entry.has_default ==> run.1 == Err::<Val, Stop>(
                Stop::Error(Failure::MissingDefault { type_path: entry.path@, span }),
            )
            &&& entry.has_default && partial is None && named == expected ==> run == (
                at,
                Ok::<Val, Stop>(Val::Default(named)),
            )
        }),
{
    reveal(constructed);
    reveal(coerced);
}

} // verus!
