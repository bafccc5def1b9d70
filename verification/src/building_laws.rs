//! What holds of building values in general.

use vstd::prelude::*;

use crate::ast::last_ident;
use crate::building::{
    bool_value, coerced, constructed, defaults_problem, direct_run, entity_ref_value, fields_run,
    finished, float_value, forms_run, full_form, int_value, is_repeated_name, items_run,
    lemma_value_run, list_run, named_run, no_shallower, overlaid, path_of, plain_list_run,
    registered, room, string_value, struct_run, symbol_run, tuple_run, tuple_struct_run,
    unit_value, value_run, value_step, values_of, wrapped_list, Body, Env, Nested, PartsRun,
    Progress, Run,
};
use crate::model::{Head, Path, Value};
use crate::plan::{default_slots, variant_path, PartModel, Stop, Val, VariantModel};
use crate::registry::{
    entry_of, field_index, is_registered, variant_index, Field, Shape, TypeKey, Variant,
    VariantKind,
};
use crate::span::Span;

verus! {

// -- questions and answers ----------------------------------------------------------------------

/// Whether `more` is `env` with further answers.
pub open spec fn extends(env: Env, more: Env) -> bool {
    &&& more == (Env { answers: more.answers, ..env })
    &&& env.answers.len() <= more.answers.len()
    &&& env.answers == more.answers.take(env.answers.len() as int)
}

/// Whether a run stopped at a question.
pub open spec fn asks<T>(r: Result<T, Stop>) -> bool {
    r matches Err(Stop::Ask(_))
}

/// Whether `g` gives what `f` gives wherever `f` does not stop at a question.
spec fn steady(depth: nat, f: Nested, g: Nested) -> bool {
    forall|at: Progress, id: int, ty: TypeKey|
        at.depth >= depth && !asks((#[trigger] f(at, id, ty)).1) ==> g(at, id, ty) == f(at, id, ty)
}

proof fn lemma_literal_steady(
    env: Env,
    more: Env,
    at: Progress,
    value: Value,
    expected: TypeKey,
    nested: Nested,
    other: Nested,
)
    requires
        extends(env, more),
        match value.head {
            Head::Path(_) | Head::Tuple | Head::List | Head::Struct(_) | Head::NamedTuple(_) => false,
            _ => true,
        },
        !asks(direct_run(env, at, value, expected, nested).1),
    ensures
        direct_run(more, at, value, expected, other) == direct_run(
            env,
            at,
            value,
            expected,
            nested,
        ),
{
    reveal(direct_run);
    reveal(coerced);
    reveal(unit_value);
    reveal(bool_value);
    reveal(int_value);
    reveal(float_value);
    reveal(string_value);
    reveal(entity_ref_value);
}

proof fn lemma_items_steady(
    env: Env,
    more: Env,
    at: Progress,
    fields: Seq<Field>,
    repeat: bool,
    ids: Seq<int>,
    k: int,
    span: Span,
    f: Nested,
    g: Nested,
)
    requires
        extends(env, more),
        steady(at.depth, f, g),
        !asks(items_run(env, at, fields, repeat, ids, k, span, f).1),
    ensures
        items_run(more, at, fields, repeat, ids, k, span, g) == items_run(
            env,
            at,
            fields,
            repeat,
            ids,
            k,
            span,
            f,
        ),
    decreases ids.len() - k,
{
    if 0 <= k < ids.len() {
        let field = if repeat {
            fields[0]
        } else {
            fields[k]
        };
        if let Ok(ty) = registered(env, field, span) {
            let first = f(at, ids[k], ty);
            assert(!asks(first.1));
            if first.1 is Ok {
                let next = no_shallower(first.0, at.depth);
                lemma_items_steady(env, more, next, fields, repeat, ids, k + 1, span, f, g);
            }
        }
    }
}

proof fn lemma_fields_steady(
    env: Env,
    more: Env,
    at: Progress,
    fields: Seq<Field>,
    type_path: Seq<char>,
    names: Seq<Seq<char>>,
    ids: Seq<int>,
    k: int,
    span: Span,
    f: Nested,
    g: Nested,
)
    requires
        extends(env, more),
        steady(at.depth, f, g),
        !asks(fields_run(env, at, fields, type_path, names, ids, k, span, f).1),
    ensures
        fields_run(more, at, fields, type_path, names, ids, k, span, g) == fields_run(
            env,
            at,
            fields,
            type_path,
            names,
            ids,
            k,
            span,
            f,
        ),
    decreases ids.len() - k,
{
    if 0 <= k < ids.len() {
        if let Some(i) = field_index(fields, names[k]) {
            if !is_repeated_name(names, k) {
                if let Ok(ty) = registered(env, fields[i], span) {
                    let first = f(at, ids[k], ty);
                    assert(!asks(first.1));
                    if first.1 is Ok {
                        let next = no_shallower(first.0, at.depth);
                        lemma_fields_steady(
                            env,
                            more,
                            next,
                            fields,
                            type_path,
                            names,
                            ids,
                            k + 1,
                            span,
                            f,
                            g,
                        );
                    }
                }
            }
        }
    }
}

proof fn lemma_defaults_steady(env: Env, more: Env, fields: Seq<Field>, k: int, span: Span)
    requires
        extends(env, more),
    ensures
        defaults_problem(more, fields, k, span) == defaults_problem(env, fields, k, span),
    decreases fields.len() - k,
{
    if 0 <= k < fields.len() {
        lemma_defaults_steady(env, more, fields, k + 1, span);
    }
}

proof fn lemma_overlaid_steady(
    env: Env,
    more: Env,
    supplied: PartsRun,
    ty: TypeKey,
    variant: Seq<char>,
    kind: VariantKind,
    fields: Seq<Field>,
    span: Span,
)
    requires
        extends(env, more),
        !asks(overlaid(env, supplied, ty, variant, kind, fields, span).1),
    ensures
        !asks(supplied.1),
        overlaid(more, supplied, ty, variant, kind, fields, span) == overlaid(
            env,
            supplied,
            ty,
            variant,
            kind,
            fields,
            span,
        ),
{
    reveal(overlaid);
    lemma_defaults_steady(env, more, fields, 0, span);
}

proof fn lemma_forms_steady(
    env: Env,
    more: Env,
    at: Progress,
    ty: TypeKey,
    variant: Seq<char>,
    body: Body,
    span: Span,
    f: Nested,
    g: Nested,
)
    requires
        extends(env, more),
        steady(at.depth, f, g),
        !asks(forms_run(env, at, ty, variant, body, span, f).1),
    ensures
        forms_run(more, at, ty, variant, body, span, g) == forms_run(
            env,
            at,
            ty,
            variant,
            body,
            span,
            f,
        ),
{
    reveal(forms_run);
    if let Shape::Enum(variants) = entry_of(env.types, ty).shape {
        if let Some(i) = variant_index(variants@, variant) {
            let fields = variants@[i].fields@;
            let kind = variants@[i].kind;
            let path = variant_path(path_of(env, ty), variant);
            match (kind, body) {
                (VariantKind::Struct, Body::Named { names, ids }) => {
                    let run = fields_run(env, at, fields, path, names, ids, 0, span, f);
                    lemma_overlaid_steady(env, more, run, ty, variant, kind, fields, span);
                    lemma_fields_steady(
                        env,
                        more,
                        at,
                        fields,
                        path,
                        names,
                        ids,
                        0,
                        span,
                        f,
                        g,
                    );
                },
                (VariantKind::Tuple, Body::Tuple { ids }) => {
                    if ids.len() <= fields.len() {
                        let run = items_run(env, at, fields, false, ids, 0, span, f);
                        lemma_overlaid_steady(env, more, run, ty, variant, kind, fields, span);
                        lemma_items_steady(env, more, at, fields, false, ids, 0, span, f, g);
                    }
                },
                (VariantKind::Unit, _) => {},
                (_, Body::Unit) => {
                    let none: PartsRun = (at, Ok(Seq::empty()));
                    lemma_overlaid_steady(env, more, none, ty, variant, kind, fields, span);
                },
                _ => {},
            }
        }
    }
}

proof fn lemma_constructed_steady(
    env: Env,
    more: Env,
    at: Progress,
    named: TypeKey,
    partial: Option<Val>,
    expected: TypeKey,
    span: Span,
)
    requires
        extends(env, more),
        !asks(constructed(env, at, named, partial, expected, span).1),
    ensures
        constructed(more, at, named, partial, expected, span) == constructed(
            env,
            at,
            named,
            partial,
            expected,
            span,
        ),
{
    reveal(constructed);
    reveal(coerced);
}

proof fn lemma_named_steady(
    env: Env,
    more: Env,
    at: Progress,
    path: Path,
    body: Body,
    expected: TypeKey,
    span: Span,
    f: Nested,
    g: Nested,
)
    requires
        extends(env, more),
        steady(at.depth, f, g),
        !asks(named_run(env, at, path, body, expected, span, f).1),
    ensures
        named_run(more, at, path, body, expected, span, g) == named_run(
            env,
            at,
            path,
            body,
            expected,
            span,
            f,
        ),
{
    reveal(named_run);
    if crate::building::is_bare_variant(env, path, expected) {
        lemma_forms_steady(env, more, at, expected, last_ident(path), body, span, f, g);
    } else {
        let symbol = symbol_run(env, at, path, span);
        assert(symbol_run(more, at, path, span) == symbol) by {
            reveal(symbol_run);
        }
        if let Ok((named, variant)) = symbol.1 {
            let start = no_shallower(symbol.0, at.depth);
            match (variant, body) {
                (None, Body::Unit) => {
                    lemma_constructed_steady(env, more, start, named, None, expected, span);
                },
                (Some(variant), _) => {
                    let run = forms_run(env, start, named, variant, body, span, f);
                    assert(!asks(run.1));
                    lemma_forms_steady(env, more, start, named, variant, body, span, f, g);
                    lemma_finished_steady(env, more, full_form(run), named, expected, span);
                },
                (None, Body::Named { names, ids }) => {
                    let run = struct_run(env, start, named, names, ids, span, f);
                    assert(!asks(run.1));
                    reveal(struct_run);
                    if let Shape::Struct(fields) = entry_of(env.types, named).shape {
                        let path = path_of(env, named);
                        lemma_fields_steady(
                            env,
                            more,
                            start,
                            fields@,
                            path,
                            names,
                            ids,
                            0,
                            span,
                            f,
                            g,
                        );
                    }
                    lemma_finished_steady(env, more, run, named, expected, span);
                },
                (None, Body::Tuple { ids }) => {
                    let run = tuple_struct_run(env, start, named, ids, span, f);
                    assert(!asks(run.1));
                    reveal(tuple_struct_run);
                    if let Shape::TupleStruct(fields) = entry_of(env.types, named).shape {
                        if ids.len() <= fields@.len() {
                            lemma_items_steady(
                                env,
                                more,
                                start,
                                fields@,
                                false,
                                ids,
                                0,
                                span,
                                f,
                                g,
                            );
                        }
                    }
                    lemma_finished_steady(env, more, run, named, expected, span);
                },
            }
        }
    }
}

proof fn lemma_finished_steady(
    env: Env,
    more: Env,
    partial: Run,
    named: TypeKey,
    expected: TypeKey,
    span: Span,
)
    requires
        extends(env, more),
        !asks(finished(env, partial, named, expected, span).1),
    ensures
        finished(more, partial, named, expected, span) == finished(
            env,
            partial,
            named,
            expected,
            span,
        ),
{
    if let Ok(value) = partial.1 {
        if named != expected {
            lemma_constructed_steady(env, more, partial.0, named, Some(value), expected, span);
        }
    }
}

proof fn lemma_direct_steady(
    env: Env,
    more: Env,
    at: Progress,
    value: Value,
    expected: TypeKey,
    f: Nested,
    g: Nested,
)
    requires
        extends(env, more),
        steady(at.depth, f, g),
        !asks(direct_run(env, at, value, expected, f).1),
    ensures
        direct_run(more, at, value, expected, g) == direct_run(env, at, value, expected, f),
{
    let span = value.span;
    let ids = value.children;
    match value.head {
        Head::Path(path) => {
            reveal(direct_run);
            lemma_named_steady(env, more, at, path, Body::Unit, expected, span, f, g);
        },
        Head::Struct(path) => {
            reveal(direct_run);
            let body = Body::Named { names: value.names, ids };
            lemma_named_steady(env, more, at, path, body, expected, span, f, g);
        },
        Head::NamedTuple(path) => {
            reveal(direct_run);
            lemma_named_steady(env, more, at, path, Body::Tuple { ids }, expected, span, f, g);
        },
        Head::Tuple => {
            reveal(direct_run);
            reveal(tuple_run);
            if let Shape::Tuple(fields) = entry_of(env.types, expected).shape {
                if ids.len() <= fields@.len() {
                    lemma_items_steady(env, more, at, fields@, false, ids, 0, span, f, g);
                }
            }
        },
        Head::List => {
            reveal(direct_run);
            reveal(list_run);
            reveal(plain_list_run);
            let list = match wrapped_list(env, expected) {
                Some(inner) => inner,
                None => expected,
            };
            if let Shape::List(item) = entry_of(env.types, list).shape {
                if registered(env, item, span) is Ok {
                    lemma_items_steady(env, more, at, seq![item], true, ids, 0, span, f, g);
                }
            }
        },
        _ => {
            lemma_literal_steady(env, more, at, value, expected, f, g);
        },
    }
}

/// A run that does not stop at a question does not depend on answers that come later: with
/// further answers, it comes to the same value or error, by the same questions, and finds the
/// same dependencies. So building can be begun anew whenever a question has been answered.
pub proof fn law_answers_extend(env: Env, more: Env, at: Progress, id: int, expected: TypeKey)
    requires
        extends(env, more),
        !asks(value_run(env, at, id, expected).1),
    ensures
        value_run(more, at, id, expected) == value_run(env, at, id, expected),
    decreases room(env, at),
{
    lemma_value_run(env, at, id, expected);
    lemma_value_run(more, at, id, expected);
    reveal(value_step);
    if let Some(value) = env.document.value(id) {
        if at.depth < env.max_depth {
            let entered = Progress { depth: at.depth + 1, ..at };
            let f = values_of(env);
            let g = values_of(more);
            assert forall|deeper: Progress, id: int, ty: TypeKey|
                deeper.depth >= entered.depth && !asks((#[trigger] f(deeper, id, ty)).1) implies g(
                deeper,
                id,
                ty,
            ) == f(deeper, id, ty) by {
                law_answers_extend(env, more, deeper, id, ty);
            }
            assert(steady(entered.depth, f, g));
            let direct = direct_run(env, entered, value, expected, f);
            assert(!asks(direct.1));
            lemma_direct_steady(env, more, entered, value, expected, f, g);
        }
    }
}

// -- parts --------------------------------------------------------------------------------------

proof fn lemma_fields_parts(
    env: Env,
    at: Progress,
    fields: Seq<Field>,
    type_path: Seq<char>,
    names: Seq<Seq<char>>,
    ids: Seq<int>,
    k: int,
    span: Span,
    nested: Nested,
    parts: Seq<PartModel>,
)
    requires
        0 <= k <= ids.len(),
        fields_run(env, at, fields, type_path, names, ids, k, span, nested).1 == Ok::<
            Seq<PartModel>,
            Stop,
        >(parts),
    ensures
        parts.len() == ids.len() - k,
        forall|i: int|
            k <= i < ids.len() ==> (#[trigger] parts[i - k]).name == names[i] && field_index(
                fields,
                names[i],
            ) is Some && !is_repeated_name(names, i),
    decreases ids.len() - k,
{
    if k < ids.len() {
        let ty = fields[field_index(fields, names[k])->0].ty;
        let first = nested(at, ids[k], ty);
        let next = no_shallower(first.0, at.depth);
        let rest = fields_run(env, next, fields, type_path, names, ids, k + 1, span, nested);
        let tail = rest.1->Ok_0;
        lemma_fields_parts(env, next, fields, type_path, names, ids, k + 1, span, nested, tail);
        assert(parts == seq![parts[0]] + tail);
        assert forall|i: int| k <= i < ids.len() implies (#[trigger] parts[i - k]).name == names[i]
            && field_index(fields, names[i]) is Some && !is_repeated_name(names, i) by {
            if i > k {
                assert(parts[i - k] == tail[i - (k + 1)]);
            }
        }
    }
}

/// A struct value holds exactly the fields that were written for it, in their order; each of
/// them is a field of the type, and none is there twice.
pub proof fn law_supplied_fields(
    env: Env,
    at: Progress,
    fields: Seq<Field>,
    type_path: Seq<char>,
    names: Seq<Seq<char>>,
    ids: Seq<int>,
    span: Span,
    nested: Nested,
    parts: Seq<PartModel>,
)
    requires
        names.len() == ids.len(),
        fields_run(env, at, fields, type_path, names, ids, 0, span, nested).1 == Ok::<
            Seq<PartModel>,
            Stop,
        >(parts),
    ensures
        parts.map_values(|part: PartModel| part.name) == names,
        forall|i: int|
            0 <= i < names.len() ==> field_index(fields, #[trigger] names[i]) is Some,
        forall|i: int, j: int|
            0 <= i < j < names.len() ==> #[trigger] names[i] != #[trigger] names[j],
{
    lemma_fields_parts(env, at, fields, type_path, names, ids, 0, span, nested, parts);
    assert forall|i: int| 0 <= i < names.len() implies field_index(
        fields,
        #[trigger] names[i],
    ) is Some by {
        assert(parts[i - 0].name == names[i]);
    }
    assert forall|i: int, j: int| 0 <= i < j < names.len() implies #[trigger] names[i]
        != #[trigger] names[j] by {
        assert(parts[j - 0].name == names[j]);
        assert(!is_repeated_name(names, j));
    }
    assert(parts.map_values(|part: PartModel| part.name) =~= names) by {
        assert forall|i: int| 0 <= i < names.len() implies (#[trigger] parts[i]).name
            == names[i] by {
            assert(parts[i - 0].name == names[i]);
        }
    }
}

proof fn lemma_defaults(env: Env, fields: Seq<Field>, k: int, span: Span)
    requires
        0 <= k,
        defaults_problem(env, fields, k, span) is None,
    ensures
        forall|i: int|
            k <= i < fields.len() ==> is_registered(env.types, (#[trigger] fields[i]).ty)
                && entry_of(env.types, fields[i].ty).has_default,
    decreases fields.len() - k,
{
    if k < fields.len() {
        lemma_defaults(env, fields, k + 1, span);
    }
}

/// The full form of a variant is complete: every field of the variant starts at the default
/// value of its type, which there is.
pub proof fn law_full_form_is_complete(
    env: Env,
    at: Progress,
    ty: TypeKey,
    variant: Seq<char>,
    body: Body,
    span: Span,
    nested: Nested,
    variants: Vec<Variant>,
    forms: VariantModel,
)
    requires
        entry_of(env.types, ty).shape == Shape::Enum(variants),
        forms_run(env, at, ty, variant, body, span, nested).1 == Ok::<VariantModel, Stop>(forms),
    ensures
        forms.ty == ty,
        forms.variant == variant,
        variant_index(variants@, variant) matches Some(i) && {
            &&& forms.kind == variants@[i].kind
            &&& forms.kind != VariantKind::Unit ==> forms.defaults == default_slots(
                variants@[i].fields@,
            ) && forms.defaults.len() == variants@[i].fields@.len() && (forall|k: int|
                0 <= k < variants@[i].fields@.len() ==> is_registered(
                    env.types,
                    (#[trigger] variants@[i].fields@[k]).ty,
                ) && entry_of(env.types, variants@[i].fields@[k].ty).has_default
                    && forms.defaults[k] == (
                    variants@[i].fields@[k].name@,
                    variants@[i].fields@[k].ty,
                ))
        },
{
    reveal(forms_run);
    reveal(overlaid);
    let i = variant_index(variants@, variant)->0;
    if variants@[i].kind != VariantKind::Unit {
        lemma_defaults(env, variants@[i].fields@, 0, span);
    }
}

} // verus!
