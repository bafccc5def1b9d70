//! A plan says what the document says, and it is a plan for the type that was asked for.

use vstd::prelude::*;

use crate::asset_path::is_asset_path;
use crate::ast::last_ident;
use crate::building::{
    bool_value, coerced, constructed, direct_run, entity_ref_value, fields_run, float_value,
    forms_run, full_form, in_some, int_value, items_run, lemma_value_run, list_run,
    named_run, no_shallower, overlaid, plain_list_run, room, string_value, struct_run,
    symbol_run, tuple_run, tuple_struct_run, unit_value, value_run, value_step, values_of,
    wrapped_list, Body, Env, Nested, Progress,
};
use crate::model::{Document, Head, Path, Value};
use crate::plan::{Form, PartModel, Val};
use crate::registry::{
    entry_of, exact_limit, field_index, is_registered, payload_of, variant_index, Builtin, Field,
    Shape, TypeEntry, TypeKey, Variant, VariantKind,
};
use crate::span::Span;

verus! {

// -- what a plan says ---------------------------------------------------------------------------

/// Whether a plan says what the value `id` of the document says: the same literal, or the same
/// parts by the same names in the same order. Default values, fillings and conversions say what
/// they are made of, and so does a payload in a `Some`.
pub open spec fn says(d: Document, id: int, val: Val) -> bool
    decreases val,
{
    match d.value(id) {
        None => false,
        Some(value) => match val {
            Val::Unit => value.head is Unit,
            Val::Bool(b) => value.head == Head::Bool(b),
            Val::Int(_, n) => value.head == Head::Int(n),
            Val::Whole(_, n) => value.head == Head::Int(n),
            Val::Float(_, f) => value.head == Head::Float(f),
            Val::Text(s) => value.head == Head::Str(s),
            Val::SharedText(s) => value.head == Head::Str(s),
            Val::AssetPath(s) => value.head == Head::Str(s),
            Val::Entity(_) => value.head is EntityRef,
            Val::Group(form, _, parts) => {
                ||| say(d, value, parts)
                ||| form is TupleStruct && value.head is List && parts.len() == 1 && says(
                    d,
                    id,
                    parts[0].value,
                )
            },
            Val::Variant(forms) => {
                ||| say(d, value, forms.supplied)
                ||| value.head is Path && forms.supplied.len() == 0
                ||| forms.variant == "Some"@ && forms.supplied.len() == 1 && says(
                    d,
                    id,
                    forms.supplied[0].value,
                )
            },
            Val::Default(_) => value.head is Path,
            Val::Filled(_, inner) => says(d, id, *inner),
            Val::Converted(_, inner) => says(d, id, *inner),
        },
    }
}

/// Whether parts say what the values inside a value say, by the names of its fields.
pub open spec fn say(d: Document, value: Value, parts: Seq<PartModel>) -> bool
    decreases parts,
{
    &&& !(value.head is Path)
    &&& parts.len() == value.children.len()
    &&& forall|i: int|
        0 <= i < parts.len() ==> says(d, value.children[i], (#[trigger] parts[i]).value)
            && parts[i].name == (if value.head is Struct {
            value.names[i]
        } else {
            Seq::empty()
        })
}

// -- what a plan is for -------------------------------------------------------------------------

/// Whether a plan is one for the given type.
pub open spec fn fits(types: Seq<TypeEntry>, val: Val, ty: TypeKey) -> bool
    decreases val,
{
    let entry = entry_of(types, ty);
    match val {
        Val::Unit => entry.builtin is Unit,
        Val::Bool(_) => entry.builtin is Bool,
        Val::Int(kind, n) => entry.builtin == Builtin::Int(kind) && kind.holds(n),
        Val::Whole(float, n) => entry.builtin == Builtin::Float(float) && -exact_limit(float) <= n
            <= exact_limit(float),
        Val::Float(float, _) => entry.builtin == Builtin::Float(float),
        Val::Text(_) => entry.builtin is Text,
        Val::SharedText(_) => entry.builtin is SharedText,
        Val::AssetPath(s) => entry.builtin is AssetPath && is_asset_path(s),
        Val::Entity(_) => entry.builtin is EntityTemplate,
        Val::Group(form, key, parts) => key == ty && match (form, entry.shape) {
            (Form::Struct, Shape::Struct(fields)) => fit_names(types, parts, fields@),
            (Form::TupleStruct, Shape::TupleStruct(fields)) => fit(types, parts, fields@),
            (Form::Tuple, Shape::Tuple(fields)) => fit(types, parts, fields@),
            (Form::List, Shape::List(item)) => fit_all(types, parts, item),
            _ => false,
        },
        Val::Variant(forms) => forms.ty == ty && match entry.shape {
            Shape::Enum(variants) => match variant_index(variants@, forms.variant) {
                Some(i) => {
                    let variant = variants@[i];
                    &&& 0 <= i < variants@.len()
                    &&& variant.name@ == forms.variant
                    &&& variant.kind == forms.kind
                    &&& match variant.kind {
                        VariantKind::Unit => forms.supplied.len() == 0,
                        VariantKind::Struct => fit_names(types, forms.supplied, variant.fields@),
                        VariantKind::Tuple => fit(types, forms.supplied, variant.fields@),
                    }
                },
                None => false,
            },
            _ => false,
        },
        Val::Default(key) => key == ty && entry.has_default,
        Val::Filled(key, _) => key == ty && entry.has_default,
        Val::Converted(key, _) => key == ty && entry.converts,
    }
}

/// Whether each part is one for the field of its name.
pub open spec fn fit_names(types: Seq<TypeEntry>, parts: Seq<PartModel>, fields: Seq<Field>) -> bool
    decreases parts,
{
    forall|i: int|
        0 <= i < parts.len() ==> match field_index(fields, (#[trigger] parts[i]).name) {
            Some(j) => 0 <= j < fields.len() && fields[j].name@ == parts[i].name && fits(
                types,
                parts[i].value,
                fields[j].ty,
            ),
            None => false,
        }
}

/// Whether each part is one for the field at its position.
pub open spec fn fit(types: Seq<TypeEntry>, parts: Seq<PartModel>, fields: Seq<Field>) -> bool
    decreases parts,
{
    &&& parts.len() <= fields.len()
    &&& forall|i: int|
        0 <= i < parts.len() ==> fits(types, (#[trigger] parts[i]).value, fields[i].ty)
}

/// Whether each part is one for the same type.
pub open spec fn fit_all(types: Seq<TypeEntry>, parts: Seq<PartModel>, item: Field) -> bool
    decreases parts,
{
    forall|i: int| 0 <= i < parts.len() ==> fits(types, (#[trigger] parts[i]).value, item.ty)
}

/// Whether a plan says what the document says and is for the type.
spec fn is_good(env: Env, id: int, ty: TypeKey, val: Val) -> bool {
    says(env.document, id, val) && fits(env.types, val, ty)
}

/// Whether the values inside a value are built well, at the given depth and deeper.
spec fn are_good(env: Env, depth: nat, nested: Nested) -> bool {
    forall|at: Progress, id: int, ty: TypeKey|
        at.depth >= depth ==> ((#[trigger] nested(at, id, ty)).1 matches Ok(val) ==> is_good(
            env,
            id,
            ty,
            val,
        ))
}

// -- names --------------------------------------------------------------------------------------

proof fn lemma_first_field(fields: Seq<Field>, name: Seq<char>, i: int)
    requires
        0 <= i < fields.len(),
        fields[i].name@ == name,
    ensures
        exists|k: int|
            0 <= k < fields.len() && (#[trigger] fields[k]).name@ == name && (forall|j: int|
                0 <= j < k ==> (#[trigger] fields[j]).name@ != name),
    decreases i,
{
    if exists|j: int| 0 <= j < i && (#[trigger] fields[j]).name@ == name {
        let j = choose|j: int| 0 <= j < i && (#[trigger] fields[j]).name@ == name;
        lemma_first_field(fields, name, j);
    }
}

/// The field of a name is the first that has it.
pub proof fn law_first_field_of_the_name(fields: Seq<Field>, name: Seq<char>)
    ensures
        match field_index(fields, name) {
            Some(i) => 0 <= i < fields.len() && fields[i].name@ == name && (forall|j: int|
                0 <= j < i ==> (#[trigger] fields[j]).name@ != name),
            None => forall|j: int| 0 <= j < fields.len() ==> (#[trigger] fields[j]).name@ != name,
        },
{
    reveal(field_index);
    if field_index(fields, name) is Some {
        let i = choose|i: int| 0 <= i < fields.len() && (#[trigger] fields[i]).name@ == name;
        lemma_first_field(fields, name, i);
    }
}

proof fn lemma_first_variant(variants: Seq<Variant>, name: Seq<char>, i: int)
    requires
        0 <= i < variants.len(),
        variants[i].name@ == name,
    ensures
        exists|k: int|
            0 <= k < variants.len() && (#[trigger] variants[k]).name@ == name && (forall|j: int|
                0 <= j < k ==> (#[trigger] variants[j]).name@ != name),
    decreases i,
{
    if exists|j: int| 0 <= j < i && (#[trigger] variants[j]).name@ == name {
        let j = choose|j: int| 0 <= j < i && (#[trigger] variants[j]).name@ == name;
        lemma_first_variant(variants, name, j);
    }
}

/// The variant of a name is the first that has it.
pub proof fn law_first_variant_of_the_name(variants: Seq<Variant>, name: Seq<char>)
    ensures
        match variant_index(variants, name) {
            Some(i) => 0 <= i < variants.len() && variants[i].name@ == name && (forall|j: int|
                0 <= j < i ==> (#[trigger] variants[j]).name@ != name),
            None => forall|j: int|
                0 <= j < variants.len() ==> (#[trigger] variants[j]).name@ != name,
        },
{
    reveal(variant_index);
    if variant_index(variants, name) is Some {
        let i = choose|i: int| 0 <= i < variants.len() && (#[trigger] variants[i]).name@ == name;
        lemma_first_variant(variants, name, i);
    }
}

// -- parts --------------------------------------------------------------------------------------

spec fn field_at(fields: Seq<Field>, repeat: bool, i: int) -> Field {
    if repeat {
        fields[0]
    } else {
        fields[i]
    }
}

proof fn lemma_items(
    env: Env,
    at: Progress,
    fields: Seq<Field>,
    repeat: bool,
    ids: Seq<int>,
    k: int,
    span: Span,
    nested: Nested,
    depth: nat,
)
    requires
        are_good(env, depth, nested),
        at.depth >= depth,
        0 <= k <= ids.len(),
    ensures
        items_run(env, at, fields, repeat, ids, k, span, nested).1 matches Ok(parts) ==> {
            &&& parts.len() == ids.len() - k
            &&& forall|i: int|
                k <= i < ids.len() ==> (#[trigger] parts[i - k]).name == Seq::<char>::empty()
                    && is_good(env, ids[i], field_at(fields, repeat, i).ty, parts[i - k].value)
        },
    decreases ids.len() - k,
{
    if let Ok(parts) = items_run(env, at, fields, repeat, ids, k, span, nested).1 {
        if k < ids.len() {
            let ty = field_at(fields, repeat, k).ty;
            let first = nested(at, ids[k], ty);
            let next = no_shallower(first.0, at.depth);
            lemma_items(env, next, fields, repeat, ids, k + 1, span, nested, depth);
            let tail = items_run(env, next, fields, repeat, ids, k + 1, span, nested).1->Ok_0;
            assert(parts =~= seq![parts[0]] + tail);
            assert forall|i: int| k <= i < ids.len() implies (#[trigger] parts[i - k]).name
                == Seq::<char>::empty() && is_good(
                env,
                ids[i],
                field_at(fields, repeat, i).ty,
                parts[i - k].value,
            ) by {
                if i > k {
                    assert(parts[i - k] == tail[i - (k + 1)]);
                }
            }
        }
    }
}

proof fn lemma_fields(
    env: Env,
    at: Progress,
    fields: Seq<Field>,
    type_path: Seq<char>,
    names: Seq<Seq<char>>,
    ids: Seq<int>,
    k: int,
    span: Span,
    nested: Nested,
    depth: nat,
)
    requires
        are_good(env, depth, nested),
        at.depth >= depth,
        0 <= k <= ids.len(),
    ensures
        fields_run(env, at, fields, type_path, names, ids, k, span, nested).1 matches Ok(parts)
            ==> {
            &&& parts.len() == ids.len() - k
            &&& forall|i: int|
                k <= i < ids.len() ==> (#[trigger] parts[i - k]).name == names[i] && (field_index(
                    fields,
                    names[i],
                ) matches Some(j) && is_good(env, ids[i], fields[j].ty, parts[i - k].value))
        },
    decreases ids.len() - k,
{
    if let Ok(parts) = fields_run(env, at, fields, type_path, names, ids, k, span, nested).1 {
        if k < ids.len() {
            let ty = fields[field_index(fields, names[k])->0].ty;
            let first = nested(at, ids[k], ty);
            let next = no_shallower(first.0, at.depth);
            lemma_fields(env, next, fields, type_path, names, ids, k + 1, span, nested, depth);
            let rest = fields_run(env, next, fields, type_path, names, ids, k + 1, span, nested);
            let tail = rest.1->Ok_0;
            assert(parts =~= seq![parts[0]] + tail);
            assert forall|i: int| k <= i < ids.len() implies (#[trigger] parts[i - k]).name
                == names[i] && (field_index(fields, names[i]) matches Some(j) && is_good(
                env,
                ids[i],
                fields[j].ty,
                parts[i - k].value,
            )) by {
                if i > k {
                    assert(parts[i - k] == tail[i - (k + 1)]);
                }
            }
        }
    }
}

// -- values -------------------------------------------------------------------------------------

/// A value that is coerced is taken as it is or converted.
proof fn lemma_coerced(
    env: Env,
    at: Progress,
    produced: Val,
    found: Seq<char>,
    same: bool,
    expected: TypeKey,
    span: Span,
    id: int,
)
    requires
        says(env.document, id, produced),
        same ==> fits(env.types, produced, expected),
    ensures
        coerced(env, at, produced, found, same, expected, span).1 matches Ok(val) ==> is_good(
            env,
            id,
            expected,
            val,
        ),
{
    reveal(coerced);
}

proof fn lemma_constructed(
    env: Env,
    at: Progress,
    named: TypeKey,
    partial: Option<Val>,
    expected: TypeKey,
    span: Span,
    id: int,
)
    requires
        match partial {
            Some(val) => says(env.document, id, val),
            None => env.document.value(id) matches Some(value) && value.head is Path,
        },
    ensures
        constructed(env, at, named, partial, expected, span).1 matches Ok(val) ==> is_good(
            env,
            id,
            expected,
            val,
        ),
{
    reveal(constructed);
    reveal(coerced);
    reveal_with_fuel(says, 3);
}

proof fn lemma_literal(env: Env, at: Progress, id: int, expected: TypeKey, nested: Nested)
    requires
        env.document.value(id) matches Some(value) && !(value.head is Path || value.head is Tuple
            || value.head is List || value.head is Struct || value.head is NamedTuple),
    ensures
        direct_run(env, at, env.document.value(id)->0, expected, nested).1 matches Ok(val)
            ==> is_good(env, id, expected, val),
{
    reveal(direct_run);
    reveal(unit_value);
    reveal(bool_value);
    reveal(int_value);
    reveal(float_value);
    reveal(string_value);
    reveal(entity_ref_value);
    reveal(coerced);
    reveal_with_fuel(says, 3);
}

/// What is supplied for a variant.
spec fn body_says(env: Env, value: Value, body: Body) -> bool {
    match body {
        Body::Unit => value.head is Path,
        Body::Named { names, ids } => value.head is Struct && names == value.names && ids
            == value.children,
        Body::Tuple { ids } => value.head is NamedTuple && ids == value.children,
    }
}

proof fn lemma_forms(
    env: Env,
    at: Progress,
    ty: TypeKey,
    variant: Seq<char>,
    body: Body,
    span: Span,
    nested: Nested,
    depth: nat,
    id: int,
)
    requires
        are_good(env, depth, nested),
        at.depth >= depth,
        env.document.value(id) matches Some(value) && body_says(env, value, body),
    ensures
        forms_run(env, at, ty, variant, body, span, nested).1 matches Ok(forms) ==> is_good(
            env,
            id,
            ty,
            Val::Variant(forms),
        ),
{
    reveal(forms_run);
    reveal(overlaid);
    let value = env.document.value(id)->0;
    if let Ok(forms) = forms_run(env, at, ty, variant, body, span, nested).1 {
        let variants = entry_of(env.types, ty).shape->Enum_0@;
        law_first_variant_of_the_name(variants, variant);
        let i = variant_index(variants, variant)->0;
        let fields = variants[i].fields@;
        let path = crate::plan::variant_path(crate::building::path_of(env, ty), variant);
        match body {
            Body::Unit => {},
            Body::Named { names, ids } => {
                lemma_fields(env, at, fields, path, names, ids, 0, span, nested, depth);
                assert forall|j: int| 0 <= j < forms.supplied.len() implies says(
                    env.document,
                    value.children[j],
                    (#[trigger] forms.supplied[j]).value,
                ) && forms.supplied[j].name == value.names[j] by {
                    assert(forms.supplied[j - 0].name == names[j]);
                }
                assert forall|j: int| 0 <= j < forms.supplied.len() implies match field_index(
                    fields,
                    (#[trigger] forms.supplied[j]).name,
                ) {
                    Some(k) => 0 <= k < fields.len() && fields[k].name@ == forms.supplied[j].name
                        && fits(env.types, forms.supplied[j].value, fields[k].ty),
                    None => false,
                } by {
                    assert(forms.supplied[j - 0].name == names[j]);
                    law_first_field_of_the_name(fields, names[j]);
                }
                assert(say(env.document, value, forms.supplied));
                assert(fit_names(env.types, forms.supplied, fields));
            },
            Body::Tuple { ids } => {
                lemma_items(env, at, fields, false, ids, 0, span, nested, depth);
                assert forall|j: int| 0 <= j < forms.supplied.len() implies says(
                    env.document,
                    value.children[j],
                    (#[trigger] forms.supplied[j]).value,
                ) && forms.supplied[j].name == Seq::<char>::empty() && fits(
                    env.types,
                    forms.supplied[j].value,
                    fields[j].ty,
                ) by {
                    assert(forms.supplied[j - 0].name == Seq::<char>::empty());
                }
                assert(say(env.document, value, forms.supplied));
                assert(fit(env.types, forms.supplied, fields));
            },
        }
    }
}

/// The supplied fields of a struct.
proof fn lemma_struct(
    env: Env,
    at: Progress,
    ty: TypeKey,
    span: Span,
    nested: Nested,
    depth: nat,
    id: int,
)
    requires
        are_good(env, depth, nested),
        at.depth >= depth,
        env.document.value(id) matches Some(value) && value.head is Struct,
    ensures
        ({
            let value = env.document.value(id)->0;
            struct_run(env, at, ty, value.names, value.children, span, nested).1 matches Ok(val)
                ==> is_good(env, id, ty, val)
        }),
{
    reveal(struct_run);
    let value = env.document.value(id)->0;
    let (names, ids) = (value.names, value.children);
    if let Ok(val) = struct_run(env, at, ty, names, ids, span, nested).1 {
        let fields = entry_of(env.types, ty).shape->Struct_0@;
        let path = crate::building::path_of(env, ty);
        lemma_fields(env, at, fields, path, names, ids, 0, span, nested, depth);
        let parts = val->Group_2;
        assert forall|j: int| 0 <= j < parts.len() implies says(
            env.document,
            value.children[j],
            (#[trigger] parts[j]).value,
        ) && parts[j].name == value.names[j] by {
            assert(parts[j - 0].name == names[j]);
        }
        assert forall|j: int| 0 <= j < parts.len() implies match field_index(
            fields,
            (#[trigger] parts[j]).name,
        ) {
            Some(k) => 0 <= k < fields.len() && fields[k].name@ == parts[j].name && fits(
                env.types,
                parts[j].value,
                fields[k].ty,
            ),
            None => false,
        } by {
            assert(parts[j - 0].name == names[j]);
            law_first_field_of_the_name(fields, names[j]);
        }
        assert(say(env.document, value, parts));
        assert(fit_names(env.types, parts, fields));
    }
}

/// The supplied positions of a tuple or a tuple struct, or the items of a list.
proof fn lemma_positions(
    env: Env,
    at: Progress,
    fields: Seq<Field>,
    repeat: bool,
    span: Span,
    nested: Nested,
    depth: nat,
    id: int,
)
    requires
        are_good(env, depth, nested),
        at.depth >= depth,
        env.document.value(id) matches Some(value) && !(value.head is Path || value.head is Struct),
        repeat || env.document.value(id)->0.children.len() <= fields.len(),
    ensures
        ({
            let value = env.document.value(id)->0;
            items_run(env, at, fields, repeat, value.children, 0, span, nested).1 matches Ok(parts)
                ==> {
                &&& say(env.document, value, parts)
                &&& !repeat ==> fit(env.types, parts, fields)
                &&& repeat ==> fit_all(env.types, parts, fields[0])
            }
        }),
{
    let value = env.document.value(id)->0;
    let ids = value.children;
    lemma_items(env, at, fields, repeat, ids, 0, span, nested, depth);
    if let Ok(parts) = items_run(env, at, fields, repeat, ids, 0, span, nested).1 {
        assert forall|j: int| 0 <= j < parts.len() implies says(
            env.document,
            value.children[j],
            (#[trigger] parts[j]).value,
        ) && parts[j].name == Seq::<char>::empty() && fits(
            env.types,
            parts[j].value,
            field_at(fields, repeat, j).ty,
        ) by {
            assert(parts[j - 0].name == Seq::<char>::empty());
        }
    }
}

proof fn lemma_named(
    env: Env,
    at: Progress,
    path: Path,
    body: Body,
    expected: TypeKey,
    span: Span,
    nested: Nested,
    depth: nat,
    id: int,
)
    requires
        are_good(env, depth, nested),
        at.depth >= depth,
        env.document.value(id) matches Some(value) && body_says(env, value, body),
    ensures
        named_run(env, at, path, body, expected, span, nested).1 matches Ok(val) ==> is_good(
            env,
            id,
            expected,
            val,
        ),
{
    reveal(named_run);
    let value = env.document.value(id)->0;
    lemma_forms(env, at, expected, last_ident(path), body, span, nested, depth, id);
    if !crate::building::is_bare_variant(env, path, expected) {
        let symbol = symbol_run(env, at, path, span);
        if let Ok((named, variant)) = symbol.1 {
            let start = no_shallower(symbol.0, at.depth);
            match (variant, body) {
                (None, Body::Unit) => {
                    lemma_constructed(env, start, named, None, expected, span, id);
                },
                (Some(variant), _) => {
                    lemma_forms(env, start, named, variant, body, span, nested, depth, id);
                    let run = full_form(forms_run(env, start, named, variant, body, span, nested));
                    if let Ok(val) = run.1 {
                        lemma_constructed(env, run.0, named, Some(val), expected, span, id);
                    }
                },
                (None, Body::Named { names, ids }) => {
                    lemma_struct(env, start, named, span, nested, depth, id);
                    let run = struct_run(env, start, named, names, ids, span, nested);
                    if let Ok(val) = run.1 {
                        lemma_constructed(env, run.0, named, Some(val), expected, span, id);
                    }
                },
                (None, Body::Tuple { ids }) => {
                    reveal(tuple_struct_run);
                    let run = tuple_struct_run(env, start, named, ids, span, nested);
                    if let Ok(val) = run.1 {
                        let fields = entry_of(env.types, named).shape->TupleStruct_0@;
                        lemma_positions(env, start, fields, false, span, nested, depth, id);
                        lemma_constructed(env, run.0, named, Some(val), expected, span, id);
                    }
                },
            }
        }
    }
}

proof fn lemma_list(
    env: Env,
    at: Progress,
    expected: TypeKey,
    span: Span,
    nested: Nested,
    depth: nat,
    id: int,
)
    requires
        are_good(env, depth, nested),
        at.depth >= depth,
        env.document.value(id) matches Some(value) && value.head is List,
    ensures
        plain_list_run(
            env,
            at,
            env.document.value(id)->0.children,
            expected,
            span,
            nested,
        ).1 matches Ok(val) ==> is_good(env, id, expected, val) && val is Group,
{
    reveal(plain_list_run);
    let ids = env.document.value(id)->0.children;
    if let Ok(val) = plain_list_run(env, at, ids, expected, span, nested).1 {
        let item = entry_of(env.types, expected).shape->List_0;
        lemma_positions(env, at, seq![item], true, span, nested, depth, id);
    }
}

proof fn lemma_direct(
    env: Env,
    at: Progress,
    id: int,
    expected: TypeKey,
    nested: Nested,
    depth: nat,
)
    requires
        are_good(env, depth, nested),
        at.depth >= depth,
        env.document.value(id) is Some,
    ensures
        direct_run(env, at, env.document.value(id)->0, expected, nested).1 matches Ok(val)
            ==> is_good(env, id, expected, val),
{
    let value = env.document.value(id)->0;
    let span = value.span;
    let ids = value.children;
    match value.head {
        Head::Path(path) => {
            reveal(direct_run);
            lemma_named(env, at, path, Body::Unit, expected, span, nested, depth, id);
        },
        Head::Struct(path) => {
            reveal(direct_run);
            let body = Body::Named { names: value.names, ids };
            lemma_named(env, at, path, body, expected, span, nested, depth, id);
        },
        Head::NamedTuple(path) => {
            reveal(direct_run);
            lemma_named(env, at, path, Body::Tuple { ids }, expected, span, nested, depth, id);
        },
        Head::Tuple => {
            reveal(direct_run);
            reveal(tuple_run);
            if let Shape::Tuple(fields) = entry_of(env.types, expected).shape {
                if ids.len() <= fields@.len() {
                    lemma_positions(env, at, fields@, false, span, nested, depth, id);
                }
            }
        },
        Head::List => {
            reveal(direct_run);
            reveal(list_run);
            lemma_list(env, at, expected, span, nested, depth, id);
            if let Some(inner) = wrapped_list(env, expected) {
                lemma_list(env, at, inner, span, nested, depth, id);
            }
        },
        _ => {
            lemma_literal(env, at, id, expected, nested);
        },
    }
}

proof fn lemma_good(env: Env, at: Progress, id: int, expected: TypeKey)
    ensures
        value_run(env, at, id, expected).1 matches Ok(val) ==> is_good(env, id, expected, val),
    decreases room(env, at),
{
    lemma_value_run(env, at, id, expected);
    reveal(value_step);
    if let Some(value) = env.document.value(id) {
        if at.depth < env.max_depth {
            let entered = Progress { depth: at.depth + 1, ..at };
            let nested = values_of(env);
            assert forall|deeper: Progress, other: int, ty: TypeKey|
                deeper.depth >= entered.depth implies ((#[trigger] nested(
                deeper,
                other,
                ty,
            )).1 matches Ok(val) ==> is_good(env, other, ty, val)) by {
                lemma_good(env, deeper, other, ty);
            }
            assert(are_good(env, entered.depth, nested));
            lemma_direct(env, entered, id, expected, nested, entered.depth);
            reveal(payload_of);
            if let Some(payload) = payload_of(env.types, expected) {
                let variants = entry_of(env.types, expected).shape->Enum_0@;
                law_first_variant_of_the_name(variants, "Some"@);
                let direct = direct_run(env, entered, value, expected, nested);
                let inner = nested(no_shallower(direct.0, entered.depth), id, payload);
                if let Ok(val) = inner.1 {
                    let wrapped = in_some(expected, val);
                    let supplied = wrapped->Variant_0.supplied;
                    assert(supplied[0].value == val);
                    assert(says(env.document, id, supplied[0].value));
                    let fields = variants[variant_index(variants, "Some"@)->0].fields@;
                    assert(fit(env.types, supplied, fields));
                    assert(is_good(env, id, expected, wrapped));
                }
            }
        }
    }
}

/// A plan says what the document says: wherever building a value comes to a plan, the plan holds
/// the literals of the value, and of the values inside it, as they are written, in their order
/// and by the names of their fields.
pub proof fn law_plans_say_what_is_written(env: Env, at: Progress, id: int, expected: TypeKey)
    ensures
        value_run(env, at, id, expected).1 matches Ok(val) ==> says(env.document, id, val),
{
    lemma_good(env, at, id, expected);
}

/// A plan is one for the type that was asked for, and so are its parts: integers are values of
/// the type, parts are for fields of their names or positions, and a variant is one of the enum.
pub proof fn law_plans_fit_the_type(env: Env, at: Progress, id: int, expected: TypeKey)
    ensures
        value_run(env, at, id, expected).1 matches Ok(val) ==> fits(env.types, val, expected),
{
    lemma_good(env, at, id, expected);
}

// -- options ------------------------------------------------------------------------------------

/// Whether the variants are those of an option, in the given order: a unit `None`, and a `Some`
/// with one field of a registered type.
pub open spec fn are_option_variants(types: Seq<TypeEntry>, none: Variant, some: Variant) -> bool {
    &&& none.name@ == "None"@
    &&& none.kind == VariantKind::Unit
    &&& some.name@ == "Some"@
    &&& some.kind == VariantKind::Tuple
    &&& some.fields@.len() == 1
    &&& is_registered(types, some.fields@[0].ty)
}

/// A type is shaped like an option exactly when it is an enum of two variants, in either order, a
/// unit `None` and a `Some` with one field; its payload is the type of that field.
pub proof fn law_options_have_a_payload(types: Seq<TypeEntry>, key: TypeKey)
    ensures
        match entry_of(types, key).shape {
            Shape::Enum(list) => {
                let v = list@;
                &&& payload_of(types, key) is Some <==> v.len() == 2 && (are_option_variants(
                    types,
                    v[0],
                    v[1],
                ) || are_option_variants(types, v[1], v[0]))
                &&& v.len() == 2 && are_option_variants(types, v[0], v[1]) ==> payload_of(
                    types,
                    key,
                ) == Some(v[1].fields@[0].ty)
                &&& v.len() == 2 && are_option_variants(types, v[1], v[0]) ==> payload_of(
                    types,
                    key,
                ) == Some(v[0].fields@[0].ty)
            },
            _ => payload_of(types, key) is None,
        },
{
    reveal(payload_of);
    if let Shape::Enum(list) = entry_of(types, key).shape {
        let v = list@;
        law_first_variant_of_the_name(v, "None"@);
        law_first_variant_of_the_name(v, "Some"@);
        reveal_strlit("None");
        reveal_strlit("Some");
        assert("None"@[0] != "Some"@[0]);
    }
}

} // verus!
