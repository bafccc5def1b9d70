//! Literals are built as themselves, and what they depend on is kept.

use vstd::prelude::*;

use crate::asset_path::is_asset_path;
use crate::ast::last_ident;
use crate::building::{
    bool_value, coerced, constructed, direct_run, entity_ref_value, fields_run, float_value,
    forms_run, full_form, int_value, items_run, lemma_value_run, list_run, named_run, no_shallower,
    overlaid, path_of, plain_list_run, registered, room, string_value, struct_run, symbol_run,
    tuple_run, tuple_struct_run, unit_value, value_run, value_step, values_of, wrapped_list, Body,
    Env, Nested, Progress, Run,
};
use crate::model::{Head, Path};
use crate::plan::{Failure, Query, Stop, Val};
use crate::registry::{
    built_asset, entry_of, field_index, is_registered, payload_of, variant_index, Builtin, Field,
    FloatType, IntType, Shape, TypeEntry, TypeKey,
};
use crate::scene_reference::Source;
use crate::span::Span;

verus! {

/// The values of the integer types.
pub proof fn law_integer_types(v: int)
    ensures
        IntType::I8.holds(v) <==> -0x80 <= v <= 0x7f,
        IntType::I16.holds(v) <==> -0x8000 <= v <= 0x7fff,
        IntType::I32.holds(v) <==> -0x8000_0000 <= v <= 0x7fff_ffff,
        IntType::I64.holds(v) <==> -0x8000_0000_0000_0000 <= v <= 0x7fff_ffff_ffff_ffff,
        IntType::I128.holds(v) <==> -0x8000_0000_0000_0000_0000_0000_0000_0000 <= v
            <= 0x7fff_ffff_ffff_ffff_ffff_ffff_ffff_ffff,
        IntType::Isize.holds(v) <==> isize::MIN <= v <= isize::MAX,
        IntType::U8.holds(v) <==> 0 <= v <= 0xff,
        IntType::U16.holds(v) <==> 0 <= v <= 0xffff,
        IntType::U32.holds(v) <==> 0 <= v <= 0xffff_ffff,
        IntType::U64.holds(v) <==> 0 <= v <= 0xffff_ffff_ffff_ffff,
        IntType::U128.holds(v) <==> 0 <= v <= 0xffff_ffff_ffff_ffff_ffff_ffff_ffff_ffff,
        IntType::Usize.holds(v) <==> 0 <= v <= usize::MAX,
{
}

/// The plan of a literal for a type that takes it without a conversion.
pub open spec fn is_built(run: Run, at: Progress, val: Val) -> bool {
    run == (at, Ok::<Val, Stop>(val))
}

/// Whether a run ends with an error.
pub open spec fn is_refused(run: Run, failure: Failure) -> bool {
    run.1 == Err::<Val, Stop>(Stop::Error(failure))
}

/// A literal is built as itself for a type that takes it: a boolean for `bool`, an integer in
/// range for an integer type, an integer that is exact or a float for a floating-point type, and
/// a string for a text type. An integer that is out of range, or not exact, is refused, and so is
/// a finite double that would round to an infinite single. Nothing is asked, and nothing is
/// depended on.
pub proof fn law_literals_are_built_as_themselves(
    env: Env,
    at: Progress,
    id: int,
    expected: TypeKey,
)
    requires
        env.document.value(id) is Some,
        at.depth < env.max_depth,
    ensures
        ({
            let value = env.document.value(id)->0;
            let entry = entry_of(env.types, expected);
            let run = value_run(env, at, id, expected);
            match (value.head, entry.builtin) {
                (Head::Unit, Builtin::Unit) => is_built(run, at, Val::Unit),
                (Head::Bool(b), Builtin::Bool) => is_built(run, at, Val::Bool(b)),
                (Head::Int(n), Builtin::Int(ty)) => if ty.holds(n) {
                    is_built(run, at, Val::Int(ty, n))
                } else {
                    is_refused(
                        run,
                        Failure::IntegerOutOfRange {
                            value: n,
                            type_path: entry.path@,
                            span: value.span,
                        },
                    )
                },
                (Head::Int(n), Builtin::Float(FloatType::F32)) => if -16777216 <= n <= 16777216 {
                    is_built(run, at, Val::Whole(FloatType::F32, n))
                } else {
                    is_refused(
                        run,
                        Failure::NotRepresentable {
                            value: n,
                            type_path: entry.path@,
                            span: value.span,
                        },
                    )
                },
                (Head::Int(n), Builtin::Float(FloatType::F64)) => if -9007199254740992 <= n
                    <= 9007199254740992 {
                    is_built(run, at, Val::Whole(FloatType::F64, n))
                } else {
                    is_refused(
                        run,
                        Failure::NotRepresentable {
                            value: n,
                            type_path: entry.path@,
                            span: value.span,
                        },
                    )
                },
                (Head::Float(f), Builtin::Float(FloatType::F64)) => is_built(
                    run,
                    at,
                    Val::Float(FloatType::F64, f),
                ),
                (Head::Float(f), Builtin::Float(FloatType::F32)) => if 0x47ef_ffff_f000_0000
                    <= f.magnitude_bits() < 0x7ff0_0000_0000_0000 {
                    payload_of(env.types, expected) is None ==> is_refused(
                        run,
                        Failure::Mismatch {
                            found: "f64"@,
                            expected: entry.path@,
                            span: value.span,
                        },
                    )
                } else {
                    is_built(run, at, Val::Float(FloatType::F32, f))
                },
                (Head::Str(s), Builtin::Text) => is_built(run, at, Val::Text(s)),
                (Head::Str(s), Builtin::SharedText) => is_built(run, at, Val::SharedText(s)),
                (Head::Str(s), Builtin::AssetPath) => if is_asset_path(s) {
                    is_built(run, at, Val::AssetPath(s))
                } else {
                    is_refused(run, Failure::InvalidAssetPath { path: s, span: value.span })
                },
                _ => true,
            }
        }),
{
    lemma_value_run(env, at, id, expected);
    reveal(value_step);
    reveal(direct_run);
    reveal(unit_value);
    reveal(bool_value);
    reveal(int_value);
    reveal(float_value);
    reveal(string_value);
    reveal(coerced);
    let entered = Progress { depth: at.depth + 1, ..at };
    assert(Progress { depth: (entered.depth - 1) as nat, ..entered } == at);
}

/// `#Name` is built as the reference of the first entity of that name: the digest of the path of
/// the document, and the id of the node. A name that no entity has is refused.
pub proof fn law_names_are_built_as_references(
    env: Env,
    at: Progress,
    id: int,
    expected: TypeKey,
    name: Seq<char>,
    i: int,
)
    requires
        env.document.value(id) matches Some(value) && value.head == Head::EntityRef(name),
        at.depth < env.max_depth,
        entry_of(env.types, expected).builtin is EntityTemplate,
        0 <= i <= env.names.len(),
        forall|j: int| 0 <= j < i ==> (#[trigger] env.names[j]).0 != name,
        i < env.names.len() ==> env.names[i].0 == name,
    ensures
        ({
            let run = value_run(env, at, id, expected);
            if i < env.names.len() {
                &&& run.0 == at
                &&& run.1 matches Ok(Val::Entity(reference)) && reference.source
                    == (Source::Asset { path_hash: env.path_hash }) && reference.name_id
                    == env.names[i].1 && reference.runtime == 0
            } else {
                is_refused(
                    run,
                    Failure::UnknownEntityName { name, span: env.document.value(id)->0.span },
                )
            }
        }),
{
    lemma_value_run(env, at, id, expected);
    reveal(value_step);
    reveal(direct_run);
    reveal(entity_ref_value);
    reveal(coerced);
    lemma_first_named(env.names, 0, i, name);
    let entered = Progress { depth: at.depth + 1, ..at };
    assert(Progress { depth: (entered.depth - 1) as nat, ..entered } == at);
}

proof fn lemma_first_named(names: Seq<(Seq<char>, u32)>, k: int, i: int, name: Seq<char>)
    requires
        0 <= k <= i <= names.len(),
        forall|j: int| 0 <= j < i ==> (#[trigger] names[j]).0 != name,
        i < names.len() ==> names[i].0 == name,
    ensures
        crate::building::named_entity(names, k, name) == (if i < names.len() {
            Some(names[i].1)
        } else {
            None
        }),
    decreases i - k,
{
    if k < i {
        assert(names[k].0 != name);
        lemma_first_named(names, k + 1, i, name);
    }
}

/// The literal that a value is, as the type it has by itself.
pub open spec fn natural(head: Head) -> Option<Val> {
    match head {
        Head::Bool(b) => Some(Val::Bool(b)),
        Head::Int(n) => Some(
            Val::Int(
                if -0x8000_0000_0000_0000 <= n <= 0x7fff_ffff_ffff_ffff {
                    IntType::I64
                } else {
                    IntType::I128
                },
                n,
            ),
        ),
        Head::Float(f) => Some(Val::Float(FloatType::F64, f)),
        Head::Str(s) => Some(Val::Text(s)),
        _ => None,
    }
}

/// The name of the type that a literal has by itself.
pub open spec fn natural_name(head: Head) -> Seq<char> {
    match head {
        Head::Bool(_) => "bool"@,
        Head::Int(n) => if -0x8000_0000_0000_0000 <= n <= 0x7fff_ffff_ffff_ffff {
            "i64"@
        } else {
            "i128"@
        },
        Head::Float(_) => "f64"@,
        _ => "alloc::string::String"@,
    }
}

/// The assets that a template builds handles of are those that its output, where that is
/// registered, is a handle of.
pub proof fn law_handles_name_their_asset(types: Seq<TypeEntry>, key: TypeKey, asset: u64)
    ensures
        built_asset(types, key) == Some(asset) <==> {
            let output = entry_of(types, key).template_output;
            &&& output is Some
            &&& is_registered(types, output->0)
            &&& entry_of(types, output->0).handle_asset == Some(asset)
        },
{
}

/// For a type that takes no literals by itself, a literal needs a registered conversion: without
/// one it is refused; with one it is asked whether the conversion takes the literal, and it is
/// built, converted, exactly where it does. A string for a handle of an asset has to be an asset
/// path, and then the asset is depended on.
pub proof fn law_other_types_need_a_conversion(
    env: Env,
    at: Progress,
    id: int,
    expected: TypeKey,
)
    requires
        env.document.value(id) matches Some(value) && natural(value.head) is Some,
        at.depth < env.max_depth,
        entry_of(env.types, expected).builtin is Other,
        payload_of(env.types, expected) is None,
    ensures
        ({
            let value = env.document.value(id)->0;
            let literal = natural(value.head)->0;
            let entry = entry_of(env.types, expected);
            let run = value_run(env, at, id, expected);
            let asset = built_asset(env.types, expected);
            if value.head is Str && asset is Some && !is_asset_path(value.head->Str_0) {
                is_refused(
                    run,
                    Failure::InvalidAssetPath { path: value.head->Str_0, span: value.span },
                )
            } else if !entry.converts {
                is_refused(
                    run,
                    Failure::Mismatch {
                        found: natural_name(value.head),
                        expected: entry.path@,
                        span: value.span,
                    },
                )
            } else if at.asked >= env.answers.len() {
                run.1 == Err::<Val, Stop>(Stop::Ask(Query::Convert(expected, literal)))
            } else if env.answers[at.asked as int] is Done {
                &&& run.1 == Ok::<Val, Stop>(Val::Converted(expected, Box::new(literal)))
                &&& run.0.asked == at.asked + 1
                &&& run.0.depth == at.depth
                &&& run.0.dependencies == (if value.head is Str && asset is Some {
                    at.dependencies.push((asset->0, value.head->Str_0))
                } else {
                    at.dependencies
                })
            } else {
                is_refused(
                    run,
                    Failure::Mismatch {
                        found: natural_name(value.head),
                        expected: entry.path@,
                        span: value.span,
                    },
                )
            }
        }),
{
    lemma_value_run(env, at, id, expected);
    reveal(value_step);
    reveal(direct_run);
    reveal(bool_value);
    reveal(int_value);
    reveal(float_value);
    reveal(string_value);
    reveal(coerced);
}

// -- dependencies -------------------------------------------------------------------------------

/// Whether the document has the string `s` somewhere.
pub open spec fn is_written(env: Env, s: Seq<char>) -> bool {
    exists|id: int|
        0 <= id < env.document.values.len() && (#[trigger] env.document.values[id]).head
            == Head::Str(s)
}

/// Whether a run has only added to what was asked and depended on, and every path that it added
/// is a string of the document.
pub open spec fn grows(env: Env, from: Progress, to: Progress) -> bool {
    &&& from.asked <= to.asked
    &&& from.dependencies.len() <= to.dependencies.len()
    &&& forall|k: int|
        0 <= k < from.dependencies.len() ==> #[trigger] to.dependencies[k] == from.dependencies[k]
    &&& forall|k: int|
        from.dependencies.len() <= k < to.dependencies.len() ==> is_written(
            env,
            (#[trigger] to.dependencies[k]).1,
        )
}

proof fn lemma_grows_on(env: Env, a: Progress, b: Progress, c: Progress)
    requires
        grows(env, a, b),
        grows(env, b, c),
    ensures
        grows(env, a, c),
{
    assert forall|k: int| 0 <= k < a.dependencies.len() implies #[trigger] c.dependencies[k]
        == a.dependencies[k] by {
        assert(b.dependencies[k] == a.dependencies[k]);
    }
    assert forall|k: int| a.dependencies.len() <= k < c.dependencies.len() implies is_written(
        env,
        (#[trigger] c.dependencies[k]).1,
    ) by {
        if k < b.dependencies.len() {
            assert(c.dependencies[k] == b.dependencies[k]);
        }
    }
}

spec fn all_grow(env: Env, depth: nat, nested: Nested) -> bool {
    forall|at: Progress, id: int, ty: TypeKey|
        at.depth >= depth ==> grows(env, at, (#[trigger] nested(at, id, ty)).0)
}

proof fn lemma_items_grow(
    env: Env,
    at: Progress,
    fields: Seq<Field>,
    repeat: bool,
    ids: Seq<int>,
    k: int,
    span: Span,
    nested: Nested,
    depth: nat,
)
    requires
        all_grow(env, depth, nested),
        at.depth >= depth,
    ensures
        grows(env, at, items_run(env, at, fields, repeat, ids, k, span, nested).0),
    decreases ids.len() - k,
{
    if 0 <= k < ids.len() {
        let field = if repeat {
            fields[0]
        } else {
            fields[k]
        };
        if let Ok(ty) = registered(env, field, span) {
            let first = nested(at, ids[k], ty);
            let next = no_shallower(first.0, at.depth);
            if first.1 is Ok {
                lemma_items_grow(env, next, fields, repeat, ids, k + 1, span, nested, depth);
                let rest = items_run(env, next, fields, repeat, ids, k + 1, span, nested);
                assert(grows(env, at, next));
                lemma_grows_on(env, at, next, rest.0);
            }
        }
    }
}

proof fn lemma_fields_grow(
    env: Env,
    at: Progress,
    fields: Seq<Field>,
    type_path: Seq<char>,
    names: Seq<Seq<char>>,
    ids: Seq<int>,
    k: int,
    span: Span,
    nested: Nested,
    depth: nat,
)
    requires
        all_grow(env, depth, nested),
        at.depth >= depth,
    ensures
        grows(env, at, fields_run(env, at, fields, type_path, names, ids, k, span, nested).0),
    decreases ids.len() - k,
{
    if 0 <= k < ids.len() {
        if let Some(i) = field_index(fields, names[k]) {
            if let Ok(ty) = registered(env, fields[i], span) {
                let first = nested(at, ids[k], ty);
                let next = no_shallower(first.0, at.depth);
                if first.1 is Ok {
                    lemma_fields_grow(
                        env,
                        next,
                        fields,
                        type_path,
                        names,
                        ids,
                        k + 1,
                        span,
                        nested,
                        depth,
                    );
                    let rest = fields_run(
                        env,
                        next,
                        fields,
                        type_path,
                        names,
                        ids,
                        k + 1,
                        span,
                        nested,
                    );
                    assert(grows(env, at, next));
                    lemma_grows_on(env, at, next, rest.0);
                }
            }
        }
    }
}

proof fn lemma_forms_grow(
    env: Env,
    at: Progress,
    ty: TypeKey,
    variant: Seq<char>,
    body: Body,
    span: Span,
    nested: Nested,
    depth: nat,
)
    requires
        all_grow(env, depth, nested),
        at.depth >= depth,
    ensures
        grows(env, at, forms_run(env, at, ty, variant, body, span, nested).0),
{
    reveal(forms_run);
    reveal(overlaid);
    if let Shape::Enum(variants) = entry_of(env.types, ty).shape {
        if let Some(i) = variant_index(variants@, variant) {
            let fields = variants@[i].fields@;
            let path = crate::plan::variant_path(path_of(env, ty), variant);
            match body {
                Body::Unit => {},
                Body::Named { names, ids } => {
                    lemma_fields_grow(env, at, fields, path, names, ids, 0, span, nested, depth);
                },
                Body::Tuple { ids } => {
                    lemma_items_grow(env, at, fields, false, ids, 0, span, nested, depth);
                },
            }
        }
    }
}

proof fn lemma_finished_grow(
    env: Env,
    at: Progress,
    run: Run,
    named: TypeKey,
    expected: TypeKey,
    span: Span,
)
    requires
        grows(env, at, run.0),
    ensures
        grows(env, at, crate::building::finished(env, run, named, expected, span).0),
{
    reveal(constructed);
    reveal(coerced);
}

proof fn lemma_named_grow(
    env: Env,
    at: Progress,
    path: Path,
    body: Body,
    expected: TypeKey,
    span: Span,
    nested: Nested,
    depth: nat,
)
    requires
        all_grow(env, depth, nested),
        at.depth >= depth,
    ensures
        grows(env, at, named_run(env, at, path, body, expected, span, nested).0),
{
    reveal(named_run);
    lemma_forms_grow(env, at, expected, last_ident(path), body, span, nested, depth);
    if !crate::building::is_bare_variant(env, path, expected) {
        reveal(symbol_run);
        let symbol = symbol_run(env, at, path, span);
        assert(grows(env, at, symbol.0));
        if let Ok((named, variant)) = symbol.1 {
            let start = no_shallower(symbol.0, at.depth);
            assert(grows(env, at, start));
            match (variant, body) {
                (None, Body::Unit) => {
                    reveal(constructed);
                    reveal(coerced);
                },
                (Some(variant), _) => {
                    lemma_forms_grow(env, start, named, variant, body, span, nested, depth);
                    let run = full_form(forms_run(env, start, named, variant, body, span, nested));
                    lemma_grows_on(env, at, start, run.0);
                    lemma_finished_grow(env, at, run, named, expected, span);
                },
                (None, Body::Named { names, ids }) => {
                    reveal(struct_run);
                    let run = struct_run(env, start, named, names, ids, span, nested);
                    if let Shape::Struct(fields) = entry_of(env.types, named).shape {
                        let type_path = path_of(env, named);
                        lemma_fields_grow(
                            env,
                            start,
                            fields@,
                            type_path,
                            names,
                            ids,
                            0,
                            span,
                            nested,
                            depth,
                        );
                    }
                    lemma_grows_on(env, at, start, run.0);
                    lemma_finished_grow(env, at, run, named, expected, span);
                },
                (None, Body::Tuple { ids }) => {
                    reveal(tuple_struct_run);
                    let run = tuple_struct_run(env, start, named, ids, span, nested);
                    if let Shape::TupleStruct(fields) = entry_of(env.types, named).shape {
                        lemma_items_grow(env, start, fields@, false, ids, 0, span, nested, depth);
                    }
                    lemma_grows_on(env, at, start, run.0);
                    lemma_finished_grow(env, at, run, named, expected, span);
                },
            }
        }
    }
}

proof fn lemma_direct_grow(
    env: Env,
    at: Progress,
    id: int,
    expected: TypeKey,
    nested: Nested,
    depth: nat,
)
    requires
        all_grow(env, depth, nested),
        at.depth >= depth,
        env.document.value(id) is Some,
    ensures
        grows(env, at, direct_run(env, at, env.document.value(id)->0, expected, nested).0),
{
    let value = env.document.value(id)->0;
    let span = value.span;
    let ids = value.children;
    reveal(direct_run);
    match value.head {
        Head::Path(path) => {
            lemma_named_grow(env, at, path, Body::Unit, expected, span, nested, depth);
        },
        Head::Struct(path) => {
            let body = Body::Named { names: value.names, ids };
            lemma_named_grow(env, at, path, body, expected, span, nested, depth);
        },
        Head::NamedTuple(path) => {
            lemma_named_grow(env, at, path, Body::Tuple { ids }, expected, span, nested, depth);
        },
        Head::Tuple => {
            reveal(tuple_run);
            if let Shape::Tuple(fields) = entry_of(env.types, expected).shape {
                lemma_items_grow(env, at, fields@, false, ids, 0, span, nested, depth);
            }
        },
        Head::List => {
            reveal(list_run);
            reveal(plain_list_run);
            let list = match wrapped_list(env, expected) {
                Some(inner) => inner,
                None => expected,
            };
            if let Shape::List(item) = entry_of(env.types, list).shape {
                lemma_items_grow(env, at, seq![item], true, ids, 0, span, nested, depth);
            }
        },
        Head::Str(s) => {
            reveal(string_value);
            reveal(coerced);
            assert(env.document.values[id].head == Head::Str(s));
            assert(is_written(env, s));
        },
        _ => {
            reveal(unit_value);
            reveal(bool_value);
            reveal(int_value);
            reveal(float_value);
            reveal(entity_ref_value);
            reveal(coerced);
        },
    }
}

/// Dependencies are never lost: whatever building a value comes to, the assets that were depended
/// on before still are, at their places, and each that is added is a string of the document. No
/// answer is given back.
pub proof fn law_dependencies_are_kept(env: Env, at: Progress, id: int, expected: TypeKey)
    ensures
        grows(env, at, value_run(env, at, id, expected).0),
    decreases room(env, at),
{
    lemma_value_run(env, at, id, expected);
    reveal(value_step);
    if let Some(value) = env.document.value(id) {
        if at.depth < env.max_depth {
            let entered = Progress { depth: at.depth + 1, ..at };
            let nested = values_of(env);
            assert forall|deeper: Progress, other: int, ty: TypeKey|
                deeper.depth >= entered.depth implies grows(
                env,
                deeper,
                (#[trigger] nested(deeper, other, ty)).0,
            ) by {
                law_dependencies_are_kept(env, deeper, other, ty);
            }
            assert(all_grow(env, entered.depth, nested));
            lemma_direct_grow(env, entered, id, expected, nested, entered.depth);
            let direct = direct_run(env, entered, value, expected, nested);
            if let Some(payload) = payload_of(env.types, expected) {
                let start = no_shallower(direct.0, entered.depth);
                let inner = nested(start, id, payload);
                assert(grows(env, entered, start));
                lemma_grows_on(env, entered, start, inner.0);
            }
        }
    }
}

} // verus!
