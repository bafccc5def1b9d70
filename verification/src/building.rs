//! What building a value for a destination type gives.
//!
//! Building reads the document and the registered types. What it cannot read off them it asks:
//! which type a path names, whether a conversion takes a value, whether a value applies to
//! another. The answers so far are part of the input, in the order of the questions; a question
//! without an answer stops the run.

use vstd::prelude::*;

use crate::asset_path::is_asset_path;
use crate::ast::last_ident;
use crate::digits::decimal;
use crate::float::{Float, INFINITY};
use crate::model::{path_text, Document, Head, Path, Value};
use crate::plan::{
    default_slots, failure, variant_path, Answer, Failure, Form, PartModel, Query, Stop, Val,
    VariantModel,
};
use crate::registry::{
    built_asset, entry_of, exact_limit, field_index, is_registered, payload_of, variant_index,
    Builtin, Field, FloatType, IntType, Shape, TypeEntry, TypeKey, VariantKind,
};
use crate::scene_reference::{Reference, Source};
use crate::span::Span;

verus! {

/// The message for values that are nested too deeply.
pub const NESTED_TOO_DEEPLY: &'static str = "the values are nested too deeply";

/// The bits of the least finite double that rounds to an infinite single.
pub const SINGLE_OVERFLOW: u64 = 0x47ef_ffff_f000_0000;

/// What a run of the builder does not change.
pub ghost struct Env {
    pub types: Seq<TypeEntry>,
    pub document: Document,
    /// The named entities of the document.
    pub names: Seq<(Seq<char>, u32)>,
    /// The digest of the path of the document.
    pub path_hash: u64,
    pub max_depth: nat,
    pub answers: Seq<Answer>,
}

/// How far a run has come.
pub ghost struct Progress {
    /// The number of values that have been entered and not left. A value that cannot be built is
    /// not left.
    pub depth: nat,
    /// The number of questions that have been answered.
    pub asked: nat,
    /// The assets that the values depend on: the numbers of their types, and their paths.
    pub dependencies: Seq<(u64, Seq<char>)>,
}

/// The progress and the result of a run.
pub type Run = (Progress, Result<Val, Stop>);

/// The progress and the parts of a run over several values.
pub type PartsRun = (Progress, Result<Seq<PartModel>, Stop>);

/// The progress and the forms of a run over a variant.
pub type FormsRun = (Progress, Result<VariantModel, Stop>);

/// What the values inside a value are.
pub type Nested = spec_fn(Progress, int, TypeKey) -> Run;

/// What follows a path.
pub ghost enum Body {
    Unit,
    Named { names: Seq<Seq<char>>, ids: Seq<int> },
    Tuple { ids: Seq<int> },
}

/// How many values may still be entered.
pub open spec fn room(env: Env, at: Progress) -> nat {
    if at.depth < env.max_depth {
        (env.max_depth - at.depth) as nat
    } else {
        0
    }
}

/// The progress, at the given depth at least.
pub open spec fn no_shallower(at: Progress, depth: nat) -> Progress {
    if at.depth < depth {
        Progress { depth, ..at }
    } else {
        at
    }
}

/// The answer to the next question.
pub open spec fn next_answer(env: Env, at: Progress) -> Option<Answer> {
    if at.asked < env.answers.len() {
        Some(env.answers[at.asked as int])
    } else {
        None
    }
}

/// The progress after a question was answered.
pub open spec fn answered(at: Progress) -> Progress {
    Progress { asked: at.asked + 1, ..at }
}

pub open spec fn path_of(env: Env, ty: TypeKey) -> Seq<char> {
    entry_of(env.types, ty).path@
}

/// The error for a value that was found where another type is expected.
pub open spec fn mismatch(env: Env, found: Seq<char>, expected: TypeKey, span: Span) -> Stop {
    Stop::Error(Failure::Mismatch { found, expected: path_of(env, expected), span })
}

/// A value of the type with the path `found`, for the expected type: it is taken as it is where
/// it has that type, and otherwise by a registered conversion.
#[verifier::opaque]
pub open spec fn coerced(
    env: Env,
    at: Progress,
    produced: Val,
    found: Seq<char>,
    same: bool,
    expected: TypeKey,
    span: Span,
) -> Run {
    if same {
        (at, Ok(produced))
    } else if !entry_of(env.types, expected).converts {
        (at, Err(mismatch(env, found, expected, span)))
    } else {
        match next_answer(env, at) {
            None => (at, Err(Stop::Ask(Query::Convert(expected, produced)))),
            Some(answer) => if answer is Done {
                (answered(at), Ok(Val::Converted(expected, Box::new(produced))))
            } else {
                (answered(at), Err(mismatch(env, found, expected, span)))
            },
        }
    }
}

// -- literals -----------------------------------------------------------------------------------

#[verifier::opaque]
pub open spec fn unit_value(env: Env, at: Progress, expected: TypeKey, span: Span) -> Run {
    if entry_of(env.types, expected).builtin is Unit {
        (at, Ok(Val::Unit))
    } else {
        (at, Err(mismatch(env, "()"@, expected, span)))
    }
}

#[verifier::opaque]
pub open spec fn bool_value(
    env: Env,
    at: Progress,
    literal: bool,
    expected: TypeKey,
    span: Span,
) -> Run {
    coerced(
        env,
        at,
        Val::Bool(literal),
        "bool"@,
        entry_of(env.types, expected).builtin is Bool,
        expected,
        span,
    )
}

/// The type that an integer literal has by itself.
pub open spec fn natural_type(literal: int) -> IntType {
    if IntType::I64.holds(literal) {
        IntType::I64
    } else {
        IntType::I128
    }
}

pub open spec fn natural_path(literal: int) -> Seq<char> {
    if IntType::I64.holds(literal) {
        "i64"@
    } else {
        "i128"@
    }
}

#[verifier::opaque]
pub open spec fn int_value(
    env: Env,
    at: Progress,
    literal: int,
    expected: TypeKey,
    span: Span,
) -> Run {
    match entry_of(env.types, expected).builtin {
        Builtin::Int(ty) => if ty.holds(literal) {
            (at, Ok(Val::Int(ty, literal)))
        } else {
            (
                at,
                Err(
                    Stop::Error(
                        Failure::IntegerOutOfRange {
                            value: literal,
                            type_path: path_of(env, expected),
                            span,
                        },
                    ),
                ),
            )
        },
        Builtin::Float(ty) => if -exact_limit(ty) <= literal <= exact_limit(ty) {
            (at, Ok(Val::Whole(ty, literal)))
        } else {
            (
                at,
                Err(
                    Stop::Error(
                        Failure::NotRepresentable {
                            value: literal,
                            type_path: path_of(env, expected),
                            span,
                        },
                    ),
                ),
            )
        },
        _ => coerced(
            env,
            at,
            Val::Int(natural_type(literal), literal),
            natural_path(literal),
            false,
            expected,
            span,
        ),
    }
}

/// Whether rounding the finite value to single precision gives an infinite one.
pub open spec fn overflows_single(literal: Float) -> bool {
    SINGLE_OVERFLOW <= literal.magnitude_bits() < INFINITY
}

#[verifier::opaque]
pub open spec fn float_value(
    env: Env,
    at: Progress,
    literal: Float,
    expected: TypeKey,
    span: Span,
) -> Run {
    match entry_of(env.types, expected).builtin {
        Builtin::Float(FloatType::F32) => if overflows_single(literal) {
            (at, Err(mismatch(env, "f64"@, expected, span)))
        } else {
            (at, Ok(Val::Float(FloatType::F32, literal)))
        },
        Builtin::Float(FloatType::F64) => (at, Ok(Val::Float(FloatType::F64, literal))),
        _ => coerced(
            env,
            at,
            Val::Float(FloatType::F64, literal),
            "f64"@,
            false,
            expected,
            span,
        ),
    }
}

pub open spec fn invalid_asset_path(literal: Seq<char>, span: Span) -> Stop {
    Stop::Error(Failure::InvalidAssetPath { path: literal, span })
}

#[verifier::opaque]
pub open spec fn string_value(
    env: Env,
    at: Progress,
    literal: Seq<char>,
    expected: TypeKey,
    span: Span,
) -> Run {
    let asset = built_asset(env.types, expected);
    match entry_of(env.types, expected).builtin {
        Builtin::Text => (at, Ok(Val::Text(literal))),
        Builtin::SharedText => (at, Ok(Val::SharedText(literal))),
        Builtin::AssetPath => if is_asset_path(literal) {
            (at, Ok(Val::AssetPath(literal)))
        } else {
            (at, Err(invalid_asset_path(literal, span)))
        },
        _ => if asset is Some && !is_asset_path(literal) {
            (at, Err(invalid_asset_path(literal, span)))
        } else {
            let run = coerced(
                env,
                at,
                Val::Text(literal),
                "alloc::string::String"@,
                false,
                expected,
                span,
            );
            match (run.1, asset) {
                (Ok(_), Some(asset)) => (
                    Progress { dependencies: run.0.dependencies.push((asset, literal)), ..run.0 },
                    run.1,
                ),
                _ => run,
            }
        },
    }
}

/// The first entity at or after `i` with the given name.
pub open spec fn named_entity(names: Seq<(Seq<char>, u32)>, i: int, name: Seq<char>) -> Option<u32>
    decreases names.len() - i,
{
    if i < 0 || i >= names.len() {
        None
    } else if names[i].0 == name {
        Some(names[i].1)
    } else {
        named_entity(names, i + 1, name)
    }
}

#[verifier::opaque]
pub open spec fn entity_ref_value(
    env: Env,
    at: Progress,
    name: Seq<char>,
    expected: TypeKey,
    span: Span,
) -> Run {
    match named_entity(env.names, 0, name) {
        None => (at, Err(Stop::Error(Failure::UnknownEntityName { name, span }))),
        Some(node) => coerced(
            env,
            at,
            Val::Entity(
                Reference {
                    source: Source::Asset { path_hash: env.path_hash },
                    name_id: node as usize,
                    runtime: 0,
                },
            ),
            "bevy_ecs::template::EntityTemplate"@,
            entry_of(env.types, expected).builtin is EntityTemplate,
            expected,
            span,
        ),
    }
}

// -- composite values ---------------------------------------------------------------------------

/// The registration of a field's type.
pub open spec fn registered(env: Env, field: Field, span: Span) -> Result<TypeKey, Stop> {
    if is_registered(env.types, field.ty) {
        Ok(field.ty)
    } else {
        Err(Stop::Error(Failure::UnregisteredType { type_path: field.type_path@, span }))
    }
}

/// The value with the given id, for the expected type, by the values inside it. A destination
/// shaped like an option also takes its payload directly, where the value does not fit by
/// itself.
#[verifier::opaque]
pub open spec fn value_step(
    env: Env,
    at: Progress,
    id: int,
    expected: TypeKey,
    nested: Nested,
) -> Run {
    match env.document.value(id) {
        None => (
            at,
            Err(
                Stop::Error(
                    Failure::Malformed {
                        message: "no value with id "@ + decimal(id as nat),
                        span: Span { start: 0, end: 0 },
                    },
                ),
            ),
        ),
        Some(value) => if at.depth >= env.max_depth {
            (
                at,
                Err(
                    Stop::Error(
                        Failure::Malformed { message: NESTED_TOO_DEEPLY@, span: value.span },
                    ),
                ),
            )
        } else {
            let entered = Progress { depth: at.depth + 1, ..at };
            let direct = direct_run(env, entered, value, expected, nested);
            let result = match direct.1 {
                Err(Stop::Error(Failure::Mismatch { .. })) => match payload_of(
                    env.types,
                    expected,
                ) {
                    Some(payload) => {
                        let inner = nested(
                            no_shallower(direct.0, entered.depth),
                            id,
                            payload,
                        );
                        (
                            inner.0,
                            match inner.1 {
                                Ok(value) => Ok(in_some(expected, value)),
                                Err(Stop::Ask(query)) => Err(Stop::Ask(query)),
                                Err(_) => direct.1,
                            },
                        )
                    },
                    None => direct,
                },
                _ => direct,
            };
            if result.1 is Ok {
                (left(result.0), result.1)
            } else {
                result
            }
        },
    }
}

/// The value with the given id, for the expected type.
#[verifier::opaque]
pub open spec fn value_run(env: Env, at: Progress, id: int, expected: TypeKey) -> Run
    decreases room(env, at), 1int,
{
    value_step(env, at, id, expected, below(env, at))
}

/// The values inside a value, as far as they are deeper than `at`.
pub open spec fn below(env: Env, at: Progress) -> Nested
    decreases room(env, at), 0int,
{
    |deeper: Progress, id: int, ty: TypeKey|
        if room(env, deeper) < room(env, at) {
            value_run(env, deeper, id, ty)
        } else {
            (deeper, Ok(Val::Unit))
        }
}

/// The values inside a value.
pub open spec fn values_of(env: Env) -> Nested {
    |at: Progress, id: int, ty: TypeKey| value_run(env, at, id, ty)
}

/// The progress after a value was left.
pub open spec fn left(at: Progress) -> Progress {
    Progress { depth: (at.depth - 1) as nat, ..at }
}

/// The variant `Some` with the given payload alone.
pub open spec fn in_some(ty: TypeKey, value: Val) -> Val {
    Val::Variant(
        VariantModel {
            ty,
            variant: "Some"@,
            kind: VariantKind::Tuple,
            defaults: Seq::empty(),
            supplied: seq![PartModel { name: Seq::empty(), value }],
        },
    )
}

/// A value as it stands, for the expected type.
#[verifier::opaque]
pub open spec fn direct_run(
    env: Env,
    at: Progress,
    value: Value,
    expected: TypeKey,
    nested: Nested,
) -> Run {
    let span = value.span;
    match value.head {
        Head::Unit => unit_value(env, at, expected, span),
        Head::Bool(literal) => bool_value(env, at, literal, expected, span),
        Head::Int(literal) => int_value(env, at, literal, expected, span),
        Head::Float(literal) => float_value(env, at, literal, expected, span),
        Head::Str(literal) => string_value(env, at, literal, expected, span),
        Head::EntityRef(name) => entity_ref_value(env, at, name, expected, span),
        Head::Path(path) => named_run(env, at, path, Body::Unit, expected, span, nested),
        Head::Tuple => tuple_run(env, at, value.children, expected, span, nested),
        Head::List => list_run(env, at, value.children, expected, span, nested),
        Head::Struct(path) => named_run(
            env,
            at,
            path,
            Body::Named { names: value.names, ids: value.children },
            expected,
            span,
            nested,
        ),
        Head::NamedTuple(path) => named_run(
            env,
            at,
            path,
            Body::Tuple { ids: value.children },
            expected,
            span,
            nested,
        ),
    }
}

/// The type that a path names, and the variant.
#[verifier::opaque]
pub open spec fn symbol_run(env: Env, at: Progress, path: Path, span: Span) -> (
    Progress,
    Result<(TypeKey, Option<Seq<char>>), Stop>,
) {
    match next_answer(env, at) {
        None => (at, Err(Stop::Ask(Query::Symbol(path_text(path))))),
        Some(Answer::Symbol(ty, variant)) => (
            answered(at),
            if is_registered(env.types, ty) {
                Ok(
                    (
                        ty,
                        match variant {
                            Some(variant) => Some(variant@),
                            None => None,
                        },
                    ),
                )
            } else {
                Err(
                    Stop::Error(Failure::UnregisteredType { type_path: path_text(path), span }),
                )
            },
        ),
        Some(answer) => (
            answered(at),
            Err(
                Stop::Error(
                    Failure::UnresolvedSymbol {
                        reason: match failure(answer) {
                            Some(reason) => reason,
                            None => Seq::empty(),
                        },
                        span,
                    },
                ),
            ),
        ),
    }
}

/// Whether the path is the bare name of a variant of the type.
pub open spec fn is_bare_variant(env: Env, path: Path, expected: TypeKey) -> bool {
    path.segments.len() == 1 && match entry_of(env.types, expected).shape {
        Shape::Enum(variants) => variant_index(variants@, last_ident(path)) is Some,
        _ => false,
    }
}

/// A value written as a path and a body: `Marker`, `Foo::Qux`, `Bar { a: 1 }`, `Bar(2)`.
///
/// The bare name of a variant of the expected type is that variant. Of a value of the expected
/// type, the supplied parts are kept apart from the rest, so that they patch nothing else; a
/// value of another type is made in full and then converted.
#[verifier::opaque]
pub open spec fn named_run(
    env: Env,
    at: Progress,
    path: Path,
    body: Body,
    expected: TypeKey,
    span: Span,
    nested: Nested,
) -> Run {
    if is_bare_variant(env, path, expected) {
        full_form(forms_run(env, at, expected, last_ident(path), body, span, nested))
    } else {
        let symbol = symbol_run(env, at, path, span);
        match symbol.1 {
            Err(stop) => (symbol.0, Err(stop)),
            Ok((named, variant)) => {
                let start = no_shallower(symbol.0, at.depth);
                match (variant, body) {
                    (None, Body::Unit) => constructed(env, start, named, None, expected, span),
                    (Some(variant), _) => finished(
                        env,
                        full_form(forms_run(env, start, named, variant, body, span, nested)),
                        named,
                        expected,
                        span,
                    ),
                    (None, Body::Named { names, ids }) => finished(
                        env,
                        struct_run(env, start, named, names, ids, span, nested),
                        named,
                        expected,
                        span,
                    ),
                    (None, Body::Tuple { ids }) => finished(
                        env,
                        tuple_struct_run(env, start, named, ids, span, nested),
                        named,
                        expected,
                        span,
                    ),
                }
            },
        }
    }
}

/// The full form of a variant as a value.
pub open spec fn full_form(run: FormsRun) -> Run {
    (
        run.0,
        match run.1 {
            Ok(forms) => Ok(Val::Variant(forms)),
            Err(stop) => Err(stop),
        },
    )
}

/// What becomes of the supplied parts of a value of the type `named`.
pub open spec fn finished(
    env: Env,
    partial: Run,
    named: TypeKey,
    expected: TypeKey,
    span: Span,
) -> Run {
    match partial.1 {
        Err(_) => partial,
        Ok(value) => if named == expected {
            partial
        } else {
            constructed(env, partial.0, named, Some(value), expected, span)
        },
    }
}

/// The default value of the type `named` with the given parts applied, for the expected type.
#[verifier::opaque]
pub open spec fn constructed(
    env: Env,
    at: Progress,
    named: TypeKey,
    partial: Option<Val>,
    expected: TypeKey,
    span: Span,
) -> Run {
    let type_path = path_of(env, named);
    if !entry_of(env.types, named).has_default {
        (at, Err(Stop::Error(Failure::MissingDefault { type_path, span })))
    } else {
        match partial {
            None => coerced(
                env,
                at,
                Val::Default(named),
                type_path,
                named == expected,
                expected,
                span,
            ),
            Some(patch) => match next_answer(env, at) {
                None => (at, Err(Stop::Ask(Query::Fill(named, patch)))),
                Some(answer) => match failure(answer) {
                    Some(error) => (
                        answered(at),
                        Err(Stop::Error(Failure::ApplyFailed { type_path, error, span })),
                    ),
                    None => coerced(
                        env,
                        answered(at),
                        Val::Filled(named, Box::new(patch)),
                        type_path,
                        named == expected,
                        expected,
                        span,
                    ),
                },
            },
        }
    }
}

pub open spec fn grouped(run: PartsRun, form: Form, ty: TypeKey) -> Run {
    (
        run.0,
        match run.1 {
            Ok(parts) => Ok(Val::Group(form, ty, parts)),
            Err(stop) => Err(stop),
        },
    )
}

/// The supplied fields of a struct, and no others.
#[verifier::opaque]
pub open spec fn struct_run(
    env: Env,
    at: Progress,
    ty: TypeKey,
    names: Seq<Seq<char>>,
    ids: Seq<int>,
    span: Span,
    nested: Nested,
) -> Run {
    match entry_of(env.types, ty).shape {
        Shape::Struct(fields) => grouped(
            fields_run(env, at, fields@, path_of(env, ty), names, ids, 0, span, nested),
            Form::Struct,
            ty,
        ),
        _ => (
            at,
            Err(Stop::Error(Failure::TypeNotStruct { type_path: path_of(env, ty), span })),
        ),
    }
}

pub open spec fn too_many(type_path: Seq<char>, given: int, expected: int, span: Span) -> Stop {
    Stop::Error(Failure::TooManyTupleFields { type_path, given, expected, span })
}

/// The supplied leading fields of a tuple struct, and no others.
#[verifier::opaque]
pub open spec fn tuple_struct_run(
    env: Env,
    at: Progress,
    ty: TypeKey,
    ids: Seq<int>,
    span: Span,
    nested: Nested,
) -> Run {
    match entry_of(env.types, ty).shape {
        Shape::TupleStruct(fields) => if ids.len() > fields@.len() {
            (at, Err(too_many(path_of(env, ty), ids.len() as int, fields@.len() as int, span)))
        } else {
            grouped(items_run(env, at, fields@, false, ids, 0, span, nested), Form::TupleStruct, ty)
        },
        _ => (
            at,
            Err(Stop::Error(Failure::TypeNotTupleStruct { type_path: path_of(env, ty), span })),
        ),
    }
}

/// The supplied leading positions of a tuple.
#[verifier::opaque]
pub open spec fn tuple_run(
    env: Env,
    at: Progress,
    ids: Seq<int>,
    expected: TypeKey,
    span: Span,
    nested: Nested,
) -> Run {
    match entry_of(env.types, expected).shape {
        Shape::Tuple(fields) => if ids.len() > fields@.len() {
            (
                at,
                Err(
                    too_many(path_of(env, expected), ids.len() as int, fields@.len() as int, span),
                ),
            )
        } else {
            grouped(items_run(env, at, fields@, false, ids, 0, span, nested), Form::Tuple, expected)
        },
        _ => (at, Err(mismatch(env, "a tuple"@, expected, span))),
    }
}

/// The list type that a tuple struct of one field wraps.
pub open spec fn wrapped_list(env: Env, ty: TypeKey) -> Option<TypeKey> {
    match entry_of(env.types, ty).shape {
        Shape::TupleStruct(fields) => if fields@.len() == 1 && is_registered(
            env.types,
            fields@[0].ty,
        ) && entry_of(env.types, fields@[0].ty).shape is List {
            Some(fields@[0].ty)
        } else {
            None
        },
        _ => None,
    }
}

/// A list, for a list type or for a tuple struct that wraps one.
#[verifier::opaque]
pub open spec fn list_run(
    env: Env,
    at: Progress,
    ids: Seq<int>,
    expected: TypeKey,
    span: Span,
    nested: Nested,
) -> Run {
    match wrapped_list(env, expected) {
        Some(inner) => {
            let run = plain_list_run(env, at, ids, inner, span, nested);
            (
                run.0,
                match run.1 {
                    Ok(list) => Ok(
                        Val::Group(
                            Form::TupleStruct,
                            expected,
                            seq![PartModel { name: Seq::empty(), value: list }],
                        ),
                    ),
                    Err(stop) => Err(stop),
                },
            )
        },
        None => plain_list_run(env, at, ids, expected, span, nested),
    }
}

#[verifier::opaque]
pub open spec fn plain_list_run(
    env: Env,
    at: Progress,
    ids: Seq<int>,
    expected: TypeKey,
    span: Span,
    nested: Nested,
) -> Run {
    match entry_of(env.types, expected).shape {
        Shape::List(item) => match registered(env, item, span) {
            Err(stop) => (at, Err(stop)),
            Ok(_) => grouped(
                items_run(env, at, seq![item], true, ids, 0, span, nested),
                Form::List,
                expected,
            ),
        },
        _ => (at, Err(mismatch(env, "a list"@, expected, span))),
    }
}

/// The values from `k` on, each for the field at its position, or all for the first field.
pub open spec fn items_run(
    env: Env,
    at: Progress,
    fields: Seq<Field>,
    repeat: bool,
    ids: Seq<int>,
    k: int,
    span: Span,
    nested: Nested,
) -> PartsRun
    decreases ids.len() - k,
{
    if k < 0 || k >= ids.len() {
        (at, Ok(Seq::empty()))
    } else {
        let field = if repeat {
            fields[0]
        } else {
            fields[k]
        };
        match registered(env, field, span) {
            Err(stop) => (at, Err(stop)),
            Ok(ty) => {
                let first = nested(at, ids[k], ty);
                match first.1 {
                    Err(stop) => (first.0, Err(stop)),
                    Ok(value) => preceded(
                        PartModel { name: Seq::empty(), value },
                        items_run(
                            env,
                            no_shallower(first.0, at.depth),
                            fields,
                            repeat,
                            ids,
                            k + 1,
                            span,
                            nested,
                        ),
                    ),
                }
            },
        }
    }
}

/// The parts of a run, after another part.
pub open spec fn preceded(part: PartModel, run: PartsRun) -> PartsRun {
    (
        run.0,
        match run.1 {
            Ok(parts) => Ok(seq![part] + parts),
            Err(stop) => Err(stop),
        },
    )
}

/// Whether the name at `k` occurs before.
pub open spec fn is_repeated_name(names: Seq<Seq<char>>, k: int) -> bool {
    exists|j: int| 0 <= j < k && #[trigger] names[j] == names[k]
}

/// The named values from `k` on, each for the field of its name.
pub open spec fn fields_run(
    env: Env,
    at: Progress,
    fields: Seq<Field>,
    type_path: Seq<char>,
    names: Seq<Seq<char>>,
    ids: Seq<int>,
    k: int,
    span: Span,
    nested: Nested,
) -> PartsRun
    decreases ids.len() - k,
{
    if k < 0 || k >= ids.len() {
        (at, Ok(Seq::empty()))
    } else {
        match field_index(fields, names[k]) {
            None => (
                at,
                Err(Stop::Error(Failure::UnknownField { type_path, field: names[k], span })),
            ),
            Some(i) => if is_repeated_name(names, k) {
                (
                    at,
                    Err(Stop::Error(Failure::DuplicateField { type_path, field: names[k], span })),
                )
            } else {
                match registered(env, fields[i], span) {
                    Err(stop) => (at, Err(stop)),
                    Ok(ty) => {
                        let first = nested(at, ids[k], ty);
                        match first.1 {
                            Err(stop) => (first.0, Err(stop)),
                            Ok(value) => preceded(
                                PartModel { name: names[k], value },
                                fields_run(
                                    env,
                                    no_shallower(first.0, at.depth),
                                    fields,
                                    type_path,
                                    names,
                                    ids,
                                    k + 1,
                                    span,
                                    nested,
                                ),
                            ),
                        }
                    },
                }
            },
        }
    }
}

/// What is wrong with the fields from `k` on, of which a default value is needed.
pub open spec fn defaults_problem(env: Env, fields: Seq<Field>, k: int, span: Span) -> Option<Stop>
    decreases fields.len() - k,
{
    if k < 0 || k >= fields.len() {
        None
    } else {
        match registered(env, fields[k], span) {
            Err(stop) => Some(stop),
            Ok(ty) => if !entry_of(env.types, ty).has_default {
                Some(
                    Stop::Error(Failure::MissingDefault { type_path: path_of(env, ty), span }),
                )
            } else {
                defaults_problem(env, fields, k + 1, span)
            },
        }
    }
}

/// The supplied parts of a variant, on top of the defaults of all its fields.
#[verifier::opaque]
pub open spec fn overlaid(
    env: Env,
    supplied: PartsRun,
    ty: TypeKey,
    variant: Seq<char>,
    kind: VariantKind,
    fields: Seq<Field>,
    span: Span,
) -> FormsRun {
    match supplied.1 {
        Err(stop) => (supplied.0, Err(stop)),
        Ok(parts) => match defaults_problem(env, fields, 0, span) {
            Some(stop) => (supplied.0, Err(stop)),
            None => {
                let forms = VariantModel {
                    ty,
                    variant,
                    kind,
                    defaults: default_slots(fields),
                    supplied: parts,
                };
                match next_answer(env, supplied.0) {
                    None => (supplied.0, Err(Stop::Ask(Query::Overlay(forms)))),
                    Some(answer) => match failure(answer) {
                        Some(error) => (
                            answered(supplied.0),
                            Err(
                                Stop::Error(
                                    Failure::ApplyFailed {
                                        type_path: variant_path(path_of(env, ty), variant),
                                        error,
                                        span,
                                    },
                                ),
                            ),
                        ),
                        None => (answered(supplied.0), Ok(forms)),
                    },
                }
            },
        },
    }
}

/// The two forms of a variant of an enum, from what was written for it.
#[verifier::opaque]
pub open spec fn forms_run(
    env: Env,
    at: Progress,
    ty: TypeKey,
    variant: Seq<char>,
    body: Body,
    span: Span,
    nested: Nested,
) -> FormsRun {
    let type_path = path_of(env, ty);
    let unknown = Stop::Error(Failure::UnknownVariant { type_path, variant, span });
    match entry_of(env.types, ty).shape {
        Shape::Enum(variants) => match variant_index(variants@, variant) {
            None => (at, Err(unknown)),
            Some(i) => {
                let fields = variants@[i].fields@;
                let path = variant_path(type_path, variant);
                match (variants@[i].kind, body) {
                    (VariantKind::Unit, Body::Unit) => (
                        at,
                        Ok(
                            VariantModel {
                                ty,
                                variant,
                                kind: VariantKind::Unit,
                                defaults: Seq::empty(),
                                supplied: Seq::empty(),
                            },
                        ),
                    ),
                    (VariantKind::Unit, _) => (at, Err(too_many(path, 1, 0, span))),
                    (VariantKind::Struct, Body::Tuple { .. }) => (
                        at,
                        Err(Stop::Error(Failure::TypeNotTupleStruct { type_path: path, span })),
                    ),
                    (VariantKind::Struct, Body::Unit) => overlaid(
                        env,
                        (at, Ok(Seq::empty())),
                        ty,
                        variant,
                        VariantKind::Struct,
                        fields,
                        span,
                    ),
                    (VariantKind::Struct, Body::Named { names, ids }) => overlaid(
                        env,
                        fields_run(env, at, fields, path, names, ids, 0, span, nested),
                        ty,
                        variant,
                        VariantKind::Struct,
                        fields,
                        span,
                    ),
                    (VariantKind::Tuple, Body::Named { .. }) => (
                        at,
                        Err(Stop::Error(Failure::TypeNotStruct { type_path: path, span })),
                    ),
                    (VariantKind::Tuple, Body::Unit) => overlaid(
                        env,
                        (at, Ok(Seq::empty())),
                        ty,
                        variant,
                        VariantKind::Tuple,
                        fields,
                        span,
                    ),
                    (VariantKind::Tuple, Body::Tuple { ids }) => if ids.len() > fields.len() {
                        (at, Err(too_many(path, ids.len() as int, fields.len() as int, span)))
                    } else {
                        overlaid(
                            env,
                            items_run(env, at, fields, false, ids, 0, span, nested),
                            ty,
                            variant,
                            VariantKind::Tuple,
                            fields,
                            span,
                        )
                    },
                }
            },
        },
        _ => (at, Err(unknown)),
    }
}

// -- unfolding ----------------------------------------------------------------------------------

/// Whether two accounts of the values inside a value agree, at the given depth and deeper.
pub open spec fn agree(depth: nat, f: Nested, g: Nested) -> bool {
    forall|at: Progress, id: int, ty: TypeKey|
        at.depth >= depth ==> #[trigger] f(at, id, ty) == g(at, id, ty)
}

proof fn lemma_items_agree(
    env: Env,
    at: Progress,
    fields: Seq<Field>,
    repeat: bool,
    ids: Seq<int>,
    k: int,
    span: Span,
    f: Nested,
    g: Nested,
)
    requires
        agree(at.depth, f, g),
    ensures
        items_run(env, at, fields, repeat, ids, k, span, f) == items_run(
            env,
            at,
            fields,
            repeat,
            ids,
            k,
            span,
            g,
        ),
    decreases ids.len() - k,
{
    if 0 <= k < ids.len() {
        let field = if repeat {
            fields[0]
        } else {
            fields[k]
        };
        if let Ok(ty) = registered(env, field, span) {
            let next = no_shallower(f(at, ids[k], ty).0, at.depth);
            lemma_items_agree(env, next, fields, repeat, ids, k + 1, span, f, g);
        }
    }
}

proof fn lemma_fields_agree(
    env: Env,
    at: Progress,
    fields: Seq<Field>,
    type_path: Seq<char>,
    names: Seq<Seq<char>>,
    ids: Seq<int>,
    k: int,
    span: Span,
    f: Nested,
    g: Nested,
)
    requires
        agree(at.depth, f, g),
    ensures
        fields_run(env, at, fields, type_path, names, ids, k, span, f) == fields_run(
            env,
            at,
            fields,
            type_path,
            names,
            ids,
            k,
            span,
            g,
        ),
    decreases ids.len() - k,
{
    if 0 <= k < ids.len() {
        if let Some(i) = field_index(fields, names[k]) {
            if let Ok(ty) = registered(env, fields[i], span) {
                let next = no_shallower(f(at, ids[k], ty).0, at.depth);
                lemma_fields_agree(env, next, fields, type_path, names, ids, k + 1, span, f, g);
            }
        }
    }
}

proof fn lemma_forms_agree(
    env: Env,
    at: Progress,
    ty: TypeKey,
    variant: Seq<char>,
    body: Body,
    span: Span,
    f: Nested,
    g: Nested,
)
    requires
        agree(at.depth, f, g),
    ensures
        forms_run(env, at, ty, variant, body, span, f) == forms_run(
            env,
            at,
            ty,
            variant,
            body,
            span,
            g,
        ),
{
    reveal(forms_run);
    if let Shape::Enum(variants) = entry_of(env.types, ty).shape {
        if let Some(i) = variant_index(variants@, variant) {
            let fields = variants@[i].fields@;
            let path = variant_path(path_of(env, ty), variant);
            match body {
                Body::Unit => {},
                Body::Named { names, ids } => {
                    lemma_fields_agree(env, at, fields, path, names, ids, 0, span, f, g);
                },
                Body::Tuple { ids } => {
                    lemma_items_agree(env, at, fields, false, ids, 0, span, f, g);
                },
            }
        }
    }
}

proof fn lemma_named_agree(
    env: Env,
    at: Progress,
    path: Path,
    body: Body,
    expected: TypeKey,
    span: Span,
    f: Nested,
    g: Nested,
)
    requires
        agree(at.depth, f, g),
    ensures
        named_run(env, at, path, body, expected, span, f) == named_run(
            env,
            at,
            path,
            body,
            expected,
            span,
            g,
        ),
{
    reveal(named_run);
    reveal(struct_run);
    reveal(tuple_struct_run);
    lemma_forms_agree(env, at, expected, last_ident(path), body, span, f, g);
    let symbol = symbol_run(env, at, path, span);
    if let Ok((named, variant)) = symbol.1 {
        let start = no_shallower(symbol.0, at.depth);
        if let Some(variant) = variant {
            lemma_forms_agree(env, start, named, variant, body, span, f, g);
        }
        match (entry_of(env.types, named).shape, body) {
            (Shape::Struct(fields), Body::Named { names, ids }) => {
                let type_path = path_of(env, named);
                lemma_fields_agree(env, start, fields@, type_path, names, ids, 0, span, f, g);
            },
            (Shape::TupleStruct(fields), Body::Tuple { ids }) => {
                lemma_items_agree(env, start, fields@, false, ids, 0, span, f, g);
            },
            _ => {},
        }
    }
}

proof fn lemma_direct_agree(
    env: Env,
    at: Progress,
    value: Value,
    expected: TypeKey,
    f: Nested,
    g: Nested,
)
    requires
        agree(at.depth, f, g),
    ensures
        direct_run(env, at, value, expected, f) == direct_run(env, at, value, expected, g),
{
    reveal(direct_run);
    reveal(tuple_run);
    reveal(list_run);
    reveal(plain_list_run);
    let span = value.span;
    let ids = value.children;
    match value.head {
        Head::Path(path) => {
            lemma_named_agree(env, at, path, Body::Unit, expected, span, f, g);
        },
        Head::Struct(path) => {
            let body = Body::Named { names: value.names, ids };
            lemma_named_agree(env, at, path, body, expected, span, f, g);
        },
        Head::NamedTuple(path) => {
            lemma_named_agree(env, at, path, Body::Tuple { ids }, expected, span, f, g);
        },
        Head::Tuple => {
            if let Shape::Tuple(fields) = entry_of(env.types, expected).shape {
                lemma_items_agree(env, at, fields@, false, ids, 0, span, f, g);
            }
        },
        Head::List => {
            let list = match wrapped_list(env, expected) {
                Some(inner) => inner,
                None => expected,
            };
            if let Shape::List(item) = entry_of(env.types, list).shape {
                lemma_items_agree(env, at, seq![item], true, ids, 0, span, f, g);
            }
        },
        _ => {},
    }
}

/// A value is made up of the values inside it.
pub proof fn lemma_value_run(env: Env, at: Progress, id: int, expected: TypeKey)
    ensures
        value_run(env, at, id, expected) == value_step(env, at, id, expected, values_of(env)),
{
    reveal(value_run);
    reveal(value_step);
    if let Some(value) = env.document.value(id) {
        if at.depth < env.max_depth {
            let entered = Progress { depth: at.depth + 1, ..at };
            assert(agree(entered.depth, below(env, at), values_of(env)));
            lemma_direct_agree(env, entered, value, expected, below(env, at), values_of(env));
        }
    }
}

} // verus!
