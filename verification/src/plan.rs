//! What a value is built into: a plan of the value for a destination type, the ways in which
//! building fails, and the questions that only the registered types themselves can answer.

use vstd::prelude::*;

use crate::digits::{decimal, int_text, push_decimal, push_int};
use crate::float::{BsnFloat, Float};
use crate::registry::{Field, FloatType, IntType, TypeKey, VariantKind};
use crate::scene_reference::{Reference, SceneEntityReference};
use crate::span::Span;
use crate::text::{push_text, string_of};

verus! {

/// How a group of parts is held together.
#[derive(Clone, Copy, PartialEq, Eq, Structural, Debug)]
pub enum Form {
    /// The named fields of a struct.
    Struct,
    /// The leading fields of a tuple struct.
    TupleStruct,
    /// The leading positions of a tuple.
    Tuple,
    /// The items of a list.
    List,
}

/// A part of a value: a field, a position or an item.
#[derive(Debug)]
pub struct Part {
    /// The name of a field, empty for a position or an item.
    pub name: String,
    pub plan: Plan,
}

/// The two forms of a variant of an enum.
///
/// The *full* form has every field of `defaults` at its default value, with the supplied parts
/// applied on top; it is what a switch to the variant needs. The *partial* form has the supplied
/// parts alone; it is what a patch of a value that already has the variant needs, so that
/// untouched fields survive.
#[derive(Debug)]
pub struct VariantPlan {
    /// The enum.
    pub ty: TypeKey,
    /// The name of the variant.
    pub variant: String,
    pub kind: VariantKind,
    /// The names and types of the fields that start at their defaults.
    pub defaults: Vec<Slot>,
    /// The fields that were supplied.
    pub supplied: Vec<Part>,
}

/// A field that starts at the default value of its type.
#[derive(Debug)]
pub struct Slot {
    pub name: String,
    pub ty: TypeKey,
}

/// A value for a destination type.
#[derive(Debug)]
pub enum Plan {
    /// `()`
    Unit,
    Bool(bool),
    /// A value of an integer type.
    Int(IntType, i128),
    /// An integer as the equal value of a floating-point type.
    Whole(FloatType, i128),
    /// A float, rounded to the type.
    Float(FloatType, BsnFloat),
    Text(String),
    SharedText(String),
    AssetPath(String),
    /// The template of the entity that a reference stands for.
    Entity(SceneEntityReference),
    /// A value of a type that has the given parts, and leaves others alone.
    Group(Form, TypeKey, Vec<Part>),
    /// A variant in its full form.
    Variant(VariantPlan),
    /// The default value of a type.
    Default(TypeKey),
    /// The default value of a type, with another value applied on top.
    Filled(TypeKey, Box<Plan>),
    /// What a registered conversion makes of a value for a type.
    Converted(TypeKey, Box<Plan>),
}

/// The model of a [`Part`].
pub ghost struct PartModel {
    pub name: Seq<char>,
    pub value: Val,
}

/// The model of a [`VariantPlan`].
pub ghost struct VariantModel {
    pub ty: TypeKey,
    pub variant: Seq<char>,
    pub kind: VariantKind,
    pub defaults: Seq<(Seq<char>, TypeKey)>,
    pub supplied: Seq<PartModel>,
}

/// The model of a [`Plan`].
pub ghost enum Val {
    Unit,
    Bool(bool),
    Int(IntType, int),
    Whole(FloatType, int),
    Float(FloatType, Float),
    Text(Seq<char>),
    SharedText(Seq<char>),
    AssetPath(Seq<char>),
    Entity(Reference),
    Group(Form, TypeKey, Seq<PartModel>),
    Variant(VariantModel),
    Default(TypeKey),
    Filled(TypeKey, Box<Val>),
    Converted(TypeKey, Box<Val>),
}

pub open spec fn part_view(part: Part) -> PartModel
    decreases part,
{
    PartModel { name: part.name@, value: plan_view(part.plan) }
}

pub open spec fn parts_view(parts: Seq<Part>) -> Seq<PartModel>
    decreases parts,
{
    if parts.len() == 0 {
        Seq::empty()
    } else {
        parts_view(parts.drop_last()).push(part_view(parts.last()))
    }
}

/// The names and types of slots.
pub open spec fn slots_view(slots: Seq<Slot>) -> Seq<(Seq<char>, TypeKey)> {
    slots.map_values(|slot: Slot| (slot.name@, slot.ty))
}

pub open spec fn variant_view(forms: VariantPlan) -> VariantModel
    decreases forms,
{
    VariantModel {
        ty: forms.ty,
        variant: forms.variant@,
        kind: forms.kind,
        defaults: slots_view(forms.defaults@),
        supplied: parts_view(forms.supplied@),
    }
}

pub open spec fn plan_view(plan: Plan) -> Val
    decreases plan,
{
    match plan {
        Plan::Unit => Val::Unit,
        Plan::Bool(b) => Val::Bool(b),
        Plan::Int(ty, v) => Val::Int(ty, v as int),
        Plan::Whole(ty, v) => Val::Whole(ty, v as int),
        Plan::Float(ty, f) => Val::Float(ty, f@),
        Plan::Text(s) => Val::Text(s@),
        Plan::SharedText(s) => Val::SharedText(s@),
        Plan::AssetPath(s) => Val::AssetPath(s@),
        Plan::Entity(reference) => Val::Entity(reference@),
        Plan::Group(form, ty, parts) => Val::Group(form, ty, parts_view(parts@)),
        Plan::Variant(forms) => Val::Variant(variant_view(forms)),
        Plan::Default(ty) => Val::Default(ty),
        Plan::Filled(ty, patch) => Val::Filled(ty, Box::new(plan_view(*patch))),
        Plan::Converted(ty, value) => Val::Converted(ty, Box::new(plan_view(*value))),
    }
}

impl View for Plan {
    type V = Val;

    open spec fn view(&self) -> Val {
        plan_view(*self)
    }
}

impl View for VariantPlan {
    type V = VariantModel;

    open spec fn view(&self) -> VariantModel {
        variant_view(*self)
    }
}

/// The fields of a variant as slots at their defaults.
pub open spec fn default_slots(fields: Seq<Field>) -> Seq<(Seq<char>, TypeKey)> {
    fields.map_values(|field: Field| (field.name@, field.ty))
}

// -- questions ----------------------------------------------------------------------------------

/// What only the registered types can tell.
#[derive(Debug)]
pub enum Question {
    /// Which type, and which of its variants, a path names.
    Symbol(String),
    /// Whether a registered conversion takes the value for the type.
    Convert(TypeKey, Plan),
    /// Whether the value can be applied to the default value of the type.
    Fill(TypeKey, Plan),
    /// Whether the supplied parts of a variant can be applied to its defaults.
    Overlay(VariantPlan),
}

/// The answer to a [`Question`].
#[derive(Debug)]
pub enum Answer {
    /// It works.
    Done,
    /// It does not work, for the given reason.
    Failed(String),
    /// The path names the type, or a variant of it.
    Symbol(TypeKey, Option<String>),
}

/// The model of a [`Question`].
pub ghost enum Query {
    Symbol(Seq<char>),
    Convert(TypeKey, Val),
    Fill(TypeKey, Val),
    Overlay(VariantModel),
}

impl Question {
    pub open spec fn view(&self) -> Query {
        match self {
            Question::Symbol(path) => Query::Symbol(path@),
            Question::Convert(ty, value) => Query::Convert(*ty, value@),
            Question::Fill(ty, patch) => Query::Fill(*ty, patch@),
            Question::Overlay(forms) => Query::Overlay(forms@),
        }
    }
}

/// The reason of a failure, if the answer is one.
pub open spec fn failure(answer: Answer) -> Option<Seq<char>> {
    match answer {
        Answer::Failed(reason) => Some(reason@),
        _ => None,
    }
}

// -- errors -------------------------------------------------------------------------------------

/// Why a value cannot be built.
#[allow(inconsistent_fields)]
#[derive(Debug)]
pub enum DynamicSceneBuildError {
    /// The value is not of the expected type, and no conversion takes it there.
    ValueTypeMismatch { found: String, expected: String, span: Span },
    /// The integer is not a value of the type.
    IntegerOutOfRange { value: i128, type_path: String, span: Span },
    /// The integer is not exactly a value of the floating-point type.
    LiteralNotRepresentable { value: i128, type_path: String, span: Span },
    /// The text is not an asset path.
    InvalidAssetPath { path: String, span: Span },
    /// A type has no field of this name.
    UnknownField { type_path: String, field: String, span: Span },
    /// A field is supplied twice.
    DuplicateField { type_path: String, field: String, span: Span },
    /// Named fields for a type without named fields.
    TypeNotStruct { type_path: String, span: Span },
    /// Positional fields for a type without positional fields.
    TypeNotTupleStruct { type_path: String, span: Span },
    /// More positional fields than the type has.
    TooManyTupleFields { type_path: String, given: usize, expected: usize, span: Span },
    /// The type has no variant of this name.
    UnknownVariant { type_path: String, variant: String, span: Span },
    /// A value cannot be applied to a default value.
    ValueApplyFailed { type_path: String, error: String, span: Span },
    /// The type has no default value.
    MissingReflectDefault { type_path: String, span: Span },
    /// The document names no such entity.
    UnknownEntityName { name: String, span: Span },
    /// The type of a field is not registered.
    UnregisteredType { type_path: String, span: Span },
    /// A path names no type.
    UnresolvedSymbol { reason: String, span: Span },
    /// The document refers to a value that is not there, or its values are nested too deeply.
    MalformedDocument { message: String, span: Span },
}

/// The model of a [`DynamicSceneBuildError`].
#[allow(inconsistent_fields)]
pub ghost enum Failure {
    Mismatch { found: Seq<char>, expected: Seq<char>, span: Span },
    IntegerOutOfRange { value: int, type_path: Seq<char>, span: Span },
    NotRepresentable { value: int, type_path: Seq<char>, span: Span },
    InvalidAssetPath { path: Seq<char>, span: Span },
    UnknownField { type_path: Seq<char>, field: Seq<char>, span: Span },
    DuplicateField { type_path: Seq<char>, field: Seq<char>, span: Span },
    TypeNotStruct { type_path: Seq<char>, span: Span },
    TypeNotTupleStruct { type_path: Seq<char>, span: Span },
    TooManyTupleFields { type_path: Seq<char>, given: int, expected: int, span: Span },
    UnknownVariant { type_path: Seq<char>, variant: Seq<char>, span: Span },
    ApplyFailed { type_path: Seq<char>, error: Seq<char>, span: Span },
    MissingDefault { type_path: Seq<char>, span: Span },
    UnknownEntityName { name: Seq<char>, span: Span },
    UnregisteredType { type_path: Seq<char>, span: Span },
    UnresolvedSymbol { reason: Seq<char>, span: Span },
    Malformed { message: Seq<char>, span: Span },
}

impl DynamicSceneBuildError {
    pub open spec fn view(&self) -> Failure {
        match self {
            DynamicSceneBuildError::ValueTypeMismatch { found, expected, span } =>
                Failure::Mismatch { found: found@, expected: expected@, span: *span },
            DynamicSceneBuildError::IntegerOutOfRange { value, type_path, span } =>
                Failure::IntegerOutOfRange {
                value: *value as int,
                type_path: type_path@,
                span: *span,
            },
            DynamicSceneBuildError::LiteralNotRepresentable { value, type_path, span } =>
                Failure::NotRepresentable {
                value: *value as int,
                type_path: type_path@,
                span: *span,
            },
            DynamicSceneBuildError::InvalidAssetPath { path, span } => Failure::InvalidAssetPath {
                path: path@,
                span: *span,
            },
            DynamicSceneBuildError::UnknownField { type_path, field, span } =>
                Failure::UnknownField { type_path: type_path@, field: field@, span: *span },
            DynamicSceneBuildError::DuplicateField { type_path, field, span } =>
                Failure::DuplicateField { type_path: type_path@, field: field@, span: *span },
            DynamicSceneBuildError::TypeNotStruct { type_path, span } => Failure::TypeNotStruct {
                type_path: type_path@,
                span: *span,
            },
            DynamicSceneBuildError::TypeNotTupleStruct { type_path, span } =>
                Failure::TypeNotTupleStruct { type_path: type_path@, span: *span },
            DynamicSceneBuildError::TooManyTupleFields { type_path, given, expected, span } =>
                Failure::TooManyTupleFields {
                type_path: type_path@,
                given: *given as int,
                expected: *expected as int,
                span: *span,
            },
            DynamicSceneBuildError::UnknownVariant { type_path, variant, span } =>
                Failure::UnknownVariant { type_path: type_path@, variant: variant@, span: *span },
            DynamicSceneBuildError::ValueApplyFailed { type_path, error, span } =>
                Failure::ApplyFailed { type_path: type_path@, error: error@, span: *span },
            DynamicSceneBuildError::MissingReflectDefault { type_path, span } =>
                Failure::MissingDefault { type_path: type_path@, span: *span },
            DynamicSceneBuildError::UnknownEntityName { name, span } =>
                Failure::UnknownEntityName { name: name@, span: *span },
            DynamicSceneBuildError::UnregisteredType { type_path, span } =>
                Failure::UnregisteredType { type_path: type_path@, span: *span },
            DynamicSceneBuildError::UnresolvedSymbol { reason, span } =>
                Failure::UnresolvedSymbol { reason: reason@, span: *span },
            DynamicSceneBuildError::MalformedDocument { message, span } => Failure::Malformed {
                message: message@,
                span: *span,
            },
        }
    }
}

/// The text of an error.
pub open spec fn failure_text(failure: Failure) -> Seq<char> {
    match failure {
        Failure::Mismatch { found, expected, .. } => {
            "expected a value of type `"@ + expected + "`, found `"@ + found + "`"@
        },
        Failure::IntegerOutOfRange { value, type_path, .. } => {
            "the integer `"@ + int_text(value) + "` is out of range for `"@ + type_path + "`"@
        },
        Failure::NotRepresentable { value, type_path, .. } => {
            "the integer `"@ + int_text(value) + "` is not exactly representable as `"@
                + type_path + "`"@
        },
        Failure::InvalidAssetPath { path, .. } => "`"@ + path + "` is not a valid asset path"@,
        Failure::UnknownField { type_path, field, .. } => {
            "`"@ + type_path + "` has no field named `"@ + field + "`"@
        },
        Failure::DuplicateField { type_path, field, .. } => {
            "the field `"@ + field + "` of `"@ + type_path + "` is specified more than once"@
        },
        Failure::TypeNotStruct { type_path, .. } => {
            "`"@ + type_path + "` does not have named fields"@
        },
        Failure::TypeNotTupleStruct { type_path, .. } => {
            "`"@ + type_path + "` does not have positional fields"@
        },
        Failure::TooManyTupleFields { type_path, given, expected, .. } => {
            "`"@ + type_path + "` has "@ + decimal(expected as nat) + " fields, but "@
                + decimal(given as nat) + " were given"@
        },
        Failure::UnknownVariant { type_path, variant, .. } => {
            "`"@ + type_path + "` has no variant named `"@ + variant + "`"@
        },
        Failure::ApplyFailed { type_path, error, .. } => {
            "a value could not be applied to `"@ + type_path + "`: "@ + error
        },
        Failure::MissingDefault { type_path, .. } => {
            "`"@ + type_path
                + "` has no reflected default value; add `#[reflect(Default)]` to it"@
        },
        Failure::UnknownEntityName { name, .. } => "no entity is named `#"@ + name + "`"@,
        Failure::UnregisteredType { type_path, .. } => {
            "the type `"@ + type_path + "` is not registered"@
        },
        Failure::UnresolvedSymbol { reason, .. } => reason,
        Failure::Malformed { message, .. } => message,
    }
}

impl DynamicSceneBuildError {
    /// The text of the error.
    pub fn message(&self) -> (r: String)
        ensures
            r@ == failure_text(self@),
    {
        let mut out: Vec<char> = Vec::new();
        match self {
            DynamicSceneBuildError::ValueTypeMismatch { found, expected, .. } => {
                push_text(&mut out, "expected a value of type `");
                push_text(&mut out, expected.as_str());
                push_text(&mut out, "`, found `");
                push_text(&mut out, found.as_str());
                push_text(&mut out, "`");
            },
            DynamicSceneBuildError::IntegerOutOfRange { value, type_path, .. } => {
                push_text(&mut out, "the integer `");
                push_int(&mut out, *value);
                push_text(&mut out, "` is out of range for `");
                push_text(&mut out, type_path.as_str());
                push_text(&mut out, "`");
            },
            DynamicSceneBuildError::LiteralNotRepresentable { value, type_path, .. } => {
                push_text(&mut out, "the integer `");
                push_int(&mut out, *value);
                push_text(&mut out, "` is not exactly representable as `");
                push_text(&mut out, type_path.as_str());
                push_text(&mut out, "`");
            },
            DynamicSceneBuildError::InvalidAssetPath { path, .. } => {
                push_text(&mut out, "`");
                push_text(&mut out, path.as_str());
                push_text(&mut out, "` is not a valid asset path");
            },
            DynamicSceneBuildError::UnknownField { type_path, field, .. } => {
                push_text(&mut out, "`");
                push_text(&mut out, type_path.as_str());
                push_text(&mut out, "` has no field named `");
                push_text(&mut out, field.as_str());
                push_text(&mut out, "`");
            },
            DynamicSceneBuildError::DuplicateField { type_path, field, .. } => {
                push_text(&mut out, "the field `");
                push_text(&mut out, field.as_str());
                push_text(&mut out, "` of `");
                push_text(&mut out, type_path.as_str());
                push_text(&mut out, "` is specified more than once");
            },
            DynamicSceneBuildError::TypeNotStruct { type_path, .. } => {
                push_text(&mut out, "`");
                push_text(&mut out, type_path.as_str());
                push_text(&mut out, "` does not have named fields");
            },
            DynamicSceneBuildError::TypeNotTupleStruct { type_path, .. } => {
                push_text(&mut out, "`");
                push_text(&mut out, type_path.as_str());
                push_text(&mut out, "` does not have positional fields");
            },
            DynamicSceneBuildError::TooManyTupleFields { type_path, given, expected, .. } => {
                push_text(&mut out, "`");
                push_text(&mut out, type_path.as_str());
                push_text(&mut out, "` has ");
                push_decimal(&mut out, *expected as u128);
                push_text(&mut out, " fields, but ");
                push_decimal(&mut out, *given as u128);
                push_text(&mut out, " were given");
            },
            DynamicSceneBuildError::UnknownVariant { type_path, variant, .. } => {
                push_text(&mut out, "`");
                push_text(&mut out, type_path.as_str());
                push_text(&mut out, "` has no variant named `");
                push_text(&mut out, variant.as_str());
                push_text(&mut out, "`");
            },
            DynamicSceneBuildError::ValueApplyFailed { type_path, error, .. } => {
                push_text(&mut out, "a value could not be applied to `");
                push_text(&mut out, type_path.as_str());
                push_text(&mut out, "`: ");
                push_text(&mut out, error.as_str());
            },
            DynamicSceneBuildError::MissingReflectDefault { type_path, .. } => {
                push_text(&mut out, "`");
                push_text(&mut out, type_path.as_str());
                push_text(&mut out, "` has no reflected default value; add `#[reflect(Default)]` to it");
            },
            DynamicSceneBuildError::UnknownEntityName { name, .. } => {
                push_text(&mut out, "no entity is named `#");
                push_text(&mut out, name.as_str());
                push_text(&mut out, "`");
            },
            DynamicSceneBuildError::UnregisteredType { type_path, .. } => {
                push_text(&mut out, "the type `");
                push_text(&mut out, type_path.as_str());
                push_text(&mut out, "` is not registered");
            },
            DynamicSceneBuildError::UnresolvedSymbol { reason, .. } => {
                push_text(&mut out, reason.as_str());
            },
            DynamicSceneBuildError::MalformedDocument { message, .. } => {
                push_text(&mut out, message.as_str());
            },
        }
        assert(out@ =~= failure_text(self@));
        string_of(&out)
    }
}

/// Why building stops before there is a value.
#[derive(Debug)]
pub enum Halt {
    /// The value cannot be built.
    Error(DynamicSceneBuildError),
    /// A question has to be answered first.
    Ask(Question),
}

/// The model of a [`Halt`].
pub ghost enum Stop {
    Error(Failure),
    Ask(Query),
}

impl Halt {
    pub open spec fn view(&self) -> Stop {
        match self {
            Halt::Error(e) => Stop::Error(e@),
            Halt::Ask(question) => Stop::Ask(question@),
        }
    }
}

// -- texts --------------------------------------------------------------------------------------

/// The path of a variant: `a::B::C`.
pub open spec fn variant_path(type_path: Seq<char>, variant: Seq<char>) -> Seq<char> {
    type_path + "::"@ + variant
}

/// The path of a variant: `a::B::C`.
pub fn join_variant(type_path: &str, variant: &str) -> (r: String)
    ensures
        r@ == variant_path(type_path@, variant@),
{
    let mut out: Vec<char> = Vec::new();
    push_text(&mut out, type_path);
    push_text(&mut out, "::");
    push_text(&mut out, variant);
    assert(out@ =~= variant_path(type_path@, variant@));
    string_of(&out)
}

} // verus!
