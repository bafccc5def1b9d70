//! Turning a value of a document into a plan of the value for a known destination type.
//!
//! Everything here runs at build time. A plan only ever patches what it holds, so a partial value
//! — a struct with two of five fields, a tuple struct with only its leading field — patches
//! exactly those fields and leaves the rest alone.

use vstd::prelude::*;

use crate::asset_path::{is_asset_path, parses_as_asset_path};
use crate::ast::{
    field_ids, field_names, last_ident, value_ids, BsnDocument, BsnPath, BsnValue, BsnValueId,
    BsnValueNode,
};
use crate::building;
use crate::building::{
    answered, defaults_problem, fields_run, forms_run, is_repeated_name, items_run, named_entity,
    lemma_value_run, next_answer, overlaid, path_of, room, value_run, values_of, Body, Env,
    FormsRun, PartsRun, Progress, Run, NESTED_TOO_DEEPLY, SINGLE_OVERFLOW,
};
use crate::digits::{decimal, push_decimal};
use crate::float::{BsnFloat, INFINITY, SIGN};
use crate::name_set::{new_set, set_insert, set_names};
use crate::plan::{
    default_slots, join_variant, part_view, parts_view, slots_view, Answer, DynamicSceneBuildError,
    Failure, Form, Halt, Part, PartModel, Plan, Question, Slot, Stop, Val, VariantModel,
    VariantPlan,
};
use crate::registry::{
    entry_of, find_field, find_variant, handle_asset_type, is_exact, is_registered,
    optionish_payload, Builtin, Field, FloatType, IntType, Shape, TypeEntry, TypeKey, TypeTable,
    VariantKind,
};
use crate::scene_reference::SceneEntityReference;
use crate::span::Span;
use crate::text::{copy_str, push_text, same_text, string_of};

verus! {

/// A named entity of a document, with the id of its node.
#[derive(Debug)]
pub struct NamedEntity {
    pub name: String,
    pub node: u32,
}

/// An asset that the values of a document depend on.
#[derive(Debug)]
pub struct AssetDependency {
    /// The number of the type of the asset.
    pub asset: u64,
    pub path: String,
}

/// What values are built with.
#[derive(Debug)]
pub struct BuildCx<'a> {
    pub types: &'a TypeTable,
    pub document: &'a BsnDocument,
    /// The named entities of the document.
    pub names: &'a Vec<NamedEntity>,
    /// The digest of the path of the document.
    pub source_path_hash: u64,
    /// How deeply values may be nested.
    pub max_depth: u32,
    /// The answers to the questions that have been asked, in their order.
    pub answers: &'a Vec<Answer>,
}

/// How far building has come.
#[derive(Debug)]
pub struct BuildState {
    /// How deeply values are nested at the moment.
    pub depth: u32,
    /// The number of answers that have been used.
    pub asked: usize,
    /// The assets that the values depend on.
    pub dependencies: Vec<AssetDependency>,
}

pub open spec fn names_view(names: Seq<NamedEntity>) -> Seq<(Seq<char>, u32)> {
    names.map_values(|entity: NamedEntity| (entity.name@, entity.node))
}

pub open spec fn dependencies_view(assets: Seq<AssetDependency>) -> Seq<(u64, Seq<char>)> {
    assets.map_values(|asset: AssetDependency| (asset.asset, asset.path@))
}

impl<'a> BuildCx<'a> {
    pub open spec fn view(&self) -> Env {
        Env {
            types: self.types.entries@,
            document: self.document@,
            names: names_view(self.names@),
            path_hash: self.source_path_hash,
            max_depth: self.max_depth as nat,
            answers: self.answers@,
        }
    }

    /// The entry of a registered type.
    fn entry(&self, ty: TypeKey) -> (r: &TypeEntry)
        requires
            is_registered(self@.types, ty),
        ensures
            *r == entry_of(self@.types, ty),
    {
        &self.types.entries[ty.0 as usize]
    }

    /// The registered type of a field.
    fn registration(&self, field: &Field, span: Span) -> (r: Result<TypeKey, Halt>)
        ensures
            match building::registered(self@, *field, span) {
                Ok(ty) => r == Ok::<TypeKey, Halt>(ty) && ty == field.ty && is_registered(
                    self@.types,
                    ty,
                ),
                Err(stop) => r matches Err(halt) && halt@ == stop,
            },
    {
        match self.types.get(field.ty) {
            Some(_) => Ok(field.ty),
            None => Err(
                Halt::Error(
                    DynamicSceneBuildError::UnregisteredType {
                        type_path: copy_str(field.type_path.as_str()),
                        span,
                    },
                ),
            ),
        }
    }
}

impl BuildState {
    pub open spec fn view(&self) -> Progress {
        Progress {
            depth: self.depth as nat,
            asked: self.asked as nat,
            dependencies: dependencies_view(self.dependencies@),
        }
    }

    /// The state before anything was built.
    pub fn new() -> (r: Self)
        ensures
            r@ == (Progress { depth: 0, asked: 0, dependencies: Seq::empty() }),
    {
        let dependencies: Vec<AssetDependency> = Vec::new();
        assert(dependencies_view(dependencies@) =~= Seq::empty());
        BuildState { depth: 0, asked: 0, dependencies }
    }

    /// The answer to the next question, if there is one.
    fn take_answer<'a>(&mut self, cx: &'a BuildCx) -> (r: Option<&'a Answer>)
        ensures
            match next_answer(cx@, old(self)@) {
                Some(answer) => r == Some(&answer) && final(self)@ == answered(old(self)@),
                None => r is None && final(self)@ == old(self)@,
            },
    {
        if self.asked < cx.answers.len() {
            let answer = &cx.answers[self.asked];
            self.asked = self.asked + 1;
            Some(answer)
        } else {
            None
        }
    }
}

/// Whether `r` and the progress after are what `run` says.
pub open spec fn outcome(
    run: Run,
    before: Progress,
    after: Progress,
    r: Result<Plan, Halt>,
) -> bool {
    &&& after == run.0
    &&& after.depth >= before.depth
    &&& match run.1 {
        Ok(value) => r matches Ok(plan) && plan@ == value,
        Err(stop) => r matches Err(halt) && halt@ == stop,
    }
}

/// See [`outcome`].
pub open spec fn parts_outcome(
    run: PartsRun,
    before: Progress,
    after: Progress,
    r: Result<Vec<Part>, Halt>,
) -> bool {
    &&& after == run.0
    &&& after.depth >= before.depth
    &&& match run.1 {
        Ok(parts) => r matches Ok(plans) && parts_view(plans@) == parts,
        Err(stop) => r matches Err(halt) && halt@ == stop,
    }
}

/// See [`outcome`].
pub open spec fn forms_outcome(
    run: FormsRun,
    before: Progress,
    after: Progress,
    r: Result<VariantPlan, Halt>,
) -> bool {
    &&& after == run.0
    &&& after.depth >= before.depth
    &&& match run.1 {
        Ok(forms) => r matches Ok(plan) && plan@ == forms,
        Err(stop) => r matches Err(halt) && halt@ == stop,
    }
}

/// The error for a value that was found where another type is expected.
fn mismatch(cx: &BuildCx, found: &str, expected: TypeKey, span: Span) -> (r: Halt)
    requires
        is_registered(cx@.types, expected),
    ensures
        r@ == building::mismatch(cx@, found@, expected, span),
{
    Halt::Error(
        DynamicSceneBuildError::ValueTypeMismatch {
            found: copy_str(found),
            expected: copy_str(cx.entry(expected).path.as_str()),
            span,
        },
    )
}

/// The shared coercion tail: the same type, then a registered conversion, then failure.
///
/// A registered conversion is what turns `"image.png"` into the template of a handle and
/// `TextSize::Large` into `FontSize(24)`.
fn coerce(
    cx: &BuildCx,
    at: &mut BuildState,
    produced: Plan,
    found: &str,
    same: bool,
    expected: TypeKey,
    span: Span,
) -> (r: Result<Plan, Halt>)
    requires
        is_registered(cx@.types, expected),
    ensures
        outcome(
            building::coerced(
                cx@,
                old(at)@,
                produced@,
                found@,
                same,
                expected,
                span,
            ),
            old(at)@,
            final(at)@,
            r,
        ),
{
    proof {
        reveal(building::coerced);
    }
    if same {
        return Ok(produced);
    }
    if !cx.entry(expected).converts {
        return Err(mismatch(cx, found, expected, span));
    }
    match at.take_answer(cx) {
        None => Err(Halt::Ask(Question::Convert(expected, produced))),
        Some(Answer::Done) => Ok(Plan::Converted(expected, Box::new(produced))),
        Some(_) => Err(mismatch(cx, found, expected, span)),
    }
}

// -- literals -----------------------------------------------------------------------------------

/// The unit value.
pub fn build_unit(
    cx: &BuildCx,
    at: &mut BuildState,
    expected: TypeKey,
    span: Span,
) -> (r: Result<Plan, Halt>)
    requires
        is_registered(cx@.types, expected),
    ensures
        outcome(
            building::unit_value(cx@, old(at)@, expected, span),
            old(at)@,
            final(at)@,
            r,
        ),
{
    proof {
        reveal(building::unit_value);
    }
    match cx.entry(expected).builtin {
        Builtin::Unit => Ok(Plan::Unit),
        _ => Err(mismatch(cx, "()", expected, span)),
    }
}

/// `true` and `false`.
pub fn build_bool(
    cx: &BuildCx,
    at: &mut BuildState,
    literal: bool,
    expected: TypeKey,
    span: Span,
) -> (r: Result<Plan, Halt>)
    requires
        is_registered(cx@.types, expected),
    ensures
        outcome(
            building::bool_value(cx@, old(at)@, literal, expected, span),
            old(at)@,
            final(at)@,
            r,
        ),
{
    proof {
        reveal(building::bool_value);
    }
    let same = match cx.entry(expected).builtin {
        Builtin::Bool => true,
        _ => false,
    };
    coerce(cx, at, Plan::Bool(literal), "bool", same, expected, span)
}

/// Integer literals, range-checked against the destination type.
///
/// Integer-to-float is allowed but only when the value is exactly representable, so writing `1`
/// where `1.0` was meant never silently loses precision. Float-to-integer is never allowed.
pub fn build_int(
    cx: &BuildCx,
    at: &mut BuildState,
    literal: i128,
    expected: TypeKey,
    span: Span,
) -> (r: Result<Plan, Halt>)
    requires
        is_registered(cx@.types, expected),
    ensures
        outcome(
            building::int_value(
                cx@,
                old(at)@,
                literal as int,
                expected,
                span,
            ),
            old(at)@,
            final(at)@,
            r,
        ),
{
    proof {
        reveal(building::int_value);
    }
    let entry = cx.entry(expected);
    match entry.builtin {
        Builtin::Int(ty) => {
            if ty.contains(literal) {
                Ok(Plan::Int(ty, literal))
            } else {
                Err(
                    Halt::Error(
                        DynamicSceneBuildError::IntegerOutOfRange {
                            value: literal,
                            type_path: copy_str(entry.path.as_str()),
                            span,
                        },
                    ),
                )
            }
        },
        Builtin::Float(ty) => {
            if is_exact(ty, literal) {
                Ok(Plan::Whole(ty, literal))
            } else {
                Err(
                    Halt::Error(
                        DynamicSceneBuildError::LiteralNotRepresentable {
                            value: literal,
                            type_path: copy_str(entry.path.as_str()),
                            span,
                        },
                    ),
                )
            }
        },
        _ => {
            if IntType::I64.contains(literal) {
                coerce(cx, at, Plan::Int(IntType::I64, literal), "i64", false, expected, span)
            } else {
                coerce(cx, at, Plan::Int(IntType::I128, literal), "i128", false, expected, span)
            }
        },
    }
}

/// Whether rounding the finite value to single precision gives an infinite one.
fn overflows_single(literal: &BsnFloat) -> (r: bool)
    ensures
        r == building::overflows_single(literal@),
{
    let magnitude: u64 = if literal.bits >= SIGN {
        literal.bits - SIGN
    } else {
        literal.bits
    };
    SINGLE_OVERFLOW <= magnitude && magnitude < INFINITY
}

/// Floating-point literals. Rounding to single precision is allowed; only rounding a finite value
/// to a non-finite one is rejected.
pub fn build_float(
    cx: &BuildCx,
    at: &mut BuildState,
    literal: &BsnFloat,
    expected: TypeKey,
    span: Span,
) -> (r: Result<Plan, Halt>)
    requires
        is_registered(cx@.types, expected),
    ensures
        outcome(
            building::float_value(cx@, old(at)@, literal@, expected, span),
            old(at)@,
            final(at)@,
            r,
        ),
{
    proof {
        reveal(building::float_value);
    }
    let entry = cx.entry(expected);
    match entry.builtin {
        Builtin::Float(FloatType::F32) => {
            if overflows_single(literal) {
                Err(mismatch(cx, "f64", expected, span))
            } else {
                Ok(Plan::Float(FloatType::F32, literal.copy()))
            }
        },
        Builtin::Float(FloatType::F64) => Ok(Plan::Float(FloatType::F64, literal.copy())),
        _ => coerce(cx, at, Plan::Float(FloatType::F64, literal.copy()), "f64", false, expected, span),
    }
}

/// Checks that a text is the path of an asset.
pub fn asset_path(literal: &str, span: Span) -> (r: Result<String, Halt>)
    ensures
        if is_asset_path(literal@) {
            r matches Ok(path) && path@ == literal@
        } else {
            r matches Err(halt) && halt@ == building::invalid_asset_path(literal@, span)
        },
{
    if parses_as_asset_path(literal) {
        Ok(copy_str(literal))
    } else {
        Err(
            Halt::Error(
                DynamicSceneBuildError::InvalidAssetPath { path: copy_str(literal), span },
            ),
        )
    }
}

/// String literals: text types directly, everything else through a registered conversion — which
/// is how the template of a handle is produced from an asset path.
pub fn build_string(
    cx: &BuildCx,
    at: &mut BuildState,
    literal: &str,
    expected: TypeKey,
    span: Span,
) -> (r: Result<Plan, Halt>)
    requires
        is_registered(cx@.types, expected),
    ensures
        outcome(
            building::string_value(cx@, old(at)@, literal@, expected, span),
            old(at)@,
            final(at)@,
            r,
        ),
{
    proof {
        reveal(building::string_value);
    }
    let entry = cx.entry(expected);
    match entry.builtin {
        Builtin::Text => {
            return Ok(Plan::Text(copy_str(literal)));
        },
        Builtin::SharedText => {
            return Ok(Plan::SharedText(copy_str(literal)));
        },
        Builtin::AssetPath => {
            return match asset_path(literal, span) {
                Ok(path) => Ok(Plan::AssetPath(path)),
                Err(halt) => Err(halt),
            };
        },
        _ => {},
    }
    // Checking the path before converting gives the better error.
    match handle_asset_type(cx.types, expected) {
        None => coerce(
            cx,
            at,
            Plan::Text(copy_str(literal)),
            "alloc::string::String",
            false,
            expected,
            span,
        ),
        Some(asset) => {
            let path = match asset_path(literal, span) {
                Ok(path) => path,
                Err(halt) => {
                    return Err(halt);
                },
            };
            match coerce(
                cx,
                at,
                Plan::Text(copy_str(literal)),
                "alloc::string::String",
                false,
                expected,
                span,
            ) {
                Err(halt) => Err(halt),
                Ok(converted) => {
                    let ghost before = at@.dependencies;
                    at.dependencies.push(AssetDependency { asset, path });
                    assert(at@.dependencies =~= before.push((asset, literal@)));
                    Ok(converted)
                },
            }
        },
    }
}

/// The id of the node of a named entity.
fn find_entity(names: &Vec<NamedEntity>, name: &str) -> (r: Option<u32>)
    ensures
        r == named_entity(names_view(names@), 0, name@),
{
    let mut i: usize = 0;
    while i < names.len()
        invariant
            i <= names.len(),
            named_entity(names_view(names@), 0, name@) == named_entity(
                names_view(names@),
                i as int,
                name@,
            ),
        decreases names.len() - i,
    {
        if same_text(names[i].name.as_str(), name) {
            return Some(names[i].node);
        }
        i = i + 1;
    }
    None
}

/// A `#Name` reference used as a value.
pub fn build_entity_ref(
    cx: &BuildCx,
    at: &mut BuildState,
    name: &str,
    expected: TypeKey,
    span: Span,
) -> (r: Result<Plan, Halt>)
    requires
        is_registered(cx@.types, expected),
    ensures
        outcome(
            building::entity_ref_value(cx@, old(at)@, name@, expected, span),
            old(at)@,
            final(at)@,
            r,
        ),
{
    proof {
        reveal(building::entity_ref_value);
    }
    match find_entity(cx.names, name) {
        None => Err(
            Halt::Error(
                DynamicSceneBuildError::UnknownEntityName { name: copy_str(name), span },
            ),
        ),
        Some(node) => {
            let reference = SceneEntityReference::from_asset_hashed(cx.source_path_hash, node);
            let same = match cx.entry(expected).builtin {
                Builtin::EntityTemplate => true,
                _ => false,
            };
            coerce(
                cx,
                at,
                Plan::Entity(reference),
                "bevy_ecs::template::EntityTemplate",
                same,
                expected,
                span,
            )
        },
    }
}

// -- composite values ---------------------------------------------------------------------------

/// The body that followed a path in the source: for an enum variant, the fields supplied for it.
#[derive(Clone, Copy, Debug)]
pub enum EnumInput<'a> {
    /// `Foo::Qux`
    Unit,
    /// `Foo::Bar { x: 1 }`
    Named(&'a Vec<(String, BsnValueId)>),
    /// `Foo::Baz(1)`
    Tuple(&'a Vec<BsnValueId>),
}

impl<'a> EnumInput<'a> {
    pub open spec fn view(&self) -> Body {
        match self {
            EnumInput::Unit => Body::Unit,
            EnumInput::Named(fields) => Body::Named {
                names: field_names(fields@),
                ids: field_ids(fields@),
            },
            EnumInput::Tuple(items) => Body::Tuple { ids: value_ids(items@) },
        }
    }
}

/// The parts of a run, after other parts.
spec fn after(parts: Seq<PartModel>, run: PartsRun) -> PartsRun {
    (
        run.0,
        match run.1 {
            Ok(rest) => Ok(parts + rest),
            Err(stop) => Err(stop),
        },
    )
}

proof fn lemma_after(parts: Seq<PartModel>, part: PartModel, run: PartsRun)
    ensures
        after(parts, building::preceded(part, run)) == after(parts.push(part), run),
{
    match run.1 {
        Ok(rest) => {
            assert(parts + (seq![part] + rest) =~= parts.push(part) + rest);
        },
        Err(_) => {},
    }
}

proof fn lemma_variant(forms: VariantPlan)
    ensures
        Plan::Variant(forms)@ == Val::Variant(forms@),
        forms@ == (VariantModel {
            ty: forms.ty,
            variant: forms.variant@,
            kind: forms.kind,
            defaults: slots_view(forms.defaults@),
            supplied: parts_view(forms.supplied@),
        }),
{
}

proof fn lemma_push_part(parts: Seq<Part>, part: Part)
    ensures
        parts_view(parts.push(part)) == parts_view(parts).push(part_view(part)),
{
    assert(parts.push(part).drop_last() =~= parts);
}

/// Builds the items of a group, each for the field at its position, or all for the first field.
fn build_items(
    cx: &BuildCx,
    at: &mut BuildState,
    fields: &Vec<Field>,
    repeat: Option<&Field>,
    items: &Vec<BsnValueId>,
    span: Span,
) -> (r: Result<Vec<Part>, Halt>)
    requires
        repeat is None ==> items@.len() <= fields@.len(),
    ensures
        parts_outcome(
            match repeat {
                Some(field) => items_run(
                    cx@,
                    old(at)@,
                    seq![*field],
                    true,
                    value_ids(items@),
                    0,
                    span,
                    values_of(cx@),
                ),
                None => items_run(
                    cx@,
                    old(at)@,
                    fields@,
                    false,
                    value_ids(items@),
                    0,
                    span,
                    values_of(cx@),
                ),
            },
            old(at)@,
            final(at)@,
            r,
        ),
    decreases room(cx@, old(at)@), 1int, 0int,
{
    let ghost ids = value_ids(items@);
    let ghost all = match repeat {
        Some(field) => seq![*field],
        None => fields@,
    };
    let ghost whole = items_run(cx@, at@, all, repeat is Some, ids, 0, span, values_of(cx@));
    let mut parts: Vec<Part> = Vec::new();
    let mut i: usize = 0;
    assert(after(parts_view(parts@), whole) == whole) by {
        match whole.1 {
            Ok(rest) => {
                assert(Seq::<PartModel>::empty() + rest =~= rest);
            },
            Err(_) => {},
        }
    }
    while i < items.len()
        invariant
            i <= items.len(),
            ids == value_ids(items@),
            repeat is None ==> items@.len() <= fields@.len(),
            all == (match repeat {
                Some(field) => seq![*field],
                None => fields@,
            }),
            at@.depth >= old(at)@.depth,
            whole == items_run(cx@, old(at)@, all, repeat is Some, ids, 0, span, values_of(cx@)),
            whole == after(
                parts_view(parts@),
                items_run(cx@, at@, all, repeat is Some, ids, i as int, span, values_of(cx@)),
            ),
        decreases items.len() - i,
    {
        let ghost here = at@;
        let field = match repeat {
            Some(field) => field,
            None => &fields[i],
        };
        let ty = match cx.registration(field, span) {
            Ok(ty) => ty,
            Err(halt) => {
                return Err(halt);
            },
        };
        let plan = match build_value(cx, at, items[i], ty) {
            Ok(plan) => plan,
            Err(halt) => {
                return Err(halt);
            },
        };
        let name = String::new();
        let part = Part { name, plan };
        proof {
            let rest = items_run(cx@, at@, all, repeat is Some, ids, i + 1, span, values_of(cx@));
            lemma_push_part(parts@, part);
            lemma_after(parts_view(parts@), part_view(part), rest);
            assert(part_view(part).name =~= Seq::<char>::empty());
            assert(items_run(cx@, here, all, repeat is Some, ids, i as int, span, values_of(cx@))
                == building::preceded(part_view(part), rest));
        }
        parts.push(part);
        i = i + 1;
    }
    proof {
        match whole.1 {
            Ok(rest) => {
                assert(parts_view(parts@) + Seq::<PartModel>::empty() =~= parts_view(parts@));
            },
            Err(_) => {},
        }
    }
    Ok(parts)
}

/// Builds named fields, each for the field of its name.
///
/// Unknown and duplicated field names are hard errors, so that a typo is not swallowed.
fn build_fields(
    cx: &BuildCx,
    at: &mut BuildState,
    fields: &Vec<Field>,
    type_path: &str,
    supplied: &Vec<(String, BsnValueId)>,
    span: Span,
) -> (r: Result<Vec<Part>, Halt>)
    ensures
        parts_outcome(
            fields_run(
                cx@,
                old(at)@,
                fields@,
                type_path@,
                field_names(supplied@),
                field_ids(supplied@),
                0,
                span,
                values_of(cx@),
            ),
            old(at)@,
            final(at)@,
            r,
        ),
    decreases room(cx@, old(at)@), 1int, 0int,
{
    let ghost names = field_names(supplied@);
    let ghost ids = field_ids(supplied@);
    let ghost whole = fields_run(cx@, at@, fields@, type_path@, names, ids, 0, span, values_of(cx@));
    let mut parts: Vec<Part> = Vec::new();
    let mut seen = new_set();
    let mut i: usize = 0;
    assert(after(parts_view(parts@), whole) == whole) by {
        match whole.1 {
            Ok(rest) => {
                assert(Seq::<PartModel>::empty() + rest =~= rest);
            },
            Err(_) => {},
        }
    }
    while i < supplied.len()
        invariant
            i <= supplied.len(),
            names == field_names(supplied@),
            ids == field_ids(supplied@),
            at@.depth >= old(at)@.depth,
            whole == fields_run(
                cx@,
                old(at)@,
                fields@,
                type_path@,
                names,
                ids,
                0,
                span,
                values_of(cx@),
            ),
            forall|name: Seq<char>| #[trigger]
                set_names(seen).contains(name) <==> exists|j: int|
                    0 <= j < i && #[trigger] names[j] == name,
            whole == after(
                parts_view(parts@),
                fields_run(
                    cx@,
                    at@,
                    fields@,
                    type_path@,
                    names,
                    ids,
                    i as int,
                    span,
                    values_of(cx@),
                ),
            ),
        decreases supplied.len() - i,
    {
        let ghost here = at@;
        let name = supplied[i].0.as_str();
        assert(names[i as int] == name@);
        let field = match find_field(fields, name) {
            Some(field) => field,
            None => {
                return Err(
                    Halt::Error(
                        DynamicSceneBuildError::UnknownField {
                            type_path: copy_str(type_path),
                            field: copy_str(name),
                            span,
                        },
                    ),
                );
            },
        };
        let ghost before = set_names(seen);
        let fresh = set_insert(&mut seen, name);
        assert(fresh == !is_repeated_name(names, i as int));
        if !fresh {
            return Err(
                Halt::Error(
                    DynamicSceneBuildError::DuplicateField {
                        type_path: copy_str(type_path),
                        field: copy_str(name),
                        span,
                    },
                ),
            );
        }
        let ty = match cx.registration(field, span) {
            Ok(ty) => ty,
            Err(halt) => {
                return Err(halt);
            },
        };
        let plan = match build_value(cx, at, supplied[i].1, ty) {
            Ok(plan) => plan,
            Err(halt) => {
                return Err(halt);
            },
        };
        let part = Part { name: copy_str(name), plan };
        proof {
            let rest = fields_run(
                cx@,
                at@,
                fields@,
                type_path@,
                names,
                ids,
                i + 1,
                span,
                values_of(cx@),
            );
            lemma_push_part(parts@, part);
            lemma_after(parts_view(parts@), part_view(part), rest);
            assert(fields_run(cx@, here, fields@, type_path@, names, ids, i as int, span, values_of(cx@))
                == building::preceded(part_view(part), rest));
            assert forall|name: Seq<char>| #[trigger]
                set_names(seen).contains(name) <==> exists|j: int|
                    0 <= j < i + 1 && #[trigger] names[j] == name by {
                if set_names(seen).contains(name) && !before.contains(name) {
                    assert(names[i as int] == name);
                }
                if exists|j: int| 0 <= j < i + 1 && #[trigger] names[j] == name {
                    let j = choose|j: int| 0 <= j < i + 1 && #[trigger] names[j] == name;
                    if j < i {
                        assert(before.contains(name));
                    }
                }
            }
        }
        parts.push(part);
        i = i + 1;
    }
    proof {
        match whole.1 {
            Ok(rest) => {
                assert(parts_view(parts@) + Seq::<PartModel>::empty() =~= parts_view(parts@));
            },
            Err(_) => {},
        }
    }
    Ok(parts)
}

/// Builds the value with the given id for a destination of the expected type.
///
/// The expected type is the *template-side* type of the destination, because values are always
/// built for a template. A destination shaped like an option accepts its payload directly;
/// explicit `None` and `Some(x)` never come to that: they match by variant name first.
pub fn build_value(
    cx: &BuildCx,
    at: &mut BuildState,
    value: BsnValueId,
    expected: TypeKey,
) -> (r: Result<Plan, Halt>)
    requires
        is_registered(cx@.types, expected),
    ensures
        outcome(
            value_run(cx@, old(at)@, value.0 as int, expected),
            old(at)@,
            final(at)@,
            r,
        ),
    decreases room(cx@, old(at)@), 0int, 0int,
{
    proof {
        lemma_value_run(cx@, at@, value.0 as int, expected);
        reveal(building::value_step);
    }
    let document = cx.document;
    let node = match document.value(value) {
        Some(node) => node,
        None => {
            let mut message: Vec<char> = Vec::new();
            push_text(&mut message, "no value with id ");
            push_decimal(&mut message, value.0 as u128);
            assert(message@ =~= "no value with id "@ + decimal(value.0 as nat));
            return Err(
                Halt::Error(
                    DynamicSceneBuildError::MalformedDocument {
                        message: string_of(&message),
                        span: Span::none(),
                    },
                ),
            );
        },
    };
    let span = node.span;
    if at.depth >= cx.max_depth {
        return Err(
            Halt::Error(
                DynamicSceneBuildError::MalformedDocument {
                    message: copy_str(NESTED_TOO_DEEPLY),
                    span,
                },
            ),
        );
    }
    at.depth = at.depth + 1;
    let built = match build_value_direct(cx, at, node, expected) {
        Err(Halt::Error(DynamicSceneBuildError::ValueTypeMismatch { found, expected: path, span })) => {
            let err = Halt::Error(
                DynamicSceneBuildError::ValueTypeMismatch { found, expected: path, span },
            );
            match optionish_payload(cx.types, expected) {
                Some(payload) => match build_value(cx, at, value, payload) {
                    Ok(inner) => in_some(expected, inner),
                    Err(Halt::Ask(question)) => {
                        return Err(Halt::Ask(question));
                    },
                    Err(_) => {
                        return Err(err);
                    },
                },
                None => {
                    return Err(err);
                },
            }
        },
        Err(halt) => {
            return Err(halt);
        },
        Ok(built) => built,
    };
    at.depth = at.depth - 1;
    Ok(built)
}

/// The variant `Some` with the given payload.
fn in_some(ty: TypeKey, payload: Plan) -> (r: Plan)
    ensures
        r@ == building::in_some(ty, payload@),
{
    let part = Part { name: String::new(), plan: payload };
    let mut supplied: Vec<Part> = Vec::new();
    proof {
        lemma_push_part(supplied@, part);
        assert(part_view(part).name =~= Seq::<char>::empty());
    }
    supplied.push(part);
    let defaults: Vec<Slot> = Vec::new();
    assert(slots_view(defaults@) =~= Seq::empty());
    assert(parts_view(supplied@) =~= seq![
        PartModel { name: Seq::empty(), value: payload@ },
    ]);
    let forms = VariantPlan {
        ty,
        variant: copy_str("Some"),
        kind: VariantKind::Tuple,
        defaults,
        supplied,
    };
    proof {
        lemma_variant(forms);
    }
    Plan::Variant(forms)
}

/// [`build_value`] of a value as it stands.
fn build_value_direct(
    cx: &BuildCx,
    at: &mut BuildState,
    node: &BsnValueNode,
    expected: TypeKey,
) -> (r: Result<Plan, Halt>)
    requires
        is_registered(cx@.types, expected),
    ensures
        outcome(
            building::direct_run(cx@, old(at)@, node@, expected, values_of(cx@)),
            old(at)@,
            final(at)@,
            r,
        ),
    decreases room(cx@, old(at)@), 4int, 0int,
{
    proof {
        reveal(building::direct_run);
    }
    let span = node.span;
    match &node.value {
        BsnValue::Unit => build_unit(cx, at, expected, span),
        BsnValue::Bool(literal) => build_bool(cx, at, *literal, expected, span),
        BsnValue::Int(literal) => build_int(cx, at, *literal, expected, span),
        BsnValue::Float(literal) => build_float(cx, at, literal, expected, span),
        BsnValue::String(literal) => build_string(cx, at, literal.as_str(), expected, span),
        BsnValue::Path(path) => build_named(cx, at, path, EnumInput::Unit, expected, span),
        BsnValue::Tuple(items) => build_tuple(cx, at, items, expected, span),
        BsnValue::List(items) => build_list(cx, at, items, expected, span),
        BsnValue::Struct(path, fields) => build_named(
            cx,
            at,
            path,
            EnumInput::Named(fields),
            expected,
            span,
        ),
        BsnValue::NamedTuple(path, items) => build_named(
            cx,
            at,
            path,
            EnumInput::Tuple(items),
            expected,
            span,
        ),
        BsnValue::EntityRef(name) => build_entity_ref(cx, at, name.as_str(), expected, span),
    }
}

/// A value written as a path plus an optional body: `Marker`, `Foo::Qux`, `Bar { a: 1 }`,
/// `Bar(2)`.
fn build_named(
    cx: &BuildCx,
    at: &mut BuildState,
    path: &BsnPath,
    body: EnumInput,
    expected: TypeKey,
    span: Span,
) -> (r: Result<Plan, Halt>)
    requires
        is_registered(cx@.types, expected),
    ensures
        outcome(
            building::named_run(
                cx@,
                old(at)@,
                path@,
                body@,
                expected,
                span,
                values_of(cx@),
            ),
            old(at)@,
            final(at)@,
            r,
        ),
    decreases room(cx@, old(at)@), 3int, 0int,
{
    proof {
        reveal(building::named_run);
    }
    // A destination that is an enum accepts a bare variant name, which is what makes `None` and
    // `Some(5)` work without naming the enum.
    if path.is_single_segment() {
        if let Shape::Enum(variants) = &cx.entry(expected).shape {
            if find_variant(variants, path.last_ident()).is_some() {
                return match build_enum_forms(cx, at, expected, path.last_ident(), body, span) {
                    Ok(forms) => Ok(Plan::Variant(forms)),
                    Err(halt) => Err(halt),
                };
            }
        }
    }
    assert(!building::is_bare_variant(cx@, path@, expected));
    let (named, variant) = match resolve_symbol(cx, at, path, span) {
        Ok(symbol) => symbol,
        Err(halt) => {
            return Err(halt);
        },
    };
    let partial: Option<Plan> = match variant {
        // A switch to a variant has to produce a complete value.
        Some(variant) => match build_enum_forms(cx, at, named, variant.as_str(), body, span) {
            Ok(forms) => Some(Plan::Variant(forms)),
            Err(halt) => {
                return Err(halt);
            },
        },
        None => match body {
            EnumInput::Unit => None,
            EnumInput::Named(fields) => match build_partial_struct(cx, at, named, fields, span) {
                Ok(plan) => Some(plan),
                Err(halt) => {
                    return Err(halt);
                },
            },
            EnumInput::Tuple(items) => match build_partial_tuple_struct(cx, at, named, items, span) {
                Ok(plan) => Some(plan),
                Err(halt) => {
                    return Err(halt);
                },
            },
        },
    };
    // Of the destination's own type, the parts alone patch the nested value.
    let partial = match partial {
        Some(plan) => {
            if named == expected {
                return Ok(plan);
            }
            Some(plan)
        },
        None => None,
    };
    // A value of another type is constructed in full, and then converted.
    construct(cx, at, named, partial, expected, span)
}

/// The type that a path names, and the variant.
fn resolve_symbol(
    cx: &BuildCx,
    at: &mut BuildState,
    path: &BsnPath,
    span: Span,
) -> (r: Result<
    (TypeKey, Option<String>),
    Halt,
>)
    ensures
        final(at)@.depth == old(at)@.depth,
        ({
            let run = building::symbol_run(cx@, old(at)@, path@, span);
            &&& final(at)@ == run.0
            &&& match run.1 {
                Ok((ty, variant)) => (r matches Ok(found) && found.0 == ty
                    && crate::ast::text_view(found.1) == variant && is_registered(
                    cx@.types,
                    ty,
                )),
                Err(stop) => (r matches Err(halt) && halt@ == stop),
            }
        }),
{
    proof {
        reveal(building::symbol_run);
    }
    match at.take_answer(cx) {
        None => Err(Halt::Ask(Question::Symbol(path.to_type_path()))),
        Some(Answer::Symbol(ty, variant)) => {
            if cx.types.get(*ty).is_none() {
                return Err(
                    Halt::Error(
                        DynamicSceneBuildError::UnregisteredType {
                            type_path: path.to_type_path(),
                            span,
                        },
                    ),
                );
            }
            match variant {
                Some(variant) => Ok((*ty, Some(copy_str(variant.as_str())))),
                None => Ok((*ty, None)),
            }
        },
        Some(Answer::Failed(reason)) => Err(
            Halt::Error(
                DynamicSceneBuildError::UnresolvedSymbol { reason: copy_str(reason.as_str()), span },
            ),
        ),
        Some(Answer::Done) => {
            let reason = String::new();
            assert(reason@ =~= Seq::<char>::empty());
            Err(Halt::Error(DynamicSceneBuildError::UnresolvedSymbol { reason, span }))
        },
    }
}

/// The default value of a registered type, with parts applied on top, for the expected type.
fn construct(
    cx: &BuildCx,
    at: &mut BuildState,
    named: TypeKey,
    partial: Option<Plan>,
    expected: TypeKey,
    span: Span,
) -> (r: Result<Plan, Halt>)
    requires
        is_registered(cx@.types, expected),
        is_registered(cx@.types, named),
    ensures
        outcome(
            building::constructed(
                cx@,
                old(at)@,
                named,
                match partial {
                    Some(plan) => Some(plan@),
                    None => None,
                },
                expected,
                span,
            ),
            old(at)@,
            final(at)@,
            r,
        ),
{
    proof {
        reveal(building::constructed);
    }
    let entry = cx.entry(named);
    if let Err(halt) = default_value(cx, named, span) {
        return Err(halt);
    }
    match partial {
        None => coerce(
            cx,
            at,
            Plan::Default(named),
            entry.path.as_str(),
            named == expected,
            expected,
            span,
        ),
        Some(patch) => match at.take_answer(cx) {
            None => Err(Halt::Ask(Question::Fill(named, patch))),
            Some(Answer::Failed(error)) => Err(
                Halt::Error(
                    DynamicSceneBuildError::ValueApplyFailed {
                        type_path: copy_str(entry.path.as_str()),
                        error: copy_str(error.as_str()),
                        span,
                    },
                ),
            ),
            Some(_) => coerce(
                cx,
                at,
                Plan::Filled(named, Box::new(patch)),
                entry.path.as_str(),
                named == expected,
                expected,
                span,
            ),
        },
    }
}

/// Checks that a registered type has a default value.
fn default_value(cx: &BuildCx, ty: TypeKey, span: Span) -> (r: Result<(), Halt>)
    requires
        is_registered(cx@.types, ty),
    ensures
        if entry_of(cx@.types, ty).has_default {
            r is Ok
        } else {
            r matches Err(halt) && halt@ == Stop::Error(
                Failure::MissingDefault { type_path: path_of(cx@, ty), span },
            )
        },
{
    let entry = cx.entry(ty);
    if entry.has_default {
        Ok(())
    } else {
        Err(
            Halt::Error(
                DynamicSceneBuildError::MissingReflectDefault {
                    type_path: copy_str(entry.path.as_str()),
                    span,
                },
            ),
        )
    }
}

/// Builds a partial struct holding exactly the supplied fields.
pub fn build_partial_struct(
    cx: &BuildCx,
    at: &mut BuildState,
    ty: TypeKey,
    supplied: &Vec<(String, BsnValueId)>,
    span: Span,
) -> (r: Result<Plan, Halt>)
    requires
        is_registered(cx@.types, ty),
    ensures
        outcome(
            building::struct_run(
                cx@,
                old(at)@,
                ty,
                field_names(supplied@),
                field_ids(supplied@),
                span,
                values_of(cx@),
            ),
            old(at)@,
            final(at)@,
            r,
        ),
    decreases room(cx@, old(at)@), 2int, 0int,
{
    proof {
        reveal(building::struct_run);
    }
    let entry = cx.entry(ty);
    match &entry.shape {
        Shape::Struct(fields) => match build_fields(cx, at, fields, entry.path.as_str(), supplied, span) {
            Ok(parts) => Ok(Plan::Group(Form::Struct, ty, parts)),
            Err(halt) => Err(halt),
        },
        _ => Err(
            Halt::Error(
                DynamicSceneBuildError::TypeNotStruct {
                    type_path: copy_str(entry.path.as_str()),
                    span,
                },
            ),
        ),
    }
}

/// The error for more positional values than there are fields.
fn too_many(type_path: &str, given: usize, expected: usize, span: Span) -> (r: Halt)
    ensures
        r@ == building::too_many(type_path@, given as int, expected as int, span),
{
    Halt::Error(
        DynamicSceneBuildError::TooManyTupleFields {
            type_path: copy_str(type_path),
            given,
            expected,
            span,
        },
    )
}

/// Builds a partial tuple struct holding the supplied *leading* fields.
///
/// Trailing fields are simply absent, so they stay whatever they were.
pub fn build_partial_tuple_struct(
    cx: &BuildCx,
    at: &mut BuildState,
    ty: TypeKey,
    items: &Vec<BsnValueId>,
    span: Span,
) -> (r: Result<Plan, Halt>)
    requires
        is_registered(cx@.types, ty),
    ensures
        outcome(
            building::tuple_struct_run(
                cx@,
                old(at)@,
                ty,
                value_ids(items@),
                span,
                values_of(cx@),
            ),
            old(at)@,
            final(at)@,
            r,
        ),
    decreases room(cx@, old(at)@), 2int, 0int,
{
    proof {
        reveal(building::tuple_struct_run);
    }
    let entry = cx.entry(ty);
    match &entry.shape {
        Shape::TupleStruct(fields) => {
            if items.len() > fields.len() {
                return Err(too_many(entry.path.as_str(), items.len(), fields.len(), span));
            }
            match build_items(cx, at, fields, None, items, span) {
                Ok(parts) => Ok(Plan::Group(Form::TupleStruct, ty, parts)),
                Err(halt) => Err(halt),
            }
        },
        _ => Err(
            Halt::Error(
                DynamicSceneBuildError::TypeNotTupleStruct {
                    type_path: copy_str(entry.path.as_str()),
                    span,
                },
            ),
        ),
    }
}

/// Tuple values, such as `(1, 2)`.
pub fn build_tuple(
    cx: &BuildCx,
    at: &mut BuildState,
    items: &Vec<BsnValueId>,
    expected: TypeKey,
    span: Span,
) -> (r: Result<Plan, Halt>)
    requires
        is_registered(cx@.types, expected),
    ensures
        outcome(
            building::tuple_run(
                cx@,
                old(at)@,
                value_ids(items@),
                expected,
                span,
                values_of(cx@),
            ),
            old(at)@,
            final(at)@,
            r,
        ),
    decreases room(cx@, old(at)@), 2int, 0int,
{
    proof {
        reveal(building::tuple_run);
    }
    let entry = cx.entry(expected);
    match &entry.shape {
        Shape::Tuple(fields) => {
            if items.len() > fields.len() {
                return Err(too_many(entry.path.as_str(), items.len(), fields.len(), span));
            }
            match build_items(cx, at, fields, None, items, span) {
                Ok(parts) => Ok(Plan::Group(Form::Tuple, expected, parts)),
                Err(halt) => Err(halt),
            }
        },
        _ => Err(mismatch(cx, "a tuple", expected, span)),
    }
}

/// List values, such as `[1, 2]`.
///
/// A single-field tuple struct whose field is a list is unwrapped first, so that the template of
/// a list accepts a list directly.
pub fn build_list(
    cx: &BuildCx,
    at: &mut BuildState,
    items: &Vec<BsnValueId>,
    expected: TypeKey,
    span: Span,
) -> (r: Result<Plan, Halt>)
    requires
        is_registered(cx@.types, expected),
    ensures
        outcome(
            building::list_run(
                cx@,
                old(at)@,
                value_ids(items@),
                expected,
                span,
                values_of(cx@),
            ),
            old(at)@,
            final(at)@,
            r,
        ),
    decreases room(cx@, old(at)@), 3int, 0int,
{
    proof {
        reveal(building::list_run);
    }
    match wrapped_list(cx, expected) {
        Some(inner) => match build_plain_list(cx, at, items, inner, span) {
            Ok(list) => {
                let part = Part { name: String::new(), plan: list };
                let mut parts: Vec<Part> = Vec::new();
                proof {
                    lemma_push_part(parts@, part);
                    assert(part_view(part).name =~= Seq::<char>::empty());
                }
                parts.push(part);
                assert(parts_view(parts@) =~= seq![
                    PartModel { name: Seq::empty(), value: list@ },
                ]);
                Ok(Plan::Group(Form::TupleStruct, expected, parts))
            },
            Err(halt) => Err(halt),
        },
        None => build_plain_list(cx, at, items, expected, span),
    }
}

/// The list type that a tuple struct of one field wraps.
fn wrapped_list(cx: &BuildCx, ty: TypeKey) -> (r: Option<TypeKey>)
    requires
        is_registered(cx@.types, ty),
    ensures
        r == building::wrapped_list(cx@, ty),
        r matches Some(inner) ==> is_registered(cx@.types, inner),
{
    match &cx.entry(ty).shape {
        Shape::TupleStruct(fields) => {
            if fields.len() != 1 {
                return None;
            }
            match cx.types.get(fields[0].ty) {
                Some(inner) => match inner.shape {
                    Shape::List(_) => Some(fields[0].ty),
                    _ => None,
                },
                None => None,
            }
        },
        _ => None,
    }
}

fn build_plain_list(
    cx: &BuildCx,
    at: &mut BuildState,
    items: &Vec<BsnValueId>,
    expected: TypeKey,
    span: Span,
) -> (r: Result<Plan, Halt>)
    requires
        is_registered(cx@.types, expected),
    ensures
        outcome(
            building::plain_list_run(
                cx@,
                old(at)@,
                value_ids(items@),
                expected,
                span,
                values_of(cx@),
            ),
            old(at)@,
            final(at)@,
            r,
        ),
    decreases room(cx@, old(at)@), 2int, 0int,
{
    proof {
        reveal(building::plain_list_run);
    }
    match &cx.entry(expected).shape {
        Shape::List(item) => {
            if let Err(halt) = cx.registration(item, span) {
                return Err(halt);
            }
            let none: Vec<Field> = Vec::new();
            match build_items(cx, at, &none, Some(item), items, span) {
                Ok(parts) => Ok(Plan::Group(Form::List, expected, parts)),
                Err(halt) => Err(halt),
            }
        },
        _ => Err(mismatch(cx, "a list", expected, span)),
    }
}

/// The fields of a variant as slots at their defaults, where every one has a default value.
fn default_fields(cx: &BuildCx, fields: &Vec<Field>, span: Span) -> (r: Result<Vec<Slot>, Halt>)
    ensures
        match defaults_problem(cx@, fields@, 0, span) {
            None => r matches Ok(slots) && slots_view(slots@) == default_slots(fields@),
            Some(stop) => r matches Err(halt) && halt@ == stop,
        },
{
    let mut slots: Vec<Slot> = Vec::new();
    let mut i: usize = 0;
    while i < fields.len()
        invariant
            i <= fields.len(),
            slots_view(slots@) =~= default_slots(fields@).take(i as int),
            defaults_problem(cx@, fields@, 0, span) == defaults_problem(
                cx@,
                fields@,
                i as int,
                span,
            ),
        decreases fields.len() - i,
    {
        let ty = match cx.registration(&fields[i], span) {
            Ok(ty) => ty,
            Err(halt) => {
                return Err(halt);
            },
        };
        if let Err(halt) = default_value(cx, ty, span) {
            return Err(halt);
        }
        let ghost before = slots_view(slots@);
        slots.push(Slot { name: copy_str(fields[i].name.as_str()), ty });
        assert(slots_view(slots@) =~= before.push(default_slots(fields@)[i as int]));
        i = i + 1;
    }
    assert(default_slots(fields@).take(i as int) =~= default_slots(fields@));
    Ok(slots)
}

/// Overlays the supplied fields of a variant onto the fully-defaulted form.
fn apply_overlay(
    cx: &BuildCx,
    at: &mut BuildState,
    supplied: Vec<Part>,
    ty: TypeKey,
    variant: &str,
    kind: VariantKind,
    fields: &Vec<Field>,
    span: Span,
) -> (r: Result<VariantPlan, Halt>)
    requires
        is_registered(cx@.types, ty),
    ensures
        forms_outcome(
            overlaid(
                cx@,
                (old(at)@, Ok(parts_view(supplied@))),
                ty,
                variant@,
                kind,
                fields@,
                span,
            ),
            old(at)@,
            final(at)@,
            r,
        ),
{
    proof {
        reveal(overlaid);
    }
    let defaults = match default_fields(cx, fields, span) {
        Ok(defaults) => defaults,
        Err(halt) => {
            return Err(halt);
        },
    };
    let forms = VariantPlan { ty, variant: copy_str(variant), kind, defaults, supplied };
    match at.take_answer(cx) {
        None => Err(Halt::Ask(Question::Overlay(forms))),
        Some(Answer::Failed(error)) => Err(
            Halt::Error(
                DynamicSceneBuildError::ValueApplyFailed {
                    type_path: join_variant(cx.entry(ty).path.as_str(), variant),
                    error: copy_str(error.as_str()),
                    span,
                },
            ),
        ),
        Some(_) => Ok(forms),
    }
}

/// Builds the two forms of an enum-variant value.
///
/// * The *full* form has every field of the variant that is not ignored at its default, then the
///   supplied fields overlaid. It is what a variant *switch* needs.
/// * The *partial* form has only the supplied fields, and is what a patch of the *same* variant
///   needs so that untouched fields survive.
pub fn build_enum_forms(
    cx: &BuildCx,
    at: &mut BuildState,
    ty: TypeKey,
    variant: &str,
    input: EnumInput,
    span: Span,
) -> (r: Result<VariantPlan, Halt>)
    requires
        is_registered(cx@.types, ty),
    ensures
        forms_outcome(
            forms_run(cx@, old(at)@, ty, variant@, input@, span, values_of(cx@)),
            old(at)@,
            final(at)@,
            r,
        ),
    decreases room(cx@, old(at)@), 2int, 0int,
{
    proof {
        reveal(forms_run);
        reveal(overlaid);
    }
    let entry = cx.entry(ty);
    let type_path = entry.path.as_str();
    let found = match &entry.shape {
        Shape::Enum(variants) => find_variant(variants, variant),
        _ => None,
    };
    let info = match found {
        Some(info) => info,
        None => {
            return Err(
                Halt::Error(
                    DynamicSceneBuildError::UnknownVariant {
                        type_path: copy_str(type_path),
                        variant: copy_str(variant),
                        span,
                    },
                ),
            );
        },
    };
    match (info.kind, input) {
        (VariantKind::Unit, EnumInput::Unit) => {
            let defaults: Vec<Slot> = Vec::new();
            let supplied: Vec<Part> = Vec::new();
            assert(slots_view(defaults@) =~= Seq::empty());
            let forms = VariantPlan {
                ty,
                variant: copy_str(variant),
                kind: VariantKind::Unit,
                defaults,
                supplied,
            };
            proof {
                lemma_variant(forms);
            }
            Ok(forms)
        },
        (VariantKind::Unit, _) => Err(
            too_many(join_variant(type_path, variant).as_str(), 1, 0, span),
        ),
        (VariantKind::Struct, EnumInput::Tuple(_)) => Err(
            Halt::Error(
                DynamicSceneBuildError::TypeNotTupleStruct {
                    type_path: join_variant(type_path, variant),
                    span,
                },
            ),
        ),
        (VariantKind::Struct, EnumInput::Unit) => {
            let none: Vec<Part> = Vec::new();
            assert(parts_view(none@) == Seq::<PartModel>::empty());
            apply_overlay(cx, at, none, ty, variant, VariantKind::Struct, &info.fields, span)
        },
        (VariantKind::Struct, EnumInput::Named(fields)) => {
            let path = join_variant(type_path, variant);
            match build_fields(cx, at, &info.fields, path.as_str(), fields, span) {
                Ok(supplied) => apply_overlay(
                    cx,
                    at,
                    supplied,
                    ty,
                    variant,
                    VariantKind::Struct,
                    &info.fields,
                    span,
                ),
                Err(halt) => Err(halt),
            }
        },
        (VariantKind::Tuple, EnumInput::Named(_)) => Err(
            Halt::Error(
                DynamicSceneBuildError::TypeNotStruct {
                    type_path: join_variant(type_path, variant),
                    span,
                },
            ),
        ),
        (VariantKind::Tuple, EnumInput::Unit) => {
            let none: Vec<Part> = Vec::new();
            assert(parts_view(none@) == Seq::<PartModel>::empty());
            apply_overlay(cx, at, none, ty, variant, VariantKind::Tuple, &info.fields, span)
        },
        (VariantKind::Tuple, EnumInput::Tuple(items)) => {
            if items.len() > info.fields.len() {
                return Err(
                    too_many(
                        join_variant(type_path, variant).as_str(),
                        items.len(),
                        info.fields.len(),
                        span,
                    ),
                );
            }
            match build_items(cx, at, &info.fields, None, items, span) {
                Ok(supplied) => apply_overlay(
                    cx,
                    at,
                    supplied,
                    ty,
                    variant,
                    VariantKind::Tuple,
                    &info.fields,
                    span,
                ),
                Err(halt) => Err(halt),
            }
        },
    }
}

} // verus!
