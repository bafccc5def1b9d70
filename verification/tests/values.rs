//! Values of documents, built for the types of a small registry.

use bevy_bsn::{
    asset_path, build_enum_forms, build_value, float_literals, Answer, BsnDocument, BsnFloat,
    BsnNodeKind, BsnPath, BsnValue, BsnValueId, BuildCx, BuildState, Builtin,
    DynamicSceneBuildError, EnumInput, Field, FloatTable, FloatType, Form, Halt, IntType,
    NamedEntity, Plan, Question, SceneEntityReference, Shape, Span, TypeEntry, TypeKey, TypeTable,
    Variant, VariantKind, VariantPlan,
};

const IMAGE: u64 = 77;

// -- the registry -------------------------------------------------------------------------------

fn field(table: &TypeTable, name: &str, ty: &str) -> Field {
    Field {
        name: name.to_string(),
        ty: key(table, ty),
        type_path: ty.to_string(),
    }
}

fn fields(table: &TypeTable, list: &[(&str, &str)]) -> Vec<Field> {
    list.iter().map(|(name, ty)| field(table, name, ty)).collect()
}

fn variant(table: &TypeTable, name: &str, kind: VariantKind, list: &[(&str, &str)]) -> Variant {
    Variant {
        name: name.to_string(),
        kind,
        fields: fields(table, list),
    }
}

fn add(table: &mut TypeTable, path: &str, builtin: Builtin, shape: Shape) {
    let entry = TypeEntry {
        path: path.to_string(),
        builtin,
        shape,
        has_default: !path.ends_with("NoDefault"),
        converts: path == "FontSize" || path == "HandleTemplate<Image>" || path == "Refusing",
        template_output: if path == "HandleTemplate<Image>" {
            Some(key(table, "Handle<Image>"))
        } else {
            None
        },
        handle_asset: if path == "Handle<Image>" {
            Some(IMAGE)
        } else {
            None
        },
    };
    table.entries.push(entry);
}

/// The key of a type; of one that is not registered, a key out of the table.
fn key(table: &TypeTable, path: &str) -> TypeKey {
    let found = table.entries.iter().position(|entry| entry.path == path);
    TypeKey(found.map_or(u32::MAX, |index| index as u32))
}

fn option(table: &mut TypeTable, path: &str, payload: &str) {
    let variants = vec![
        variant(table, "None", VariantKind::Unit, &[]),
        variant(table, "Some", VariantKind::Tuple, &[("", payload)]),
    ];
    add(table, path, Builtin::Other, Shape::Enum(variants));
}

fn test_registry() -> TypeTable {
    let mut table = TypeTable { entries: Vec::new() };
    let t = &mut table;
    let ints = [
        ("i8", IntType::I8),
        ("i16", IntType::I16),
        ("i32", IntType::I32),
        ("i64", IntType::I64),
        ("i128", IntType::I128),
        ("isize", IntType::Isize),
        ("u8", IntType::U8),
        ("u16", IntType::U16),
        ("u32", IntType::U32),
        ("u64", IntType::U64),
        ("u128", IntType::U128),
        ("usize", IntType::Usize),
    ];
    for (path, ty) in ints {
        add(t, path, Builtin::Int(ty), Shape::Opaque);
    }
    add(t, "()", Builtin::Unit, Shape::Tuple(Vec::new()));
    add(t, "bool", Builtin::Bool, Shape::Opaque);
    add(t, "f32", Builtin::Float(FloatType::F32), Shape::Opaque);
    add(t, "f64", Builtin::Float(FloatType::F64), Shape::Opaque);
    add(t, "String", Builtin::Text, Shape::Opaque);
    add(t, "Cow<str>", Builtin::SharedText, Shape::Opaque);
    add(t, "AssetPath", Builtin::AssetPath, Shape::Opaque);
    add(t, "EntityTemplate", Builtin::EntityTemplate, Shape::Opaque);
    add(t, "&str", Builtin::Other, Shape::Opaque);
    add(t, "char", Builtin::Other, Shape::Opaque);
    add(t, "Handle<Image>", Builtin::Other, Shape::Opaque);
    add(t, "HandleTemplate<Image>", Builtin::Other, Shape::Opaque);
    add(t, "Marker", Builtin::Other, Shape::Struct(Vec::new()));
    add(t, "FontSize", Builtin::Other, Shape::TupleStruct(fields(t, &[("", "u32")])));
    add(t, "FontSizeSource", Builtin::Other, Shape::Struct(fields(t, &[("value", "u32")])));
    add(t, "TextFont", Builtin::Other, Shape::Struct(fields(t, &[("font_size", "FontSize")])));
    let sizes = vec![
        variant(t, "Small", VariantKind::Unit, &[]),
        variant(t, "Large", VariantKind::Unit, &[]),
    ];
    add(t, "TextSize", Builtin::Other, Shape::Enum(sizes));
    add(
        t,
        "Foo",
        Builtin::Other,
        Shape::Struct(fields(t, &[("x", "u32"), ("y", "u32"), ("z", "u32")])),
    );
    add(
        t,
        "Bar",
        Builtin::Other,
        Shape::TupleStruct(fields(t, &[("", "u32"), ("", "u32"), ("", "u32")])),
    );
    let choices = vec![
        variant(t, "Bar", VariantKind::Struct, &[("x", "u32"), ("y", "u32"), ("z", "u32")]),
        variant(t, "Baz", VariantKind::Tuple, &[("", "u32")]),
        variant(t, "Qux", VariantKind::Unit, &[]),
    ];
    add(t, "Choice", Builtin::Other, Shape::Enum(choices));
    add(t, "NoDefault", Builtin::Other, Shape::TupleStruct(fields(t, &[("", "u32")])));
    let tricky = vec![variant(t, "A", VariantKind::Struct, &[("field", "NoDefault")])];
    add(t, "Tricky", Builtin::Other, Shape::Enum(tricky));
    add(t, "Refusing", Builtin::Other, Shape::Opaque);
    add(t, "Missing", Builtin::Other, Shape::Struct(fields(t, &[("gone", "Gone")])));
    option(t, "Option<u32>", "u32");
    option(t, "Option<Option<u32>>", "Option<u32>");
    add(t, "Vec<u8>", Builtin::Other, Shape::List(field(t, "", "u8")));
    add(t, "Vec<Vec<u8>>", Builtin::Other, Shape::List(field(t, "", "Vec<u8>")));
    add(t, "Vec<Gone>", Builtin::Other, Shape::List(field(t, "", "Gone")));
    add(t, "ListWrapper", Builtin::Other, Shape::TupleStruct(fields(t, &[("", "Vec<u8>")])));
    add(
        t,
        "(u32, f32)",
        Builtin::Other,
        Shape::Tuple(fields(t, &[("", "u32"), ("", "f32")])),
    );
    add(t, "Recursive", Builtin::Other, Shape::Opaque);
    let recursive = key(t, "Recursive");
    t.entries[recursive.0 as usize].shape = Shape::List(field(t, "", "Recursive"));
    add(
        t,
        "Widths",
        Builtin::Other,
        Shape::Struct(fields(
            t,
            &[
                ("u8f", "u8"),
                ("i64f", "i64"),
                ("u64f", "u64"),
                ("f32f", "f32"),
                ("f64f", "f64"),
                ("charf", "char"),
                ("optopt", "Option<Option<u32>>"),
                ("vecvec", "Vec<Vec<u8>>"),
            ],
        )),
    );
    add(
        t,
        "Collections",
        Builtin::Other,
        Shape::Struct(fields(t, &[("list", "Vec<u8>"), ("maybe", "Option<u32>")])),
    );
    add(
        t,
        "Primitives",
        Builtin::Other,
        Shape::Struct(fields(
            t,
            &[("a_string", "String"), ("a_u32", "u32"), ("a_bool", "bool")],
        )),
    );
    add(t, "Sprite", Builtin::Other, Shape::TupleStruct(fields(t, &[("", "HandleTemplate<Image>")])));
    let shadow = vec![
        variant(t, "Nothing", VariantKind::Unit, &[]),
        variant(t, "Bar", VariantKind::Unit, &[]),
    ];
    add(t, "ShadowEnum", Builtin::Other, Shape::Enum(shadow));
    add(t, "HasShadow", Builtin::Other, Shape::Struct(fields(t, &[("v", "ShadowEnum")])));
    let shared = vec![
        variant(t, "A", VariantKind::Unit, &[]),
        variant(t, "B", VariantKind::Struct, &[("v", "u32")]),
        variant(t, "C", VariantKind::Struct, &[("v", "String")]),
    ];
    add(t, "Shared", Builtin::Other, Shape::Enum(shared));
    add(t, "Holder", Builtin::Other, Shape::Struct(fields(t, &[("choice", "Shared")])));
    add(t, "Empty", Builtin::Other, Shape::TupleStruct(Vec::new()));
    add(t, "One", Builtin::Other, Shape::TupleStruct(fields(t, &[("", "u32")])));
    add(t, "HasRefusing", Builtin::Other, Shape::Struct(fields(t, &[("field", "Refusing")])));
    let ignoring = vec![
        variant(t, "Unit", VariantKind::Unit, &[]),
        variant(t, "Data", VariantKind::Struct, &[("v", "u32")]),
    ];
    add(t, "IgnoreEnum", Builtin::Other, Shape::Enum(ignoring));
    add(t, "IgnoreStruct", Builtin::Other, Shape::Struct(fields(t, &[("v", "u32")])));
    add(t, "HasTuple", Builtin::Other, Shape::Struct(fields(t, &[("pair", "(u32, f32)")])));
    table
}

// -- building -----------------------------------------------------------------------------------

/// Answers a question as the registered types would.
fn answer(table: &TypeTable, question: &Question) -> Answer {
    match question {
        Question::Symbol(path) => {
            if table.entries.iter().any(|entry| entry.path == *path) {
                return Answer::Symbol(key(table, path), None);
            }
            match path.rsplit_once("::") {
                Some((parent, variant)) if key(table, parent).0 != u32::MAX => {
                    Answer::Symbol(key(table, parent), Some(variant.to_string()))
                }
                _ => Answer::Failed(format!("no type is called {path}")),
            }
        }
        Question::Convert(to, value) => {
            let path = table.entries[to.0 as usize].path.as_str();
            let accepted = match value {
                Plan::Filled(from, _) | Plan::Default(from) => {
                    let from = table.entries[from.0 as usize].path.as_str();
                    path == "FontSize" && (from == "TextSize" || from == "FontSizeSource")
                }
                Plan::Text(_) => path == "HandleTemplate<Image>",
                _ => false,
            };
            if accepted {
                Answer::Done
            } else {
                Answer::Failed("not convertible".to_string())
            }
        }
        Question::Fill(..) | Question::Overlay(_) => Answer::Done,
    }
}

struct Built {
    result: Result<Plan, DynamicSceneBuildError>,
    state: BuildState,
    questions: Vec<String>,
}

/// Builds a value, answering every question on the way.
fn build_in(
    table: &TypeTable,
    document: &BsnDocument,
    names: &Vec<NamedEntity>,
    id: BsnValueId,
    expected: TypeKey,
) -> Built {
    let mut answers = Vec::new();
    let mut questions = Vec::new();
    loop {
        let cx = BuildCx {
            types: table,
            document,
            names,
            source_path_hash: SceneEntityReference::asset_path_hash("test.bsn"),
            max_depth: 64,
            answers: &answers,
        };
        let mut state = BuildState::new();
        let result = match build_value(&cx, &mut state, id, expected) {
            Ok(plan) => Ok(plan),
            Err(Halt::Error(error)) => Err(error),
            Err(Halt::Ask(question)) => {
                questions.push(format!("{question:?}"));
                answers.push(answer(table, &question));
                continue;
            }
        };
        return Built {
            result,
            state,
            questions,
        };
    }
}

/// The names of the entities of a document.
fn names_of(document: &BsnDocument) -> Vec<NamedEntity> {
    let mut names = Vec::new();
    for node in document.entities() {
        if let BsnNodeKind::Entity { name: Some(name), .. } = &node.kind {
            names.push(NamedEntity {
                name: name.clone(),
                node: node.id.0,
            });
        }
    }
    names
}

fn build(
    document: &BsnDocument,
    id: BsnValueId,
    expected: &str,
) -> Result<Plan, DynamicSceneBuildError> {
    let table = test_registry();
    build_in(&table, document, &names_of(document), id, key(&table, expected)).result
}

/// The text of a built value.
fn shown(document: &BsnDocument, id: BsnValueId, expected: &str) -> String {
    let table = test_registry();
    match build(document, id, expected) {
        Ok(plan) => show(&table, &plan),
        Err(error) => panic!("{}", error.message()),
    }
}

fn show(table: &TypeTable, plan: &Plan) -> String {
    let path = |ty: &TypeKey| table.entries[ty.0 as usize].path.clone();
    match plan {
        Plan::Unit => "()".to_string(),
        Plan::Bool(value) => format!("{value}"),
        Plan::Int(ty, value) => format!("{value}{ty:?}"),
        Plan::Whole(ty, value) => format!("{value}.0{ty:?}"),
        Plan::Float(ty, value) => format!("{:?}{ty:?}", f64::from_bits(value.bits)),
        Plan::Text(text) => format!("{text:?}"),
        Plan::SharedText(text) => format!("shared {text:?}"),
        Plan::AssetPath(text) => format!("asset {text:?}"),
        Plan::Entity(reference) => reference.text(),
        Plan::Group(form, ty, parts) => {
            let parts: Vec<String> = parts
                .iter()
                .map(|part| match form {
                    Form::Struct => format!("{}: {}", part.name, show(table, &part.plan)),
                    _ => show(table, &part.plan),
                })
                .collect();
            format!("{}({})", path(ty), parts.join(", "))
        }
        Plan::Variant(forms) => show_forms(table, forms),
        Plan::Default(ty) => format!("default {}", path(ty)),
        Plan::Filled(ty, patch) => format!("default {} with {}", path(ty), show(table, patch)),
        Plan::Converted(ty, value) => format!("{} from [{}]", path(ty), show(table, value)),
    }
}

fn show_forms(table: &TypeTable, forms: &VariantPlan) -> String {
    let defaults: Vec<String> = forms
        .defaults
        .iter()
        .map(|slot| format!("{}: {}", slot.name, table.entries[slot.ty.0 as usize].path))
        .collect();
    let supplied: Vec<String> = forms
        .supplied
        .iter()
        .map(|part| format!("{}: {}", part.name, show(table, &part.plan)))
        .collect();
    format!(
        "{}::{} [{}] ({})",
        table.entries[forms.ty.0 as usize].path,
        forms.variant,
        defaults.join(", "),
        supplied.join(", ")
    )
}

/// A document holding a single value.
fn value_doc(value: BsnValue) -> (BsnDocument, BsnValueId) {
    let mut document = BsnDocument::new();
    let id = document.push_value(value);
    (document, id)
}

fn float(value: f64) -> BsnValue {
    BsnValue::Float(plain_float(value))
}

fn plain_float(value: f64) -> BsnFloat {
    BsnFloat::new(value.to_bits(), format!("{:?}", value.abs()))
}

fn path(segments: &[&str]) -> BsnPath {
    BsnPath::from_segments(segments)
}

/// Builds the first patch of a source text for the type that it names.
fn try_scene(source: &str) -> Result<String, String> {
    let mut floats = FloatTable::new();
    for literal in float_literals(source) {
        let value = plain_float(literal.parse::<f64>().unwrap());
        floats.insert(literal, value);
    }
    let document = bevy_bsn::parse(source, &floats).unwrap();
    let table = test_registry();
    let patch = document.nodes.iter().find_map(|node| match &node.kind {
        BsnNodeKind::Patch { symbol, value, .. } => Some((symbol.to_type_path(), *value)),
        _ => None,
    });
    let (symbol, value) = patch.expect("a patch");
    let mut expected = key(&table, &symbol);
    if let Answer::Symbol(ty, _) = answer(&table, &Question::Symbol(symbol)) {
        expected = ty;
    }
    let built = build_in(&table, &document, &names_of(&document), value, expected);
    match built.result {
        Ok(plan) => Ok(show(&table, &plan)),
        Err(error) => Err(error.message()),
    }
}

// -- literals -----------------------------------------------------------------------------------

#[test]
fn unit_value_only_fits_the_unit_type() {
    let (document, id) = value_doc(BsnValue::Unit);
    assert!(matches!(build(&document, id, "()"), Ok(Plan::Unit)));
    let error = build(&document, id, "u32").unwrap_err();
    assert!(
        matches!(&error, DynamicSceneBuildError::ValueTypeMismatch { found, .. }
            if found == "()"),
        "unexpected error: {error:?}"
    );
}

#[test]
fn int_literal_exact_widths() {
    let (document, id) = value_doc(BsnValue::Int(1));
    for ty in [
        "i8", "i16", "i32", "i64", "i128", "isize", "u8", "u16", "u32", "u64", "u128", "usize",
    ] {
        let value = shown(&document, id, ty);
        assert_eq!(value.to_lowercase(), format!("1{ty}"));
    }
}

#[test]
fn int_literal_out_of_range_errors() {
    let (document, id) = value_doc(BsnValue::Int(300));
    assert!(matches!(
        build(&document, id, "u8"),
        Err(DynamicSceneBuildError::IntegerOutOfRange { value: 300, .. })
    ));

    let (document, id) = value_doc(BsnValue::Int(-1));
    assert!(matches!(
        build(&document, id, "u32"),
        Err(DynamicSceneBuildError::IntegerOutOfRange { value: -1, .. })
    ));
}

#[test]
fn int_literal_into_float_exact() {
    let (document, id) = value_doc(BsnValue::Int(1));
    assert_eq!(shown(&document, id, "f32"), "1.0F32");
    assert_eq!(shown(&document, id, "f64"), "1.0F64");
}

#[test]
fn int_literal_into_float_inexact_errors() {
    let (document, id) = value_doc(BsnValue::Int(1 << 30));
    assert!(matches!(
        build(&document, id, "f32"),
        Err(DynamicSceneBuildError::LiteralNotRepresentable { .. })
    ));
    assert!(build(&document, id, "f64").is_ok());
}

#[test]
fn int_literal_beyond_i64_keeps_its_natural_type() {
    let (document, id) = value_doc(BsnValue::Int(i128::from(u64::MAX) + 1));
    let error = build(&document, id, "Marker").unwrap_err();
    assert!(
        matches!(&error, DynamicSceneBuildError::ValueTypeMismatch { found, .. }
            if found == "i128"),
        "unexpected error: {error:?}"
    );
}

#[test]
fn float_literal_into_f32_and_f64() {
    let (document, id) = value_doc(float(1.5));
    assert_eq!(shown(&document, id, "f32"), "1.5F32");
    assert_eq!(shown(&document, id, "f64"), "1.5F64");
    let (document, id) = value_doc(float(1.1));
    match build(&document, id, "f32") {
        Ok(Plan::Float(FloatType::F32, value)) => {
            assert_eq!(f64::from_bits(value.bits) as f32, 1.1f32);
        }
        other => panic!("{other:?}"),
    }
}

#[test]
fn float_literal_overflowing_f32_errors() {
    let (document, id) = value_doc(float(1e39));
    let error = build(&document, id, "f32").unwrap_err();
    assert!(
        matches!(&error, DynamicSceneBuildError::ValueTypeMismatch { found, .. }
            if found == "f64"),
        "unexpected error: {error:?}"
    );
    assert!(build(&document, id, "f64").is_ok());
}

#[test]
fn rounding_to_single_precision_overflows_where_rust_does() {
    let limit = f64::from_bits(0x47ef_ffff_f000_0000);
    let below = f64::from_bits(0x47ef_ffff_efff_ffff);
    for value in [limit, below, -limit, -below, f64::MAX, 0.0, f64::INFINITY, f64::NAN] {
        let (document, id) = value_doc(float(value));
        let overflows = value.is_finite() && !(value as f32).is_finite();
        assert_eq!(build(&document, id, "f32").is_err(), overflows, "{value:?}");
    }
    assert!((limit as f32).is_infinite());
    assert!((below as f32).is_finite());
}

#[test]
fn float_literal_into_int_errors() {
    let (document, id) = value_doc(float(1.0));
    assert!(matches!(
        build(&document, id, "u32"),
        Err(DynamicSceneBuildError::ValueTypeMismatch { .. })
    ));
}

#[test]
fn bool_literal() {
    let (document, id) = value_doc(BsnValue::Bool(true));
    assert!(matches!(build(&document, id, "bool"), Ok(Plan::Bool(true))));
    assert!(matches!(
        build(&document, id, "u32"),
        Err(DynamicSceneBuildError::ValueTypeMismatch { .. })
    ));
}

#[test]
fn string_into_string_and_cow() {
    let (document, id) = value_doc(BsnValue::String("x".to_string()));
    assert_eq!(shown(&document, id, "String"), "\"x\"");
    assert_eq!(shown(&document, id, "Cow<str>"), "shared \"x\"");
}

#[test]
fn string_into_static_str_errors() {
    let (document, id) = value_doc(BsnValue::String("x".to_string()));
    assert!(matches!(
        build(&document, id, "&str"),
        Err(DynamicSceneBuildError::ValueTypeMismatch { .. })
    ));
}

#[test]
fn string_into_asset_path() {
    let (document, id) = value_doc(BsnValue::String("a.png".to_string()));
    assert_eq!(shown(&document, id, "AssetPath"), "asset \"a.png\"");
    let (document, id) = value_doc(BsnValue::String("://a.png".to_string()));
    assert!(matches!(
        build(&document, id, "AssetPath"),
        Err(DynamicSceneBuildError::InvalidAssetPath { .. })
    ));
}

#[test]
fn string_into_handle_template_via_convert() {
    let (document, id) = value_doc(BsnValue::String("a.png".to_string()));
    let table = test_registry();
    let expected = key(&table, "HandleTemplate<Image>");
    let built = build_in(&table, &document, &Vec::new(), id, expected);
    assert_eq!(
        show(&table, &built.result.unwrap()),
        "HandleTemplate<Image> from [\"a.png\"]"
    );
    let dependencies = built.state.dependencies;
    assert_eq!(dependencies.len(), 1);
    assert_eq!(dependencies[0].asset, IMAGE);
    assert_eq!(dependencies[0].path, "a.png");
}

#[test]
fn asset_paths_agree_with_the_asset_system() {
    for text in [
        "a.png",
        "",
        "#",
        "a#b",
        "a#",
        "#b",
        "s://a",
        "://a",
        "s://",
        "s://a#b",
        "s://a#",
        "s#x://a",
        "a#b://c",
        "s://a#b://c",
        "s://a://b#c",
        "s://a#b#c",
        ":/a#b",
        "bad#source://x.png",
        "s://x.png#a://b",
        "s://a#b://c#d",
        "é://ü#ß",
    ] {
        let expected = bevy_asset::AssetPath::try_parse(text).is_ok();
        assert_eq!(asset_path(text, Span::none()).is_ok(), expected, "{text}");
    }
    assert_eq!(asset_path("s://a#b", Span::none()).unwrap(), "s://a#b");
    for (text, valid) in [("a#", false), ("s://a#b#c", true), ("s#x://a", false)] {
        assert_eq!(asset_path(text, Span::none()).is_ok(), valid, "{text}");
    }
}

// -- named values -------------------------------------------------------------------------------

#[test]
fn unit_struct_value() {
    let (document, id) = value_doc(BsnValue::Path(path(&["Marker"])));
    assert_eq!(shown(&document, id, "Marker"), "default Marker");
}

#[test]
fn unit_enum_variant_value() {
    let (document, id) = value_doc(BsnValue::Path(path(&["Choice", "Qux"])));
    assert_eq!(shown(&document, id, "Choice"), "Choice::Qux [] ()");
}

#[test]
fn enum_variant_value_via_reflect_convert() {
    let (document, id) = value_doc(BsnValue::Path(path(&["TextSize", "Large"])));
    assert_eq!(
        shown(&document, id, "FontSize"),
        "FontSize from [default TextSize with TextSize::Large [] ()]"
    );
}

#[test]
fn struct_value_same_type_is_partial() {
    let mut document = BsnDocument::new();
    let one = document.push_value(BsnValue::Int(1));
    let id = document.push_value(BsnValue::Struct(
        path(&["Foo"]),
        vec![("x".to_string(), one)],
    ));
    assert_eq!(shown(&document, id, "Foo"), "Foo(x: 1U32)");
}

#[test]
fn struct_value_other_type_is_full_then_converted() {
    let mut document = BsnDocument::new();
    let thirty = document.push_value(BsnValue::Int(30));
    let id = document.push_value(BsnValue::Struct(
        path(&["FontSizeSource"]),
        vec![("value".to_string(), thirty)],
    ));
    assert_eq!(
        shown(&document, id, "FontSize"),
        "FontSize from [default FontSizeSource with FontSizeSource(value: 30U32)]"
    );
}

#[test]
fn tuple_struct_partial_leading_fields() {
    let mut document = BsnDocument::new();
    let two = document.push_value(BsnValue::Int(2));
    let id = document.push_value(BsnValue::NamedTuple(path(&["Bar"]), vec![two]));
    assert_eq!(shown(&document, id, "Bar"), "Bar(2U32)");
}

#[test]
fn tuple_struct_too_many_fields_errors() {
    let mut document = BsnDocument::new();
    let one = document.push_value(BsnValue::Int(1));
    let id = document.push_value(BsnValue::NamedTuple(path(&["Bar"]), vec![one, one, one, one]));
    assert!(matches!(
        build(&document, id, "Bar"),
        Err(DynamicSceneBuildError::TooManyTupleFields {
            given: 4,
            expected: 3,
            ..
        })
    ));
}

#[test]
fn unknown_field_errors() {
    let mut document = BsnDocument::new();
    let one = document.push_value(BsnValue::Int(1));
    let id = document.push_value(BsnValue::Struct(
        path(&["Foo"]),
        vec![("nope".to_string(), one)],
    ));
    let error = build(&document, id, "Foo").unwrap_err();
    assert!(
        matches!(&error, DynamicSceneBuildError::UnknownField { field, .. } if field == "nope"),
        "unexpected error: {error:?}"
    );
}

#[test]
fn duplicate_field_errors() {
    let mut document = BsnDocument::new();
    let one = document.push_value(BsnValue::Int(1));
    let two = document.push_value(BsnValue::Int(2));
    let id = document.push_value(BsnValue::Struct(
        path(&["Foo"]),
        vec![("x".to_string(), one), ("x".to_string(), two)],
    ));
    assert!(matches!(
        build(&document, id, "Foo"),
        Err(DynamicSceneBuildError::DuplicateField { .. })
    ));
}

#[test]
fn struct_body_on_a_tuple_struct_errors() {
    let mut document = BsnDocument::new();
    let one = document.push_value(BsnValue::Int(1));
    let id = document.push_value(BsnValue::Struct(
        path(&["Bar"]),
        vec![("x".to_string(), one)],
    ));
    let error = build(&document, id, "Bar").unwrap_err();
    assert!(
        matches!(&error, DynamicSceneBuildError::TypeNotStruct { type_path, .. }
            if type_path.ends_with("Bar")),
        "unexpected error: {error:?}"
    );
}

#[test]
fn tuple_body_on_a_struct_errors() {
    let mut document = BsnDocument::new();
    let one = document.push_value(BsnValue::Int(1));
    let id = document.push_value(BsnValue::NamedTuple(path(&["Foo"]), vec![one]));
    assert!(matches!(
        build(&document, id, "Foo"),
        Err(DynamicSceneBuildError::TypeNotTupleStruct { .. })
    ));
}

/// The forms of a variant, with every question answered by yes.
fn forms(
    document: &BsnDocument,
    ty: &str,
    variant: &str,
    input: EnumInput,
) -> Result<VariantPlan, DynamicSceneBuildError> {
    let table = test_registry();
    let answers = vec![Answer::Done];
    let cx = BuildCx {
        types: &table,
        document,
        names: &Vec::new(),
        source_path_hash: 0,
        max_depth: 64,
        answers: &answers,
    };
    let mut state = BuildState::new();
    match build_enum_forms(&cx, &mut state, key(&table, ty), variant, input, Span::none()) {
        Ok(forms) => Ok(forms),
        Err(Halt::Error(error)) => Err(error),
        Err(Halt::Ask(question)) => panic!("{question:?}"),
    }
}

#[test]
fn enum_forms_reject_non_enums_and_unknown_variants() {
    let document = BsnDocument::new();
    let error = forms(&document, "Foo", "Bar", EnumInput::Unit).unwrap_err();
    assert!(
        matches!(&error, DynamicSceneBuildError::UnknownVariant { type_path, .. }
            if type_path.ends_with("Foo")),
        "unexpected error: {error:?}"
    );
    let error = forms(&document, "Choice", "Nope", EnumInput::Unit).unwrap_err();
    assert!(
        matches!(&error, DynamicSceneBuildError::UnknownVariant { variant, .. }
            if variant == "Nope"),
        "unexpected error: {error:?}"
    );
}

#[test]
fn enum_variant_body_shape_mismatches_error() {
    let mut document = BsnDocument::new();
    let one = document.push_value(BsnValue::Int(1));
    let tuple_on_struct =
        document.push_value(BsnValue::NamedTuple(path(&["Choice", "Bar"]), vec![one]));
    let named_on_tuple = document.push_value(BsnValue::Struct(
        path(&["Choice", "Baz"]),
        vec![("x".to_string(), one)],
    ));
    let too_many =
        document.push_value(BsnValue::NamedTuple(path(&["Choice", "Baz"]), vec![one, one]));
    let body_on_unit =
        document.push_value(BsnValue::NamedTuple(path(&["Choice", "Qux"]), vec![one]));

    let error = build(&document, tuple_on_struct, "Choice").unwrap_err();
    assert!(
        matches!(&error, DynamicSceneBuildError::TypeNotTupleStruct { type_path, .. }
            if type_path.ends_with("Choice::Bar")),
        "unexpected error: {error:?}"
    );

    let error = build(&document, named_on_tuple, "Choice").unwrap_err();
    assert!(
        matches!(&error, DynamicSceneBuildError::TypeNotStruct { type_path, .. }
            if type_path.ends_with("Choice::Baz")),
        "unexpected error: {error:?}"
    );

    assert!(matches!(
        build(&document, too_many, "Choice"),
        Err(DynamicSceneBuildError::TooManyTupleFields {
            given: 2,
            expected: 1,
            ..
        })
    ));

    assert!(matches!(
        build(&document, body_on_unit, "Choice"),
        Err(DynamicSceneBuildError::TooManyTupleFields { expected: 0, .. })
    ));
}

#[test]
fn enum_variant_field_name_errors() {
    let mut document = BsnDocument::new();
    let one = document.push_value(BsnValue::Int(1));
    let two = document.push_value(BsnValue::Int(2));
    let unknown = document.push_value(BsnValue::Struct(
        path(&["Choice", "Bar"]),
        vec![("nope".to_string(), one)],
    ));
    let duplicate = document.push_value(BsnValue::Struct(
        path(&["Choice", "Bar"]),
        vec![("x".to_string(), one), ("x".to_string(), two)],
    ));

    let error = build(&document, unknown, "Choice").unwrap_err();
    assert!(
        matches!(&error, DynamicSceneBuildError::UnknownField { type_path, field, .. }
            if type_path.ends_with("Choice::Bar") && field == "nope"),
        "unexpected error: {error:?}"
    );

    let error = build(&document, duplicate, "Choice").unwrap_err();
    assert!(
        matches!(&error, DynamicSceneBuildError::DuplicateField { type_path, field, .. }
            if type_path.ends_with("Choice::Bar") && field == "x"),
        "unexpected error: {error:?}"
    );
}

#[test]
fn enum_struct_variant_fills_defaults() {
    let mut document = BsnDocument::new();
    let one = document.push_value(BsnValue::Int(1));
    let supplied = vec![("x".to_string(), one)];
    let id = document.push_value(BsnValue::Struct(path(&["Choice", "Bar"]), supplied.clone()));
    let forms = forms(&document, "Choice", "Bar", EnumInput::Named(&supplied)).unwrap();
    assert_eq!(forms.variant, "Bar");
    assert_eq!(forms.defaults.len(), 3);
    assert_eq!(forms.supplied.len(), 1);
    assert_eq!(
        shown(&document, id, "Choice"),
        "Choice::Bar [x: u32, y: u32, z: u32] (x: 1U32)"
    );
}

#[test]
fn enum_tuple_variant_fills_defaults() {
    let mut document = BsnDocument::new();
    let ten = document.push_value(BsnValue::Int(10));
    let id = document.push_value(BsnValue::NamedTuple(path(&["Choice", "Baz"]), vec![ten]));
    assert_eq!(shown(&document, id, "Choice"), "Choice::Baz [: u32] (: 10U32)");
}

#[test]
fn enum_variant_without_a_body_fills_defaults() {
    let mut document = BsnDocument::new();
    let struct_variant = document.push_value(BsnValue::Path(path(&["Choice", "Bar"])));
    let tuple_variant = document.push_value(BsnValue::Path(path(&["Choice", "Baz"])));
    assert_eq!(
        shown(&document, struct_variant, "Choice"),
        "Choice::Bar [x: u32, y: u32, z: u32] ()"
    );
    assert_eq!(shown(&document, tuple_variant, "Choice"), "Choice::Baz [: u32] ()");
}

#[test]
fn enum_variant_field_missing_reflect_default_errors() {
    let mut document = BsnDocument::new();
    let one = document.push_value(BsnValue::Int(1));
    let inner = document.push_value(BsnValue::NamedTuple(path(&["NoDefault"]), vec![one]));
    let id = document.push_value(BsnValue::Struct(
        path(&["Tricky", "A"]),
        vec![("field".to_string(), inner)],
    ));
    let error = build(&document, id, "Tricky").unwrap_err();
    assert!(
        matches!(
            &error,
            DynamicSceneBuildError::MissingReflectDefault { type_path, .. }
                if type_path.ends_with("NoDefault")
        ),
        "unexpected error: {error:?}"
    );
    assert!(
        error.message().contains("#[reflect(Default)]"),
        "unexpected message: {}",
        error.message()
    );
}

#[test]
fn option_field_implicit_some() {
    let mut document = BsnDocument::new();
    let five = document.push_value(BsnValue::Int(5));
    let none = document.push_value(BsnValue::Path(path(&["None"])));
    assert_eq!(shown(&document, five, "Option<u32>"), "Option<u32>::Some [] (: 5U32)");
    assert_eq!(shown(&document, none, "Option<u32>"), "Option<u32>::None [] ()");
}

#[test]
fn implicit_some_only_applies_to_option_shaped_enums() {
    let (document, id) = value_doc(BsnValue::Int(5));
    let mut table = test_registry();
    let t = &mut table;
    let variants = vec![
        variant(t, "None", VariantKind::Tuple, &[("", "u32")]),
        variant(t, "Some", VariantKind::Tuple, &[("", "u32")]),
    ];
    add(t, "NoneIsNotUnit", Builtin::Other, Shape::Enum(variants));
    let variants = vec![
        variant(t, "None", VariantKind::Unit, &[]),
        variant(t, "Some", VariantKind::Struct, &[("value", "u32")]),
    ];
    add(t, "SomeIsNotATuple", Builtin::Other, Shape::Enum(variants));
    let variants = vec![
        variant(t, "None", VariantKind::Unit, &[]),
        variant(t, "Some", VariantKind::Tuple, &[("", "u32"), ("", "u32")]),
    ];
    add(t, "SomeTakesTwo", Builtin::Other, Shape::Enum(variants));
    for ty in ["Choice", "NoneIsNotUnit", "SomeIsNotATuple", "SomeTakesTwo"] {
        let built = build_in(&table, &document, &Vec::new(), id, key(&table, ty));
        assert!(
            matches!(built.result, Err(DynamicSceneBuildError::ValueTypeMismatch { .. })),
            "{ty}"
        );
    }
}

#[test]
fn option_field_explicit_some() {
    let mut document = BsnDocument::new();
    let five = document.push_value(BsnValue::Int(5));
    let some = document.push_value(BsnValue::NamedTuple(path(&["Some"]), vec![five]));
    assert_eq!(
        shown(&document, some, "Option<u32>"),
        "Option<u32>::Some [: u32] (: 5U32)"
    );
}

#[test]
fn list_value() {
    let mut document = BsnDocument::new();
    let one = document.push_value(BsnValue::Int(1));
    let two = document.push_value(BsnValue::Int(2));
    let id = document.push_value(BsnValue::List(vec![one, two]));
    assert_eq!(shown(&document, id, "Vec<u8>"), "Vec<u8>(1U8, 2U8)");
}

#[test]
fn tuple_value_into_a_tuple_destination() {
    let mut document = BsnDocument::new();
    let one = document.push_value(BsnValue::Int(1));
    let pair = document.push_value(BsnValue::Tuple(vec![one, one]));
    let triple = document.push_value(BsnValue::Tuple(vec![one, one, one]));
    assert_eq!(shown(&document, pair, "(u32, f32)"), "(u32, f32)(1U32, 1.0F32)");
    assert!(matches!(
        build(&document, triple, "(u32, f32)"),
        Err(DynamicSceneBuildError::TooManyTupleFields {
            given: 3,
            expected: 2,
            ..
        })
    ));
    let error = build(&document, pair, "u32").unwrap_err();
    assert!(
        matches!(&error, DynamicSceneBuildError::ValueTypeMismatch { found, .. }
            if found == "a tuple"),
        "unexpected error: {error:?}"
    );
}

#[test]
fn list_into_a_list_wrapping_tuple_struct() {
    let mut document = BsnDocument::new();
    let one = document.push_value(BsnValue::Int(1));
    let two = document.push_value(BsnValue::Int(2));
    let id = document.push_value(BsnValue::List(vec![one, two]));
    assert_eq!(shown(&document, id, "ListWrapper"), "ListWrapper(Vec<u8>(1U8, 2U8))");
}

#[test]
fn list_item_type_mismatch_errors() {
    let mut document = BsnDocument::new();
    let text = document.push_value(BsnValue::String("a".to_string()));
    let id = document.push_value(BsnValue::List(vec![text]));
    assert!(matches!(
        build(&document, id, "Vec<u8>"),
        Err(DynamicSceneBuildError::ValueTypeMismatch { .. })
    ));
}

fn document_with_root() -> (BsnDocument, u32, BsnValueId) {
    let mut document = BsnDocument::new();
    let root = document.push_node(BsnNodeKind::Entity {
        name: Some("Root".to_string()),
        name_span: None,
        base: None,
        base_span: None,
        patches: Vec::new(),
        relations: Vec::new(),
    });
    document.push_root(root);
    let id = document.push_value(BsnValue::EntityRef("Root".to_string()));
    (document, root.0, id)
}

#[test]
fn entity_ref_value() {
    let (document, root, id) = document_with_root();
    let expected = SceneEntityReference::from_asset("test.bsn", root);
    match build(&document, id, "EntityTemplate") {
        Ok(Plan::Entity(reference)) => assert_eq!(reference, expected),
        other => panic!("{other:?}"),
    }
}

#[test]
fn entity_ref_into_a_foreign_type_errors() {
    let (document, _, id) = document_with_root();
    let error = build(&document, id, "u32").unwrap_err();
    assert!(
        matches!(&error, DynamicSceneBuildError::ValueTypeMismatch { expected, .. }
            if expected == "u32"),
        "unexpected error: {error:?}"
    );
}

#[test]
fn entity_ref_to_unknown_name_errors() {
    let (document, id) = value_doc(BsnValue::EntityRef("Nope".to_string()));
    assert!(matches!(
        build(&document, id, "EntityTemplate"),
        Err(DynamicSceneBuildError::UnknownEntityName { .. })
    ));
}

#[test]
fn nested_field_values_use_registered_conversions() {
    let mut document = BsnDocument::new();
    let large = document.push_value(BsnValue::Path(path(&["TextSize", "Large"])));
    let id = document.push_value(BsnValue::Struct(
        path(&["TextFont"]),
        vec![("font_size".to_string(), large)],
    ));
    assert_eq!(
        shown(&document, id, "TextFont"),
        "TextFont(font_size: FontSize from [default TextSize with TextSize::Large [] ()])"
    );
}

#[test]
fn dangling_value_ids_error_rather_than_panic() {
    let document = BsnDocument::new();
    let error = build(&document, BsnValueId(7), "u32").unwrap_err();
    assert!(matches!(error, DynamicSceneBuildError::MalformedDocument { .. }));
    assert_eq!(error.message(), "no value with id 7");
}

#[test]
fn cyclic_values_error_rather_than_overflow() {
    let mut document = BsnDocument::new();
    let id = document.push_value(BsnValue::List(Vec::new()));
    document.values[0].value = BsnValue::List(vec![id]);
    assert!(build(&document, id, "Vec<Vec<u8>>").is_err());
    assert!(matches!(
        build(&document, id, "Recursive"),
        Err(DynamicSceneBuildError::MalformedDocument { .. })
    ));
}

// -- whole patches ------------------------------------------------------------------------------

#[test]
fn a4_int_boundaries() {
    assert!(try_scene("Widths { u8f: 256 }").is_err(), "u8 256");
    assert!(try_scene("Widths { u8f: 255 }").is_ok(), "u8 255");
    assert!(try_scene("Widths { u64f: -1 }").is_err(), "u64 -1");
    assert!(
        try_scene("Widths { i64f: -9223372036854775808 }").is_ok(),
        "i64::MIN should fit"
    );
    assert!(
        try_scene("Widths { i64f: 9223372036854775808 }").is_err(),
        "i64::MAX + 1 must not fit"
    );
}

#[test]
fn a4_float_exactness() {
    assert!(try_scene("Widths { f64f: 9007199254740992 }").is_ok(), "2^53");
    assert!(
        try_scene("Widths { f64f: 9007199254740993 }").is_err(),
        "2^53+1 must be rejected"
    );
    assert!(try_scene("Widths { f32f: 16777216 }").is_ok(), "2^24");
    assert!(
        try_scene("Widths { f32f: 16777217 }").is_err(),
        "2^24+1 must be rejected"
    );
    assert!(
        try_scene("Widths { u8f: 1.0 }").is_err(),
        "float into int must be rejected"
    );
}

#[test]
fn a4_string_into_char_errors_not_panics() {
    let error = try_scene(r#"Widths { charf: "x" }"#);
    assert!(error.is_err(), "string into char: {error:?}");
}

#[test]
fn a4_nested_option_and_vec() {
    assert_eq!(
        try_scene("Widths { optopt: 5, vecvec: [[1, 2], [3]] }").unwrap(),
        "Widths(optopt: Option<Option<u32>>::Some [] (: Option<u32>::Some [] (: 5U32)), \
         vecvec: Vec<Vec<u8>>(Vec<u8>(1U8, 2U8), Vec<u8>(3U8)))"
    );
}

#[test]
fn a5_nested_enum_partial_resets_siblings() {
    assert_eq!(
        try_scene("Holder { choice: Shared::B { v: 7 } }").unwrap(),
        "Holder(choice: Shared::B [v: u32] (v: 7U32))"
    );
}

#[test]
fn a6_zero_and_one_field_tuple_structs() {
    assert_eq!(try_scene("Empty()").unwrap(), "Empty()");
    assert_eq!(try_scene("One(5)").unwrap(), "One(5U32)");
}

#[test]
fn b1b_malformed_asset_path_direct() {
    assert!(asset_path("bad#source://x.png", Span::none()).is_err());
    assert!(asset_path("://x.png", Span::none()).is_err());
}

#[test]
fn b2_failing_conversion_errors_cleanly() {
    let error = try_scene("HasRefusing { field: TextSize::Large }")
        .expect_err("a failing conversion must be an error");
    assert!(
        error.contains("Refusing"),
        "the message should name the destination: {error}"
    );
}

#[test]
fn b3_ignored_field_in_enum_variant_switch() {
    assert_eq!(
        try_scene("IgnoreEnum::Data { v: 3 }").unwrap(),
        "IgnoreEnum::Data [v: u32] (v: 3U32)"
    );
}

#[test]
fn b4_ignored_field_is_unknown() {
    assert!(
        try_scene("IgnoreStruct { v: 1 }").is_ok(),
        "the visible field works"
    );
    assert!(
        try_scene("IgnoreStruct { hidden: 1 }").is_err(),
        "an ignored field must be an error, not silently dropped"
    );
}

#[test]
fn b1_malformed_asset_path_in_handle_field() {
    let result = try_scene(r#"Sprite("bad#source://x.png")"#);
    assert!(
        result.is_err(),
        "a malformed asset path must be a build error, not a panic"
    );
}

#[test]
fn c5_variant_name_shadows_a_registered_type() {
    assert_eq!(
        try_scene("HasShadow { v: Bar }").unwrap(),
        "HasShadow(v: ShadowEnum::Bar [] ())"
    );
}

#[test]
fn d3_tuple_value() {
    assert_eq!(
        try_scene("HasTuple { pair: (1, 2.0) }").unwrap(),
        "HasTuple(pair: (u32, f32)(1U32, 2.0F32))"
    );
}

#[test]
fn d8_shape_mismatches_error() {
    assert!(try_scene("Collections { list: 5 }").is_err(), "int into Vec");
    assert!(
        try_scene("Collections { maybe: [1] }").is_err(),
        "list into Option"
    );
    assert!(
        try_scene("Primitives { a_string: 5 }").is_err(),
        "int into String"
    );
    assert!(
        try_scene(r#"Primitives { a_u32: "x" }"#).is_err(),
        "string into int"
    );
    assert!(try_scene("Primitives { a_bool: 1 }").is_err(), "int into bool");
}

#[test]
fn unregistered_field_types_and_unknown_paths_error() {
    assert_eq!(
        try_scene("Missing { gone: 1 }").unwrap_err(),
        "the type `Gone` is not registered"
    );
    let (document, id) = value_doc(BsnValue::List(Vec::new()));
    assert!(matches!(
        build(&document, id, "Vec<Gone>"),
        Err(DynamicSceneBuildError::UnregisteredType { .. })
    ));
    let (document, id) = value_doc(BsnValue::Path(path(&["Nowhere"])));
    let error = build(&document, id, "Foo").unwrap_err();
    assert_eq!(error.message(), "no type is called Nowhere");
}

#[test]
fn a_refused_conversion_is_a_mismatch() {
    let (document, id) = value_doc(BsnValue::Int(3));
    let table = test_registry();
    let built = build_in(&table, &document, &Vec::new(), id, key(&table, "Refusing"));
    assert_eq!(built.questions.len(), 1);
    assert_eq!(
        built.result.unwrap_err().message(),
        "expected a value of type `Refusing`, found `i64`"
    );
}

#[test]
fn a_failing_application_is_reported() {
    let mut document = BsnDocument::new();
    let one = document.push_value(BsnValue::Int(1));
    let supplied = vec![one];
    let table = test_registry();
    let answers = vec![Answer::Failed("no way".to_string())];
    let cx = BuildCx {
        types: &table,
        document: &document,
        names: &Vec::new(),
        source_path_hash: 0,
        max_depth: 64,
        answers: &answers,
    };
    let mut state = BuildState::new();
    let choice = key(&table, "Choice");
    let input = EnumInput::Tuple(&supplied);
    match build_enum_forms(&cx, &mut state, choice, "Baz", input, Span::none()) {
        Err(Halt::Error(error)) => {
            assert_eq!(
                error.message(),
                "a value could not be applied to `Choice::Baz`: no way"
            );
        }
        other => panic!("{other:?}"),
    }
}

#[test]
fn error_texts_name_the_type_and_the_value() {
    let text = |source: &str| try_scene(source).unwrap_err();
    assert_eq!(text("Widths { u8f: 256 }"), "the integer `256` is out of range for `u8`");
    assert_eq!(
        text("Widths { f32f: 16777217 }"),
        "the integer `16777217` is not exactly representable as `f32`"
    );
    assert_eq!(text("Foo { nope: 1 }"), "`Foo` has no field named `nope`");
    assert_eq!(text("Foo(1)"), "`Foo` does not have positional fields");
    assert_eq!(text("Bar { x: 1 }"), "`Bar` does not have named fields");
    assert_eq!(text("Bar(1, 2, 3, 4)"), "`Bar` has 3 fields, but 4 were given");
    assert_eq!(text("Foo { x: #Nope }"), "no entity is named `#Nope`");
    assert_eq!(text(r#"Sprite("a#")"#), "`a#` is not a valid asset path");
    let document = BsnDocument::new();
    let error = forms(&document, "Choice", "Nope", EnumInput::Unit).unwrap_err();
    assert_eq!(error.message(), "`Choice` has no variant named `Nope`");
}

#[test]
fn further_answers_do_not_change_a_finished_run() {
    let (document, id) = value_doc(BsnValue::Path(path(&["TextSize", "Large"])));
    let table = test_registry();
    let expected = key(&table, "FontSize");
    let run = |answers: &Vec<Answer>| {
        let cx = BuildCx {
            types: &table,
            document: &document,
            names: &Vec::new(),
            source_path_hash: 0,
            max_depth: 64,
            answers,
        };
        let mut state = BuildState::new();
        let result = build_value(&cx, &mut state, id, expected);
        (format!("{result:?}"), state.asked)
    };
    let large = || Answer::Symbol(key(&table, "TextSize"), Some("Large".to_string()));
    let finished = run(&vec![large(), Answer::Done, Answer::Done]);
    assert_eq!(finished.1, 3);
    let longer = run(&vec![large(), Answer::Done, Answer::Done, Answer::Done, large()]);
    assert_eq!(finished, longer);
    assert!(run(&vec![large(), Answer::Done]).0.contains("Convert"));
}
