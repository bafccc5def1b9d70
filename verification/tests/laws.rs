//! The laws of tokens, reports, arenas, equality and paths, on concrete documents.

use bevy_bsn::{
    decode_float, decode_int, decode_string, float_literals, parse, print_document,
    write_document_with, BsnDocument, BsnFloat, BsnNodeId, BsnNodeKind, BsnParseError,
    BsnParseErrorKind, BsnPatchPrefix, BsnPath, BsnValue, BsnValueId, Entity, EntityTemplate,
    FloatTable, Lexer, OptionTemplate, PrintOptions, SceneEntityReferences, Span, Template,
    TemplateContext, TemplateTuple, TokenKind, ValueTemplate, VecTemplate, MAX_NESTING_DEPTH,
};

fn float(value: f64) -> BsnFloat {
    BsnFloat::new(value.to_bits(), format!("{:?}", value.abs()))
}

fn table(source: &str) -> FloatTable {
    let mut floats = FloatTable::new();
    for literal in float_literals(source) {
        let value: f64 = literal.parse().unwrap();
        floats.insert(literal, float(value));
        floats.insert(format!("{value:?}"), float(value));
    }
    floats
}

fn read(source: &str) -> BsnDocument {
    parse(source, &table(source)).unwrap()
}

const DOCUMENT: &str = "\u{FEFF}// scene\n:\"base.bsn\" #Root\nA { x: 1.5, y: (2, [3, \"s\"]) } /* a /* b */ */\n~B(-0.0,)\nC [ #Child D, (E(()) F [ G ]), ]";

#[test]
fn string_tokens_decode() {
    let source = "\"a\\n\\u{41}\\x42\\\\\" r\"a\\n\" r##\"x\"#y\"## r#\"\"#";
    let expected = ["a\nAB\\", "a\\n", "x\"#y", ""];
    let strings: Vec<String> = Lexer::tokenize(source)
        .into_iter()
        .filter(|token| token.kind == TokenKind::Str)
        .map(|token| decode_string(source, token.span).unwrap())
        .collect();
    assert_eq!(strings, expected);
}

#[test]
fn number_tokens_decode_and_end_at_the_number() {
    let source = "1 2_0.5 3. 4e5 0xfF 1_0E-2_0 0b1_ 7..8";
    let floats = table(source);
    let mut kinds = Vec::new();
    for token in Lexer::tokenize(source) {
        match token.kind {
            TokenKind::Int => assert!(decode_int(source, token.span).is_ok()),
            TokenKind::Float => {
                assert!(decode_float(source, token.span, &floats).is_ok());
                let text = token.span.text(source);
                assert!(text.contains('.') || text.contains('e') || text.contains('E'));
            }
            _ => continue,
        }
        let next = source[token.span.end as usize..].chars().next();
        assert!(!next.is_some_and(|c| c.is_ascii_alphanumeric() || c == '_'));
        kinds.push(token.kind);
    }
    assert_eq!(kinds.len(), 9);
    assert_eq!(kinds.iter().filter(|kind| **kind == TokenKind::Float).count(), 4);
}

#[test]
fn only_marks_spaces_and_comments_stand_between_tokens() {
    let mut at = 0;
    let mut gaps = String::new();
    for token in Lexer::tokenize(DOCUMENT) {
        gaps.push_str(&DOCUMENT[at..token.span.start as usize]);
        at = token.span.end as usize;
    }
    assert_eq!(at, DOCUMENT.len());
    let rest = gaps
        .replace('\u{FEFF}', "")
        .replace("// scene", "")
        .replace("/* a /* b */ */", "");
    assert_eq!(rest.trim(), "");
}

#[test]
fn reports_have_five_lines_for_every_span() {
    let source = "A {\n\tx: é\n}";
    for (start, end) in [(0, 1), (5, 400), (9, 10), (11, 2), (999, 1000), (3, 12)] {
        let error = BsnParseError::new(Span::new(start, end), BsnParseErrorKind::InvalidNumber);
        let report = error.render(source, None);
        let lines: Vec<&str> = report.split('\n').collect();
        assert_eq!(lines.len(), 6, "{report}");
        assert_eq!(lines[5], "");
        let (line, column) = error.span.line_col(source);
        assert!(lines[1].ends_with(&format!("--> <bsn>:{line}:{column}")));
        let carets = lines[4].matches('^').count();
        assert!((1..=200).contains(&carets));
    }
}

fn walk_value(document: &BsnDocument, id: BsnValueId, met: &mut Vec<u32>) {
    met.push(id.0);
    match &document.values[id.0 as usize].value {
        BsnValue::Tuple(items) | BsnValue::List(items) | BsnValue::NamedTuple(_, items) => {
            for item in items {
                walk_value(document, *item, met);
            }
        }
        BsnValue::Struct(_, fields) => {
            for (_, item) in fields {
                walk_value(document, *item, met);
            }
        }
        _ => {}
    }
}

fn walk_node(
    document: &BsnDocument,
    id: BsnNodeId,
    nodes: &mut Vec<u32>,
    values: &mut Vec<u32>,
) {
    nodes.push(id.0);
    match &document.nodes[id.0 as usize].kind {
        BsnNodeKind::Entity { patches, relations, .. } => {
            let mut entries: Vec<BsnNodeId> = patches.iter().chain(relations).copied().collect();
            entries.sort_by_key(|entry| document.nodes[entry.0 as usize].span.start);
            for entry in entries {
                walk_node(document, entry, nodes, values);
            }
        }
        BsnNodeKind::Patch { value, .. } => walk_value(document, *value, values),
        BsnNodeKind::Relation { entities, .. } => {
            for entity in entities {
                walk_node(document, *entity, nodes, values);
            }
        }
    }
}

#[test]
fn a_walk_meets_every_node_and_value_once() {
    let document = read(DOCUMENT);
    let mut nodes = Vec::new();
    let mut values = Vec::new();
    for root in &document.roots {
        walk_node(&document, *root, &mut nodes, &mut values);
    }
    assert_eq!(nodes, (0..document.nodes.len() as u32).collect::<Vec<_>>());
    assert_eq!(values, (0..document.values.len() as u32).collect::<Vec<_>>());
}

#[test]
fn spans_of_names_and_bases_fit() {
    let document = read(DOCUMENT);
    let BsnNodeKind::Entity { name_span, base_span, .. } = &document.nodes[0].kind else {
        panic!("the root is an entity");
    };
    assert_eq!(name_span.unwrap().text(DOCUMENT), "#Root");
    assert_eq!(base_span.unwrap().text(DOCUMENT), ":\"base.bsn\"");
}

fn built(value: BsnFloat, swapped: bool) -> BsnDocument {
    let mut document = BsnDocument::new();
    let (first, second) = if swapped {
        let second = document.push_value_spanned(BsnValue::Int(2), Span::new(7, 9));
        (document.push_value(BsnValue::Float(value)), second)
    } else {
        let first = document.push_value(BsnValue::Float(value));
        (first, document.push_value(BsnValue::Int(2)))
    };
    let body = document.push_value(BsnValue::NamedTuple(
        BsnPath::from_segments(&["A"]),
        vec![first, second, first],
    ));
    let patch = document.push_node(BsnNodeKind::Patch {
        symbol: BsnPath::from_segments(&["A"]),
        prefix: BsnPatchPrefix::FromTemplate,
        value: body,
    });
    let entity = document.push_node(BsnNodeKind::Entity {
        name: None,
        name_span: None,
        base: None,
        base_span: None,
        patches: vec![patch],
        relations: vec![],
    });
    document.push_root(entity);
    document
}

#[test]
fn documents_equal_themselves_up_to_spans_and_ids() {
    let document = built(float(0.0), false);
    assert!(document.structural_eq(&document));
    assert!(document.structural_eq(&built(float(0.0), true)));
    assert!(!document.structural_eq(&built(float(-0.0), false)));
    let nan = built(float(f64::NAN), false);
    assert!(nan.structural_eq(&nan));
    let mut cyclic = built(float(0.0), false);
    cyclic.values[1].value = BsnValue::List(vec![BsnValueId(1)]);
    assert!(!cyclic.structural_eq(&cyclic));
    let mut dangling = built(float(0.0), false);
    dangling.values[1].value = BsnValue::List(vec![BsnValueId(99)]);
    assert!(!dangling.structural_eq(&dangling));
}

fn nested(depth: u32) -> String {
    let mut text = String::from("A");
    for _ in 1..depth {
        text = format!("A<{text}>");
    }
    text
}

#[test]
fn deep_type_paths_are_refused() {
    assert!(BsnPath::from_type_path(&nested(MAX_NESTING_DEPTH)).is_some());
    assert!(BsnPath::from_type_path(&nested(MAX_NESTING_DEPTH + 1)).is_none());
}

#[test]
fn paths_equal_when_their_texts_do() {
    let texts = ["a::B", "a::B<c::D>", "a::B<C, D>", "a::B<C<D>>", "a::b::C"];
    for a in texts {
        for b in texts {
            let x = BsnPath::from_type_path(a).unwrap();
            let y = BsnPath::from_type_path(b).unwrap();
            assert_eq!(x.structural_eq(&y), x.to_type_path() == y.to_type_path());
            assert_eq!(x.structural_eq(&y), a == b);
        }
    }
}

#[test]
fn a_sigil_and_a_path_read_as_one_patch() {
    for prefix in [
        BsnPatchPrefix::FromTemplate,
        BsnPatchPrefix::Template,
        BsnPatchPrefix::SceneComponent,
    ] {
        let document = read(&format!("{}a::B<c::D>", prefix.sigil()));
        assert_eq!(document.nodes.len(), 2);
        assert_eq!(document.values.len(), 1);
        let BsnNodeKind::Patch { symbol, prefix: found, .. } = &document.nodes[1].kind else {
            panic!("the entry is a patch");
        };
        assert_eq!(*found, prefix);
        assert_eq!(symbol.to_type_path(), "a::B<c::D>");
    }
}

#[test]
fn values_on_one_line_read_back() {
    let source = "A((1,), [1.5, \"a\\n\"], b::C { x: #N, y: () }, B)";
    let document = read(source);
    let text = print_document(&document);
    assert_eq!(text.trim_end(), source);
    assert!(read(&text).structural_eq(&document));
}

#[test]
fn tables_of_floats_tell_whether_they_are_canonical() {
    assert!(FloatTable::new().is_canonical());
    assert!(table("A(1.50, 2e3, 1e999)").is_canonical());
    let mut missing = FloatTable::new();
    missing.insert("1.50".to_string(), float(1.5));
    assert!(!missing.is_canonical());
    let mut negative = FloatTable::new();
    negative.insert("1.5".to_string(), float(-1.5));
    assert!(!negative.is_canonical());
    for text in ["15", "1.5x", "0x1", "1_0.5", "1..5", ""] {
        let mut odd = FloatTable::new();
        odd.insert(text.to_string(), BsnFloat::new(1.5f64.to_bits(), text.to_string()));
        assert!(!odd.is_canonical(), "{text}");
    }
}

#[test]
fn an_option_template_comes_from_a_template() {
    let template: OptionTemplate<EntityTemplate> = EntityTemplate::Entity(Entity(4)).into();
    let context = TemplateContext::new(Entity(1), SceneEntityReferences::default());
    assert_eq!(template.build_template(&context).ok(), Some(Some(Entity(4))));
}

#[test]
fn duplicates_of_tuples_build_alike() {
    let context = TemplateContext::new(Entity(1), SceneEntityReferences::default());
    let tuple = TemplateTuple((
        EntityTemplate::Entity(Entity(4)),
        OptionTemplate::Present(EntityTemplate::Entity(Entity(5))),
    ));
    let duplicate = tuple.clone_template();
    let expected = Some((Entity(4), Some(Entity(5))));
    assert_eq!(tuple.build_template(&context).ok(), expected);
    assert_eq!(duplicate.build_template(&context).ok(), expected);
}

/// A patch of one value, whose items are shared: `depth` pairs of the pair before.
fn shared_pairs(depth: usize) -> BsnDocument {
    let mut document = BsnDocument::new();
    let mut current = document.push_value(BsnValue::Int(7));
    for _ in 0..depth {
        current = document.push_value(BsnValue::Tuple(vec![current, current]));
    }
    let patch = document.push_node(BsnNodeKind::Patch {
        symbol: BsnPath::from_segments(&["A"]),
        prefix: BsnPatchPrefix::FromTemplate,
        value: current,
    });
    let entity = document.push_node(BsnNodeKind::Entity {
        name: None,
        name_span: None,
        base: None,
        base_span: None,
        patches: vec![patch],
        relations: vec![],
    });
    document.push_root(entity);
    document
}

#[test]
fn output_is_bounded_by_the_visits() {
    for depth in [1, 6, 12, 40] {
        for indent in [0u8, 4, 255] {
            let options = PrintOptions {
                indent,
                ..PrintOptions::default()
            };
            let document = shared_pairs(depth);
            let mut text = String::new();
            write_document_with(&document, &mut text, &options);
            let pad = 513 * indent as usize;
            // A pair writes `(`, a line feed, its own indent and `)`, and for each item an
            // indent, a separator and a marker.
            let visit = 1 + pad + 3 + 2 * (pad + 2 + 34);
            let node = 2 * pad + 34 + 5;
            let budget = document.values.len() * 256 + 1024;
            assert!(text.chars().count() <= 2 * node + budget * visit + 3 + 1);
            assert_eq!(text.contains("/* <print budget exceeded> */"), depth >= 12);
        }
    }
}

#[test]
fn entries_without_a_node_stand_at_the_start() {
    let lines = |source: &str| -> Vec<String> {
        let mut document = read(source);
        if let BsnNodeKind::Entity { patches, .. } = &mut document.nodes[0].kind {
            patches.push(BsnNodeId(99));
        }
        print_document(&document).lines().map(String::from).collect()
    };
    let marker = "/* <invalid node id 99> */";
    assert_eq!(lines("A B"), ["A", marker, "B"]);
    assert_eq!(lines("  A B"), [marker, "A", "B"]);
}

#[test]
fn duplicates_of_values_build_alike() {
    let context = TemplateContext::new(Entity(1), SceneEntityReferences::default());
    let template = ValueTemplate(String::from("ten"));
    let duplicate = template.clone_template();
    assert_eq!(duplicate, template);
    assert_eq!(template.build_template(&context).ok(), Some(String::from("ten")));
    assert_eq!(duplicate.build_template(&context).ok(), Some(String::from("ten")));
    assert_eq!(template.0, "ten");
    let list = VecTemplate(vec![ValueTemplate::from(1u32), ValueTemplate(2)]);
    assert_eq!(list.build_template(&context).ok(), Some(vec![1, 2]));
    assert_eq!(ValueTemplate::<u32>::default().0, 0);
}
