//! The text of a value on one line.

use vstd::prelude::*;

use crate::ast::{last_ident, BsnPatchPrefix};
use crate::chars::{spec_ident_continue, spec_is_upper};
use crate::compare::same_value;
use crate::digits::lemma_radix_chars;
use crate::entities::{input_of, parse_model};
use crate::error::{joined, MAX_NESTING_DEPTH};
use crate::float::{canonical_floats, is_float_literal, Float, Floats};
use crate::grammar::{NodeHead, NodeTree, Tree};
use crate::laid_out::{lemma_layout_unfolds, lemma_values_split, values_at};
use crate::layout::{
    document_of, layout, layouts, lemma_layout_len, lemma_layouts_len, lemma_value_layouts_len,
    size, sizes, value_layout, value_layouts, value_size, value_sizes,
};
use crate::lexical::{in_class, lemma_run_end, number_body, number_token, run_end, Class};
use crate::model::{
    path_text, paths_text, same_path, segment_text, segments_text, Document, Head, Path, Segment,
};
use crate::patch_laws::{is_one_patch, lemma_one_patch};
use crate::reading::{holds_at, ident_token, stops, valid_ident};
use crate::render::{
    body_text, escaped, escaped_char, fields_text, leaf_text, PrintOptions, Style, BUDGET_PER_VALUE,
};
use crate::reparse_entities::lemma_reparse_list;
use crate::reparse_paths::lemma_segments_first;
use crate::report_law::{is_line, lemma_joined, lemma_lines};
use crate::reread_document::lemma_input;
use crate::reread_values::{lemma_parts_len, lemma_reads_inline};
use crate::roundtrip::{lemma_parsed_roots, parsed_roots};
use crate::shape::{
    entities_toks, entity_fits, entity_toks, entries_toks, entry_fits, entry_toks, head_fits,
    item_fits, names_type, node_commas_fit, path_fits, tree_fits, tree_toks, twin_nodes, twins,
    NodeCommas,
};
use crate::span::Span;
use crate::text::byte_len;
use crate::token::TokenKind;
use crate::tree_text::{inline_parts, tree_inline, value_of};
use crate::twin::lemma_twin_values;
use crate::unfolding::{lemma_inline, unfolds};

verus! {

// -- one line -----------------------------------------------------------------------------------

proof fn lemma_ident_line(ident: Seq<char>)
    requires
        valid_ident(ident),
    ensures
        is_line(ident),
{
    assert forall|i: int| 0 <= i < ident.len() implies #[trigger] ident[i] != '\n' by {
        assert(spec_ident_continue(ident[i]));
    }
}

proof fn lemma_path_line(path: Path, n: nat)
    requires
        path_fits(path, n),
    ensures
        is_line(path_text(path)),
    decreases path,
{
    assert forall|i: int| 0 <= i < path.segments.len() implies valid_ident(
        #[trigger] path.segments[i].ident,
    ) && (forall|j: int|
        0 <= j < path.segments[i].generics.len() ==> path_fits(
            #[trigger] path.segments[i].generics[j],
            (n - 1) as nat,
        )) by {}
    lemma_segments_line(path.segments, (n - 1) as nat);
}

proof fn lemma_segments_line(segments: Seq<Segment>, n: nat)
    requires
        forall|i: int|
            0 <= i < segments.len() ==> valid_ident(#[trigger] segments[i].ident) && (forall|j: int|
                0 <= j < segments[i].generics.len() ==> path_fits(
                    #[trigger] segments[i].generics[j],
                    n,
                )),
    ensures
        is_line(segments_text(segments)),
    decreases segments,
{
    reveal_strlit("::");
    if segments.len() > 0 {
        let last = segments.last();
        assert(valid_ident(segments[segments.len() - 1].ident));
        assert forall|j: int| 0 <= j < last.generics.len() implies path_fits(
            #[trigger] last.generics[j],
            n,
        ) by {
            assert(path_fits(segments[segments.len() - 1].generics[j], n));
        }
        lemma_segment_line(last, n);
        if segments.len() > 1 {
            let init = segments.drop_last();
            assert forall|i: int| 0 <= i < init.len() implies valid_ident(
                #[trigger] init[i].ident,
            ) && (forall|j: int|
                0 <= j < init[i].generics.len() ==> path_fits(
                    #[trigger] init[i].generics[j],
                    n,
                )) by {
                assert(valid_ident(segments[i].ident));
                assert(init[i] == segments[i]);
            }
            lemma_segments_line(init, n);
            lemma_lines(segments_text(init), "::"@);
            lemma_lines(segments_text(init) + "::"@, segment_text(last));
        }
    }
}

proof fn lemma_segment_line(segment: Segment, n: nat)
    requires
        valid_ident(segment.ident),
        forall|j: int|
            0 <= j < segment.generics.len() ==> path_fits(#[trigger] segment.generics[j], n),
    ensures
        is_line(segment_text(segment)),
    decreases segment,
{
    lemma_ident_line(segment.ident);
    reveal_strlit("<");
    reveal_strlit(">");
    if segment.generics.len() > 0 {
        lemma_paths_line(segment.generics, n);
        lemma_lines(segment.ident, "<"@);
        lemma_lines(segment.ident + "<"@, paths_text(segment.generics));
        lemma_lines(segment.ident + "<"@ + paths_text(segment.generics), ">"@);
    }
}

proof fn lemma_paths_line(paths: Seq<Path>, n: nat)
    requires
        forall|j: int| 0 <= j < paths.len() ==> path_fits(#[trigger] paths[j], n),
    ensures
        is_line(paths_text(paths)),
    decreases paths,
{
    reveal_strlit(", ");
    if paths.len() > 0 {
        assert(path_fits(paths[paths.len() - 1], n));
        lemma_path_line(paths.last(), n);
        if paths.len() > 1 {
            let init = paths.drop_last();
            assert forall|j: int| 0 <= j < init.len() implies path_fits(#[trigger] init[j], n) by {
                assert(init[j] == paths[j]);
            }
            lemma_paths_line(init, n);
            lemma_lines(paths_text(init), ", "@);
            lemma_lines(paths_text(init) + ", "@, path_text(paths.last()));
        }
    }
}

/// A float literal holds no line feed.
proof fn lemma_literal_line(text: Seq<char>)
    requires
        is_float_literal(text),
    ensures
        is_line(text),
{
    let whole = run_end(text, 0, Class::Decimal);
    lemma_run_end(text, 0, Class::Decimal);
    lemma_run_end(text, whole + 1, Class::Decimal);
    let mantissa = run_end(text, whole + 1, Class::Decimal);
    lemma_run_end(text, whole + 2, Class::Decimal);
    lemma_run_end(text, mantissa + 1, Class::Decimal);
    lemma_run_end(text, mantissa + 2, Class::Decimal);
    assert(number_token(text, 0).end == text.len());
    assert(number_body(text, 0).0 == text.len());
    assert forall|i: int| 0 <= i < text.len() implies #[trigger] text[i] != '\n' by {
        assert(in_class(Class::Decimal, text[i]) || text[i] == '.' || text[i] == 'e' || text[i]
            == 'E' || text[i] == '+' || text[i] == '-');
    }
}

proof fn lemma_escaped_line(s: Seq<char>)
    ensures
        is_line(escaped(s)),
    decreases s.len(),
{
    if s.len() > 0 {
        lemma_escaped_line(s.drop_last());
        lemma_radix_chars(s.last() as u32 as nat, 16);
        assert(is_line(escaped_char(s.last())));
        lemma_lines(escaped(s.drop_last()), escaped_char(s.last()));
    }
}

proof fn lemma_leaf_line(floats: Floats, head: Head, n: nat)
    requires
        canonical_floats(floats),
        head_fits(floats, head, n),
    ensures
        is_line(leaf_text(head)),
{
    reveal_strlit("()");
    reveal_strlit("true");
    reveal_strlit("false");
    reveal_strlit("NaN");
    reveal_strlit("inf");
    reveal_strlit("-");
    reveal_strlit("#");
    match head {
        Head::Int(v) => {
            lemma_radix_chars(
                if v < 0 {
                    (-v) as nat
                } else {
                    v as nat
                },
                10,
            );
        },
        Head::Float(f) => {
            if f.is_finite() {
                lemma_literal_line(f.magnitude);
            }
            if f.is_negative() {
                let unsigned = Float { bits: f.magnitude_bits() as u64, magnitude: f.magnitude };
                lemma_lines(
                    "-"@,
                    if f.is_nan() {
                        "NaN"@
                    } else if f.is_infinite() {
                        "inf"@
                    } else {
                        f.magnitude
                    },
                );
            }
        },
        Head::Str(s) => {
            lemma_escaped_line(s);
            lemma_lines(seq!['"'], escaped(s));
            lemma_lines(seq!['"'] + escaped(s), seq!['"']);
        },
        Head::EntityRef(name) => {
            lemma_ident_line(name);
            lemma_lines("#"@, name);
        },
        Head::Path(path) => {
            lemma_path_line(path, n);
        },
        _ => {},
    }
}

proof fn lemma_fields_line(names: Seq<Seq<char>>, parts: Seq<Seq<char>>)
    requires
        parts.len() <= names.len(),
        forall|i: int| 0 <= i < names.len() ==> valid_ident(#[trigger] names[i]),
        forall|i: int| 0 <= i < parts.len() ==> is_line(#[trigger] parts[i]),
    ensures
        is_line(fields_text(names, parts)),
    decreases parts.len(),
{
    reveal_strlit(", ");
    reveal_strlit(": ");
    if parts.len() > 0 {
        let init = parts.drop_last();
        assert forall|i: int| 0 <= i < init.len() implies is_line(#[trigger] init[i]) by {
            assert(init[i] == parts[i]);
        }
        lemma_fields_line(names, init);
        let separator = if parts.len() > 1 {
            ", "@
        } else {
            Seq::empty()
        };
        let before = fields_text(names, init);
        let name = names[parts.len() - 1];
        assert(valid_ident(name));
        lemma_ident_line(name);
        lemma_lines(before, separator);
        lemma_lines(before + separator, name);
        lemma_lines(before + separator + name, ": "@);
        assert(is_line(parts[parts.len() - 1]));
        lemma_lines(before + separator + name + ": "@, parts.last());
    }
}

proof fn lemma_inline_line(floats: Floats, t: Tree, n: nat)
    requires
        canonical_floats(floats),
        tree_fits(floats, t, n),
    ensures
        is_line(tree_inline(t)),
    decreases t, t.children.len() + 1,
{
    let parts = inline_parts(t, t.children.len());
    lemma_parts_line(floats, t, n, t.children.len());
    lemma_parts_len(t, t.children.len());
    reveal_strlit("(");
    reveal_strlit(",)");
    reveal_strlit(", ");
    reveal_strlit(")");
    reveal_strlit("[");
    reveal_strlit("]");
    reveal_strlit(" {}");
    reveal_strlit(" { ");
    reveal_strlit(" }");
    assert(is_line(", "@));
    lemma_joined(parts, ", "@);
    let list = joined(parts, ", "@);
    match t.head {
        Head::Tuple => {
            if parts.len() == 1 {
                assert(is_line(parts[0]));
                lemma_lines("("@, parts[0]);
                lemma_lines("("@ + parts[0], ",)"@);
            } else {
                lemma_lines("("@, list);
                lemma_lines("("@ + list, ")"@);
            }
        },
        Head::List => {
            lemma_lines("["@, list);
            lemma_lines("["@ + list, "]"@);
        },
        Head::NamedTuple(path) => {
            lemma_path_line(path, (n - 1) as nat);
            lemma_lines(path_text(path), "("@);
            lemma_lines(path_text(path) + "("@, list);
            lemma_lines(path_text(path) + "("@ + list, ")"@);
        },
        Head::Struct(path) => {
            lemma_path_line(path, (n - 1) as nat);
            lemma_lines(path_text(path), " {}"@);
            lemma_fields_line(t.names, parts);
            lemma_lines(path_text(path), " { "@);
            lemma_lines(path_text(path) + " { "@, fields_text(t.names, parts));
            lemma_lines(path_text(path) + " { "@ + fields_text(t.names, parts), " }"@);
        },
        _ => {
            lemma_leaf_line(floats, t.head, (n - 1) as nat);
        },
    }
    assert(tree_inline(t) == body_text(value_of(t), parts));
}

proof fn lemma_parts_line(floats: Floats, t: Tree, n: nat, k: nat)
    requires
        canonical_floats(floats),
        tree_fits(floats, t, n),
        k <= t.children.len(),
    ensures
        forall|i: int| 0 <= i < inline_parts(t, k).len() ==> is_line(#[trigger] inline_parts(t, k)[i]),
    decreases t, k,
{
    if k > 0 {
        lemma_parts_line(floats, t, n, (k - 1) as nat);
        assert(item_fits(floats, t.children[k - 1], (n - 1) as nat));
        lemma_inline_line(floats, t.children[k - 1], (n - 1) as nat);
        let before = inline_parts(t, (k - 1) as nat);
        let parts = inline_parts(t, k);
        assert forall|i: int| 0 <= i < parts.len() implies is_line(#[trigger] parts[i]) by {
            if i < before.len() {
                assert(parts[i] == before[i]);
            }
        }
    }
}

// -- the trees of values ------------------------------------------------------------------------

proof fn lemma_path_fits_more(path: Path, n: nat, m: nat)
    requires
        path_fits(path, n),
        n <= m,
    ensures
        path_fits(path, m),
    decreases n,
{
    assert forall|i: int, j: int|
        0 <= i < path.segments.len() && 0 <= j < path.segments[i].generics.len() implies path_fits(
        #[trigger] path.segments[i].generics[j],
        (m - 1) as nat,
    ) by {
        lemma_path_fits_more(path.segments[i].generics[j], (n - 1) as nat, (m - 1) as nat);
    }
}

proof fn lemma_tree_fits_more(floats: Floats, t: Tree, n: nat, m: nat)
    requires
        tree_fits(floats, t, n),
        n <= m,
    ensures
        tree_fits(floats, t, m),
    decreases n,
{
    match t.head {
        Head::Path(path) => {
            lemma_path_fits_more(path, (n - 1) as nat, (m - 1) as nat);
        },
        Head::Struct(path) => {
            lemma_path_fits_more(path, (n - 1) as nat, (m - 1) as nat);
        },
        Head::NamedTuple(path) => {
            lemma_path_fits_more(path, (n - 1) as nat, (m - 1) as nat);
        },
        _ => {},
    }
    assert forall|i: int| 0 <= i < t.children.len() implies item_fits(
        floats,
        #[trigger] t.children[i],
        (m - 1) as nat,
    ) by {
        assert(item_fits(floats, t.children[i], (n - 1) as nat));
        lemma_tree_fits_more(floats, t.children[i], (n - 1) as nat, (m - 1) as nat);
    }
}

/// The value `id` is a well-formed tree of at most `bound` values.
spec fn is_tree(d: Document, floats: Floats, id: int, bound: nat) -> bool {
    exists|t: Tree| #[trigger]
        unfolds(d, id, t) && tree_fits(floats, t, MAX_NESTING_DEPTH as nat) && size(t) <= bound
}

proof fn lemma_layout_trees(
    d: Document,
    floats: Floats,
    t: Tree,
    n: nat,
    base: int,
    bound: nat,
)
    requires
        values_at(d, base, layout(t, base)),
        tree_fits(floats, t, n),
        n <= MAX_NESTING_DEPTH,
        size(t) <= bound,
    ensures
        forall|id: int| base <= id < base + size(t) ==> #[trigger] is_tree(d, floats, id, bound),
    decreases t,
{
    lemma_layout_unfolds(d, t, base);
    lemma_tree_fits_more(floats, t, n, MAX_NESTING_DEPTH as nat);
    assert(is_tree(d, floats, base, bound));
    let first = seq![layout(t, base)[0]];
    let rest = layouts(t.children, base + 1);
    assert(layout(t, base) =~= first + rest);
    lemma_values_split(d, base, first, rest);
    assert forall|i: int| 0 <= i < t.children.len() implies tree_fits(
        floats,
        #[trigger] t.children[i],
        (n - 1) as nat,
    ) by {
        assert(item_fits(floats, t.children[i], (n - 1) as nat));
    }
    lemma_layouts_trees(d, floats, t.children, (n - 1) as nat, base + 1, bound);
}

proof fn lemma_layouts_trees(
    d: Document,
    floats: Floats,
    ts: Seq<Tree>,
    n: nat,
    base: int,
    bound: nat,
)
    requires
        values_at(d, base, layouts(ts, base)),
        forall|i: int| 0 <= i < ts.len() ==> tree_fits(floats, #[trigger] ts[i], n),
        n <= MAX_NESTING_DEPTH,
        sizes(ts) <= bound,
    ensures
        forall|id: int| base <= id < base + sizes(ts) ==> #[trigger] is_tree(d, floats, id, bound),
    decreases ts,
{
    if ts.len() > 0 {
        let init = ts.drop_last();
        let at = base + sizes(init);
        lemma_layouts_len(init, base);
        lemma_values_split(d, base, layouts(init, base), layout(ts.last(), at));
        assert forall|i: int| 0 <= i < init.len() implies tree_fits(
            floats,
            #[trigger] init[i],
            n,
        ) by {
            assert(init[i] == ts[i]);
        }
        lemma_layouts_trees(d, floats, init, n, base, bound);
        assert(tree_fits(floats, ts[ts.len() - 1], n));
        lemma_layout_trees(d, floats, ts.last(), n, at, bound);
    }
}

proof fn lemma_node_trees(
    d: Document,
    floats: Floats,
    t: NodeTree,
    n: nat,
    base: int,
    bound: nat,
)
    requires
        values_at(d, base, value_layout(t, base)),
        entity_fits(floats, t, n) || (entry_fits(floats, t, n) && n < MAX_NESTING_DEPTH),
        n <= MAX_NESTING_DEPTH,
        value_size(t) <= bound,
    ensures
        forall|id: int|
            base <= id < base + value_size(t) ==> #[trigger] is_tree(d, floats, id, bound),
    decreases t,
{
    match t.head {
        NodeHead::Patch { value, .. } => {
            assert(value_layouts(t.children, base + size(value)) =~= Seq::empty());
            assert(value_layout(t, base) =~= layout(value, base));
            assert(value_sizes(t.children) == 0);
            lemma_layout_trees(d, floats, value, n + 1, base, bound);
        },
        NodeHead::Entity { .. } => {
            let m = (n - 1) as nat;
            assert forall|i: int| 0 <= i < t.children.len() implies entity_fits(
                floats,
                #[trigger] t.children[i],
                m,
            ) || (entry_fits(floats, t.children[i], m) && m < MAX_NESTING_DEPTH) by {
                assert(entry_fits(floats, t.children[i], m));
            }
            lemma_nodes_trees(d, floats, t.children, m, base, bound);
        },
        NodeHead::Relation { .. } => {
            assert forall|i: int| 0 <= i < t.children.len() implies entity_fits(
                floats,
                #[trigger] t.children[i],
                n,
            ) || (entry_fits(floats, t.children[i], n) && n < MAX_NESTING_DEPTH) by {
                assert(entity_fits(floats, t.children[i], n));
            }
            lemma_nodes_trees(d, floats, t.children, n, base, bound);
        },
    }
}

proof fn lemma_nodes_trees(
    d: Document,
    floats: Floats,
    ts: Seq<NodeTree>,
    n: nat,
    base: int,
    bound: nat,
)
    requires
        values_at(d, base, value_layouts(ts, base)),
        forall|i: int|
            0 <= i < ts.len() ==> entity_fits(floats, #[trigger] ts[i], n) || (entry_fits(
                floats,
                ts[i],
                n,
            ) && n < MAX_NESTING_DEPTH),
        n <= MAX_NESTING_DEPTH,
        value_sizes(ts) <= bound,
    ensures
        forall|id: int|
            base <= id < base + value_sizes(ts) ==> #[trigger] is_tree(d, floats, id, bound),
    decreases ts,
{
    if ts.len() > 0 {
        let init = ts.drop_last();
        let at = base + value_sizes(init);
        lemma_value_layouts_len(init, base);
        lemma_values_split(d, base, value_layouts(init, base), value_layout(ts.last(), at));
        assert forall|i: int| 0 <= i < init.len() implies entity_fits(
            floats,
            #[trigger] init[i],
            n,
        ) || (entry_fits(floats, init[i], n) && n < MAX_NESTING_DEPTH) by {
            assert(init[i] == ts[i]);
        }
        lemma_nodes_trees(d, floats, init, n, base, bound);
        assert(entity_fits(floats, ts[ts.len() - 1], n) || entry_fits(
            floats,
            ts[ts.len() - 1],
            n,
        ));
        lemma_node_trees(d, floats, ts.last(), n, at, bound);
    }
}

// -- reading a value back -----------------------------------------------------------------------

/// The path `A`.
pub open spec fn path_a() -> Path {
    Path {
        segments: seq![
            Segment { ident: "A"@, generics: Seq::empty(), span: Span::spec_none() },
        ],
        span: Span::spec_none(),
    }
}

/// A named tuple `A(..)` around a value.
spec fn wrapped(v: Tree) -> Tree {
    Tree {
        span: Span::spec_none(),
        head: Head::NamedTuple(path_a()),
        names: Seq::empty(),
        children: seq![v],
    }
}

/// An entity with the one patch `A(..)` around a value.
spec fn wrapped_root(v: Tree) -> NodeTree {
    NodeTree {
        span: Span::spec_none(),
        head: NodeHead::Entity { name: None, name_span: None, base: None, base_span: None },
        children: seq![
            NodeTree {
                span: Span::spec_none(),
                head: NodeHead::Patch {
                    symbol: path_a(),
                    prefix: BsnPatchPrefix::FromTemplate,
                    value: wrapped(v),
                },
                children: Seq::empty(),
            },
        ],
    }
}

proof fn lemma_path_a()
    ensures
        path_fits(path_a(), 1),
        names_type(path_a()),
        path_text(path_a()) == "A"@,
        path_a().segments[0].ident != "use"@,
        same_path(path_a(), path_a()),
{
    reveal_strlit("A");
    reveal_strlit("use");
    assert("A"@.len() == 1 && "A"@[0] == 'A');
    assert(valid_ident("A"@));
    assert(last_ident(path_a()) == "A"@);
    assert(spec_is_upper('A'));
    crate::twin::lemma_same_path_refl(path_a());
}

proof fn lemma_wrapped(floats: Floats, v: Tree)
    requires
        item_fits(floats, v, (MAX_NESTING_DEPTH - 1) as nat),
    ensures
        tree_fits(floats, wrapped(v), MAX_NESTING_DEPTH as nat),
        entity_fits(floats, wrapped_root(v), MAX_NESTING_DEPTH as nat),
        tree_inline(wrapped(v)) == "A("@ + tree_inline(v) + ")"@,
{
    let t = wrapped(v);
    lemma_path_a();
    lemma_path_fits_more(path_a(), 1, (MAX_NESTING_DEPTH - 1) as nat);
    assert(t.children[0] == v);
    let root = wrapped_root(v);
    assert(entry_fits(floats, root.children[0], (MAX_NESTING_DEPTH - 1) as nat));
    lemma_parts_len(t, 1);
    assert(inline_parts(t, 0) =~= Seq::empty());
    assert(inline_parts(t, 1) =~= seq![tree_inline(v)]);
    reveal_strlit("A");
    reveal_strlit("(");
    reveal_strlit("A(");
    reveal_strlit(")");
    assert(joined(inline_parts(t, 1), ", "@) == tree_inline(v));
    assert(tree_inline(t) == body_text(value_of(t), inline_parts(t, 1)));
    assert(tree_inline(t) =~= "A("@ + tree_inline(v) + ")"@);
}

/// `A(..)` around the text of a value reads as a patch around a value that differs in spans only.
proof fn lemma_reads_back(floats: Floats, v: Tree)
    requires
        canonical_floats(floats),
        item_fits(floats, v, (MAX_NESTING_DEPTH - 1) as nat),
    ensures
        input_of("A("@ + tree_inline(v) + ")"@, floats).document() matches Ok(us) && us.len() == 1
            && twin_nodes(wrapped_root(v), us[0]),
{
    let t = wrapped(v);
    let root = wrapped_root(v);
    let m = MAX_NESTING_DEPTH as nat;
    lemma_wrapped(floats, v);
    let s = tree_inline(t);
    let input = input_of(s, floats);
    assert(s.subrange(0, s.len() as int) =~= s);
    assert(holds_at(s, 0, s));
    assert(stops(s, s.len() as int));
    let commas = lemma_reads_inline(s, 0, floats, t, m);
    let toks = tree_toks(t, commas);
    let inner = NodeCommas { value: commas, inside: Seq::empty() };
    let outer = NodeCommas { value: commas, inside: seq![inner] };
    let ts = seq![root];
    let all = seq![outer];
    assert(entries_toks(root, outer, 0) =~= Seq::empty());
    assert(entry_toks(root.children[0], inner) =~= toks);
    assert(entries_toks(root, outer, 1) =~= toks);
    assert(entity_toks(root, outer) =~= toks);
    assert(entities_toks(ts, all, 0) =~= Seq::empty());
    assert(entities_toks(ts, all, 1) =~= toks);
    lemma_segments_first(path_a().segments);
    assert(toks.len() > 0 && toks[0] == ident_token("A"@));
    lemma_input(s, floats, toks);
    assert(node_commas_fit(root.children[0], inner));
    assert(node_commas_fit(root, outer));
    lemma_reparse_list(input, 0, 0, ts, all, 0, TokenKind::Eof, Seq::empty());
    let (us, q) = input.entity_list(0, 0, TokenKind::Eof, Seq::empty())->Ok_0;
    assert(twin_nodes(ts[0], us[0]));
}

/// The one-line text of a value inside a parsed value has no line feed, and reads back as that
/// value: `A(..)` around it is a document of one patch, whose one item equals the value. A tuple
/// of one element keeps its comma.
pub proof fn law_inline_values_read_back(
    source: Seq<char>,
    floats: Floats,
    options: PrintOptions,
    outer: int,
    i: int,
)
    requires
        byte_len(source) <= u32::MAX,
        canonical_floats(floats),
        parse_model(source, floats) is Ok,
        parse_model(source, floats)->Ok_0.values.len() * BUDGET_PER_VALUE <= usize::MAX,
        0 <= outer < parse_model(source, floats)->Ok_0.values.len(),
        0 <= i < parse_model(source, floats)->Ok_0.values[outer].children.len(),
    ensures
        ({
            let d = parse_model(source, floats)->Ok_0;
            let id = d.values[outer].children[i];
            let style = Style { document: d, options };
            &&& style.inline(id, 0, Seq::empty(), style.budget()).0 matches Some(text) && is_line(
                text,
            ) && (parse_model("A("@ + text + ")"@, floats) matches Ok(e) && is_one_patch(
                e,
                BsnPatchPrefix::FromTemplate,
                path_a(),
            ) && e.values[0].children.len() == 1 && same_value(
                d,
                id,
                e,
                e.values[0].children[0],
                0,
            )) && (d.values[id].head is Tuple && d.values[id].children.len() == 1 ==> text.len()
                >= 2 && text.skip(text.len() - 2) == ",)"@)
        }),
{
    let d = parse_model(source, floats)->Ok_0;
    let style = Style { document: d, options };
    let roots = parsed_roots(source, floats);
    let m = MAX_NESTING_DEPTH as nat;
    let bound = d.values.len();
    lemma_parsed_roots(source, floats);
    lemma_value_layouts_len(roots, 0);
    assert forall|k: int| 0 <= k < roots.len() implies entity_fits(
        floats,
        #[trigger] roots[k],
        m,
    ) || (entry_fits(floats, roots[k], m) && m < MAX_NESTING_DEPTH) by {
        assert(entity_fits(floats, roots[k], m));
    }
    lemma_nodes_trees(d, floats, roots, m, 0, bound);
    assert(is_tree(d, floats, outer, bound));
    let t = choose|t: Tree| #[trigger]
        unfolds(d, outer, t) && tree_fits(floats, t, m) && size(t) <= bound;
    let v = t.children[i];
    let id = d.values[outer].children[i];
    assert(unfolds(d, id, v));
    assert(item_fits(floats, v, (m - 1) as nat));
    crate::unfolding::lemma_size_child(t.children, i);
    lemma_inline(style, floats, id, v, (m - 1) as nat, 0, Seq::empty(), style.budget());
    let text = tree_inline(v);
    lemma_inline_line(floats, v, (m - 1) as nat);
    lemma_reads_back(floats, v);
    let us = input_of("A("@ + text + ")"@, floats).document()->Ok_0;
    let root = us[0];
    assert(us =~= seq![root]);
    let patch = root.children[0];
    let mine = wrapped_root(v);
    assert(twin_nodes(mine.children[0], root.children[0]));
    assert(root.children =~= seq![patch]);
    lemma_one_patch(root, patch, path_a());
    let e = document_of(us);
    let read = patch.head->value;
    assert(twins(wrapped(v), read));
    assert(twins(wrapped(v).children[0], read.children[0]));
    lemma_layout_len(read, 0);
    assert(values_at(e, 0, layout(read, 0)));
    lemma_layout_unfolds(e, read, 0);
    assert(unfolds(e, e.values[0].children[0], read.children[0]));
    lemma_twin_values(
        d,
        id,
        e,
        e.values[0].children[0],
        v,
        read.children[0],
        floats,
        (m - 1) as nat,
        0,
    );
    if v.head is Tuple && v.children.len() == 1 {
        lemma_parts_len(v, 1);
        reveal_strlit(",)");
        assert(text == body_text(value_of(v), inline_parts(v, 1)));
        assert(text.skip(text.len() - 2) =~= ",)"@);
    }
}

} // verus!
