//! Parsing loses nothing and adds nothing: the arenas hold the words, numbers, strings and signs
//! of the text, each as often as it is written.

use vstd::prelude::*;

use crate::ast::BsnPatchPrefix;
use crate::entities::{input_of, parse_model};
use crate::error::MAX_NESTING_DEPTH;
use crate::float::{lookup, Floats, INFINITY, QUIET_NAN};
use crate::grammar::{is_stop, Input, Lexeme, NodeHead, NodeTree, Parts, Tree};
use crate::layout::{
    layout, layouts, node_layout, node_layouts, node_sizes, size, sizes, value_layout,
    value_layouts, value_sizes,
};
use crate::literal::{int_value, magnitude_value, string_value, without_separators};
use crate::model::{Head, Node, NodeKind, Path, Segment, Value};
use crate::progress::{
    lemma_entity_advances, lemma_entries_stays, lemma_entry_advances, lemma_path_advances,
    lemma_path_list_stays, lemma_segment_advances, lemma_value_advances, lemma_value_list_stays,
};
use crate::roundtrip::lemma_wf;
use crate::span::Span;
use crate::token::TokenKind;

verus! {

/// Something that is written in a text: an identifier, an integer without its sign, the bits of a
/// float without its sign, a string, or a sign that says what something is.
pub ghost enum Atom {
    Word(Seq<char>),
    Number(int),
    Real(int),
    Text(Seq<char>),
    Sign(TokenKind),
}

/// What an identifier stands for: itself, unless it is the name of a float.
pub open spec fn word(text: Seq<char>) -> Atom {
    if text == "inf"@ {
        Atom::Real(INFINITY as int)
    } else if text == "NaN"@ || text == "nan"@ {
        Atom::Real(QUIET_NAN as int)
    } else {
        Atom::Word(text)
    }
}

pub open spec fn absolute(n: int) -> int {
    if n < 0 {
        -n
    } else {
        n
    }
}

/// What a token has written in it.
pub open spec fn atom_of(t: Lexeme, floats: Floats) -> Option<Atom> {
    match t.kind {
        TokenKind::Ident => Some(word(t.text)),
        TokenKind::Int => match (int_value(t.text), magnitude_value(t.text)) {
            (Ok(v), _) => Some(Atom::Number(absolute(v))),
            (_, Ok(v)) => Some(Atom::Number(absolute(v))),
            _ => None,
        },
        TokenKind::Float => match lookup(floats, without_separators(t.text)) {
            Some(f) => Some(Atom::Real(f.magnitude_bits())),
            None => None,
        },
        TokenKind::Str => match string_value(t.text) {
            Some(s) => Some(Atom::Text(s)),
            None => None,
        },
        TokenKind::ColonColon => Some(Atom::Sign(TokenKind::ColonColon)),
        TokenKind::Colon => Some(Atom::Sign(TokenKind::Colon)),
        TokenKind::Hash => Some(Atom::Sign(TokenKind::Hash)),
        TokenKind::At => Some(Atom::Sign(TokenKind::At)),
        TokenKind::Tilde => Some(Atom::Sign(TokenKind::Tilde)),
        TokenKind::LBrace => Some(Atom::Sign(TokenKind::LBrace)),
        TokenKind::LBracket => Some(Atom::Sign(TokenKind::LBracket)),
        TokenKind::Error(e) => Some(Atom::Sign(TokenKind::Error(e))),
        _ => None,
    }
}

/// Whether `x` is the sign of the given kind.
pub open spec fn sign(kind: TokenKind, x: Atom) -> nat {
    one_if(Atom::Sign(kind) == x)
}

pub open spec fn one_if(b: bool) -> nat {
    if b {
        1
    } else {
        0
    }
}

/// How often `x` is written in the tokens from `a` to `b`.
pub open spec fn written(input: Input, a: int, b: int, x: Atom) -> nat
    decreases b - a,
{
    if a >= b {
        0
    } else {
        written(input, a, b - 1, x) + one_if(atom_of(input.tok(b - 1), input.floats) == Some(x))
    }
}

proof fn lemma_split(input: Input, a: int, b: int, c: int, x: Atom)
    requires
        a <= b <= c,
    ensures
        written(input, a, c, x) == written(input, a, b, x) + written(input, b, c, x),
    decreases c - b,
{
    if b < c {
        lemma_split(input, a, b, c - 1, x);
    }
}

/// One token of its own.
proof fn lemma_next(input: Input, a: int, c: int, x: Atom)
    requires
        a < c,
    ensures
        written(input, a, c, x) == one_if(atom_of(input.tok(a), input.floats) == Some(x))
            + written(input, a + 1, c, x),
        written(input, a, c, x) == written(input, a, c - 1, x) + one_if(
            atom_of(input.tok(c - 1), input.floats) == Some(x),
        ),
{
    lemma_split(input, a, a + 1, c, x);
    assert(written(input, a, a, x) == 0);
    assert(written(input, a, a + 1, x) == written(input, a, a, x) + one_if(
        atom_of(input.tok(a), input.floats) == Some(x),
    ));
}

// -- what things hold ---------------------------------------------------------------------------

/// How often a path holds `x`.
pub open spec fn in_path(path: Path, x: Atom) -> nat
    decreases path,
{
    in_segments(path.segments, x)
}

pub open spec fn in_segments(segments: Seq<Segment>, x: Atom) -> nat
    decreases segments,
{
    if segments.len() == 0 {
        0
    } else {
        in_segments(segments.drop_last(), x) + in_segment(segments.last(), x) + (
        if segments.len() > 1 {
            sign(TokenKind::ColonColon, x)
        } else {
            0
        })
    }
}

pub open spec fn in_segment(segment: Segment, x: Atom) -> nat
    decreases segment,
{
    one_if(word(segment.ident) == x) + in_paths(segment.generics, x)
}

pub open spec fn in_paths(paths: Seq<Path>, x: Atom) -> nat
    decreases paths,
{
    if paths.len() == 0 {
        0
    } else {
        in_paths(paths.drop_last(), x) + in_path(paths.last(), x)
    }
}

/// How often a list of names holds `x`.
pub open spec fn in_names(names: Seq<Seq<char>>, x: Atom) -> nat
    decreases names.len(),
{
    if names.len() == 0 {
        0
    } else {
        in_names(names.drop_last(), x) + one_if(word(names.last()) == x) + sign(
            TokenKind::Colon,
            x,
        )
    }
}

/// How often a value holds `x`, apart from the values inside it and from its field names.
pub open spec fn in_head(head: Head, x: Atom) -> nat {
    match head {
        Head::Unit => 0,
        Head::Bool(b) => one_if(word(if b { "true"@ } else { "false"@ }) == x),
        Head::Int(v) => one_if(Atom::Number(absolute(v)) == x),
        Head::Float(f) => one_if(Atom::Real(f.magnitude_bits()) == x),
        Head::Str(s) => one_if(Atom::Text(s) == x),
        Head::EntityRef(name) => one_if(word(name) == x) + sign(TokenKind::Hash, x),
        Head::Path(path) => in_path(path, x),
        Head::Tuple => 0,
        Head::List => sign(TokenKind::LBracket, x),
        Head::Struct(path) => in_path(path, x) + sign(TokenKind::LBrace, x),
        Head::NamedTuple(path) => in_path(path, x),
    }
}

/// How often the values of an arena hold `x`.
pub open spec fn in_values(values: Seq<Value>, x: Atom) -> nat
    decreases values.len(),
{
    if values.len() == 0 {
        0
    } else {
        in_values(values.drop_last(), x) + in_head(values.last().head, x) + in_names(
            values.last().names,
            x,
        )
    }
}

/// How often the prefix of a patch holds `x`.
pub open spec fn in_prefix(prefix: BsnPatchPrefix, x: Atom) -> nat {
    match prefix {
        BsnPatchPrefix::FromTemplate => 0,
        BsnPatchPrefix::Template => sign(TokenKind::Tilde, x),
        BsnPatchPrefix::SceneComponent => sign(TokenKind::At, x),
    }
}

/// How often a node holds `x`: its name and its base, its prefix, or its target. The path of a
/// patch is held by its value.
pub open spec fn in_kind(kind: NodeKind, x: Atom) -> nat {
    match kind {
        NodeKind::Entity { name, base, .. } => (match name {
            Some(name) => one_if(word(name) == x) + sign(TokenKind::Hash, x),
            None => 0,
        }) + (match base {
            Some(base) => one_if(Atom::Text(base) == x) + sign(TokenKind::Colon, x),
            None => 0,
        }),
        NodeKind::Patch { prefix, .. } => in_prefix(prefix, x),
        NodeKind::Relation { target, .. } => in_path(target, x) + sign(TokenKind::LBracket, x),
    }
}

/// How often the nodes of an arena hold `x`.
pub open spec fn in_nodes(nodes: Seq<Node>, x: Atom) -> nat
    decreases nodes.len(),
{
    if nodes.len() == 0 {
        0
    } else {
        in_nodes(nodes.drop_last(), x) + in_kind(nodes.last().kind, x)
    }
}

spec fn in_tree(t: Tree, x: Atom) -> nat
    decreases t,
{
    in_head(t.head, x) + in_names(t.names, x) + in_trees(t.children, x)
}

spec fn in_trees(ts: Seq<Tree>, x: Atom) -> nat
    decreases ts,
{
    if ts.len() == 0 {
        0
    } else {
        in_trees(ts.drop_last(), x) + in_tree(ts.last(), x)
    }
}

spec fn in_parts(name: Option<Seq<char>>, base: Option<Seq<char>>, x: Atom) -> nat {
    (match name {
        Some(name) => one_if(word(name) == x) + sign(TokenKind::Hash, x),
        None => 0,
    }) + (match base {
        Some(base) => one_if(Atom::Text(base) == x) + sign(TokenKind::Colon, x),
        None => 0,
    })
}

spec fn in_node_tree(t: NodeTree, x: Atom) -> nat
    decreases t,
{
    (match t.head {
        NodeHead::Entity { name, base, .. } => in_parts(name, base, x),
        NodeHead::Patch { prefix, value, .. } => in_prefix(prefix, x) + in_tree(value, x),
        NodeHead::Relation { target } => in_path(target, x) + sign(TokenKind::LBracket, x),
    }) + in_node_trees(t.children, x)
}

spec fn in_node_trees(ts: Seq<NodeTree>, x: Atom) -> nat
    decreases ts,
{
    if ts.len() == 0 {
        0
    } else {
        in_node_trees(ts.drop_last(), x) + in_node_tree(ts.last(), x)
    }
}

// -- paths --------------------------------------------------------------------------------------

proof fn lemma_path(input: Input, depth: nat, pos: int, x: Atom)
    requires
        input.wf(),
        0 <= pos < input.toks.len(),
    ensures
        input.path(depth, pos) matches Ok((path, q)) ==> in_path(path, x) == written(
            input,
            pos,
            q,
            x,
        ),
    decreases MAX_NESTING_DEPTH - depth, input.toks.len() - pos, 0nat,
{
    if input.too_deep(depth, pos) is None && input.path(depth, pos) is Ok {
        lemma_segment_advances(input, depth + 1, pos);
        lemma_segment(input, depth + 1, pos, x);
        let (segment, q) = input.segment(depth + 1, pos)->Ok_0;
        assert(seq![segment].drop_last() =~= Seq::<Segment>::empty());
        assert(in_segments(seq![segment].drop_last(), x) == 0);
        lemma_more(input, depth + 1, pos, q, seq![segment], x);
    }
}

proof fn lemma_more(
    input: Input,
    depth: nat,
    start: int,
    pos: int,
    segments: Seq<Segment>,
    x: Atom,
)
    requires
        input.wf(),
        start <= pos,
        0 <= pos < input.toks.len(),
        segments.len() > 0,
        in_segments(segments, x) == written(input, start, pos, x),
    ensures
        input.more_segments(depth, pos, segments) matches Ok((path, q)) ==> in_path(path, x)
            == written(input, start, q, x),
    decreases MAX_NESTING_DEPTH - depth, input.toks.len() - pos, 3nat,
{
    if input.kind(pos) == TokenKind::ColonColon && pos + 1 < input.toks.len() {
        lemma_segment_advances(input, depth, pos + 1);
        if let Ok((segment, q)) = input.segment(depth, pos + 1) {
            lemma_segment(input, depth, pos + 1, x);
            assert(segments.push(segment).drop_last() =~= segments);
            lemma_split(input, start, pos, q, x);
            lemma_next(input, pos, q, x);
            lemma_more(input, depth, start, q, segments.push(segment), x);
        }
    }
}

proof fn lemma_segment(input: Input, depth: nat, pos: int, x: Atom)
    requires
        input.wf(),
        0 <= pos < input.toks.len(),
    ensures
        input.segment(depth, pos) matches Ok((segment, q)) ==> in_segment(segment, x) == written(
            input,
            pos,
            q,
            x,
        ),
    decreases MAX_NESTING_DEPTH - depth, input.toks.len() - pos, 2nat,
{
    if let Ok((segment, q)) = input.segment(depth, pos) {
        if input.kind(pos + 1) == TokenKind::Lt {
            lemma_path_list_stays(input, depth, pos + 2, Seq::empty());
            assert(in_paths(Seq::empty(), x) == 0);
            assert(written(input, pos + 2, pos + 2, x) == 0);
            lemma_path_list(input, depth, pos + 2, pos + 2, Seq::empty(), x);
            lemma_next(input, pos, q, x);
            lemma_next(input, pos + 1, q, x);
            lemma_next(input, pos + 2, q, x);
        } else {
            lemma_next(input, pos, q, x);
            assert(in_paths(Seq::empty(), x) == 0);
            assert(written(input, pos + 1, q, x) == 0);
        }
    }
}

proof fn lemma_path_list(
    input: Input,
    depth: nat,
    start: int,
    pos: int,
    items: Seq<Path>,
    x: Atom,
)
    requires
        input.wf(),
        start <= pos,
        0 <= pos < input.toks.len(),
        in_paths(items, x) == written(input, start, pos, x),
    ensures
        input.path_list(depth, pos, items) matches Ok((paths, q)) ==> in_paths(paths, x)
            == written(input, start, q, x),
    decreases MAX_NESTING_DEPTH - depth, input.toks.len() - pos, 1nat,
{
    if input.bad(pos) is None && input.kind(pos) != TokenKind::Gt {
        lemma_path_advances(input, depth, pos);
        if let Ok((item, q)) = input.path(depth, pos) {
            lemma_path(input, depth, pos, x);
            assert(items.push(item).drop_last() =~= items);
            lemma_split(input, start, pos, q, x);
            if input.kind(q) == TokenKind::Comma {
                lemma_next(input, start, q + 1, x);
                if q + 1 < input.toks.len() {
                    lemma_path_list(input, depth, start, q + 1, items.push(item), x);
                }
            }
        }
    }
}

// -- values -------------------------------------------------------------------------------------

proof fn lemma_value(input: Input, depth: nat, pos: int, x: Atom)
    requires
        input.wf(),
        0 <= pos < input.toks.len(),
    ensures
        input.value(depth, pos) matches Ok((t, q)) ==> in_tree(t, x) == written(input, pos, q, x),
    decreases MAX_NESTING_DEPTH - depth, input.toks.len() - pos, 0nat,
{
    if input.too_deep(depth, pos) is None {
        lemma_value_inner(input, depth + 1, pos, x);
    }
}

/// A value of its own: one token, or a sign and a token.
proof fn lemma_leaf(input: Input, depth: nat, pos: int, x: Atom)
    requires
        input.wf(),
        0 <= pos < input.toks.len(),
        input.kind(pos) != TokenKind::LBracket,
        input.kind(pos) != TokenKind::LParen,
        input.kind(pos) == TokenKind::Ident ==> is_word_value(input.tok(pos).text),
        input.value_inner(depth, pos) is Ok,
    ensures
        input.value_inner(depth, pos) matches Ok((t, q)) ==> in_tree(t, x) == written(
            input,
            pos,
            q,
            x,
        ),
{
    let (t, q) = input.value_inner(depth, pos)->Ok_0;
    assert(in_trees(t.children, x) == 0);
    lemma_next(input, pos, q, x);
    reveal_strlit("true");
    reveal_strlit("false");
    reveal_strlit("inf");
    reveal_strlit("NaN");
    reveal_strlit("nan");
    if input.kind(pos) == TokenKind::Minus || input.kind(pos) == TokenKind::Hash {
        lemma_next(input, pos + 1, q, x);
        assert(written(input, pos + 2, q, x) == 0);
    } else {
        assert(written(input, pos + 1, q, x) == 0);
    }
}

proof fn lemma_value_inner(input: Input, depth: nat, pos: int, x: Atom)
    requires
        input.wf(),
        0 <= pos < input.toks.len(),
    ensures
        input.value_inner(depth, pos) matches Ok((t, q)) ==> in_tree(t, x) == written(
            input,
            pos,
            q,
            x,
        ),
    decreases MAX_NESTING_DEPTH - depth, input.toks.len() - pos, 9nat,
{
    let tok = input.tok(pos);
    if let Ok((t, q)) = input.value_inner(depth, pos) {
        if tok.kind == TokenKind::LBracket {
            lemma_bracketed(
                input,
                depth,
                pos,
                TokenKind::RBracket,
                seq!["`,`"@, "`]`"@],
                tok.span,
                Head::List,
                x,
            );
            lemma_next(input, pos, q, x);
        } else if tok.kind == TokenKind::LParen {
            lemma_paren(input, depth, pos, x);
        } else if tok.kind == TokenKind::Ident && !is_word_value(tok.text) {
            lemma_path_value(input, depth, pos, x);
        } else {
            lemma_leaf(input, depth, pos, x);
        }
    }
}

/// Whether an identifier is a value by itself.
spec fn is_word_value(text: Seq<char>) -> bool {
    text == "true"@ || text == "false"@ || text == "inf"@ || text == "NaN"@ || text == "nan"@
}

proof fn lemma_bracketed(
    input: Input,
    depth: nat,
    pos: int,
    close: TokenKind,
    expected: Seq<Seq<char>>,
    first: Span,
    head: Head,
    x: Atom,
)
    requires
        input.wf(),
        0 <= pos < input.toks.len(),
        close == TokenKind::RBracket || close == TokenKind::RParen,
    ensures
        input.bracketed(depth, pos, close, expected, first, head) matches Ok((t, q)) ==> in_tree(
            t,
            x,
        ) == in_head(head, x) + written(input, pos + 1, q, x) && q > pos,
    decreases MAX_NESTING_DEPTH - depth, input.toks.len() - pos, 5nat,
{
    if let Ok((t, q)) = input.bracketed(depth, pos, close, expected, first, head) {
        lemma_value_list_stays(input, depth, pos + 1, close, Seq::empty());
        assert(in_trees(Seq::empty(), x) == 0);
        assert(written(input, pos + 1, pos + 1, x) == 0);
        lemma_value_list(input, depth, pos + 1, pos + 1, close, Seq::empty(), x);
        lemma_next(input, pos + 1, q, x);
        assert(in_names(t.names, x) == 0);
    }
}

proof fn lemma_paren(input: Input, depth: nat, pos: int, x: Atom)
    requires
        input.wf(),
        0 <= pos < input.toks.len(),
        input.kind(pos) == TokenKind::LParen,
    ensures
        input.paren_value(depth, pos) matches Ok((t, q)) ==> in_tree(t, x) == written(
            input,
            pos,
            q,
            x,
        ),
    decreases MAX_NESTING_DEPTH - depth, input.toks.len() - pos, 8nat,
{
    if let Ok((t, q)) = input.paren_value(depth, pos) {
        if input.kind(pos + 1) == TokenKind::RParen {
            lemma_next(input, pos, q, x);
            lemma_next(input, pos + 1, q, x);
            assert(written(input, pos + 2, q, x) == 0);
            assert(in_trees(t.children, x) == 0);
        } else if !input.comma_ahead(pos + 1, 0, 0) {
            lemma_value_advances(input, depth, pos + 1);
            lemma_value(input, depth, pos + 1, x);
            lemma_next(input, pos, q, x);
            lemma_next(input, pos + 1, q, x);
        } else {
            lemma_bracketed(
                input,
                depth,
                pos,
                TokenKind::RParen,
                seq!["`,`"@, "`)`"@],
                input.tok(pos).span,
                Head::Tuple,
                x,
            );
            lemma_next(input, pos, q, x);
        }
    }
}

proof fn lemma_value_list(
    input: Input,
    depth: nat,
    start: int,
    pos: int,
    close: TokenKind,
    items: Seq<Tree>,
    x: Atom,
)
    requires
        input.wf(),
        start <= pos,
        0 <= pos < input.toks.len(),
        in_trees(items, x) == written(input, start, pos, x),
    ensures
        input.value_list(depth, pos, close, items) matches Ok((trees, q)) ==> in_trees(trees, x)
            == written(input, start, q, x),
    decreases MAX_NESTING_DEPTH - depth, input.toks.len() - pos, 4nat,
{
    if input.bad(pos) is None && input.kind(pos) != close {
        lemma_value_advances(input, depth, pos);
        if let Ok((item, q)) = input.value(depth, pos) {
            lemma_value(input, depth, pos, x);
            assert(items.push(item).drop_last() =~= items);
            lemma_split(input, start, pos, q, x);
            if input.kind(q) == TokenKind::Comma {
                lemma_next(input, start, q + 1, x);
                if q + 1 < input.toks.len() {
                    lemma_value_list(input, depth, start, q + 1, close, items.push(item), x);
                }
            }
        }
    }
}

proof fn lemma_path_value(input: Input, depth: nat, pos: int, x: Atom)
    requires
        input.wf(),
        0 <= pos < input.toks.len(),
    ensures
        input.path_value(depth, pos) matches Ok((t, q)) ==> in_tree(t, x) == written(
            input,
            pos,
            q,
            x,
        ),
    decreases MAX_NESTING_DEPTH - depth, input.toks.len() - pos, 8nat,
{
    if input.path_value(depth, pos) is Ok {
        lemma_path_advances(input, depth, pos);
        lemma_path(input, depth, pos, x);
        let (path, q) = input.path(depth, pos)->Ok_0;
        lemma_path_body(input, depth, pos, q, path, x);
    }
}

proof fn lemma_path_body(input: Input, depth: nat, start: int, pos: int, path: Path, x: Atom)
    requires
        input.wf(),
        start <= pos,
        0 <= pos < input.toks.len(),
        in_path(path, x) == written(input, start, pos, x),
    ensures
        input.path_body(depth, pos, path) matches Ok((t, q)) ==> in_tree(t, x) == written(
            input,
            start,
            q,
            x,
        ),
    decreases MAX_NESTING_DEPTH - depth, input.toks.len() - pos, 7nat,
{
    if let Ok((t, q)) = input.path_body(depth, pos, path) {
        crate::progress::lemma_path_body_stays(input, depth, pos, path);
        if input.kind(pos) == TokenKind::LBrace {
            lemma_next(input, start, pos + 1, x);
            assert(in_names(Seq::empty(), x) == 0);
            assert(in_trees(Seq::empty(), x) == 0);
            lemma_fields(
                input,
                depth,
                start,
                pos + 1,
                path,
                Seq::empty(),
                Seq::empty(),
                Seq::empty(),
                x,
            );
        } else if input.kind(pos) == TokenKind::LParen {
            lemma_bracketed(
                input,
                depth,
                pos,
                TokenKind::RParen,
                seq!["`,`"@, "`)`"@],
                path.span,
                Head::NamedTuple(path),
                x,
            );
            lemma_split(input, start, pos, q, x);
            lemma_next(input, pos, q, x);
        } else {
            assert(in_names(t.names, x) == 0);
            assert(in_trees(t.children, x) == 0);
        }
    }
}

proof fn lemma_fields_end(
    input: Input,
    start: int,
    pos: int,
    path: Path,
    names: Seq<Seq<char>>,
    spans: Seq<Span>,
    values: Seq<Tree>,
    x: Atom,
)
    requires
        start <= pos,
        in_path(path, x) + sign(TokenKind::LBrace, x) + in_names(names, x) + in_trees(values, x)
            == written(input, start, pos, x),
    ensures
        input.fields_end(pos, path, names, spans, values) matches Ok((t, q)) ==> in_tree(t, x)
            == written(input, start, q, x),
{
    lemma_next(input, start, pos + 1, x);
}

proof fn lemma_fields(
    input: Input,
    depth: nat,
    start: int,
    pos: int,
    path: Path,
    names: Seq<Seq<char>>,
    spans: Seq<Span>,
    values: Seq<Tree>,
    x: Atom,
)
    requires
        input.wf(),
        start <= pos,
        0 <= pos < input.toks.len(),
        in_path(path, x) + sign(TokenKind::LBrace, x) + in_names(names, x) + in_trees(values, x)
            == written(input, start, pos, x),
    ensures
        input.fields(depth, pos, path, names, spans, values) matches Ok((t, q)) ==> in_tree(t, x)
            == written(input, start, q, x),
    decreases MAX_NESTING_DEPTH - depth, input.toks.len() - pos, 6nat,
{
    if input.bad(pos) is None {
        if input.kind(pos) == TokenKind::RBrace {
            lemma_fields_end(input, start, pos, path, names, spans, values, x);
        } else if input.kind(pos) == TokenKind::Ident && input.kind(pos + 1) == TokenKind::Colon
            && pos + 2 < input.toks.len() {
            let ident = input.tok(pos);
            lemma_value_advances(input, depth, pos + 2);
            if let Ok((value, q)) = input.value(depth, pos + 2) {
                lemma_value(input, depth, pos + 2, x);
                assert(names.push(ident.text).drop_last() =~= names);
                assert(values.push(value).drop_last() =~= values);
                lemma_split(input, start, pos, q, x);
                lemma_next(input, pos, q, x);
                lemma_next(input, pos + 1, q, x);
                let names = names.push(ident.text);
                let spans = spans.push(ident.span);
                let values = values.push(value);
                lemma_fields_end(input, start, q, path, names, spans, values, x);
                if input.kind(q) == TokenKind::Comma && q + 1 < input.toks.len() {
                    lemma_next(input, start, q + 1, x);
                    lemma_fields(input, depth, start, q + 1, path, names, spans, values, x);
                }
            }
        }
    }
}

// -- entities -----------------------------------------------------------------------------------

spec fn in_all(parts: Parts, x: Atom) -> nat {
    in_parts(parts.name, parts.base, x) + in_node_trees(parts.entries, x)
}

proof fn lemma_entity(input: Input, depth: nat, pos: int, x: Atom)
    requires
        input.wf(),
        0 <= pos < input.toks.len(),
    ensures
        input.entity(depth, pos) matches Ok((t, q)) ==> in_node_tree(t, x) == written(
            input,
            pos,
            q,
            x,
        ),
    decreases MAX_NESTING_DEPTH - depth, input.toks.len() - pos, 0nat,
{
    if input.too_deep(depth, pos) is None {
        lemma_entity_inner(input, depth + 1, pos, x);
    }
}

proof fn lemma_entity_inner(input: Input, depth: nat, pos: int, x: Atom)
    requires
        input.wf(),
        0 <= pos < input.toks.len(),
    ensures
        input.entity_inner(depth, pos) matches Ok((t, q)) ==> in_node_tree(t, x) == written(
            input,
            pos,
            q,
            x,
        ),
    decreases MAX_NESTING_DEPTH - depth, input.toks.len() - pos, 13nat,
{
    if let Ok((t, r)) = input.entity_inner(depth, pos) {
        let parenthesized = input.kind(pos) == TokenKind::LParen;
        let body = if parenthesized {
            pos + 1
        } else {
            pos
        };
        let (parts, q) = input.base(body)->Ok_0;
        assert(in_node_trees(Seq::empty(), x) == 0);
        assert(written(input, pos, pos, x) == 0);
        if parenthesized {
            lemma_next(input, pos, pos + 1, x);
        }
        assert(written(input, pos, body, x) == 0);
        if input.kind(body) == TokenKind::Colon {
            lemma_next(input, pos, body + 1, x);
            lemma_next(input, pos, body + 2, x);
        }
        assert(in_all(parts, x) == written(input, pos, q, x));
        lemma_entries_stays(input, depth, q, parenthesized, parts);
        lemma_entries(input, depth, pos, q, parenthesized, parts, x);
        if parenthesized {
            let (parts, q) = input.entries(depth, q, parenthesized, parts)->Ok_0;
            lemma_next(input, pos, q + 1, x);
        }
    }
}

proof fn lemma_entries(
    input: Input,
    depth: nat,
    start: int,
    pos: int,
    parenthesized: bool,
    parts: Parts,
    x: Atom,
)
    requires
        input.wf(),
        start <= pos,
        0 <= pos < input.toks.len(),
        in_all(parts, x) == written(input, start, pos, x),
    ensures
        input.entries(depth, pos, parenthesized, parts) matches Ok((p, q)) ==> in_all(p, x)
            == written(input, start, q, x),
    decreases MAX_NESTING_DEPTH - depth, input.toks.len() - pos, 12nat,
{
    if !is_stop(input.kind(pos), parenthesized) {
        lemma_entry_advances(input, depth, pos, parts);
        if let Ok((next, q)) = input.entry(depth, pos, parts) {
            lemma_entry(input, depth, start, pos, parts, x);
            lemma_entries(input, depth, start, q, parenthesized, next, x);
        }
    }
}

proof fn lemma_entry(input: Input, depth: nat, start: int, pos: int, parts: Parts, x: Atom)
    requires
        input.wf(),
        start <= pos,
        0 <= pos < input.toks.len(),
        in_all(parts, x) == written(input, start, pos, x),
    ensures
        input.entry(depth, pos, parts) matches Ok((p, q)) ==> in_all(p, x) == written(
            input,
            start,
            q,
            x,
        ),
    decreases MAX_NESTING_DEPTH - depth, input.toks.len() - pos, 11nat,
{
    let t = input.tok(pos);
    if input.entry(depth, pos, parts) is Ok {
        match t.kind {
            TokenKind::Hash => {
                lemma_next(input, start, pos + 1, x);
                lemma_next(input, start, pos + 2, x);
            },
            TokenKind::Tilde => {
                lemma_next(input, start, pos + 1, x);
                lemma_patch(
                    input,
                    depth,
                    start,
                    pos + 1,
                    BsnPatchPrefix::Template,
                    t.span,
                    parts,
                    x,
                );
            },
            TokenKind::At => {
                lemma_next(input, start, pos + 1, x);
                lemma_patch(
                    input,
                    depth,
                    start,
                    pos + 1,
                    BsnPatchPrefix::SceneComponent,
                    t.span,
                    parts,
                    x,
                );
            },
            _ => {
                lemma_patch(
                    input,
                    depth,
                    start,
                    pos,
                    BsnPatchPrefix::FromTemplate,
                    t.span,
                    parts,
                    x,
                );
            },
        }
    }
}

proof fn lemma_patch(
    input: Input,
    depth: nat,
    start: int,
    pos: int,
    prefix: BsnPatchPrefix,
    first: Span,
    parts: Parts,
    x: Atom,
)
    requires
        input.wf(),
        start <= pos,
        0 <= pos < input.toks.len(),
        in_all(parts, x) + in_prefix(prefix, x) == written(input, start, pos, x),
    ensures
        input.patch(depth, pos, prefix, first, parts) matches Ok((p, q)) ==> in_all(p, x)
            == written(input, start, q, x),
    decreases MAX_NESTING_DEPTH - depth, input.toks.len() - pos, 10nat,
{
    if let Ok((p, r)) = input.patch(depth, pos, prefix, first, parts) {
        lemma_path_advances(input, depth, pos);
        lemma_path(input, depth, pos, x);
        let (path, q) = input.path(depth, pos)->Ok_0;
        assert(in_node_trees(Seq::empty(), x) == 0);
        let last = p.entries.last();
        if input.kind(q) == TokenKind::LBracket {
            assert(written(input, q + 1, q + 1, x) == 0);
            crate::progress::lemma_entity_list_stays(
                input,
                depth,
                q + 1,
                TokenKind::RBracket,
                Seq::empty(),
            );
            lemma_entity_list(input, depth, q + 1, q + 1, TokenKind::RBracket, Seq::empty(), x);
            lemma_split(input, pos, q, r, x);
            lemma_next(input, q, r, x);
            lemma_next(input, q + 1, r, x);
            lemma_one_relation(last, path, x);
        } else {
            crate::progress::lemma_path_body_stays(input, depth, q, path);
            lemma_path_body(input, depth, pos, q, path, x);
            lemma_one_patch(last, prefix, x);
        }
        assert(in_prefix(prefix, x) + written(input, pos, r, x) == in_node_tree(last, x));
        lemma_split(input, start, pos, r, x);
        lemma_one_more(parts, last, x);
    }
}

proof fn lemma_one_relation(t: NodeTree, path: Path, x: Atom)
    requires
        t.head == (NodeHead::Relation { target: path }),
    ensures
        in_node_tree(t, x) == in_path(path, x) + sign(TokenKind::LBracket, x) + in_node_trees(
            t.children,
            x,
        ),
{
}

proof fn lemma_one_patch(t: NodeTree, prefix: BsnPatchPrefix, x: Atom)
    requires
        t.head matches NodeHead::Patch { prefix: p, .. } && p == prefix,
        t.children.len() == 0,
    ensures
        in_node_tree(t, x) == in_prefix(prefix, x) + in_tree(t.head->Patch_value, x),
{
}

proof fn lemma_one_more(parts: Parts, t: NodeTree, x: Atom)
    ensures
        in_all(crate::grammar::with_entry(parts, t), x) == in_all(parts, x) + in_node_tree(t, x),
{
    assert(parts.entries.push(t).drop_last() =~= parts.entries);
}

proof fn lemma_entity_list(
    input: Input,
    depth: nat,
    start: int,
    pos: int,
    close: TokenKind,
    items: Seq<NodeTree>,
    x: Atom,
)
    requires
        input.wf(),
        start <= pos,
        0 <= pos < input.toks.len(),
        in_node_trees(items, x) == written(input, start, pos, x),
    ensures
        input.entity_list(depth, pos, close, items) matches Ok((trees, q)) ==> in_node_trees(
            trees,
            x,
        ) == written(input, start, q, x),
    decreases MAX_NESTING_DEPTH - depth, input.toks.len() - pos, 1nat,
{
    if input.bad(pos) is None && input.kind(pos) != close {
        lemma_entity_advances(input, depth, pos);
        if let Ok((item, q)) = input.entity(depth, pos) {
            lemma_entity(input, depth, pos, x);
            assert(items.push(item).drop_last() =~= items);
            lemma_split(input, start, pos, q, x);
            if input.kind(q) == TokenKind::Comma {
                lemma_next(input, start, q + 1, x);
                if q + 1 < input.toks.len() {
                    lemma_entity_list(input, depth, start, q + 1, close, items.push(item), x);
                }
            }
        }
    }
}

// -- arenas -------------------------------------------------------------------------------------

proof fn lemma_values_append(a: Seq<Value>, b: Seq<Value>, x: Atom)
    ensures
        in_values(a + b, x) == in_values(a, x) + in_values(b, x),
    decreases b.len(),
{
    if b.len() == 0 {
        assert(a + b =~= a);
    } else {
        lemma_values_append(a, b.drop_last(), x);
        assert((a + b).drop_last() =~= a + b.drop_last());
    }
}

proof fn lemma_nodes_append(a: Seq<Node>, b: Seq<Node>, x: Atom)
    ensures
        in_nodes(a + b, x) == in_nodes(a, x) + in_nodes(b, x),
    decreases b.len(),
{
    if b.len() == 0 {
        assert(a + b =~= a);
    } else {
        lemma_nodes_append(a, b.drop_last(), x);
        assert((a + b).drop_last() =~= a + b.drop_last());
    }
}

proof fn lemma_layout(t: Tree, base: int, x: Atom)
    ensures
        in_values(layout(t, base), x) == in_tree(t, x),
    decreases t,
{
    let rest = layouts(t.children, base + 1);
    let first = layout(t, base).take(1);
    lemma_layouts(t.children, base + 1, x);
    assert(layout(t, base) =~= first + rest);
    lemma_values_append(first, rest, x);
    assert(first.drop_last() =~= Seq::<Value>::empty());
    assert(in_values(first.drop_last(), x) == 0);
}

proof fn lemma_layouts(ts: Seq<Tree>, base: int, x: Atom)
    ensures
        in_values(layouts(ts, base), x) == in_trees(ts, x),
    decreases ts,
{
    if ts.len() > 0 {
        let before = ts.drop_last();
        let at = base + sizes(before);
        lemma_layouts(before, base, x);
        lemma_layout(ts.last(), at, x);
        lemma_values_append(layouts(before, base), layout(ts.last(), at), x);
    }
}

proof fn lemma_node_layout(t: NodeTree, base: int, values: int, from: int, x: Atom)
    ensures
        in_nodes(node_layout(t, base, values), x) + in_values(value_layout(t, from), x)
            == in_node_tree(t, x),
    decreases t,
{
    let rest = node_layouts(t.children, base + 1, values);
    let first = node_layout(t, base, values).take(1);
    assert(node_layout(t, base, values) =~= first + rest);
    lemma_nodes_append(first, rest, x);
    assert(first.drop_last() =~= Seq::<Node>::empty());
    assert(in_nodes(first.drop_last(), x) == 0);
    match t.head {
        NodeHead::Patch { value, .. } => {
            let after = from + size(value);
            lemma_node_layouts(t.children, base + 1, values, after, x);
            lemma_layout(value, from, x);
            lemma_values_append(layout(value, from), value_layouts(t.children, after), x);
        },
        _ => {
            lemma_node_layouts(t.children, base + 1, values, from, x);
        },
    }
}

proof fn lemma_node_layouts(ts: Seq<NodeTree>, base: int, values: int, from: int, x: Atom)
    ensures
        in_nodes(node_layouts(ts, base, values), x) + in_values(value_layouts(ts, from), x)
            == in_node_trees(ts, x),
    decreases ts,
{
    if ts.len() > 0 {
        let before = ts.drop_last();
        let node = base + node_sizes(before);
        let value = values + value_sizes(before);
        let at = from + value_sizes(before);
        lemma_node_layouts(before, base, values, from, x);
        lemma_node_layout(ts.last(), node, value, at, x);
        lemma_nodes_append(
            node_layouts(before, base, values),
            node_layout(ts.last(), node, value),
            x,
        );
        lemma_values_append(value_layouts(before, from), value_layout(ts.last(), at), x);
    }
}

/// Whatever is written in a text is in the document that it stands for, as often as it is
/// written, and nothing else is: every identifier, be it part of a path, the name of a field or
/// the name of an entity, every number, and every string, be it a value or a base; a `#` for each
/// name and each reference to one, a `:` for each field and each base, a `::` between the parts of
/// a path, a `~` or `@` for each patch with that prefix, a `[` for each list and each relation, and
/// a `{` for each struct. An invalid token is in no document. It does not matter how the text
/// groups them: parentheses, trailing commas and comments change nothing.
pub proof fn law_nothing_is_lost_or_added(source: Seq<char>, floats: Floats, x: Atom)
    ensures
        parse_model(source, floats) matches Ok(d) ==> {
            let input = input_of(source, floats);
            in_nodes(d.nodes, x) + in_values(d.values, x) == written(
                input,
                0,
                input.toks.len() as int,
                x,
            )
        },
{
    if let Ok(d) = parse_model(source, floats) {
        let input = input_of(source, floats);
        lemma_wf(source, floats);
        let (roots, q) = input.entity_list(0, 0, TokenKind::Eof, Seq::empty())->Ok_0;
        assert(in_node_trees(Seq::empty(), x) == 0);
        assert(written(input, 0, 0, x) == 0);
        crate::progress::lemma_entity_list_stays(input, 0, 0, TokenKind::Eof, Seq::empty());
        lemma_entity_list(input, 0, 0, 0, TokenKind::Eof, Seq::empty(), x);
        assert(input.toks[q].kind == TokenKind::Eof);
        lemma_next(input, 0, q + 1, x);
        lemma_node_layouts(roots, 0, 0, 0, x);
    }
}

proof fn lemma_none_written(input: Input, a: int, b: int, x: Atom, i: int)
    requires
        written(input, a, b, x) == 0,
        a <= i < b,
    ensures
        atom_of(input.tok(i), input.floats) != Some(x),
    decreases b - a,
{
    if i < b - 1 {
        lemma_none_written(input, a, b - 1, x, i);
    }
}

proof fn lemma_no_error(d: crate::model::Document, e: crate::token::LexError)
    ensures
        in_nodes(d.nodes, Atom::Sign(TokenKind::Error(e))) == 0,
        in_values(d.values, Atom::Sign(TokenKind::Error(e))) == 0,
{
    let x = Atom::Sign(TokenKind::Error(e));
    lemma_no_error_nodes(d.nodes, x);
    lemma_no_error_values(d.values, x);
}

proof fn lemma_no_error_path(path: Path, x: Atom)
    requires
        x is Sign,
        x->Sign_0 is Error,
    ensures
        in_path(path, x) == 0,
    decreases path,
{
    lemma_no_error_segments(path.segments, x);
}

proof fn lemma_no_error_segments(segments: Seq<Segment>, x: Atom)
    requires
        x is Sign,
        x->Sign_0 is Error,
    ensures
        in_segments(segments, x) == 0,
    decreases segments,
{
    if segments.len() > 0 {
        lemma_no_error_segments(segments.drop_last(), x);
        lemma_no_error_paths(segments.last().generics, x);
        assert(in_segment(segments.last(), x) == 0);
    }
}

proof fn lemma_no_error_paths(paths: Seq<Path>, x: Atom)
    requires
        x is Sign,
        x->Sign_0 is Error,
    ensures
        in_paths(paths, x) == 0,
    decreases paths,
{
    if paths.len() > 0 {
        lemma_no_error_paths(paths.drop_last(), x);
        lemma_no_error_path(paths.last(), x);
    }
}

proof fn lemma_no_error_names(names: Seq<Seq<char>>, x: Atom)
    requires
        x is Sign,
        x->Sign_0 is Error,
    ensures
        in_names(names, x) == 0,
    decreases names.len(),
{
    if names.len() > 0 {
        lemma_no_error_names(names.drop_last(), x);
    }
}

proof fn lemma_no_error_values(values: Seq<Value>, x: Atom)
    requires
        x is Sign,
        x->Sign_0 is Error,
    ensures
        in_values(values, x) == 0,
    decreases values.len(),
{
    if values.len() > 0 {
        let value = values.last();
        lemma_no_error_values(values.drop_last(), x);
        lemma_no_error_names(value.names, x);
        match value.head {
            Head::Path(path) => {
                lemma_no_error_path(path, x);
            },
            Head::Struct(path) => {
                lemma_no_error_path(path, x);
            },
            Head::NamedTuple(path) => {
                lemma_no_error_path(path, x);
            },
            _ => {},
        }
    }
}

proof fn lemma_no_error_nodes(nodes: Seq<Node>, x: Atom)
    requires
        x is Sign,
        x->Sign_0 is Error,
    ensures
        in_nodes(nodes, x) == 0,
    decreases nodes.len(),
{
    if nodes.len() > 0 {
        lemma_no_error_nodes(nodes.drop_last(), x);
        if let NodeKind::Relation { target, .. } = nodes.last().kind {
            lemma_no_error_path(target, x);
        }
    }
}

/// A text with an invalid token anywhere is refused.
pub proof fn law_invalid_tokens_are_refused(source: Seq<char>, floats: Floats, i: int)
    requires
        0 <= i < input_of(source, floats).toks.len(),
        input_of(source, floats).toks[i].kind is Error,
    ensures
        parse_model(source, floats) is Err,
{
    if let Ok(d) = parse_model(source, floats) {
        let input = input_of(source, floats);
        let e = input.toks[i].kind->Error_0;
        let x = Atom::Sign(TokenKind::Error(e));
        law_nothing_is_lost_or_added(source, floats, x);
        lemma_no_error(d, e);
        lemma_none_written(input, 0, input.toks.len() as int, x, i);
    }
}

} // verus!
