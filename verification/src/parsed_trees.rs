//! What the grammar produces is well-formed: its text is read back as the same tree.

use vstd::prelude::*;

use crate::ast::BsnPatchPrefix;
use crate::error::MAX_NESTING_DEPTH;
use crate::float::{canonical_floats, lookup, lookup_from, Float, Floats};
use crate::grammar::{is_stop, path_problem, Input, NodeHead, NodeTree, Parsed, Parts, Tree};
use crate::model::{Head, Path, Segment};
use crate::progress::{
    lemma_entity_advances, lemma_entry_advances, lemma_path_advances, lemma_segment_advances,
    lemma_value_advances,
};
use crate::reading::valid_ident;
use crate::reparse_paths::segment_fits;
use crate::shape::{
    entity_fits, entry_fits, head_fits, head_path, is_value_word, item_fits, names_type, path_fits,
    tree_fits,
};
use crate::span::Span;
use crate::token::TokenKind;
use crate::twin::lemma_same_path_refl;
use crate::unsupported;

verus! {

/// Tokens as the lexer gives them, with a canonical table of floats.
pub open spec fn is_sound(input: Input) -> bool {
    &&& input.wf()
    &&& forall|i: int|
        0 <= i < input.toks.len() ==> ((#[trigger] input.toks[i]).kind == TokenKind::Ident
            ==> valid_ident(input.toks[i].text))
}

proof fn lemma_ident(input: Input, pos: int)
    requires
        is_sound(input),
        input.kind(pos) == TokenKind::Ident,
    ensures
        valid_ident(input.tok(pos).text),
{
    if 0 <= pos < input.toks.len() {
        assert(input.tok(pos) == input.toks[pos]);
    } else {
        assert(input.tok(pos) == input.toks[input.toks.len() - 1]);
    }
}

// -- paths ------------------------------------------------------------------------------------

pub proof fn lemma_path_parsed(input: Input, depth: nat, pos: int)
    requires
        is_sound(input),
        0 <= pos < input.toks.len(),
    ensures
        input.path(depth, pos) matches Ok((path, q)) ==> depth < MAX_NESTING_DEPTH && path_fits(
            path,
            (MAX_NESTING_DEPTH - depth) as nat,
        ) && path.segments[0].ident == input.tok(pos).text,
    decreases MAX_NESTING_DEPTH - depth, input.toks.len() - pos, 0nat,
{
    if input.too_deep(depth, pos) is None && input.path(depth, pos) is Ok {
        let n = (MAX_NESTING_DEPTH - depth) as nat;
        lemma_segment_advances(input, depth + 1, pos);
        lemma_segment_parsed(input, depth + 1, pos);
        let (segment, q) = input.segment(depth + 1, pos)->Ok_0;
        lemma_more_parsed(input, depth + 1, q, seq![segment]);
        let (path, r) = input.path(depth, pos)->Ok_0;
        assert forall|i: int| 0 <= i < path.segments.len() implies valid_ident(
            #[trigger] path.segments[i].ident,
        ) by {
            assert(segment_fits(path.segments[i], (n - 1) as nat));
        }
        assert forall|i: int, j: int|
            0 <= i < path.segments.len() && 0 <= j < path.segments[i].generics.len() implies path_fits(
            #[trigger] path.segments[i].generics[j],
            (n - 1) as nat,
        ) by {
            assert(segment_fits(path.segments[i], (n - 1) as nat));
        }
    }
}

proof fn lemma_more_parsed(input: Input, depth: nat, pos: int, segments: Seq<Segment>)
    requires
        is_sound(input),
        0 <= pos < input.toks.len(),
        depth <= MAX_NESTING_DEPTH,
        segments.len() > 0,
        forall|i: int|
            0 <= i < segments.len() ==> segment_fits(
                #[trigger] segments[i],
                (MAX_NESTING_DEPTH - depth) as nat,
            ),
    ensures
        input.more_segments(depth, pos, segments) matches Ok((path, q)) ==> path.segments.len() > 0
            && path.segments[0] == segments[0] && (forall|i: int|
            0 <= i < path.segments.len() ==> segment_fits(
                #[trigger] path.segments[i],
                (MAX_NESTING_DEPTH - depth) as nat,
            )),
    decreases MAX_NESTING_DEPTH - depth, input.toks.len() - pos, 3nat,
{
    if input.kind(pos) == TokenKind::ColonColon {
        lemma_segment_advances(input, depth, pos + 1);
        if let Ok((segment, q)) = input.segment(depth, pos + 1) {
            lemma_segment_parsed(input, depth, pos + 1);
            let next = segments.push(segment);
            assert forall|i: int| 0 <= i < next.len() implies segment_fits(
                #[trigger] next[i],
                (MAX_NESTING_DEPTH - depth) as nat,
            ) by {
                if i < segments.len() {
                    assert(segment_fits(segments[i], (MAX_NESTING_DEPTH - depth) as nat));
                }
            }
            lemma_more_parsed(input, depth, q, next);
        }
    }
}

proof fn lemma_segment_parsed(input: Input, depth: nat, pos: int)
    requires
        is_sound(input),
        0 <= pos < input.toks.len(),
        depth <= MAX_NESTING_DEPTH,
    ensures
        input.segment(depth, pos) matches Ok((segment, q)) ==> segment_fits(
            segment,
            (MAX_NESTING_DEPTH - depth) as nat,
        ) && segment.ident == input.tok(pos).text,
    decreases MAX_NESTING_DEPTH - depth, input.toks.len() - pos, 2nat,
{
    if input.token(pos, TokenKind::Ident, seq!["identifier"@]) is Ok {
        lemma_ident(input, pos);
        if input.kind(pos + 1) == TokenKind::Lt {
            lemma_paths_parsed(input, depth, pos + 2, Seq::empty());
        }
    }
}

proof fn lemma_paths_parsed(input: Input, depth: nat, pos: int, items: Seq<Path>)
    requires
        is_sound(input),
        0 <= pos < input.toks.len(),
        depth <= MAX_NESTING_DEPTH,
        forall|i: int|
            0 <= i < items.len() ==> path_fits(
                #[trigger] items[i],
                (MAX_NESTING_DEPTH - depth) as nat,
            ),
    ensures
        input.path_list(depth, pos, items) matches Ok((all, q)) ==> (forall|i: int|
            0 <= i < all.len() ==> path_fits(
                #[trigger] all[i],
                (MAX_NESTING_DEPTH - depth) as nat,
            )),
    decreases MAX_NESTING_DEPTH - depth, input.toks.len() - pos, 1nat,
{
    if input.bad(pos) is None && input.kind(pos) != TokenKind::Gt {
        lemma_path_advances(input, depth, pos);
        if let Ok((item, q)) = input.path(depth, pos) {
            lemma_path_parsed(input, depth, pos);
            let next = items.push(item);
            assert forall|i: int| 0 <= i < next.len() implies path_fits(
                #[trigger] next[i],
                (MAX_NESTING_DEPTH - depth) as nat,
            ) by {
                if i < items.len() {
                    assert(path_fits(items[i], (MAX_NESTING_DEPTH - depth) as nat));
                }
            }
            if input.kind(q) == TokenKind::Comma {
                lemma_paths_parsed(input, depth, q + 1, next);
            }
        }
    }
}

// -- values -----------------------------------------------------------------------------------

/// What a table gives for a literal is one of its entries.
proof fn lemma_lookup(floats: Floats, text: Seq<char>)
    ensures
        canonical_floats(floats) ==> (lookup(floats, text) matches Some(f) ==> {
            &&& !f.is_negative()
            &&& f.is_finite() ==> {
                &&& crate::float::is_float_literal(f.magnitude)
                &&& lookup(floats, f.magnitude) == Some(f)
            }
        }),
{
    reveal(canonical_floats);
    if let (true, Some(f)) = (canonical_floats(floats), lookup(floats, text)) {
        lemma_lookup_entry(floats, 0, text);
        let i = choose|i: int| 0 <= i < floats.len() && (#[trigger] floats[i]).1 == f;
        assert(floats[i].1 == f);
    }
}

proof fn lemma_lookup_entry(floats: Floats, k: int, text: Seq<char>)
    requires
        0 <= k <= floats.len(),
    ensures
        lookup_from(floats, k, text) matches Some(f) ==> exists|i: int|
            0 <= i < floats.len() && (#[trigger] floats[i]).1 == f,
    decreases floats.len() - k,
{
    if k < floats.len() {
        if floats[k].0 == text {
            assert(floats[k].1 == lookup_from(floats, k, text)->0);
        } else {
            lemma_lookup_entry(floats, k + 1, text);
        }
    }
}

/// A path without a problem names a type.
pub proof fn lemma_type_path(path: Path, n: nat, message: Seq<char>)
    requires
        path_fits(path, n),
        path_problem(path, message) is None,
    ensures
        names_type(path),
{
    assert(valid_ident(path.segments[path.segments.len() - 1].ident));
}

pub proof fn lemma_value_parsed(input: Input, depth: nat, pos: int)
    requires
        is_sound(input),
        0 <= pos < input.toks.len(),
    ensures
        input.value(depth, pos) matches Ok((t, q)) ==> depth < MAX_NESTING_DEPTH && item_fits(
            input.floats,
            t,
            (MAX_NESTING_DEPTH - depth) as nat,
        ),
    decreases MAX_NESTING_DEPTH - depth, input.toks.len() - pos, 0nat,
{
    if input.too_deep(depth, pos) is None {
        lemma_value_inner_parsed(input, depth + 1, pos);
    }
}

/// A value tree at nesting depth `depth`.
spec fn is_parsed(input: Input, depth: nat, outcome: Parsed<Tree>) -> bool {
    outcome matches Ok((t, q)) ==> item_fits(
        input.floats,
        t,
        (MAX_NESTING_DEPTH - depth + 1) as nat,
    )
}

/// A tree that may stand in a patch.
pub open spec fn is_body(input: Input, depth: nat, path: Path, outcome: Parsed<Tree>) -> bool {
    outcome matches Ok((t, q)) ==> tree_fits(
        input.floats,
        t,
        (MAX_NESTING_DEPTH - depth + 1) as nat,
    ) && head_path(t.head) == Some(path)
}

proof fn lemma_negative_parsed(input: Input, depth: nat, minus: crate::grammar::Lexeme, pos: int)
    requires
        is_sound(input),
        depth <= MAX_NESTING_DEPTH,
    ensures
        is_parsed(input, depth, input.negative(minus, pos)),
{
    let next = input.tok(pos);
    let n = (MAX_NESTING_DEPTH - depth + 1) as nat;
    lemma_lookup(
        input.floats,
        crate::literal::without_separators(next.text),
    );
    if let Ok((t, q)) = input.negative(minus, pos) {
        assert(head_fits(input.floats, t.head, (n - 1) as nat));
    }
}

proof fn lemma_value_inner_parsed(input: Input, depth: nat, pos: int)
    requires
        is_sound(input),
        0 <= pos < input.toks.len(),
        depth <= MAX_NESTING_DEPTH,
    ensures
        is_parsed(input, depth, input.value_inner(depth, pos)),
    decreases MAX_NESTING_DEPTH - depth, input.toks.len() - pos, 9nat,
{
    let t = input.tok(pos);
    if input.bad(pos) is None {
        match t.kind {
            TokenKind::LBracket => {
                lemma_bracketed_parsed(
                    input,
                    depth,
                    pos,
                    TokenKind::RBracket,
                    seq!["`,`"@, "`]`"@],
                    t.span,
                    Head::List,
                );
            },
            TokenKind::LParen => {
                lemma_paren_parsed(input, depth, pos);
            },
            TokenKind::Ident => {
                lemma_word_parsed(input, depth, pos);
            },
            TokenKind::Minus => {
                lemma_negative_parsed(input, depth, t, pos + 1);
            },
            _ => {
                lemma_simple_parsed(input, depth, pos);
            },
        }
    }
}

/// A number, a string or an entity reference.
proof fn lemma_simple_parsed(input: Input, depth: nat, pos: int)
    requires
        is_sound(input),
        0 <= pos < input.toks.len(),
        depth <= MAX_NESTING_DEPTH,
        input.kind(pos) != TokenKind::LBracket,
        input.kind(pos) != TokenKind::LParen,
        input.kind(pos) != TokenKind::Ident,
        input.kind(pos) != TokenKind::Minus,
    ensures
        is_parsed(input, depth, input.value_inner(depth, pos)),
{
    let t = input.tok(pos);
    let n = (MAX_NESTING_DEPTH - depth + 1) as nat;
    lemma_lookup(input.floats, crate::literal::without_separators(t.text));
    if input.kind(pos + 1) == TokenKind::Ident {
        lemma_ident(input, pos + 1);
    }
    if let Ok((u, q)) = input.value_inner(depth, pos) {
        assert(head_fits(input.floats, u.head, (n - 1) as nat));
        assert(!crate::shape::has_body(u.head) && head_path(u.head) is None);
    }
}

/// A value that starts with an identifier.
proof fn lemma_word_parsed(input: Input, depth: nat, pos: int)
    requires
        is_sound(input),
        0 <= pos < input.toks.len(),
        depth <= MAX_NESTING_DEPTH,
        input.kind(pos) == TokenKind::Ident,
    ensures
        is_parsed(input, depth, input.value_inner(depth, pos)),
    decreases MAX_NESTING_DEPTH - depth, input.toks.len() - pos, 8nat,
{
    let t = input.tok(pos);
    if is_value_word(t.text) {
        if let Ok((u, q)) = input.value_inner(depth, pos) {
            assert(head_path(u.head) is None);
            assert(u.head is Float ==> !u.head->Float_0.is_finite());
        }
    } else if input.path(depth, pos) is Ok {
        lemma_path_advances(input, depth, pos);
        lemma_path_parsed(input, depth, pos);
        let (path, q) = input.path(depth, pos)->Ok_0;
        if input.bad(q) is None && path_problem(path, unsupported::PATH_CASE@) is None {
            lemma_type_path(path, (MAX_NESTING_DEPTH - depth) as nat, unsupported::PATH_CASE@);
            lemma_body_parsed(input, depth, q, path);
        }
    }
}

proof fn lemma_paren_parsed(input: Input, depth: nat, pos: int)
    requires
        is_sound(input),
        0 <= pos < input.toks.len(),
        depth <= MAX_NESTING_DEPTH,
        input.kind(pos) == TokenKind::LParen,
    ensures
        is_parsed(input, depth, input.paren_value(depth, pos)),
    decreases MAX_NESTING_DEPTH - depth, input.toks.len() - pos, 8nat,
{
    if pos + 1 < input.toks.len() && input.kind(pos + 1) != TokenKind::RParen {
        if !input.comma_ahead(pos + 1, 0, 0) {
            lemma_value_parsed(input, depth, pos + 1);
            if let Ok((t, q)) = input.value(depth, pos + 1) {
                lemma_item_deeper(input.floats, t, (MAX_NESTING_DEPTH - depth) as nat);
            }
        } else {
            lemma_bracketed_parsed(
                input,
                depth,
                pos,
                TokenKind::RParen,
                seq!["`,`"@, "`)`"@],
                input.tok(pos).span,
                Head::Tuple,
            );
        }
    }
}

/// What fits at some depth fits where more depth is allowed.
proof fn lemma_item_deeper(floats: Floats, t: Tree, n: nat)
    requires
        item_fits(floats, t, n),
    ensures
        item_fits(floats, t, n + 1),
    decreases n,
{
    if let Some(path) = head_path(t.head) {
        lemma_path_deeper(path, (n - 1) as nat);
    }
    assert forall|i: int| 0 <= i < t.children.len() implies item_fits(
        floats,
        #[trigger] t.children[i],
        n,
    ) by {
        lemma_item_deeper(floats, t.children[i], (n - 1) as nat);
    }
}

proof fn lemma_path_deeper(path: Path, n: nat)
    requires
        path_fits(path, n),
    ensures
        path_fits(path, n + 1),
    decreases n,
{
    assert forall|i: int, j: int|
        0 <= i < path.segments.len() && 0 <= j < path.segments[i].generics.len() implies path_fits(
        #[trigger] path.segments[i].generics[j],
        n,
    ) by {
        lemma_path_deeper(path.segments[i].generics[j], (n - 1) as nat);
    }
}

proof fn lemma_bracketed_parsed(
    input: Input,
    depth: nat,
    pos: int,
    close: TokenKind,
    expected: Seq<Seq<char>>,
    first: Span,
    head: Head,
)
    requires
        is_sound(input),
        0 <= pos < input.toks.len(),
        depth <= MAX_NESTING_DEPTH,
        head is List || head is Tuple || head is NamedTuple,
        head is Tuple ==> input.kind(pos + 1) != close,
        head_fits(input.floats, head, (MAX_NESTING_DEPTH - depth) as nat),
    ensures
        input.bracketed(depth, pos, close, expected, first, head) matches Ok((t, q)) ==> tree_fits(
            input.floats,
            t,
            (MAX_NESTING_DEPTH - depth + 1) as nat,
        ) && t.head == head,
    decreases MAX_NESTING_DEPTH - depth, input.toks.len() - pos, 5nat,
{
    if pos + 1 < input.toks.len() {
        lemma_value_list_parsed(input, depth, pos + 1, close, Seq::empty());
    }
}

/// Values that may stand inside a body.
spec fn are_items(input: Input, depth: nat, items: Seq<Tree>) -> bool {
    forall|i: int|
        0 <= i < items.len() ==> item_fits(
            input.floats,
            #[trigger] items[i],
            (MAX_NESTING_DEPTH - depth) as nat,
        )
}

proof fn lemma_value_list_parsed(
    input: Input,
    depth: nat,
    pos: int,
    close: TokenKind,
    items: Seq<Tree>,
)
    requires
        is_sound(input),
        0 <= pos < input.toks.len(),
        depth <= MAX_NESTING_DEPTH,
        are_items(input, depth, items),
    ensures
        input.value_list(depth, pos, close, items) matches Ok((all, q)) ==> are_items(
            input,
            depth,
            all,
        ) && (items.len() > 0 || input.kind(pos) != close ==> all.len() > 0),
    decreases MAX_NESTING_DEPTH - depth, input.toks.len() - pos, 4nat,
{
    if input.bad(pos) is None && input.kind(pos) != close {
        lemma_value_advances(input, depth, pos);
        if let Ok((item, q)) = input.value(depth, pos) {
            lemma_value_parsed(input, depth, pos);
            let next = items.push(item);
            assert(are_items(input, depth, next));
            if input.kind(q) == TokenKind::Comma {
                lemma_value_list_parsed(input, depth, q + 1, close, next);
            }
        }
    }
}

pub proof fn lemma_body_parsed(input: Input, depth: nat, pos: int, path: Path)
    requires
        is_sound(input),
        0 <= pos < input.toks.len(),
        depth <= MAX_NESTING_DEPTH,
        path_fits(path, (MAX_NESTING_DEPTH - depth) as nat),
        names_type(path),
    ensures
        is_body(input, depth, path, input.path_body(depth, pos, path)),
    decreases MAX_NESTING_DEPTH - depth, input.toks.len() - pos, 7nat,
{
    if input.kind(pos) == TokenKind::LBrace {
        if pos + 1 < input.toks.len() {
            lemma_fields_parsed(
                input,
                depth,
                pos + 1,
                path,
                Seq::empty(),
                Seq::empty(),
                Seq::empty(),
            );
        }
    } else if input.kind(pos) == TokenKind::LParen {
        lemma_bracketed_parsed(
            input,
            depth,
            pos,
            TokenKind::RParen,
            seq!["`,`"@, "`)`"@],
            path.span,
            Head::NamedTuple(path),
        );
    }
}

spec fn are_names(names: Seq<Seq<char>>) -> bool {
    forall|i: int| 0 <= i < names.len() ==> valid_ident(#[trigger] names[i])
}

proof fn lemma_fields_parsed(
    input: Input,
    depth: nat,
    pos: int,
    path: Path,
    names: Seq<Seq<char>>,
    spans: Seq<Span>,
    values: Seq<Tree>,
)
    requires
        is_sound(input),
        0 <= pos < input.toks.len(),
        depth <= MAX_NESTING_DEPTH,
        path_fits(path, (MAX_NESTING_DEPTH - depth) as nat),
        names_type(path),
        are_names(names),
        are_items(input, depth, values),
        names.len() == values.len(),
    ensures
        is_body(input, depth, path, input.fields(depth, pos, path, names, spans, values)),
    decreases MAX_NESTING_DEPTH - depth, input.toks.len() - pos, 6nat,
{
    if input.bad(pos) is None && input.kind(pos) != TokenKind::RBrace && input.kind(pos)
        != TokenKind::At {
        if let Ok(ident) = input.token(pos, TokenKind::Ident, seq!["identifier"@, "`}`"@]) {
            lemma_ident(input, pos);
            if input.kind(pos + 1) == TokenKind::Colon && pos + 2 < input.toks.len() {
                lemma_value_advances(input, depth, pos + 2);
                if let Ok((value, q)) = input.value(depth, pos + 2) {
                    lemma_value_parsed(input, depth, pos + 2);
                    let next = names.push(ident.text);
                    let items = values.push(value);
                    assert(are_names(next));
                    assert(are_items(input, depth, items));
                    if input.kind(q) == TokenKind::Comma {
                        lemma_fields_parsed(
                            input,
                            depth,
                            q + 1,
                            path,
                            next,
                            spans.push(ident.span),
                            items,
                        );
                    } else {
                        lemma_fields_end_parsed(
                            input,
                            depth,
                            q,
                            path,
                            next,
                            spans.push(ident.span),
                            items,
                        );
                    }
                }
            }
        }
    } else if input.kind(pos) == TokenKind::RBrace {
        lemma_fields_end_parsed(input, depth, pos, path, names, spans, values);
    }
}

proof fn lemma_fields_end_parsed(
    input: Input,
    depth: nat,
    pos: int,
    path: Path,
    names: Seq<Seq<char>>,
    spans: Seq<Span>,
    values: Seq<Tree>,
)
    requires
        depth <= MAX_NESTING_DEPTH,
        path_fits(path, (MAX_NESTING_DEPTH - depth) as nat),
        names_type(path),
        are_names(names),
        are_items(input, depth, values),
        names.len() == values.len(),
    ensures
        is_body(input, depth, path, input.fields_end(pos, path, names, spans, values)),
{
}

// -- entities ---------------------------------------------------------------------------------

/// The parts of an entity at nesting depth `depth`.
spec fn are_parts(input: Input, depth: nat, parts: Parts) -> bool {
    &&& parts.name matches Some(name) ==> valid_ident(name)
    &&& forall|i: int|
        0 <= i < parts.entries.len() ==> entry_fits(
            input.floats,
            #[trigger] parts.entries[i],
            (MAX_NESTING_DEPTH - depth) as nat,
        )
}

pub proof fn lemma_entity_parsed(input: Input, depth: nat, pos: int)
    requires
        is_sound(input),
        0 <= pos < input.toks.len(),
    ensures
        input.entity(depth, pos) matches Ok((t, q)) ==> depth < MAX_NESTING_DEPTH && entity_fits(
            input.floats,
            t,
            (MAX_NESTING_DEPTH - depth) as nat,
        ),
    decreases MAX_NESTING_DEPTH - depth, input.toks.len() - pos, 0nat,
{
    if input.too_deep(depth, pos) is None {
        lemma_entity_inner_parsed(input, depth + 1, pos);
    }
}

proof fn lemma_entity_inner_parsed(input: Input, depth: nat, pos: int)
    requires
        is_sound(input),
        0 <= pos < input.toks.len(),
        depth <= MAX_NESTING_DEPTH,
    ensures
        input.entity_inner(depth, pos) matches Ok((t, q)) ==> entity_fits(
            input.floats,
            t,
            (MAX_NESTING_DEPTH - depth + 1) as nat,
        ),
    decreases MAX_NESTING_DEPTH - depth, input.toks.len() - pos, 13nat,
{
    if input.bad(pos) is None {
        let parenthesized = input.kind(pos) == TokenKind::LParen;
        let body = if parenthesized {
            pos + 1
        } else {
            pos
        };
        if let Ok((parts, q)) = input.base(body) {
            if pos <= q < input.toks.len() {
                lemma_entries_parsed(input, depth, q, parenthesized, parts);
            }
        }
    }
}

proof fn lemma_entries_parsed(
    input: Input,
    depth: nat,
    pos: int,
    parenthesized: bool,
    parts: Parts,
)
    requires
        is_sound(input),
        0 <= pos < input.toks.len(),
        depth <= MAX_NESTING_DEPTH,
        are_parts(input, depth, parts),
    ensures
        input.entries(depth, pos, parenthesized, parts) matches Ok((more, q)) ==> are_parts(
            input,
            depth,
            more,
        ),
    decreases MAX_NESTING_DEPTH - depth, input.toks.len() - pos, 12nat,
{
    if !is_stop(input.kind(pos), parenthesized) {
        lemma_entry_advances(input, depth, pos, parts);
        lemma_entry_parsed(input, depth, pos, parts);
        if let Ok((more, q)) = input.entry(depth, pos, parts) {
            lemma_entries_parsed(input, depth, q, parenthesized, more);
        }
    }
}

proof fn lemma_entry_parsed(input: Input, depth: nat, pos: int, parts: Parts)
    requires
        is_sound(input),
        0 <= pos < input.toks.len(),
        depth <= MAX_NESTING_DEPTH,
        are_parts(input, depth, parts),
    ensures
        input.entry(depth, pos, parts) matches Ok((more, q)) ==> are_parts(input, depth, more),
    decreases MAX_NESTING_DEPTH - depth, input.toks.len() - pos, 11nat,
{
    let t = input.tok(pos);
    if input.bad(pos) is None {
        match t.kind {
            TokenKind::Tilde => {
                if pos + 1 < input.toks.len() {
                    lemma_patch_parsed(
                        input,
                        depth,
                        pos + 1,
                        BsnPatchPrefix::Template,
                        t.span,
                        parts,
                    );
                }
            },
            TokenKind::At => {
                if pos + 1 < input.toks.len() {
                    lemma_patch_parsed(
                        input,
                        depth,
                        pos + 1,
                        BsnPatchPrefix::SceneComponent,
                        t.span,
                        parts,
                    );
                }
            },
            TokenKind::Ident => {
                if t.text != "use"@ {
                    lemma_patch_parsed(
                        input,
                        depth,
                        pos,
                        BsnPatchPrefix::FromTemplate,
                        t.span,
                        parts,
                    );
                }
            },
            TokenKind::Hash => {
                if input.kind(pos + 1) == TokenKind::Ident {
                    lemma_ident(input, pos + 1);
                }
            },
            _ => {},
        }
    }
}

proof fn lemma_parts_push(input: Input, depth: nat, parts: Parts, entry: NodeTree)
    requires
        are_parts(input, depth, parts),
        entry_fits(input.floats, entry, (MAX_NESTING_DEPTH - depth) as nat),
    ensures
        are_parts(input, depth, crate::grammar::with_entry(parts, entry)),
{
    let more = crate::grammar::with_entry(parts, entry);
    assert forall|i: int| 0 <= i < more.entries.len() implies entry_fits(
        input.floats,
        #[trigger] more.entries[i],
        (MAX_NESTING_DEPTH - depth) as nat,
    ) by {
        if i < parts.entries.len() {
            assert(entry_fits(
                input.floats,
                parts.entries[i],
                (MAX_NESTING_DEPTH - depth) as nat,
            ));
        }
    }
}

proof fn lemma_patch_parsed(
    input: Input,
    depth: nat,
    pos: int,
    prefix: BsnPatchPrefix,
    first: Span,
    parts: Parts,
)
    requires
        is_sound(input),
        0 <= pos < input.toks.len(),
        depth <= MAX_NESTING_DEPTH,
        are_parts(input, depth, parts),
        prefix == BsnPatchPrefix::FromTemplate ==> input.tok(pos).text != "use"@,
    ensures
        input.patch(depth, pos, prefix, first, parts) matches Ok((more, q)) ==> are_parts(
            input,
            depth,
            more,
        ),
    decreases MAX_NESTING_DEPTH - depth, input.toks.len() - pos, 10nat,
{
    lemma_path_advances(input, depth, pos);
    lemma_path_parsed(input, depth, pos);
    if let Ok((path, q)) = input.path(depth, pos) {
        if input.bad(q) is None && path_problem(path, unsupported::FN@) is None {
            lemma_type_path(path, (MAX_NESTING_DEPTH - depth) as nat, unsupported::FN@);
            if input.kind(q) == TokenKind::LBracket {
                if prefix == BsnPatchPrefix::FromTemplate && q + 1 < input.toks.len() {
                    lemma_relation_parsed(input, depth, q, path, first, parts);
                }
            } else if let Ok((value, r)) = input.path_body(depth, q, path) {
                lemma_body_parsed(input, depth, q, path);
                lemma_same_path_refl(path);
                let entry = NodeTree {
                    span: crate::grammar::cover(first, input.tok(r - 1).span),
                    head: NodeHead::Patch { symbol: path, prefix, value },
                    children: Seq::empty(),
                };
                lemma_parts_push(input, depth, parts, entry);
            }
        }
    }
}

/// The entities of a relation whose `[` is at `pos`.
proof fn lemma_relation_parsed(
    input: Input,
    depth: nat,
    pos: int,
    path: Path,
    first: Span,
    parts: Parts,
)
    requires
        is_sound(input),
        0 <= pos < input.toks.len() - 1,
        depth <= MAX_NESTING_DEPTH,
        are_parts(input, depth, parts),
        path_fits(path, (MAX_NESTING_DEPTH - depth) as nat),
        names_type(path),
        path.segments[0].ident != "use"@,
    ensures
        input.entity_list(depth, pos + 1, TokenKind::RBracket, Seq::empty()) matches Ok(
            (entities, r),
        ) ==> are_parts(
            input,
            depth,
            crate::grammar::with_entry(
                parts,
                NodeTree {
                    span: crate::grammar::cover(first, input.tok(r).span),
                    head: NodeHead::Relation { target: path },
                    children: entities,
                },
            ),
        ),
    decreases MAX_NESTING_DEPTH - depth, input.toks.len() - pos, 2nat,
{
    lemma_list_parsed(input, depth, pos + 1, TokenKind::RBracket, Seq::empty());
    if let Ok((entities, r)) = input.entity_list(
        depth,
        pos + 1,
        TokenKind::RBracket,
        Seq::empty(),
    ) {
        let entry = NodeTree {
            span: crate::grammar::cover(first, input.tok(r).span),
            head: NodeHead::Relation { target: path },
            children: entities,
        };
        lemma_parts_push(input, depth, parts, entry);
    }
}

/// Entities at nesting depth `depth`.
pub open spec fn are_entities(input: Input, depth: nat, items: Seq<NodeTree>) -> bool {
    forall|i: int|
        0 <= i < items.len() ==> entity_fits(
            input.floats,
            #[trigger] items[i],
            (MAX_NESTING_DEPTH - depth) as nat,
        )
}

pub proof fn lemma_list_parsed(
    input: Input,
    depth: nat,
    pos: int,
    close: TokenKind,
    items: Seq<NodeTree>,
)
    requires
        is_sound(input),
        0 <= pos < input.toks.len(),
        depth <= MAX_NESTING_DEPTH,
        are_entities(input, depth, items),
    ensures
        input.entity_list(depth, pos, close, items) matches Ok((all, q)) ==> are_entities(
            input,
            depth,
            all,
        ),
    decreases MAX_NESTING_DEPTH - depth, input.toks.len() - pos, 1nat,
{
    if input.bad(pos) is None && input.kind(pos) != close {
        lemma_entity_advances(input, depth, pos);
        lemma_entity_parsed(input, depth, pos);
        if let Ok((item, q)) = input.entity(depth, pos) {
            assert(are_entities(input, depth, items.push(item)));
            if input.kind(q) == TokenKind::Comma && q + 1 < input.toks.len() {
                lemma_list_parsed(input, depth, q + 1, close, items.push(item));
            }
        }
    }
}

} // verus!
