//! The spans of errors: made of whole tokens, so that an error always points into the text.

use vstd::prelude::*;

use crate::ast::BsnPatchPrefix;
use crate::entities::{input_of, parse_model};
use crate::error::MAX_NESTING_DEPTH;
use crate::float::Floats;
use crate::grammar::{
    first_repeat_from, is_stop, path_problem, Input, NodeTree, Parsed, Parts, Tree,
};
use crate::lexical::lex;
use crate::model::{Head, Path, Segment};
use crate::parsed_spans::{from_to, in_order, lemma_path_spans};
use crate::roundtrip::{law_no_internal_error, lemma_in_order, lemma_token_span};
use crate::span::Span;
use crate::text::{byte_at, byte_len, is_boundary, lemma_byte_at_mono};
use crate::token::TokenKind;

verus! {

/// A span from the start of a token to the end of one, the end of the text included.
pub open spec fn located(input: Input, span: Span) -> bool {
    exists|i: int, j: int|
        0 <= i <= j < input.toks.len() && #[trigger] from_to(input, i, j) == span
}

/// A span of whole characters of a text, which may be empty.
pub open spec fn span_inside(source: Seq<char>, span: Span) -> bool {
    &&& span.start <= span.end <= byte_len(source)
    &&& is_boundary(source, span.start as nat)
    &&& is_boundary(source, span.end as nat)
}

/// Whether an error of the outcome is located.
spec fn points<T>(input: Input, outcome: Parsed<T>) -> bool {
    outcome matches Err(e) ==> e.kind is Internal || located(input, e.span)
}

proof fn lemma_located(input: Input, pos: int)
    requires
        in_order(input),
    ensures
        located(input, input.tok(pos).span),
{
    let i = if 0 <= pos < input.toks.len() {
        pos
    } else {
        input.toks.len() - 1
    };
    assert(from_to(input, i, i) == input.tok(pos).span);
}

proof fn lemma_path_points(input: Input, depth: nat, pos: int)
    requires
        in_order(input),
        0 <= pos < input.toks.len(),
    ensures
        points(input, input.path(depth, pos)),
    decreases MAX_NESTING_DEPTH - depth, input.toks.len() - pos, 0nat,
{
    lemma_located(input, pos);
    if input.too_deep(depth, pos) is None {
        lemma_path_inner_points(input, depth + 1, pos);
    }
}

proof fn lemma_path_inner_points(input: Input, depth: nat, pos: int)
    requires
        in_order(input),
        0 <= pos < input.toks.len(),
    ensures
        points(input, input.path_inner(depth, pos)),
    decreases MAX_NESTING_DEPTH - depth, input.toks.len() - pos, 3nat,
{
    lemma_located(input, pos);
    if input.bad(pos) is None && input.kind(pos) != TokenKind::ColonColon {
        lemma_segment_points(input, depth, pos);
        if let Ok((segment, q)) = input.segment(depth, pos) {
            if pos < q < input.toks.len() {
                lemma_more_segments_points(input, depth, q, seq![segment]);
            }
        }
    }
}

proof fn lemma_more_segments_points(input: Input, depth: nat, pos: int, segments: Seq<Segment>)
    requires
        in_order(input),
        0 <= pos < input.toks.len(),
    ensures
        points(input, input.more_segments(depth, pos, segments)),
    decreases MAX_NESTING_DEPTH - depth, input.toks.len() - pos, 3nat,
{
    if input.kind(pos) == TokenKind::ColonColon && pos + 1 < input.toks.len() {
        lemma_segment_points(input, depth, pos + 1);
        if let Ok((segment, q)) = input.segment(depth, pos + 1) {
            if pos < q < input.toks.len() {
                lemma_more_segments_points(input, depth, q, segments.push(segment));
            }
        }
    }
}

proof fn lemma_segment_points(input: Input, depth: nat, pos: int)
    requires
        in_order(input),
        0 <= pos < input.toks.len(),
    ensures
        points(input, input.segment(depth, pos)),
    decreases MAX_NESTING_DEPTH - depth, input.toks.len() - pos, 2nat,
{
    lemma_located(input, pos);
    if input.kind(pos + 1) == TokenKind::Lt && pos + 2 < input.toks.len() {
        lemma_path_list_points(input, depth, pos + 2, Seq::empty());
        if let Ok((generics, q)) = input.path_list(depth, pos + 2, Seq::empty()) {
            lemma_located(input, q);
        }
    }
}

proof fn lemma_path_list_points(input: Input, depth: nat, pos: int, items: Seq<Path>)
    requires
        in_order(input),
        0 <= pos < input.toks.len(),
    ensures
        points(input, input.path_list(depth, pos, items)),
    decreases MAX_NESTING_DEPTH - depth, input.toks.len() - pos, 1nat,
{
    lemma_located(input, pos);
    if input.bad(pos) is None && input.kind(pos) != TokenKind::Gt {
        lemma_path_points(input, depth, pos);
        if let Ok((item, q)) = input.path(depth, pos) {
            if input.kind(q) == TokenKind::Comma && pos < q && q + 1 < input.toks.len() {
                lemma_path_list_points(input, depth, q + 1, items.push(item));
            }
        }
    }
}

/// The error for a path that names a Rust item points at the path.
proof fn lemma_problem_points(input: Input, depth: nat, pos: int, lowercase: Seq<char>)
    requires
        in_order(input),
        0 <= pos < input.toks.len(),
    ensures
        input.path(depth, pos) matches Ok((path, q)) ==> (path_problem(path, lowercase) matches Some(
            e,
        ) ==> located(input, e.span)),
{
    lemma_path_spans(input, depth, pos);
    if let Ok((path, q)) = input.path(depth, pos) {
        assert(from_to(input, pos, q - 1) == path.span);
    }
}

proof fn lemma_value_points(input: Input, depth: nat, pos: int)
    requires
        in_order(input),
        0 <= pos < input.toks.len(),
    ensures
        points(input, input.value(depth, pos)),
    decreases MAX_NESTING_DEPTH - depth, input.toks.len() - pos, 0nat,
{
    lemma_located(input, pos);
    if input.too_deep(depth, pos) is None {
        lemma_value_inner_points(input, depth + 1, pos);
    }
}

proof fn lemma_negative_points(input: Input, pos: int)
    requires
        in_order(input),
        0 <= pos < input.toks.len() - 1,
    ensures
        points(input, input.negative(input.tok(pos), pos + 1)),
{
    lemma_located(input, pos + 1);
    let a = input.toks[pos].span;
    let b = input.toks[pos + 1].span;
    assert(a.start < a.end <= b.start);
    if pos + 1 < input.toks.len() - 1 {
        assert(b.start < b.end);
        assert(from_to(input, pos, pos + 1) == a.spec_join(b));
    }
}

proof fn lemma_value_inner_points(input: Input, depth: nat, pos: int)
    requires
        in_order(input),
        0 <= pos < input.toks.len(),
    ensures
        points(input, input.value_inner(depth, pos)),
    decreases MAX_NESTING_DEPTH - depth, input.toks.len() - pos, 9nat,
{
    let t = input.tok(pos);
    lemma_located(input, pos);
    lemma_located(input, pos + 1);
    if input.bad(pos) is None {
        match t.kind {
            TokenKind::Minus => {
                lemma_negative_points(input, pos);
            },
            TokenKind::LBracket => {
                lemma_bracketed_points(
                    input,
                    depth,
                    pos,
                    TokenKind::RBracket,
                    seq!["`,`"@, "`]`"@],
                    t.span,
                    Head::List,
                );
            },
            TokenKind::LParen => {
                lemma_paren_points(input, depth, pos);
            },
            TokenKind::Ident => {
                lemma_path_value_points(input, depth, pos);
            },
            _ => {},
        }
    }
}

proof fn lemma_bracketed_points(
    input: Input,
    depth: nat,
    pos: int,
    close: TokenKind,
    expected: Seq<Seq<char>>,
    first: Span,
    head: Head,
)
    requires
        in_order(input),
        0 <= pos < input.toks.len(),
    ensures
        points(input, input.bracketed(depth, pos, close, expected, first, head)),
    decreases MAX_NESTING_DEPTH - depth, input.toks.len() - pos, 5nat,
{
    if pos + 1 < input.toks.len() {
        lemma_value_list_points(input, depth, pos + 1, close, Seq::empty());
        if let Ok((items, q)) = input.value_list(depth, pos + 1, close, Seq::empty()) {
            lemma_located(input, q);
        }
    }
}

proof fn lemma_paren_points(input: Input, depth: nat, pos: int)
    requires
        in_order(input),
        0 <= pos < input.toks.len(),
    ensures
        points(input, input.paren_value(depth, pos)),
    decreases MAX_NESTING_DEPTH - depth, input.toks.len() - pos, 8nat,
{
    if pos + 1 < input.toks.len() && input.kind(pos + 1) != TokenKind::RParen {
        if !input.comma_ahead(pos + 1, 0, 0) {
            lemma_value_points(input, depth, pos + 1);
            if let Ok((tree, q)) = input.value(depth, pos + 1) {
                lemma_located(input, q);
            }
        } else {
            lemma_bracketed_points(
                input,
                depth,
                pos,
                TokenKind::RParen,
                seq!["`,`"@, "`)`"@],
                input.tok(pos).span,
                Head::Tuple,
            );
        }
    }
}

proof fn lemma_value_list_points(
    input: Input,
    depth: nat,
    pos: int,
    close: TokenKind,
    items: Seq<Tree>,
)
    requires
        in_order(input),
        0 <= pos < input.toks.len(),
    ensures
        points(input, input.value_list(depth, pos, close, items)),
    decreases MAX_NESTING_DEPTH - depth, input.toks.len() - pos, 4nat,
{
    lemma_located(input, pos);
    if input.bad(pos) is None && input.kind(pos) != close {
        lemma_value_points(input, depth, pos);
        if let Ok((item, q)) = input.value(depth, pos) {
            if input.kind(q) == TokenKind::Comma && pos < q && q + 1 < input.toks.len() {
                lemma_value_list_points(input, depth, q + 1, close, items.push(item));
            }
        }
    }
}

proof fn lemma_path_value_points(input: Input, depth: nat, pos: int)
    requires
        in_order(input),
        0 <= pos < input.toks.len(),
    ensures
        points(input, input.path_value(depth, pos)),
    decreases MAX_NESTING_DEPTH - depth, input.toks.len() - pos, 8nat,
{
    lemma_path_points(input, depth, pos);
    lemma_problem_points(input, depth, pos, crate::unsupported::PATH_CASE@);
    if let Ok((path, q)) = input.path(depth, pos) {
        lemma_located(input, q);
        if pos < q < input.toks.len() {
            lemma_path_body_points(input, depth, q, path);
        }
    }
}

proof fn lemma_path_body_points(input: Input, depth: nat, pos: int, path: Path)
    requires
        in_order(input),
        0 <= pos < input.toks.len(),
    ensures
        points(input, input.path_body(depth, pos, path)),
    decreases MAX_NESTING_DEPTH - depth, input.toks.len() - pos, 7nat,
{
    if input.kind(pos) == TokenKind::LBrace {
        if pos + 1 < input.toks.len() {
            lemma_fields_points(
                input,
                depth,
                pos + 1,
                path,
                Seq::empty(),
                Seq::empty(),
                Seq::empty(),
            );
        }
    } else if input.kind(pos) == TokenKind::LParen {
        lemma_bracketed_points(
            input,
            depth,
            pos,
            TokenKind::RParen,
            seq!["`,`"@, "`)`"@],
            path.span,
            Head::NamedTuple(path),
        );
    }
}

proof fn lemma_first_repeat(names: Seq<Seq<char>>, i: int)
    requires
        0 <= i,
    ensures
        first_repeat_from(names, i) matches Some(k) ==> 0 <= k < names.len(),
    decreases names.len() - i,
{
    if i < names.len() {
        lemma_first_repeat(names, i + 1);
    }
}

proof fn lemma_fields_end_points(
    input: Input,
    pos: int,
    path: Path,
    names: Seq<Seq<char>>,
    spans: Seq<Span>,
    values: Seq<Tree>,
)
    requires
        in_order(input),
        names.len() == spans.len(),
        forall|i: int| 0 <= i < spans.len() ==> located(input, #[trigger] spans[i]),
    ensures
        points(input, input.fields_end(pos, path, names, spans, values)),
{
    lemma_located(input, pos);
    lemma_first_repeat(names, 0);
}

proof fn lemma_fields_points(
    input: Input,
    depth: nat,
    pos: int,
    path: Path,
    names: Seq<Seq<char>>,
    spans: Seq<Span>,
    values: Seq<Tree>,
)
    requires
        in_order(input),
        0 <= pos < input.toks.len(),
        names.len() == spans.len(),
        forall|i: int| 0 <= i < spans.len() ==> located(input, #[trigger] spans[i]),
    ensures
        points(input, input.fields(depth, pos, path, names, spans, values)),
    decreases MAX_NESTING_DEPTH - depth, input.toks.len() - pos, 6nat,
{
    lemma_located(input, pos);
    lemma_fields_end_points(input, pos, path, names, spans, values);
    if input.bad(pos) is None && input.kind(pos) != TokenKind::RBrace && input.kind(pos)
        != TokenKind::At {
        if let Ok(ident) = input.token(pos, TokenKind::Ident, seq!["identifier"@, "`}`"@]) {
            if input.kind(pos + 1) == TokenKind::Colon && pos + 2 < input.toks.len() {
                lemma_value_points(input, depth, pos + 2);
                if let Ok((value, q)) = input.value(depth, pos + 2) {
                    let names = names.push(ident.text);
                    let spans = spans.push(ident.span);
                    let values = values.push(value);
                    lemma_fields_end_points(input, q, path, names, spans, values);
                    if pos < q && q + 1 < input.toks.len() {
                        lemma_fields_points(input, depth, q + 1, path, names, spans, values);
                    }
                }
            }
        }
    }
}

proof fn lemma_entity_points(input: Input, depth: nat, pos: int)
    requires
        in_order(input),
        0 <= pos < input.toks.len(),
    ensures
        points(input, input.entity(depth, pos)),
    decreases MAX_NESTING_DEPTH - depth, input.toks.len() - pos, 0nat,
{
    lemma_located(input, pos);
    if input.too_deep(depth, pos) is None {
        lemma_entity_inner_points(input, depth + 1, pos);
    }
}

proof fn lemma_entity_inner_points(input: Input, depth: nat, pos: int)
    requires
        in_order(input),
        0 <= pos < input.toks.len(),
    ensures
        points(input, input.entity_inner(depth, pos)),
    decreases MAX_NESTING_DEPTH - depth, input.toks.len() - pos, 13nat,
{
    lemma_located(input, pos);
    if input.bad(pos) is None {
        let parenthesized = input.kind(pos) == TokenKind::LParen;
        let body = if parenthesized {
            pos + 1
        } else {
            pos
        };
        lemma_located(input, body + 1);
        if let Ok((parts, q)) = input.base(body) {
            if pos <= q < input.toks.len() {
                lemma_entries_points(input, depth, q, parenthesized, parts);
                if let Ok((parts, r)) = input.entries(depth, q, parenthesized, parts) {
                    lemma_located(input, r);
                }
            }
        }
    }
}

proof fn lemma_entries_points(
    input: Input,
    depth: nat,
    pos: int,
    parenthesized: bool,
    parts: Parts,
)
    requires
        in_order(input),
        0 <= pos < input.toks.len(),
    ensures
        points(input, input.entries(depth, pos, parenthesized, parts)),
    decreases MAX_NESTING_DEPTH - depth, input.toks.len() - pos, 12nat,
{
    if !is_stop(input.kind(pos), parenthesized) {
        lemma_entry_points(input, depth, pos, parts);
        if let Ok((parts, q)) = input.entry(depth, pos, parts) {
            if pos < q < input.toks.len() {
                lemma_entries_points(input, depth, q, parenthesized, parts);
            }
        }
    }
}

proof fn lemma_entry_points(input: Input, depth: nat, pos: int, parts: Parts)
    requires
        in_order(input),
        0 <= pos < input.toks.len(),
    ensures
        points(input, input.entry(depth, pos, parts)),
    decreases MAX_NESTING_DEPTH - depth, input.toks.len() - pos, 11nat,
{
    let t = input.tok(pos);
    lemma_located(input, pos);
    lemma_located(input, pos + 1);
    if input.bad(pos) is None {
        match t.kind {
            TokenKind::Tilde => {
                if pos + 1 < input.toks.len() {
                    let prefix = BsnPatchPrefix::Template;
                    lemma_patch_points(input, depth, pos + 1, prefix, t.span, parts);
                }
            },
            TokenKind::At => {
                if pos + 1 < input.toks.len() {
                    let prefix = BsnPatchPrefix::SceneComponent;
                    lemma_patch_points(input, depth, pos + 1, prefix, t.span, parts);
                }
            },
            TokenKind::Ident => {
                let prefix = BsnPatchPrefix::FromTemplate;
                lemma_patch_points(input, depth, pos, prefix, t.span, parts);
            },
            _ => {},
        }
    }
}

proof fn lemma_patch_points(
    input: Input,
    depth: nat,
    pos: int,
    prefix: BsnPatchPrefix,
    first: Span,
    parts: Parts,
)
    requires
        in_order(input),
        0 <= pos < input.toks.len(),
    ensures
        points(input, input.patch(depth, pos, prefix, first, parts)),
    decreases MAX_NESTING_DEPTH - depth, input.toks.len() - pos, 10nat,
{
    lemma_path_points(input, depth, pos);
    lemma_problem_points(input, depth, pos, crate::unsupported::FN@);
    if let Ok((path, q)) = input.path(depth, pos) {
        lemma_located(input, q);
        if pos < q < input.toks.len() {
            if input.kind(q) == TokenKind::LBracket {
                if q + 1 < input.toks.len() {
                    let close = TokenKind::RBracket;
                    lemma_list_points(input, depth, q + 1, close, Seq::empty());
                    if let Ok((entities, r)) = input.entity_list(
                        depth,
                        q + 1,
                        close,
                        Seq::empty(),
                    ) {
                        lemma_located(input, r);
                    }
                }
            } else {
                lemma_path_body_points(input, depth, q, path);
            }
        }
    }
}

proof fn lemma_list_points(
    input: Input,
    depth: nat,
    pos: int,
    close: TokenKind,
    items: Seq<NodeTree>,
)
    requires
        in_order(input),
        0 <= pos < input.toks.len(),
    ensures
        points(input, input.entity_list(depth, pos, close, items)),
    decreases MAX_NESTING_DEPTH - depth, input.toks.len() - pos, 1nat,
{
    lemma_located(input, pos);
    if input.bad(pos) is None && input.kind(pos) != close {
        lemma_entity_points(input, depth, pos);
        if let Ok((item, q)) = input.entity(depth, pos) {
            if input.kind(q) == TokenKind::Comma && pos < q && q + 1 < input.toks.len() {
                lemma_list_points(input, depth, q + 1, close, items.push(item));
            }
        }
    }
}

/// An error points into the text: its span is a range of whole characters of the source.
pub proof fn law_error_spans(source: Seq<char>, floats: Floats)
    requires
        byte_len(source) <= u32::MAX,
    ensures
        parse_model(source, floats) matches Err(e) ==> span_inside(source, e.span),
{
    let input = input_of(source, floats);
    if let Err(e) = parse_model(source, floats) {
        lemma_in_order(source, floats);
        law_no_internal_error(source, floats);
        lemma_list_points(input, 0, 0, TokenKind::Eof, Seq::empty());
        if let Ok((roots, q)) = input.entity_list(0, 0, TokenKind::Eof, Seq::empty()) {
            lemma_located(input, q);
        }
        let (i, j) = choose|i: int, j: int|
            0 <= i <= j < input.toks.len() && #[trigger] from_to(input, i, j) == e.span;
        lemma_token_span(source, floats, i);
        lemma_token_span(source, floats, j);
        let a = lex(source)[i];
        let b = lex(source)[j];
        if i < j {
            assert(input.toks[i].span.end <= input.toks[j].span.start);
        }
        lemma_byte_at_mono(source, a.start, a.end);
        lemma_byte_at_mono(source, b.start, b.end);
        lemma_byte_at_mono(source, b.end, source.len() as int);
        assert(byte_at(source, a.start) == e.span.start);
        assert(byte_at(source, b.end) == e.span.end);
    }
}

} // verus!
