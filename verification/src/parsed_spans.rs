//! The spans of what the grammar produces: made of whole tokens, nested and in order.

use vstd::prelude::*;

use crate::ast::BsnPatchPrefix;
use crate::error::MAX_NESTING_DEPTH;
use crate::grammar::{cover, is_stop, with_entry, Input, NodeHead, NodeTree, Parts, Tree};
use crate::model::{Head, Path, Segment};
use crate::progress::{
    lemma_entity_advances, lemma_entity_list_stays, lemma_entries_stays, lemma_entry_advances,
    lemma_path_advances, lemma_path_body_stays, lemma_path_list_stays, lemma_segment_advances,
    lemma_value_advances, lemma_value_list_stays,
};
use crate::span::Span;
use crate::token::TokenKind;

verus! {

/// Tokens in the order of the text, none of them empty but the last.
pub open spec fn in_order(input: Input) -> bool {
    &&& input.wf()
    &&& forall|i: int|
        0 <= i < input.toks.len() - 1 ==> (#[trigger] input.toks[i]).span.start
            < input.toks[i].span.end
    &&& forall|i: int, j: int|
        0 <= i < j < input.toks.len() ==> (#[trigger] input.toks[i]).span.end
            <= (#[trigger] input.toks[j]).span.start
}

/// The span from the start of token `i` to the end of token `j`.
pub open spec fn from_to(input: Input, i: int, j: int) -> Span {
    cover(input.toks[i].span, input.toks[j].span)
}

/// A span of whole tokens.
pub open spec fn of_tokens(input: Input, span: Span) -> bool {
    exists|i: int, j: int|
        0 <= i <= j < input.toks.len() - 1 && #[trigger] from_to(input, i, j) == span
}

/// Whether a span lies inside another.
pub open spec fn inside(inner: Span, outer: Span) -> bool {
    outer.start <= inner.start && inner.end <= outer.end
}

/// A value whose spans, and those of the values inside it, are spans of whole tokens, nested
/// and in order.
pub open spec fn tree_spans(input: Input, t: Tree) -> bool
    decreases t,
{
    &&& of_tokens(input, t.span)
    &&& forall|i: int|
        0 <= i < t.children.len() ==> inside((#[trigger] t.children[i]).span, t.span)
            && tree_spans(input, t.children[i])
    &&& forall|i: int, j: int|
        0 <= i < j < t.children.len() ==> (#[trigger] t.children[i]).span.end <= (
        #[trigger] t.children[j]).span.start
}

/// The spans of the name and of the base of an entity, as far as there are any, are spans of
/// whole tokens.
#[verifier::opaque]
pub open spec fn labels_placed(
    input: Input,
    name_span: Option<Span>,
    base_span: Option<Span>,
) -> bool {
    &&& name_span matches Some(span) ==> of_tokens(input, span)
    &&& base_span matches Some(span) ==> of_tokens(input, span)
}

/// A node whose spans, and those of the nodes and values inside it, are spans of whole tokens,
/// nested and in order.
pub open spec fn node_spans(input: Input, t: NodeTree) -> bool
    decreases t,
{
    &&& of_tokens(input, t.span)
    &&& t.head matches NodeHead::Entity { name_span, base_span, .. } ==> labels_placed(
        input,
        name_span,
        base_span,
    )
    &&& t.head matches NodeHead::Patch { value, .. } ==> inside(value.span, t.span) && tree_spans(
        input,
        value,
    )
    &&& forall|i: int|
        0 <= i < t.children.len() ==> inside((#[trigger] t.children[i]).span, t.span)
            && node_spans(input, t.children[i])
    &&& forall|i: int, j: int|
        0 <= i < j < t.children.len() ==> (#[trigger] t.children[i]).span.end <= (
        #[trigger] t.children[j]).span.start
}

proof fn lemma_of_tokens(input: Input, i: int, j: int)
    requires
        in_order(input),
        0 <= i <= j < input.toks.len() - 1,
    ensures
        of_tokens(input, from_to(input, i, j)),
        from_to(input, i, j).start < from_to(input, i, j).end,
        from_to(input, i, j).start == input.toks[i].span.start,
        from_to(input, i, j).end == input.toks[j].span.end,
{
    assert(input.toks[i].span.start < input.toks[i].span.end);
    if i < j {
        assert(input.toks[i].span.end <= input.toks[j].span.start);
        assert(input.toks[j].span.start < input.toks[j].span.end);
    }
}

/// A span of whole tokens is not empty.
pub proof fn lemma_not_empty(input: Input, span: Span)
    requires
        in_order(input),
        of_tokens(input, span),
    ensures
        span.start < span.end,
        !span.spec_is_none(),
{
    let (i, j) = choose|i: int, j: int|
        0 <= i <= j < input.toks.len() - 1 && #[trigger] from_to(input, i, j) == span;
    lemma_of_tokens(input, i, j);
}

proof fn lemma_toks(input: Input, i: int, j: int)
    requires
        in_order(input),
        0 <= i <= j < input.toks.len(),
    ensures
        i < j ==> input.toks[i].span.end <= input.toks[j].span.start,
        i < input.toks.len() - 1 ==> input.toks[i].span.start < input.toks[i].span.end,
        input.toks[i].span.start <= input.toks[j].span.start,
        j < input.toks.len() - 1 ==> input.toks[i].span.end <= input.toks[j].span.end,
        input.tok(i) == input.toks[i],
        input.tok(j) == input.toks[j],
{
    if i < j {
        assert(input.toks[i].span.end <= input.toks[j].span.start);
        assert(input.toks[i].span.start < input.toks[i].span.end);
        if j < input.toks.len() - 1 {
            assert(input.toks[j].span.start < input.toks[j].span.end);
        }
    }
}

// -- paths ------------------------------------------------------------------------------------

/// The span of what is parsed from `pos` up to `q`.
pub open spec fn spans_all(input: Input, span: Span, pos: int, q: int) -> bool {
    0 <= pos < q < input.toks.len() && span == from_to(input, pos, q - 1)
}

proof fn lemma_segment_spans(input: Input, depth: nat, pos: int)
    requires
        in_order(input),
        0 <= pos < input.toks.len(),
    ensures
        input.segment(depth, pos) matches Ok((segment, q)) ==> spans_all(
            input,
            segment.span,
            pos,
            q,
        ),
{
    lemma_segment_advances(input, depth, pos);
    if input.token(pos, TokenKind::Ident, seq!["identifier"@]) is Ok && input.kind(pos + 1)
        == TokenKind::Lt {
        lemma_path_list_stays(input, depth, pos + 2, Seq::empty());
    }
}

proof fn lemma_more_spans(input: Input, depth: nat, start: int, pos: int, segments: Seq<Segment>)
    requires
        in_order(input),
        0 <= start < pos < input.toks.len(),
        segments.len() > 0,
        segments[0].span.start == input.toks[start].span.start,
        segments[0].span.end <= input.toks[pos - 1].span.end,
        segments.last().span.end == input.toks[pos - 1].span.end,
        segments.last().span.start >= input.toks[start].span.start,
    ensures
        input.more_segments(depth, pos, segments) matches Ok((path, q)) ==> spans_all(
            input,
            path.span,
            start,
            q,
        ),
    decreases input.toks.len() - pos,
{
    if input.kind(pos) == TokenKind::ColonColon {
        lemma_segment_advances(input, depth, pos + 1);
        lemma_segment_spans(input, depth, pos + 1);
        if let Ok((segment, q)) = input.segment(depth, pos + 1) {
            lemma_toks(input, start, pos + 1);
            lemma_toks(input, pos - 1, q - 1);
            lemma_more_spans(input, depth, start, q, segments.push(segment));
        }
    }
}

pub proof fn lemma_path_spans(input: Input, depth: nat, pos: int)
    requires
        in_order(input),
        0 <= pos < input.toks.len(),
    ensures
        input.path(depth, pos) matches Ok((path, q)) ==> spans_all(input, path.span, pos, q),
{
    if let Ok((path, r)) = input.path(depth, pos) {
        lemma_segment_advances(input, depth + 1, pos);
        lemma_segment_spans(input, depth + 1, pos);
        let (segment, q) = input.segment(depth + 1, pos)->Ok_0;
        lemma_more_spans(input, depth + 1, pos, q, seq![segment]);
    }
}

// -- values -----------------------------------------------------------------------------------

/// A value parsed from `pos` up to `q`.
spec fn value_placed(input: Input, pos: int, t: Tree, q: int) -> bool {
    &&& 0 <= pos < q < input.toks.len()
    &&& tree_spans(input, t)
    &&& input.toks[pos].span.start <= t.span.start
    &&& t.span.end <= input.toks[q - 1].span.end
}

/// Values parsed one after the other, from `pos` up to `q`.
spec fn items_placed(input: Input, pos: int, items: Seq<Tree>, q: int) -> bool {
    &&& 0 <= pos <= q < input.toks.len()
    &&& forall|i: int|
        0 <= i < items.len() ==> tree_spans(input, #[trigger] items[i])
            && input.toks[pos].span.start <= items[i].span.start && items[i].span.end
            <= input.toks[q].span.start
    &&& forall|i: int, j: int|
        0 <= i < j < items.len() ==> (#[trigger] items[i]).span.end <= (
        #[trigger] items[j]).span.start
}

proof fn lemma_items_push(input: Input, pos: int, items: Seq<Tree>, at: int, t: Tree, q: int, next: int)
    requires
        in_order(input),
        items_placed(input, pos, items, at),
        value_placed(input, at, t, q),
        q <= next < input.toks.len(),
    ensures
        items_placed(input, pos, items.push(t), next),
{
    let all = items.push(t);
    lemma_toks(input, pos, at);
    lemma_toks(input, at, next);
    lemma_toks(input, q - 1, next);
    assert forall|i: int| 0 <= i < all.len() implies tree_spans(input, #[trigger] all[i])
        && input.toks[pos].span.start <= all[i].span.start && all[i].span.end
        <= input.toks[next].span.start by {
        if i < items.len() {
            assert(tree_spans(input, items[i]));
        }
    }
    assert forall|i: int, j: int| 0 <= i < j < all.len() implies (#[trigger] all[i]).span.end <= (
    #[trigger] all[j]).span.start by {
        if j < items.len() {
            assert(items[i].span.end <= items[j].span.start);
        } else {
            assert(tree_spans(input, items[i]));
        }
    }
}

/// A value made of tokens `i` to `q - 1`, whose items lie between them.
proof fn lemma_body_placed(
    input: Input,
    pos: int,
    start: int,
    items: Seq<Tree>,
    close: int,
    t: Tree,
)
    requires
        in_order(input),
        0 <= pos <= start < close < input.toks.len() - 1,
        items_placed(input, start, items, close),
        t.children == items,
        t.span == from_to(input, pos, close),
    ensures
        value_placed(input, pos, t, close + 1),
{
    lemma_of_tokens(input, pos, close);
    lemma_toks(input, pos, start);
    lemma_toks(input, start, close);
    assert forall|i: int| 0 <= i < t.children.len() implies inside(
        (#[trigger] t.children[i]).span,
        t.span,
    ) && tree_spans(input, t.children[i]) by {
        assert(tree_spans(input, items[i]));
    }
}

proof fn lemma_value_spans(input: Input, depth: nat, pos: int)
    requires
        in_order(input),
        0 <= pos < input.toks.len(),
    ensures
        input.value(depth, pos) matches Ok((t, q)) ==> value_placed(input, pos, t, q),
    decreases MAX_NESTING_DEPTH - depth, input.toks.len() - pos, 0nat,
{
    if input.too_deep(depth, pos) is None {
        lemma_value_inner_spans(input, depth + 1, pos);
    }
}

/// A value made of one or two tokens.
proof fn lemma_leaf_placed(input: Input, pos: int, t: Tree, q: int)
    requires
        in_order(input),
        0 <= pos < q < input.toks.len(),
        t.children.len() == 0,
        t.span == from_to(input, pos, q - 1),
    ensures
        value_placed(input, pos, t, q),
{
    lemma_of_tokens(input, pos, q - 1);
}

#[verifier::rlimit(50)]
proof fn lemma_value_inner_spans(input: Input, depth: nat, pos: int)
    requires
        in_order(input),
        0 <= pos < input.toks.len(),
    ensures
        input.value_inner(depth, pos) matches Ok((t, q)) ==> value_placed(input, pos, t, q),
    decreases MAX_NESTING_DEPTH - depth, input.toks.len() - pos, 9nat,
{
    let t = input.tok(pos);
    if input.bad(pos) is None && input.value_inner(depth, pos) is Ok {
        if t.kind == TokenKind::LBracket {
            lemma_bracketed_spans(
                input,
                depth,
                pos,
                pos,
                TokenKind::RBracket,
                seq!["`,`"@, "`]`"@],
                t.span,
                Head::List,
            );
        } else if t.kind == TokenKind::LParen {
            lemma_paren_spans(input, depth, pos);
        } else if t.kind == TokenKind::Ident && !crate::shape::is_value_word(t.text) {
            lemma_path_value_spans(input, depth, pos);
        } else {
            lemma_simple_spans(input, depth, pos);
        }
    }
}

#[verifier::rlimit(50)]
proof fn lemma_simple_spans(input: Input, depth: nat, pos: int)
    requires
        in_order(input),
        0 <= pos < input.toks.len(),
        input.kind(pos) != TokenKind::LBracket,
        input.kind(pos) != TokenKind::LParen,
        input.kind(pos) == TokenKind::Ident ==> crate::shape::is_value_word(input.tok(pos).text),
    ensures
        input.value_inner(depth, pos) matches Ok((t, q)) ==> value_placed(input, pos, t, q),
{
    if let Ok((t, q)) = input.value_inner(depth, pos) {
        lemma_toks(input, pos, q - 1);
        lemma_leaf_placed(input, pos, t, q);
    }
}

proof fn lemma_path_value_spans(input: Input, depth: nat, pos: int)
    requires
        in_order(input),
        0 <= pos < input.toks.len(),
    ensures
        input.path_value(depth, pos) matches Ok((t, q)) ==> value_placed(input, pos, t, q),
    decreases MAX_NESTING_DEPTH - depth, input.toks.len() - pos, 8nat,
{
    if input.path_value(depth, pos) is Ok {
        lemma_path_advances(input, depth, pos);
        lemma_path_spans(input, depth, pos);
        let (path, q) = input.path(depth, pos)->Ok_0;
        lemma_body_spans(input, depth, pos, q, path);
    }
}

#[verifier::rlimit(50)]
proof fn lemma_paren_spans(input: Input, depth: nat, pos: int)
    requires
        in_order(input),
        0 <= pos < input.toks.len(),
        input.kind(pos) == TokenKind::LParen,
    ensures
        input.paren_value(depth, pos) matches Ok((t, q)) ==> value_placed(input, pos, t, q),
    decreases MAX_NESTING_DEPTH - depth, input.toks.len() - pos, 8nat,
{
    if pos + 1 < input.toks.len() {
        if input.kind(pos + 1) == TokenKind::RParen {
            let (t, q) = input.paren_value(depth, pos)->Ok_0;
            lemma_toks(input, pos, pos + 1);
            lemma_leaf_placed(input, pos, t, q);
        } else if !input.comma_ahead(pos + 1, 0, 0) {
            lemma_value_advances(input, depth, pos + 1);
            lemma_value_spans(input, depth, pos + 1);
            if let Ok((t, q)) = input.value(depth, pos + 1) {
                lemma_toks(input, pos, pos + 1);
                lemma_toks(input, q - 1, q);
            }
        } else {
            lemma_bracketed_spans(
                input,
                depth,
                pos,
                pos,
                TokenKind::RParen,
                seq!["`,`"@, "`)`"@],
                input.tok(pos).span,
                Head::Tuple,
            );
        }
    }
}

/// A bracketed list whose opening bracket is at `pos`, in a value that starts at `start`.
#[verifier::rlimit(50)]
proof fn lemma_bracketed_spans(
    input: Input,
    depth: nat,
    start: int,
    pos: int,
    close: TokenKind,
    expected: Seq<Seq<char>>,
    first: Span,
    head: Head,
)
    requires
        in_order(input),
        0 <= start <= pos < input.toks.len(),
        first.start == input.toks[start].span.start,
        close != TokenKind::Eof,
    ensures
        input.bracketed(depth, pos, close, expected, first, head) matches Ok((t, q)) ==> value_placed(
            input,
            start,
            t,
            q,
        ),
    decreases MAX_NESTING_DEPTH - depth, input.toks.len() - pos, 5nat,
{
    if let Ok((t, q)) = input.bracketed(depth, pos, close, expected, first, head) {
        lemma_value_list_stays(input, depth, pos + 1, close, Seq::empty());
        lemma_value_list_spans(input, depth, pos + 1, pos + 1, close, Seq::empty());
        let (items, r) = input.value_list(depth, pos + 1, close, Seq::empty())->Ok_0;
        if r == pos + 1 {
            assert(items_placed(input, pos, items, r)) by {
                lemma_toks(input, pos, r);
                assert forall|i: int| 0 <= i < items.len() implies tree_spans(
                    input,
                    #[trigger] items[i],
                ) && input.toks[pos].span.start <= items[i].span.start && items[i].span.end
                    <= input.toks[r].span.start by {
                    assert(tree_spans(input, items[i]));
                }
            }
            lemma_body_placed(input, start, pos, items, r, t);
        } else {
            lemma_body_placed(input, start, pos + 1, items, r, t);
        }
    }
}

#[verifier::rlimit(50)]
proof fn lemma_value_list_spans(
    input: Input,
    depth: nat,
    start: int,
    pos: int,
    close: TokenKind,
    items: Seq<Tree>,
)
    requires
        in_order(input),
        0 <= pos < input.toks.len(),
        items_placed(input, start, items, pos),
    ensures
        input.value_list(depth, pos, close, items) matches Ok((all, q)) ==> items_placed(
            input,
            start,
            all,
            q,
        ),
    decreases MAX_NESTING_DEPTH - depth, input.toks.len() - pos, 4nat,
{
    if input.bad(pos) is None && input.kind(pos) != close {
        lemma_value_advances(input, depth, pos);
        lemma_value_spans(input, depth, pos);
        if let Ok((item, q)) = input.value(depth, pos) {
            if input.kind(q) == TokenKind::Comma {
                if q + 1 < input.toks.len() {
                    lemma_items_push(input, start, items, pos, item, q, q + 1);
                    lemma_value_list_spans(input, depth, start, q + 1, close, items.push(item));
                }
            } else {
                lemma_items_push(input, start, items, pos, item, q, q);
            }
        }
    }
}

/// The body at `pos` of a value whose path starts at `start`.
#[verifier::rlimit(50)]
proof fn lemma_body_spans(input: Input, depth: nat, start: int, pos: int, path: Path)
    requires
        in_order(input),
        spans_all(input, path.span, start, pos),
    ensures
        input.path_body(depth, pos, path) matches Ok((t, q)) ==> value_placed(input, start, t, q),
    decreases MAX_NESTING_DEPTH - depth, input.toks.len() - pos, 7nat,
{
    if input.kind(pos) == TokenKind::LBrace {
        if pos + 1 < input.toks.len() {
            lemma_fields_spans(
                input,
                depth,
                start,
                pos,
                pos + 1,
                path,
                Seq::empty(),
                Seq::empty(),
                Seq::empty(),
            );
        }
    } else if input.kind(pos) == TokenKind::LParen {
        lemma_bracketed_spans(
            input,
            depth,
            start,
            pos,
            TokenKind::RParen,
            seq!["`,`"@, "`)`"@],
            path.span,
            Head::NamedTuple(path),
        );
    } else {
        lemma_leaf_placed(input, start, crate::grammar::leaf(path.span, Head::Path(path)), pos);
    }
}

/// The fields at `pos` of a struct whose path starts at `start` and whose `{` is at `open`.
#[verifier::rlimit(50)]
proof fn lemma_fields_spans(
    input: Input,
    depth: nat,
    start: int,
    open: int,
    pos: int,
    path: Path,
    names: Seq<Seq<char>>,
    spans: Seq<Span>,
    values: Seq<Tree>,
)
    requires
        in_order(input),
        0 <= start <= open < pos < input.toks.len(),
        path.span.start == input.toks[start].span.start,
        items_placed(input, open, values, pos),
    ensures
        input.fields(depth, pos, path, names, spans, values) matches Ok((t, q)) ==> value_placed(
            input,
            start,
            t,
            q,
        ),
    decreases MAX_NESTING_DEPTH - depth, input.toks.len() - pos, 6nat,
{
    if input.fields(depth, pos, path, names, spans, values) is Ok {
        if input.kind(pos) == TokenKind::RBrace {
            let (t, q) = input.fields_end(pos, path, names, spans, values)->Ok_0;
            lemma_body_placed(input, start, open, values, pos, t);
        } else {
            let ident = input.tok(pos);
            lemma_value_advances(input, depth, pos + 2);
            lemma_value_spans(input, depth, pos + 2);
            let (value, q) = input.value(depth, pos + 2)->Ok_0;
            let items = values.push(value);
            lemma_items_later(input, open, values, pos, pos + 2);
            if input.kind(q) == TokenKind::Comma {
                lemma_items_push(input, open, values, pos + 2, value, q, q + 1);
                lemma_fields_spans(
                    input,
                    depth,
                    start,
                    open,
                    q + 1,
                    path,
                    names.push(ident.text),
                    spans.push(ident.span),
                    items,
                );
            } else {
                lemma_items_push(input, open, values, pos + 2, value, q, q);
                let (t, r) = input.fields_end(
                    q,
                    path,
                    names.push(ident.text),
                    spans.push(ident.span),
                    items,
                )->Ok_0;
                lemma_body_placed(input, start, open, items, q, t);
            }
        }
    }
}

/// Values that end before a token end before a later token.
proof fn lemma_items_later(input: Input, pos: int, items: Seq<Tree>, q: int, r: int)
    requires
        in_order(input),
        items_placed(input, pos, items, q),
        q <= r < input.toks.len(),
    ensures
        items_placed(input, pos, items, r),
{
    lemma_toks(input, q, r);
    assert forall|i: int| 0 <= i < items.len() implies tree_spans(input, #[trigger] items[i])
        && input.toks[pos].span.start <= items[i].span.start && items[i].span.end
        <= input.toks[r].span.start by {
        assert(tree_spans(input, items[i]));
    }
}

// -- entities ---------------------------------------------------------------------------------

/// A node parsed from `pos` up to `q`.
pub open spec fn node_placed(input: Input, pos: int, t: NodeTree, q: int) -> bool {
    spans_all(input, t.span, pos, q) && node_spans(input, t)
}

/// Nodes parsed one after the other, from `pos` up to `q`.
pub open spec fn nodes_placed(input: Input, pos: int, items: Seq<NodeTree>, q: int) -> bool {
    &&& 0 <= pos <= q < input.toks.len()
    &&& forall|i: int|
        0 <= i < items.len() ==> node_spans(input, #[trigger] items[i])
            && input.toks[pos].span.start <= items[i].span.start && items[i].span.end
            <= input.toks[q].span.start
    &&& forall|i: int, j: int|
        0 <= i < j < items.len() ==> (#[trigger] items[i]).span.end <= (
        #[trigger] items[j]).span.start
}

proof fn lemma_nodes_push(
    input: Input,
    pos: int,
    items: Seq<NodeTree>,
    at: int,
    t: NodeTree,
    q: int,
    next: int,
)
    requires
        in_order(input),
        nodes_placed(input, pos, items, at),
        node_placed(input, at, t, q),
        q <= next < input.toks.len(),
    ensures
        nodes_placed(input, pos, items.push(t), next),
{
    let all = items.push(t);
    lemma_of_tokens(input, at, q - 1);
    lemma_toks(input, pos, at);
    lemma_toks(input, at, next);
    lemma_toks(input, q - 1, next);
    assert forall|i: int| 0 <= i < all.len() implies node_spans(input, #[trigger] all[i])
        && input.toks[pos].span.start <= all[i].span.start && all[i].span.end
        <= input.toks[next].span.start by {
        if i < items.len() {
            assert(node_spans(input, items[i]));
        }
    }
    assert forall|i: int, j: int| 0 <= i < j < all.len() implies (#[trigger] all[i]).span.end <= (
    #[trigger] all[j]).span.start by {
        if j < items.len() {
            assert(items[i].span.end <= items[j].span.start);
        } else {
            assert(node_spans(input, items[i]));
        }
    }
}

/// Nodes that end before a token end before a later token.
proof fn lemma_nodes_later(input: Input, pos: int, items: Seq<NodeTree>, q: int, r: int)
    requires
        in_order(input),
        nodes_placed(input, pos, items, q),
        q <= r < input.toks.len(),
    ensures
        nodes_placed(input, pos, items, r),
{
    lemma_toks(input, q, r);
    assert forall|i: int| 0 <= i < items.len() implies node_spans(input, #[trigger] items[i])
        && input.toks[pos].span.start <= items[i].span.start && items[i].span.end
        <= input.toks[r].span.start by {
        assert(node_spans(input, items[i]));
    }
}

/// A node whose children lie between two of its tokens.
proof fn lemma_node_placed(
    input: Input,
    pos: int,
    start: int,
    items: Seq<NodeTree>,
    end: int,
    t: NodeTree,
    q: int,
)
    requires
        in_order(input),
        0 <= pos <= start <= end <= q < input.toks.len(),
        pos < q,
        nodes_placed(input, start, items, end),
        end < q || (forall|i: int|
            0 <= i < items.len() ==> (#[trigger] items[i]).span.end
                <= input.toks[q - 1].span.end),
        !(t.head is Patch),
        t.head matches NodeHead::Entity { name_span, base_span, .. } ==> labels_placed(
            input,
            name_span,
            base_span,
        ),
        t.children == items,
        t.span == from_to(input, pos, q - 1),
    ensures
        node_placed(input, pos, t, q),
{
    lemma_of_tokens(input, pos, q - 1);
    lemma_toks(input, pos, start);
    if end < q {
        lemma_toks(input, end, q - 1);
    }
    assert forall|i: int| 0 <= i < t.children.len() implies inside(
        (#[trigger] t.children[i]).span,
        t.span,
    ) && node_spans(input, t.children[i]) by {
        assert(node_spans(input, items[i]));
        if end < q && end < input.toks.len() - 1 {
            lemma_toks(input, end, end);
        }
    }
}

pub proof fn lemma_entity_spans(input: Input, depth: nat, pos: int)
    requires
        in_order(input),
        0 <= pos < input.toks.len(),
    ensures
        input.entity(depth, pos) matches Ok((t, q)) ==> node_placed(input, pos, t, q),
    decreases MAX_NESTING_DEPTH - depth, input.toks.len() - pos, 0nat,
{
    if input.too_deep(depth, pos) is None {
        lemma_entity_inner_spans(input, depth + 1, pos);
    }
}

/// The parts of an entity whose entries were parsed from `start` on; the last of them ends
/// with the token before `pos`, if it is not the name that does.
spec fn parts_placed(input: Input, start: int, parts: Parts, pos: int) -> bool {
    &&& nodes_placed(input, start, parts.entries, pos)
    &&& labels_placed(input, parts.name_span, parts.base_span)
    &&& forall|i: int|
        0 <= i < parts.entries.len() ==> (#[trigger] parts.entries[i]).span.end
            <= input.toks[pos - 1].span.end
    &&& parts.entries.len() > 0 ==> start < pos
}

#[verifier::rlimit(50)]
proof fn lemma_entity_inner_spans(input: Input, depth: nat, pos: int)
    requires
        in_order(input),
        0 <= pos < input.toks.len(),
    ensures
        input.entity_inner(depth, pos) matches Ok((t, q)) ==> node_placed(input, pos, t, q),
    decreases MAX_NESTING_DEPTH - depth, input.toks.len() - pos, 13nat,
{
    if let Ok((t, r)) = input.entity_inner(depth, pos) {
        let parenthesized = input.kind(pos) == TokenKind::LParen;
        let body = if parenthesized {
            pos + 1
        } else {
            pos
        };
        let (parts, q) = input.base(body)->Ok_0;
        assert(nodes_placed(input, q, parts.entries, q));
        lemma_base_span(input, body);
        lemma_entries_stays(input, depth, q, parenthesized, parts);
        lemma_entries_spans(input, depth, q, q, parenthesized, parts);
        let (all, e) = input.entries(depth, q, parenthesized, parts)->Ok_0;
        lemma_entity_advances_inner(input, depth, pos);
        lemma_node_placed(input, pos, q, all.entries, e, t, r);
    }
}

/// The span of two tokens in a row.
proof fn lemma_two_tokens(input: Input, pos: int)
    requires
        in_order(input),
        0 <= pos < input.toks.len() - 2,
    ensures
        of_tokens(input, input.tok(pos).span.spec_join(input.tok(pos + 1).span)),
{
    lemma_of_tokens(input, pos, pos + 1);
    lemma_toks(input, pos, pos + 1);
    assert(input.tok(pos) == input.toks[pos]);
    assert(input.tok(pos + 1) == input.toks[pos + 1]);
    assert(input.tok(pos).span.spec_join(input.tok(pos + 1).span) == from_to(input, pos, pos + 1));
}

proof fn lemma_base_span(input: Input, pos: int)
    requires
        in_order(input),
        0 <= pos < input.toks.len(),
        input.base(pos) is Ok,
    ensures
        labels_placed(
            input,
            input.base(pos)->Ok_0.0.name_span,
            input.base(pos)->Ok_0.0.base_span,
        ),
{
    reveal(labels_placed);
    if input.kind(pos) == TokenKind::Colon {
        assert(input.kind(pos + 1) == TokenKind::Str);
        lemma_two_tokens(input, pos);
    }
}

proof fn lemma_entity_advances_inner(input: Input, depth: nat, pos: int)
    requires
        in_order(input),
        0 <= pos < input.toks.len(),
    ensures
        crate::progress::advances(input, pos, input.entity_inner(depth, pos)),
{
    crate::progress::lemma_entity_inner_advances(input, depth, pos);
}

#[verifier::rlimit(50)]
proof fn lemma_entries_spans(
    input: Input,
    depth: nat,
    start: int,
    pos: int,
    parenthesized: bool,
    parts: Parts,
)
    requires
        in_order(input),
        0 <= start <= pos < input.toks.len(),
        parts_placed(input, start, parts, pos),
    ensures
        input.entries(depth, pos, parenthesized, parts) matches Ok((all, q)) ==> parts_placed(
            input,
            start,
            all,
            q,
        ),
    decreases MAX_NESTING_DEPTH - depth, input.toks.len() - pos, 12nat,
{
    if !is_stop(input.kind(pos), parenthesized) {
        lemma_entry_advances(input, depth, pos, parts);
        lemma_entry_spans(input, depth, start, pos, parts);
        if let Ok((more, q)) = input.entry(depth, pos, parts) {
            lemma_entries_spans(input, depth, start, q, parenthesized, more);
        }
    }
}

#[verifier::rlimit(50)]
proof fn lemma_entry_spans(input: Input, depth: nat, start: int, pos: int, parts: Parts)
    requires
        in_order(input),
        0 <= start <= pos < input.toks.len(),
        parts_placed(input, start, parts, pos),
    ensures
        input.entry(depth, pos, parts) matches Ok((more, q)) ==> parts_placed(input, start, more, q),
    decreases MAX_NESTING_DEPTH - depth, input.toks.len() - pos, 11nat,
{
    let t = input.tok(pos);
    if let Ok((more, q)) = input.entry(depth, pos, parts) {
        if t.kind == TokenKind::Hash {
            lemma_two_tokens(input, pos);
            assert(labels_placed(input, more.name_span, more.base_span)) by {
                reveal(labels_placed);
            }
            lemma_nodes_later(input, start, parts.entries, pos, q);
            lemma_parts_later(input, start, parts, pos, q);
        } else {
            let (at, prefix) = match t.kind {
                TokenKind::Tilde => (pos + 1, BsnPatchPrefix::Template),
                TokenKind::At => (pos + 1, BsnPatchPrefix::SceneComponent),
                _ => (pos, BsnPatchPrefix::FromTemplate),
            };
            assert(input.entry(depth, pos, parts) == input.patch(depth, at, prefix, t.span, parts));
            lemma_patch_spans(input, depth, start, pos, at, prefix, parts);
        }
    }
}

proof fn lemma_parts_later(input: Input, start: int, parts: Parts, pos: int, q: int)
    requires
        in_order(input),
        0 <= start <= pos < q < input.toks.len(),
        parts_placed(input, start, parts, pos),
    ensures
        forall|i: int|
            0 <= i < parts.entries.len() ==> (#[trigger] parts.entries[i]).span.end
                <= input.toks[q - 1].span.end,
{
    if parts.entries.len() > 0 {
        lemma_toks(input, pos - 1, q - 1);
    }
}

/// An entry that starts at `pos`, whose path starts at `at`.
#[verifier::rlimit(50)]
proof fn lemma_patch_spans(
    input: Input,
    depth: nat,
    start: int,
    pos: int,
    at: int,
    prefix: BsnPatchPrefix,
    parts: Parts,
)
    requires
        in_order(input),
        0 <= start <= pos <= at < input.toks.len(),
        parts_placed(input, start, parts, pos),
    ensures
        input.patch(depth, at, prefix, input.tok(pos).span, parts) matches Ok((more, q))
            ==> parts_placed(input, start, more, q),
    decreases MAX_NESTING_DEPTH - depth, input.toks.len() - at, 10nat,
{
    let first = input.tok(pos).span;
    if let Ok((more, r)) = input.patch(depth, at, prefix, first, parts) {
        lemma_path_advances(input, depth, at);
        lemma_path_spans(input, depth, at);
        let (path, q) = input.path(depth, at)->Ok_0;
        let entry = more.entries.last();
        if input.kind(q) == TokenKind::LBracket {
            lemma_entity_list_stays(input, depth, q + 1, TokenKind::RBracket, Seq::empty());
            lemma_list_spans(
                input,
                depth,
                q + 1,
                q + 1,
                TokenKind::RBracket,
                Seq::empty(),
            );
            let (entities, e) = input.entity_list(
                depth,
                q + 1,
                TokenKind::RBracket,
                Seq::empty(),
            )->Ok_0;
            lemma_node_placed(input, pos, q + 1, entities, e, entry, r);
        } else {
            lemma_path_body_stays(input, depth, q, path);
            lemma_body_spans(input, depth, at, q, path);
            let (value, e) = input.path_body(depth, q, path)->Ok_0;
            lemma_patch_placed(input, pos, at, value, entry, r);
        }
        lemma_nodes_push(input, start, parts.entries, pos, entry, r, r);
        lemma_of_tokens(input, pos, r - 1);
        lemma_parts_later(input, start, parts, pos, r);
        assert(more == with_entry(parts, entry));
    }
}

proof fn lemma_patch_placed(
    input: Input,
    pos: int,
    at: int,
    value: Tree,
    entry: NodeTree,
    q: int,
)
    requires
        in_order(input),
        0 <= pos <= at < q < input.toks.len(),
        value_placed(input, at, value, q),
        entry.head matches NodeHead::Patch { value: v, .. } && v == value,
        entry.children.len() == 0,
        entry.span == from_to(input, pos, q - 1),
    ensures
        node_placed(input, pos, entry, q),
{
    lemma_of_tokens(input, pos, q - 1);
    lemma_toks(input, pos, at);
}

#[verifier::rlimit(50)]
pub proof fn lemma_list_spans(
    input: Input,
    depth: nat,
    start: int,
    pos: int,
    close: TokenKind,
    items: Seq<NodeTree>,
)
    requires
        in_order(input),
        0 <= pos < input.toks.len(),
        nodes_placed(input, start, items, pos),
    ensures
        input.entity_list(depth, pos, close, items) matches Ok((all, q)) ==> nodes_placed(
            input,
            start,
            all,
            q,
        ),
    decreases MAX_NESTING_DEPTH - depth, input.toks.len() - pos, 1nat,
{
    if input.bad(pos) is None && input.kind(pos) != close {
        lemma_entity_advances(input, depth, pos);
        lemma_entity_spans(input, depth, pos);
        if let Ok((item, q)) = input.entity(depth, pos) {
            if input.kind(q) == TokenKind::Comma {
                if q + 1 < input.toks.len() {
                    lemma_nodes_push(input, start, items, pos, item, q, q + 1);
                    lemma_list_spans(input, depth, start, q + 1, close, items.push(item));
                }
            } else {
                lemma_nodes_push(input, start, items, pos, item, q, q);
            }
        }
    }
}

} // verus!
