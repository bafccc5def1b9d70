//! Every production that succeeds consumes at least one token and stops before the end of the
//! input; none of them gets stuck.

use vstd::prelude::*;

use crate::ast::BsnPatchPrefix;
use crate::error::MAX_NESTING_DEPTH;
use crate::grammar::{path_problem, Input, NodeTree, Parsed, Parts, Tree};
use crate::model::{Head, Path, Segment};
use crate::span::Span;
use crate::token::TokenKind;
use crate::unsupported;

verus! {

impl Input {
    /// The tokens end with the only `Eof` among them.
    pub open spec fn wf(self) -> bool {
        &&& self.toks.len() > 0
        &&& forall|i: int|
            0 <= i < self.toks.len() ==> ((#[trigger] self.toks[i]).kind == TokenKind::Eof <==> i
                == self.toks.len() - 1)
    }
}

/// The outcome of a production that started at `pos` and must consume a token.
pub open spec fn advances<T>(input: Input, pos: int, outcome: Parsed<T>) -> bool {
    match outcome {
        Ok((_, q)) => pos < q < input.toks.len(),
        Err(e) => !(e.kind is Internal),
    }
}

/// The outcome of a production that started at `pos` and may consume nothing.
pub open spec fn stays<T>(input: Input, pos: int, outcome: Parsed<T>) -> bool {
    match outcome {
        Ok((_, q)) => pos <= q < input.toks.len(),
        Err(e) => !(e.kind is Internal),
    }
}

pub proof fn lemma_path_advances(input: Input, depth: nat, pos: int)
    requires
        input.wf(),
        0 <= pos < input.toks.len(),
    ensures
        advances(input, pos, input.path(depth, pos)),
    decreases MAX_NESTING_DEPTH - depth, input.toks.len() - pos, 0nat,
{
    if input.too_deep(depth, pos) is None {
        lemma_path_inner_advances(input, depth + 1, pos);
    }
}

pub proof fn lemma_path_inner_advances(input: Input, depth: nat, pos: int)
    requires
        input.wf(),
        0 <= pos < input.toks.len(),
    ensures
        advances(input, pos, input.path_inner(depth, pos)),
    decreases MAX_NESTING_DEPTH - depth, input.toks.len() - pos, 3nat,
{
    if input.bad(pos) is None && input.kind(pos) != TokenKind::ColonColon {
        lemma_segment_advances(input, depth, pos);
        if let Ok((segment, q)) = input.segment(depth, pos) {
            lemma_more_segments_stays(input, depth, q, seq![segment]);
        }
    }
}

pub proof fn lemma_more_segments_stays(
    input: Input,
    depth: nat,
    pos: int,
    segments: Seq<Segment>,
)
    requires
        input.wf(),
        0 <= pos < input.toks.len(),
    ensures
        stays(input, pos, input.more_segments(depth, pos, segments)),
    decreases MAX_NESTING_DEPTH - depth, input.toks.len() - pos, 3nat,
{
    if input.kind(pos) == TokenKind::ColonColon {
        lemma_segment_advances(input, depth, pos + 1);
        if let Ok((segment, q)) = input.segment(depth, pos + 1) {
            lemma_more_segments_stays(input, depth, q, segments.push(segment));
        }
    }
}

pub proof fn lemma_segment_advances(input: Input, depth: nat, pos: int)
    requires
        input.wf(),
        0 <= pos < input.toks.len(),
    ensures
        advances(input, pos, input.segment(depth, pos)),
    decreases MAX_NESTING_DEPTH - depth, input.toks.len() - pos, 2nat,
{
    if input.token(pos, TokenKind::Ident, seq!["identifier"@]) is Ok && input.kind(pos + 1)
        == TokenKind::Lt {
        lemma_path_list_stays(input, depth, pos + 2, Seq::empty());
    }
}

pub proof fn lemma_path_list_stays(input: Input, depth: nat, pos: int, items: Seq<Path>)
    requires
        input.wf(),
        0 <= pos < input.toks.len(),
    ensures
        stays(input, pos, input.path_list(depth, pos, items)),
    decreases MAX_NESTING_DEPTH - depth, input.toks.len() - pos, 1nat,
{
    if input.bad(pos) is None && input.kind(pos) != TokenKind::Gt {
        lemma_path_advances(input, depth, pos);
        if let Ok((item, q)) = input.path(depth, pos) {
            if input.kind(q) == TokenKind::Comma {
                lemma_path_list_stays(input, depth, q + 1, items.push(item));
            }
        }
    }
}

pub proof fn lemma_value_advances(input: Input, depth: nat, pos: int)
    requires
        input.wf(),
        0 <= pos < input.toks.len(),
    ensures
        advances(input, pos, input.value(depth, pos)),
    decreases MAX_NESTING_DEPTH - depth, input.toks.len() - pos, 0nat,
{
    if input.too_deep(depth, pos) is None {
        lemma_value_inner_advances(input, depth + 1, pos);
    }
}

pub proof fn lemma_value_inner_advances(input: Input, depth: nat, pos: int)
    requires
        input.wf(),
        0 <= pos < input.toks.len(),
    ensures
        advances(input, pos, input.value_inner(depth, pos)),
    decreases MAX_NESTING_DEPTH - depth, input.toks.len() - pos, 9nat,
{
    let t = input.tok(pos);
    if input.bad(pos) is None {
        match t.kind {
            TokenKind::LBracket => {
                lemma_bracketed_advances(
                    input,
                    depth,
                    pos,
                    TokenKind::RBracket,
                    seq!["`,`"@, "`]`"@],
                    t.span,
                    Head::List,
                );
            },
            TokenKind::LParen => {
                lemma_paren_value_advances(input, depth, pos);
            },
            TokenKind::Ident => {
                lemma_path_value_advances(input, depth, pos);
            },
            _ => {},
        }
    }
}

pub proof fn lemma_bracketed_advances(
    input: Input,
    depth: nat,
    pos: int,
    close: TokenKind,
    expected: Seq<Seq<char>>,
    first: Span,
    head: Head,
)
    requires
        input.wf(),
        0 <= pos < input.toks.len() - 1,
        close != TokenKind::Eof,
    ensures
        advances(input, pos, input.bracketed(depth, pos, close, expected, first, head)),
    decreases MAX_NESTING_DEPTH - depth, input.toks.len() - pos, 5nat,
{
    lemma_value_list_stays(input, depth, pos + 1, close, Seq::empty());
}

pub proof fn lemma_paren_value_advances(input: Input, depth: nat, pos: int)
    requires
        input.wf(),
        0 <= pos < input.toks.len() - 1,
    ensures
        advances(input, pos, input.paren_value(depth, pos)),
    decreases MAX_NESTING_DEPTH - depth, input.toks.len() - pos, 8nat,
{
    if input.kind(pos + 1) != TokenKind::RParen {
        if !input.comma_ahead(pos + 1, 0, 0) {
            lemma_value_advances(input, depth, pos + 1);
        } else {
            lemma_bracketed_advances(
                input,
                depth,
                pos,
                TokenKind::RParen,
                seq!["`,`"@, "`)`"@],
                input.tok(pos).span,
                Head::Tuple,
            );
        }
    }
}

pub proof fn lemma_value_list_stays(
    input: Input,
    depth: nat,
    pos: int,
    close: TokenKind,
    items: Seq<Tree>,
)
    requires
        input.wf(),
        0 <= pos < input.toks.len(),
    ensures
        stays(input, pos, input.value_list(depth, pos, close, items)),
    decreases MAX_NESTING_DEPTH - depth, input.toks.len() - pos, 4nat,
{
    if input.bad(pos) is None && input.kind(pos) != close {
        lemma_value_advances(input, depth, pos);
        if let Ok((item, q)) = input.value(depth, pos) {
            if input.kind(q) == TokenKind::Comma {
                lemma_value_list_stays(input, depth, q + 1, close, items.push(item));
            }
        }
    }
}

pub proof fn lemma_path_value_advances(input: Input, depth: nat, pos: int)
    requires
        input.wf(),
        0 <= pos < input.toks.len(),
    ensures
        advances(input, pos, input.path_value(depth, pos)),
    decreases MAX_NESTING_DEPTH - depth, input.toks.len() - pos, 8nat,
{
    lemma_path_advances(input, depth, pos);
    if let Ok((path, q)) = input.path(depth, pos) {
        if input.bad(q) is None && path_problem(path, unsupported::PATH_CASE@) is None {
            lemma_path_body_stays(input, depth, q, path);
        }
    }
}

pub proof fn lemma_path_body_stays(input: Input, depth: nat, pos: int, path: Path)
    requires
        input.wf(),
        0 <= pos < input.toks.len(),
    ensures
        stays(input, pos, input.path_body(depth, pos, path)),
    decreases MAX_NESTING_DEPTH - depth, input.toks.len() - pos, 7nat,
{
    if input.kind(pos) == TokenKind::LBrace {
        lemma_fields_advances(
            input,
            depth,
            pos + 1,
            path,
            Seq::empty(),
            Seq::empty(),
            Seq::empty(),
        );
    } else if input.kind(pos) == TokenKind::LParen {
        lemma_bracketed_advances(
            input,
            depth,
            pos,
            TokenKind::RParen,
            seq!["`,`"@, "`)`"@],
            path.span,
            Head::NamedTuple(path),
        );
    }
}

pub proof fn lemma_fields_advances(
    input: Input,
    depth: nat,
    pos: int,
    path: Path,
    names: Seq<Seq<char>>,
    spans: Seq<Span>,
    values: Seq<Tree>,
)
    requires
        input.wf(),
        0 <= pos < input.toks.len(),
    ensures
        advances(input, pos, input.fields(depth, pos, path, names, spans, values)),
    decreases MAX_NESTING_DEPTH - depth, input.toks.len() - pos, 6nat,
{
    if input.bad(pos) is None && input.kind(pos) != TokenKind::RBrace && input.kind(pos)
        != TokenKind::At {
        if let Ok(ident) = input.token(pos, TokenKind::Ident, seq!["identifier"@, "`}`"@]) {
            if input.kind(pos + 1) == TokenKind::Colon {
                lemma_value_advances(input, depth, pos + 2);
                if let Ok((value, q)) = input.value(depth, pos + 2) {
                    if input.kind(q) == TokenKind::Comma {
                        lemma_fields_advances(
                            input,
                            depth,
                            q + 1,
                            path,
                            names.push(ident.text),
                            spans.push(ident.span),
                            values.push(value),
                        );
                    }
                }
            }
        }
    }
}

pub proof fn lemma_entity_advances(input: Input, depth: nat, pos: int)
    requires
        input.wf(),
        0 <= pos < input.toks.len(),
    ensures
        advances(input, pos, input.entity(depth, pos)),
    decreases MAX_NESTING_DEPTH - depth, input.toks.len() - pos, 0nat,
{
    if input.too_deep(depth, pos) is None {
        lemma_entity_inner_advances(input, depth + 1, pos);
    }
}

pub proof fn lemma_entity_inner_advances(input: Input, depth: nat, pos: int)
    requires
        input.wf(),
        0 <= pos < input.toks.len(),
    ensures
        advances(input, pos, input.entity_inner(depth, pos)),
    decreases MAX_NESTING_DEPTH - depth, input.toks.len() - pos, 13nat,
{
    if input.bad(pos) is None {
        let parenthesized = input.kind(pos) == TokenKind::LParen;
        let body = if parenthesized {
            pos + 1
        } else {
            pos
        };
        if let Ok((parts, q)) = input.base(body) {
            lemma_entries_stays(input, depth, q, parenthesized, parts);
        }
    }
}

pub proof fn lemma_entries_stays(
    input: Input,
    depth: nat,
    pos: int,
    parenthesized: bool,
    parts: Parts,
)
    requires
        input.wf(),
        0 <= pos < input.toks.len(),
    ensures
        stays(input, pos, input.entries(depth, pos, parenthesized, parts)),
    decreases MAX_NESTING_DEPTH - depth, input.toks.len() - pos, 12nat,
{
    if !crate::grammar::is_stop(input.kind(pos), parenthesized) {
        lemma_entry_advances(input, depth, pos, parts);
        if let Ok((parts, q)) = input.entry(depth, pos, parts) {
            lemma_entries_stays(input, depth, q, parenthesized, parts);
        }
    }
}

pub proof fn lemma_entry_advances(input: Input, depth: nat, pos: int, parts: Parts)
    requires
        input.wf(),
        0 <= pos < input.toks.len(),
    ensures
        advances(input, pos, input.entry(depth, pos, parts)),
    decreases MAX_NESTING_DEPTH - depth, input.toks.len() - pos, 11nat,
{
    let t = input.tok(pos);
    if input.bad(pos) is None {
        match t.kind {
            TokenKind::Tilde => {
                lemma_patch_advances(
                    input,
                    depth,
                    pos + 1,
                    BsnPatchPrefix::Template,
                    t.span,
                    parts,
                );
            },
            TokenKind::At => {
                lemma_patch_advances(
                    input,
                    depth,
                    pos + 1,
                    BsnPatchPrefix::SceneComponent,
                    t.span,
                    parts,
                );
            },
            TokenKind::Ident => {
                lemma_patch_advances(
                    input,
                    depth,
                    pos,
                    BsnPatchPrefix::FromTemplate,
                    t.span,
                    parts,
                );
            },
            _ => {},
        }
    }
}

pub proof fn lemma_patch_advances(
    input: Input,
    depth: nat,
    pos: int,
    prefix: BsnPatchPrefix,
    first: Span,
    parts: Parts,
)
    requires
        input.wf(),
        0 <= pos < input.toks.len(),
    ensures
        advances(input, pos, input.patch(depth, pos, prefix, first, parts)),
    decreases MAX_NESTING_DEPTH - depth, input.toks.len() - pos, 10nat,
{
    lemma_path_advances(input, depth, pos);
    if let Ok((path, q)) = input.path(depth, pos) {
        if input.bad(q) is None && path_problem(path, unsupported::FN@) is None {
            if input.kind(q) == TokenKind::LBracket {
                if prefix == BsnPatchPrefix::FromTemplate {
                    lemma_entity_list_stays(
                        input,
                        depth,
                        q + 1,
                        TokenKind::RBracket,
                        Seq::empty(),
                    );
                }
            } else {
                lemma_path_body_stays(input, depth, q, path);
            }
        }
    }
}

pub proof fn lemma_entity_list_stays(
    input: Input,
    depth: nat,
    pos: int,
    close: TokenKind,
    items: Seq<NodeTree>,
)
    requires
        input.wf(),
        0 <= pos < input.toks.len(),
    ensures
        stays(input, pos, input.entity_list(depth, pos, close, items)),
    decreases MAX_NESTING_DEPTH - depth, input.toks.len() - pos, 1nat,
{
    if input.bad(pos) is None && input.kind(pos) != close {
        lemma_entity_advances(input, depth, pos);
        if let Ok((item, q)) = input.entity(depth, pos) {
            if input.kind(q) == TokenKind::Comma {
                lemma_entity_list_stays(input, depth, q + 1, close, items.push(item));
            }
        }
    }
}

} // verus!
