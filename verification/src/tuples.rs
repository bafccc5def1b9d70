//! Parentheses around values: a value by itself stays what it is, and a comma makes a tuple.

use vstd::prelude::*;

use crate::error::MAX_NESTING_DEPTH;
use crate::grammar::{Input, Tree};
use crate::model::{Head, Path, Segment};
use crate::progress::{
    lemma_path_advances, lemma_path_body_stays, lemma_path_list_stays, lemma_segment_advances,
    lemma_value_advances, lemma_value_list_stays,
};
use crate::span::Span;
use crate::token::TokenKind;

verus! {

/// Whether the tokens from `pos` to `q` are passed over in a search for a comma, `depth` brackets
/// and `angles` angle brackets in.
spec fn passes(input: Input, pos: int, q: int, depth: nat, angles: nat) -> bool {
    input.comma_ahead(pos, depth, angles) == input.comma_ahead(q, depth, angles)
}

proof fn lemma_path(input: Input, level: nat, pos: int, depth: nat, angles: nat)
    requires
        input.wf(),
        0 <= pos < input.toks.len(),
    ensures
        input.path(level, pos) matches Ok((path, q)) ==> passes(input, pos, q, depth, angles),
    decreases MAX_NESTING_DEPTH - level, input.toks.len() - pos, 0nat,
{
    if input.too_deep(level, pos) is None && input.path(level, pos) is Ok {
        lemma_segment_advances(input, level + 1, pos);
        lemma_segment(input, level + 1, pos, depth, angles);
        let (segment, q) = input.segment(level + 1, pos)->Ok_0;
        lemma_more(input, level + 1, q, seq![segment], depth, angles);
    }
}

proof fn lemma_more(
    input: Input,
    level: nat,
    pos: int,
    segments: Seq<Segment>,
    depth: nat,
    angles: nat,
)
    requires
        input.wf(),
        0 <= pos < input.toks.len(),
    ensures
        input.more_segments(level, pos, segments) matches Ok((path, q)) ==> passes(
            input,
            pos,
            q,
            depth,
            angles,
        ),
    decreases MAX_NESTING_DEPTH - level, input.toks.len() - pos, 3nat,
{
    if input.kind(pos) == TokenKind::ColonColon && pos + 1 < input.toks.len() {
        lemma_segment_advances(input, level, pos + 1);
        if let Ok((segment, q)) = input.segment(level, pos + 1) {
            lemma_segment(input, level, pos + 1, depth, angles);
            lemma_more(input, level, q, segments.push(segment), depth, angles);
        }
    }
}

proof fn lemma_segment(input: Input, level: nat, pos: int, depth: nat, angles: nat)
    requires
        input.wf(),
        0 <= pos < input.toks.len(),
    ensures
        input.segment(level, pos) matches Ok((segment, q)) ==> passes(
            input,
            pos,
            q,
            depth,
            angles,
        ),
    decreases MAX_NESTING_DEPTH - level, input.toks.len() - pos, 2nat,
{
    if let Ok((segment, q)) = input.segment(level, pos) {
        assert(passes(input, pos, pos + 1, depth, angles));
        if input.kind(pos + 1) == TokenKind::Lt {
            lemma_path_list_stays(input, level, pos + 2, Seq::empty());
            lemma_path_list(input, level, pos + 2, Seq::empty(), depth, angles + 1);
            assert(input.toks[pos + 1].kind == TokenKind::Lt);
            assert(input.toks[q - 1].kind == TokenKind::Gt);
            assert(input.comma_ahead(pos + 1, depth, angles) == input.comma_ahead(
                pos + 2,
                depth,
                angles + 1,
            ));
            assert(input.comma_ahead(q - 1, depth, angles + 1) == input.comma_ahead(
                q,
                depth,
                angles,
            ));
        }
    }
}

proof fn lemma_path_list(
    input: Input,
    level: nat,
    pos: int,
    items: Seq<Path>,
    depth: nat,
    angles: nat,
)
    requires
        input.wf(),
        0 <= pos < input.toks.len(),
        angles > 0,
    ensures
        input.path_list(level, pos, items) matches Ok((paths, q)) ==> passes(
            input,
            pos,
            q,
            depth,
            angles,
        ),
    decreases MAX_NESTING_DEPTH - level, input.toks.len() - pos, 1nat,
{
    if input.bad(pos) is None && input.kind(pos) != TokenKind::Gt {
        lemma_path_advances(input, level, pos);
        if let Ok((item, q)) = input.path(level, pos) {
            lemma_path(input, level, pos, depth, angles);
            if input.kind(q) == TokenKind::Comma && q + 1 < input.toks.len() {
                assert(passes(input, q, q + 1, depth, angles));
                lemma_path_list(input, level, q + 1, items.push(item), depth, angles);
            }
        }
    }
}

proof fn lemma_value(input: Input, level: nat, pos: int, depth: nat, angles: nat)
    requires
        input.wf(),
        0 <= pos < input.toks.len(),
    ensures
        input.value(level, pos) matches Ok((t, q)) ==> passes(input, pos, q, depth, angles),
    decreases MAX_NESTING_DEPTH - level, input.toks.len() - pos, 0nat,
{
    if input.too_deep(level, pos) is None {
        lemma_value_inner(input, level + 1, pos, depth, angles);
    }
}

/// One token that is no bracket, comma or end is passed over.
spec fn is_plain(kind: TokenKind) -> bool {
    match kind {
        TokenKind::Int => true,
        TokenKind::Float => true,
        TokenKind::Str => true,
        TokenKind::Ident => true,
        TokenKind::Minus => true,
        TokenKind::Hash => true,
        TokenKind::Colon => true,
        _ => false,
    }
}

proof fn lemma_plain(input: Input, pos: int, depth: nat, angles: nat)
    requires
        0 <= pos < input.toks.len(),
        is_plain(input.kind(pos)),
    ensures
        passes(input, pos, pos + 1, depth, angles),
{
}

proof fn lemma_value_inner(input: Input, level: nat, pos: int, depth: nat, angles: nat)
    requires
        input.wf(),
        0 <= pos < input.toks.len(),
    ensures
        input.value_inner(level, pos) matches Ok((t, q)) ==> passes(input, pos, q, depth, angles),
    decreases MAX_NESTING_DEPTH - level, input.toks.len() - pos, 9nat,
{
    let tok = input.tok(pos);
    if let Ok((t, q)) = input.value_inner(level, pos) {
        match tok.kind {
            TokenKind::LBracket => {
                lemma_bracketed(
                    input,
                    level,
                    pos,
                    TokenKind::RBracket,
                    seq!["`,`"@, "`]`"@],
                    tok.span,
                    Head::List,
                    depth,
                    angles,
                );
            },
            TokenKind::LParen => {
                lemma_paren(input, level, pos, depth, angles);
            },
            TokenKind::Minus => {
                crate::progress::lemma_value_inner_advances(input, level, pos);
                lemma_plain(input, pos, depth, angles);
                lemma_plain(input, pos + 1, depth, angles);
            },
            TokenKind::Hash => {
                crate::progress::lemma_value_inner_advances(input, level, pos);
                lemma_plain(input, pos, depth, angles);
                lemma_plain(input, pos + 1, depth, angles);
            },
            TokenKind::Ident => {
                if q == pos + 1 {
                    lemma_plain(input, pos, depth, angles);
                } else {
                    lemma_path_value(input, level, pos, depth, angles);
                }
            },
            _ => {
                lemma_plain(input, pos, depth, angles);
            },
        }
    }
}

proof fn lemma_bracketed(
    input: Input,
    level: nat,
    pos: int,
    close: TokenKind,
    expected: Seq<Seq<char>>,
    first: Span,
    head: Head,
    depth: nat,
    angles: nat,
)
    requires
        input.wf(),
        0 <= pos < input.toks.len(),
        input.kind(pos) == TokenKind::LBracket && close == TokenKind::RBracket || input.kind(pos)
            == TokenKind::LParen && close == TokenKind::RParen,
    ensures
        input.bracketed(level, pos, close, expected, first, head) matches Ok((t, q)) ==> passes(
            input,
            pos,
            q,
            depth,
            angles,
        ),
    decreases MAX_NESTING_DEPTH - level, input.toks.len() - pos, 5nat,
{
    if let Ok((t, q)) = input.bracketed(level, pos, close, expected, first, head) {
        lemma_value_list_stays(input, level, pos + 1, close, Seq::empty());
        lemma_value_list(input, level, pos + 1, close, Seq::empty(), depth + 1, angles);
        assert(input.toks[q - 1].kind == close);
        assert(input.comma_ahead(pos, depth, angles) == input.comma_ahead(
            pos + 1,
            depth + 1,
            angles,
        ));
        assert(input.comma_ahead(q - 1, depth + 1, angles) == input.comma_ahead(
            q,
            depth,
            angles,
        ));
    }
}

proof fn lemma_paren(input: Input, level: nat, pos: int, depth: nat, angles: nat)
    requires
        input.wf(),
        0 <= pos < input.toks.len(),
        input.kind(pos) == TokenKind::LParen,
    ensures
        input.paren_value(level, pos) matches Ok((t, q)) ==> passes(input, pos, q, depth, angles),
    decreases MAX_NESTING_DEPTH - level, input.toks.len() - pos, 8nat,
{
    if let Ok((t, q)) = input.paren_value(level, pos) {
        assert(input.comma_ahead(pos, depth, angles) == input.comma_ahead(
            pos + 1,
            depth + 1,
            angles,
        ));
        if input.kind(pos + 1) == TokenKind::RParen {
            assert(input.comma_ahead(pos + 1, depth + 1, angles) == input.comma_ahead(
                pos + 2,
                depth,
                angles,
            ));
        } else if !input.comma_ahead(pos + 1, 0, 0) {
            lemma_value_advances(input, level, pos + 1);
            lemma_value(input, level, pos + 1, depth + 1, angles);
            assert(input.toks[q - 1].kind == TokenKind::RParen);
            assert(input.comma_ahead(q - 1, depth + 1, angles) == input.comma_ahead(
                q,
                depth,
                angles,
            ));
        } else {
            lemma_bracketed(
                input,
                level,
                pos,
                TokenKind::RParen,
                seq!["`,`"@, "`)`"@],
                input.tok(pos).span,
                Head::Tuple,
                depth,
                angles,
            );
        }
    }
}

proof fn lemma_value_list(
    input: Input,
    level: nat,
    pos: int,
    close: TokenKind,
    items: Seq<Tree>,
    depth: nat,
    angles: nat,
)
    requires
        input.wf(),
        0 <= pos < input.toks.len(),
        depth > 0,
    ensures
        input.value_list(level, pos, close, items) matches Ok((trees, q)) ==> passes(
            input,
            pos,
            q,
            depth,
            angles,
        ),
    decreases MAX_NESTING_DEPTH - level, input.toks.len() - pos, 4nat,
{
    if input.bad(pos) is None && input.kind(pos) != close {
        lemma_value_advances(input, level, pos);
        if let Ok((item, q)) = input.value(level, pos) {
            lemma_value(input, level, pos, depth, angles);
            if input.kind(q) == TokenKind::Comma && q + 1 < input.toks.len() {
                assert(passes(input, q, q + 1, depth, angles));
                lemma_value_list(input, level, q + 1, close, items.push(item), depth, angles);
            }
        }
    }
}

proof fn lemma_path_value(input: Input, level: nat, pos: int, depth: nat, angles: nat)
    requires
        input.wf(),
        0 <= pos < input.toks.len(),
    ensures
        input.path_value(level, pos) matches Ok((t, q)) ==> passes(input, pos, q, depth, angles),
    decreases MAX_NESTING_DEPTH - level, input.toks.len() - pos, 8nat,
{
    if let Ok((t, r)) = input.path_value(level, pos) {
        lemma_path_advances(input, level, pos);
        lemma_path(input, level, pos, depth, angles);
        let (path, q) = input.path(level, pos)->Ok_0;
        lemma_path_body_stays(input, level, q, path);
        if input.kind(q) == TokenKind::LBrace {
            lemma_fields(
                input,
                level,
                q + 1,
                path,
                Seq::empty(),
                Seq::empty(),
                Seq::empty(),
                depth,
                angles,
            );
            assert(input.comma_ahead(q, depth, angles) == input.comma_ahead(
                q + 1,
                depth + 1,
                angles,
            ));
        } else if input.kind(q) == TokenKind::LParen {
            lemma_bracketed(
                input,
                level,
                q,
                TokenKind::RParen,
                seq!["`,`"@, "`)`"@],
                path.span,
                Head::NamedTuple(path),
                depth,
                angles,
            );
        }
    }
}

/// The fields of a struct up to its closing brace.
proof fn lemma_fields(
    input: Input,
    level: nat,
    pos: int,
    path: Path,
    names: Seq<Seq<char>>,
    spans: Seq<Span>,
    values: Seq<Tree>,
    depth: nat,
    angles: nat,
)
    requires
        input.wf(),
        0 <= pos < input.toks.len(),
    ensures
        input.fields(level, pos, path, names, spans, values) matches Ok((t, q))
            ==> input.comma_ahead(pos, depth + 1, angles) == input.comma_ahead(q, depth, angles),
    decreases MAX_NESTING_DEPTH - level, input.toks.len() - pos, 6nat,
{
    if let Ok((t, r)) = input.fields(level, pos, path, names, spans, values) {
        if input.kind(pos) != TokenKind::RBrace {
            let ident = input.tok(pos);
            lemma_value_advances(input, level, pos + 2);
            lemma_value(input, level, pos + 2, depth + 1, angles);
            let (value, q) = input.value(level, pos + 2)->Ok_0;
            lemma_plain(input, pos, depth + 1, angles);
            lemma_plain(input, pos + 1, depth + 1, angles);
            if input.kind(q) == TokenKind::Comma {
                assert(passes(input, q, q + 1, depth + 1, angles));
                lemma_fields(
                    input,
                    level,
                    q + 1,
                    path,
                    names.push(ident.text),
                    spans.push(ident.span),
                    values.push(value),
                    depth,
                    angles,
                );
            } else {
                assert(input.toks[q].kind == TokenKind::RBrace);
            }
        }
    }
}

/// A value in parentheses is the value; where a comma follows it, it is the first item of a
/// tuple. Empty parentheses are a unit.
pub proof fn law_a_comma_makes_a_tuple(input: Input, level: nat, pos: int)
    requires
        input.wf(),
        0 <= pos,
        pos + 1 < input.toks.len(),
        input.kind(pos) == TokenKind::LParen,
    ensures
        input.kind(pos + 1) == TokenKind::RParen ==> (input.value_inner(level, pos) matches Ok((
            t,
            q,
        )) && t.head is Unit && t.children.len() == 0 && q == pos + 2),
        input.kind(pos + 1) != TokenKind::RParen ==> (input.value(level, pos + 1) matches Ok((v, r))
            ==> {
            &&& input.kind(r) == TokenKind::RParen ==> (input.value_inner(level, pos) matches Ok((
                t,
                q,
            )) && t == v && q == r + 1)
            &&& input.kind(r) == TokenKind::Comma ==> (input.value_inner(level, pos) matches Ok((
                t,
                q,
            )) ==> t.head is Tuple && t.children.len() > 0 && t.children[0] == v)
        }),
{
    if input.kind(pos + 1) != TokenKind::RParen {
        if let Ok((v, r)) = input.value(level, pos + 1) {
            lemma_value_advances(input, level, pos + 1);
            lemma_value(input, level, pos + 1, 0, 0);
            assert(input.value_inner(level, pos) == input.paren_value(level, pos));
            if input.kind(r) == TokenKind::Comma {
                assert(input.comma_ahead(r, 0, 0));
                let items = Seq::<Tree>::empty().push(v);
                assert(r + 1 < input.toks.len()) by {
                    assert(input.toks[r].kind == TokenKind::Comma);
                }
                assert(input.bad(pos + 1) is None);
                assert(input.value_list(level, pos + 1, TokenKind::RParen, Seq::empty())
                    == input.value_list(level, r + 1, TokenKind::RParen, items));
                lemma_first_stays(input, level, r + 1, TokenKind::RParen, items);
            } else if input.kind(r) == TokenKind::RParen {
                assert(!input.comma_ahead(r, 0, 0));
                assert(input.bad(r) is None);
            }
        }
    }
}

/// Further values of a list come behind those that are there.
proof fn lemma_first_stays(input: Input, level: nat, pos: int, close: TokenKind, items: Seq<Tree>)
    requires
        input.wf(),
        0 <= pos < input.toks.len(),
        items.len() > 0,
    ensures
        input.value_list(level, pos, close, items) matches Ok((trees, q)) ==> trees.len() > 0
            && trees[0] == items[0],
    decreases input.toks.len() - pos,
{
    if input.bad(pos) is None && input.kind(pos) != close {
        lemma_value_advances(input, level, pos);
        if let Ok((item, q)) = input.value(level, pos) {
            if input.kind(q) == TokenKind::Comma && q + 1 < input.toks.len() {
                lemma_first_stays(input, level, q + 1, close, items.push(item));
            }
        }
    }
}

} // verus!
