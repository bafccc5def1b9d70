//! Parentheses around the body of an entity, and its base.

use vstd::prelude::*;

use crate::grammar::{Input, NodeHead, Parts};
use crate::literal::string_value;
use crate::token::TokenKind;
use crate::error::MAX_NESTING_DEPTH;

verus! {

/// Entries that end at a closing parenthesis are the same with and without an opening one.
proof fn lemma_entries_alike(input: Input, depth: nat, pos: int, parts: Parts)
    ensures
        input.entries(depth, pos, true, parts) matches Ok((p, q)) ==> input.kind(q)
            == TokenKind::RParen ==> input.entries(depth, pos, false, parts) == input.entries(
            depth,
            pos,
            true,
            parts,
        ),
        input.entries(depth, pos, false, parts) matches Ok((p, q)) ==> input.kind(q)
            == TokenKind::RParen ==> input.entries(depth, pos, true, parts) == input.entries(
            depth,
            pos,
            false,
            parts,
        ),
    decreases MAX_NESTING_DEPTH - depth, input.toks.len() - pos,
{
    if let Ok((next, q)) = input.entry(depth, pos, parts) {
        if pos < q < input.toks.len() {
            lemma_entries_alike(input, depth, q, next);
        }
    }
}

/// Parentheses do not matter: an entity in parentheses is the entity that its body is by itself,
/// with the same name, base, patches and relations; and a body that is an entity by itself, up to
/// a closing parenthesis, is the same entity in parentheses.
pub proof fn law_parentheses_do_not_matter(input: Input, depth: nat, pos: int)
    requires
        0 <= pos,
        pos + 1 < input.toks.len(),
        input.kind(pos) == TokenKind::LParen,
        input.kind(pos + 1) != TokenKind::LParen,
        input.kind(pos + 1) != TokenKind::RParen,
    ensures
        input.entity_inner(depth, pos) matches Ok((t, q)) ==> {
            &&& input.kind(q - 1) == TokenKind::RParen
            &&& input.entity_inner(depth, pos + 1) matches Ok((u, r)) && r == q - 1 && u.head
                == t.head && u.children == t.children
        },
        input.entity_inner(depth, pos + 1) matches Ok((u, r)) ==> input.kind(r)
            == TokenKind::RParen ==> (input.entity_inner(depth, pos) matches Ok((t, q)) && q == r
            + 1 && t.head == u.head && t.children == u.children),
{
    if let Ok((parts, q)) = input.base(pos + 1) {
        lemma_entries_alike(input, depth, q, parts);
    }
}

/// Empty parentheses are an entity of which nothing is said.
pub proof fn law_empty_parentheses(input: Input, depth: nat, pos: int)
    requires
        0 <= pos,
        pos + 1 < input.toks.len(),
        input.kind(pos) == TokenKind::LParen,
        input.kind(pos + 1) == TokenKind::RParen,
    ensures
        input.entity_inner(depth, pos) matches Ok((t, q)) && q == pos + 2 && t.children.len() == 0
            && (t.head matches NodeHead::Entity { name, base, .. } && name is None && base is None),
{
}

/// Entries change no base, add at most one name, which is a `#` and an identifier among them, and
/// add to the entries that are there.
proof fn lemma_entries_add(input: Input, depth: nat, pos: int, parenthesized: bool, parts: Parts)
    requires
        0 <= pos,
    ensures
        input.entries(depth, pos, parenthesized, parts) matches Ok((p, q)) ==> {
            &&& q >= pos
            &&& p.base == parts.base
            &&& parts.entries.is_prefix_of(p.entries)
            &&& parts.name is Some ==> p.name == parts.name
            &&& parts.name is None && p.name is Some ==> is_named(
                input,
                pos,
                q,
                p.name->0,
            )
        },
    decreases MAX_NESTING_DEPTH - depth, input.toks.len() - pos,
{
    assert(parts.entries.subrange(0, parts.entries.len() as int) =~= parts.entries);
    if let Ok((next, q)) = input.entry(depth, pos, parts) {
        if pos < q < input.toks.len() {
            lemma_entries_add(input, depth, q, parenthesized, next);
            assert(next.entries.subrange(0, parts.entries.len() as int) =~= parts.entries);
            if let Ok((p, r)) = input.entries(depth, pos, parenthesized, parts) {
                let n = parts.entries.len() as int;
                if r > pos {
                    assert(p.entries.subrange(0, n) =~= next.entries.subrange(0, n));
                }
                if parts.name is None && p.name is Some && r > pos {
                    if next.name is Some {
                        assert(is_name(input, pos, p.name->0));
                    } else {
                        let k = choose|k: int| #[trigger]
                            is_name(input, k, p.name->0) && q <= k < r;
                        assert(is_name(input, k, p.name->0) && pos <= k < r);
                    }
                }
            }
        }
    }
}

/// Whether a `#` and the identifier `name` stand at `k`.
pub open spec fn is_name(input: Input, k: int, name: Seq<char>) -> bool {
    input.kind(k) == TokenKind::Hash && input.kind(k + 1) == TokenKind::Ident && input.tok(
        k + 1,
    ).text == name
}

/// Whether a `#` and the identifier `name` stand somewhere from `pos` to `end`.
pub open spec fn is_named(input: Input, pos: int, end: int, name: Seq<char>) -> bool {
    exists|k: int| #[trigger] is_name(input, k, name) && pos <= k < end
}

/// An entity has the base that is written for it: where its body starts with `:`, a string
/// follows, which is its base; where it does not, there is none. A name that it has is written
/// in its body.
pub proof fn law_base_and_name_are_written(input: Input, depth: nat, pos: int)
    requires
        0 <= pos < input.toks.len(),
    ensures
        input.entity_inner(depth, pos) matches Ok((t, q)) ==> {
            let body = if input.kind(pos) == TokenKind::LParen {
                pos + 1
            } else {
                pos
            };
            &&& t.head matches NodeHead::Entity { name, base, .. } && {
                &&& input.kind(body) == TokenKind::Colon <==> base is Some
                &&& base is Some ==> input.kind(body + 1) == TokenKind::Str && base
                    == string_value(input.tok(body + 1).text)
                &&& name is Some ==> is_named(input, body, q, name->0)
            }
        },
{
    let parenthesized = input.kind(pos) == TokenKind::LParen;
    let body = if parenthesized {
        pos + 1
    } else {
        pos
    };
    if let Ok((parts, q)) = input.base(body) {
        lemma_entries_add(input, depth, q, parenthesized, parts);
        if let Ok((t, r)) = input.entity_inner(depth, pos) {
            let name = t.head->name;
            if name is Some {
                let end = input.entries(depth, q, parenthesized, parts)->Ok_0.1;
                let k = choose|k: int| #[trigger] is_name(input, k, name->0) && q <= k < end;
                assert(is_name(input, k, name->0) && body <= k < r);
            }
        }
    }
}

} // verus!
