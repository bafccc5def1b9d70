//! Parsing the tokens of well-formed entities gives the entities back, up to spans.

use vstd::prelude::*;

use crate::ast::BsnPatchPrefix;
use crate::error::MAX_NESTING_DEPTH;
use crate::float::{canonical_floats, Floats};
use crate::grammar::{is_stop, no_parts, with_entry, Input, NodeHead, NodeTree, Parsed, Parts};
use crate::model::{same_path, same_paths, same_segment, same_segments, Path, Segment};
use crate::reading::{law_escape_round_trip, punct};
use crate::reparse_paths::{
    lemma_reparse_path, lemma_segments_first, lemma_stand_inside, lemma_stand_one,
    lemma_stand_one_of, lemma_stand_split, stand_at,
};
use crate::reparse_values::{
    lemma_long_path, lemma_no_problem, lemma_path_first, lemma_path_then_body, lemma_reparse_body,
    lemma_tree_first,
};
use crate::shape::{
    base_toks, comma_toks, entities_toks, entity_fits, entity_toks, entries_toks, entry_fits,
    entry_toks, has_body, head_path, is_blank, name_toks, names_type, node_commas_fit, path_toks,
    segments_toks, sigil_toks, tree_toks, twin_nodes, NodeCommas,
};
use crate::token::TokenKind;
use crate::unsupported;

verus! {

// -- paths that differ in spans only ----------------------------------------------------------

pub proof fn lemma_same_path_trans(a: Path, b: Path, c: Path)
    requires
        same_path(a, b),
        same_path(b, c),
    ensures
        same_path(a, c),
    decreases a,
{
    lemma_same_segments_trans(a.segments, b.segments, c.segments);
}

proof fn lemma_same_segments_trans(a: Seq<Segment>, b: Seq<Segment>, c: Seq<Segment>)
    requires
        same_segments(a, b),
        same_segments(b, c),
    ensures
        same_segments(a, c),
    decreases a,
{
    if a.len() > 0 {
        lemma_same_segments_trans(a.drop_last(), b.drop_last(), c.drop_last());
        lemma_same_segment_trans(a.last(), b.last(), c.last());
    }
}

proof fn lemma_same_segment_trans(a: Segment, b: Segment, c: Segment)
    requires
        same_segment(a, b),
        same_segment(b, c),
    ensures
        same_segment(a, c),
    decreases a,
{
    lemma_same_paths_trans(a.generics, b.generics, c.generics);
}

proof fn lemma_same_paths_trans(a: Seq<Path>, b: Seq<Path>, c: Seq<Path>)
    requires
        same_paths(a, b),
        same_paths(b, c),
    ensures
        same_paths(a, c),
    decreases a,
{
    if a.len() > 0 {
        lemma_same_paths_trans(a.drop_last(), b.drop_last(), c.drop_last());
        lemma_same_path_trans(a.last(), b.last(), c.last());
    }
}

// -- entities ---------------------------------------------------------------------------------

/// An entity ends at a token of this kind.
pub open spec fn ends_entity(kind: TokenKind) -> bool {
    kind == TokenKind::Comma || kind == TokenKind::RBracket || kind == TokenKind::Eof
}

/// The kind of the first token of a patch or relation.
pub open spec fn starts_entry(kind: TokenKind) -> bool {
    kind == TokenKind::Ident || kind == TokenKind::Tilde || kind == TokenKind::At
}

/// An entity is parsed as a twin of `t`, up to `end`.
pub open spec fn gives_entity(outcome: Parsed<NodeTree>, t: NodeTree, end: int) -> bool {
    outcome matches Ok((u, q)) && q == end && twin_nodes(t, u)
}

/// An entry is parsed as a twin of `t` and added to `parts`.
pub open spec fn gives_entry(outcome: Parsed<Parts>, parts: Parts, t: NodeTree, end: int) -> bool {
    outcome matches Ok((more, q)) && q == end && more == with_entry(parts, more.entries.last())
        && twin_nodes(t, more.entries.last())
}

/// The first token of an entry.
proof fn lemma_entry_first(floats: Floats, t: NodeTree, commas: NodeCommas, n: nat)
    requires
        canonical_floats(floats),
        entry_fits(floats, t, n),
    ensures
        entry_toks(t, commas).len() > 0,
        starts_entry(entry_toks(t, commas)[0].kind),
{
    match t.head {
        NodeHead::Patch { prefix, value, .. } => {
            lemma_tree_first(floats, value, commas.value, n + 1);
        },
        NodeHead::Relation { target } => {
            lemma_segments_first(target.segments);
            assert(path_toks(target) == segments_toks(target.segments));
        },
        _ => {},
    }
}

/// The first token of the entries of an entity.
proof fn lemma_entries_first(floats: Floats, t: NodeTree, commas: NodeCommas, n: nat, k: nat)
    requires
        canonical_floats(floats),
        entity_fits(floats, t, n),
        0 < k <= t.children.len(),
    ensures
        entries_toks(t, commas, k).len() > 0,
        starts_entry(entries_toks(t, commas, k)[0].kind),
    decreases k,
{
    assert(entry_fits(floats, t.children[k - 1], (n - 1) as nat));
    lemma_entry_first(floats, t.children[k - 1], commas.inside[k - 1], (n - 1) as nat);
    if k > 1 {
        lemma_entries_first(floats, t, commas, n, (k - 1) as nat);
    } else {
        assert(entries_toks(t, commas, 0) =~= Seq::empty());
    }
}

/// The kind of the first token of an entity.
pub open spec fn starts_entity(kind: TokenKind) -> bool {
    starts_entry(kind) || kind == TokenKind::LParen || kind == TokenKind::Colon || kind
        == TokenKind::Hash
}

pub proof fn lemma_entity_first(floats: Floats, t: NodeTree, commas: NodeCommas, n: nat)
    requires
        canonical_floats(floats),
        entity_fits(floats, t, n),
    ensures
        entity_toks(t, commas).len() > 0,
        starts_entity(entity_toks(t, commas)[0].kind),
        entity_toks(t, commas)[0].kind == TokenKind::LParen <==> is_blank(t),
        entity_toks(t, commas)[0].kind == TokenKind::Colon <==> t.head->base is Some,
{
    let toks = entity_toks(t, commas);
    if is_blank(t) {
        assert(toks[0] == punct('('));
    } else {
        let entries = entries_toks(t, commas, t.children.len());
        assert(toks == base_toks(t.head->base) + name_toks(t.head->name) + entries);
        if t.head->base is Some {
            assert(toks[0] == punct(':'));
        } else if t.head->name is Some {
            assert(toks[0] == punct('#'));
        } else {
            lemma_entries_first(floats, t, commas, n, t.children.len());
            assert(toks =~= entries);
        }
    }
}

/// The tokens of some entries are a prefix of the tokens of more entries.
proof fn lemma_entries_prefix(
    input: Input,
    pos: int,
    t: NodeTree,
    commas: NodeCommas,
    k: int,
    n: int,
)
    requires
        0 <= k <= n <= t.children.len(),
        stand_at(input, pos, entries_toks(t, commas, n as nat)),
    ensures
        stand_at(input, pos, entries_toks(t, commas, k as nat)),
    decreases n,
{
    if k < n {
        let before = entries_toks(t, commas, (n - 1) as nat);
        let last = entry_toks(t.children[n - 1], commas.inside[n - 1]);
        lemma_stand_split(input, pos, before, last);
        lemma_entries_prefix(input, pos, t, commas, k, n - 1);
    }
}

/// The tokens of entry `k`, and what follows them.
proof fn lemma_entry_parts(
    input: Input,
    pos: int,
    t: NodeTree,
    commas: NodeCommas,
    k: int,
    n: nat,
)
    requires
        canonical_floats(input.floats),
        0 <= k < t.children.len(),
        entity_fits(input.floats, t, n),
        stand_at(input, pos, entries_toks(t, commas, t.children.len())),
        ends_entity(input.kind(pos + entries_toks(t, commas, t.children.len()).len())),
    ensures
        ({
            let start = pos + entries_toks(t, commas, k as nat).len();
            let toks = entry_toks(t.children[k], commas.inside[k]);
            let end = start + toks.len();
            &&& stand_at(input, start, toks)
            &&& pos + entries_toks(t, commas, (k + 1) as nat).len() == end
            &&& starts_entry(input.kind(start))
            &&& input.bad(start) is None
            &&& ends_entity(input.kind(end)) || starts_entry(input.kind(end))
        }),
{
    let before = entries_toks(t, commas, k as nat);
    let toks = entry_toks(t.children[k], commas.inside[k]);
    let start = pos + before.len();
    lemma_entries_prefix(input, pos, t, commas, k + 1, t.children.len() as int);
    assert(entries_toks(t, commas, (k + 1) as nat) == before + toks);
    lemma_stand_split(input, pos, before, toks);
    assert(entry_fits(input.floats, t.children[k], (n - 1) as nat));
    lemma_entry_first(input.floats, t.children[k], commas.inside[k], (n - 1) as nat);
    lemma_stand_one_of(input, start, toks, 0);
    if k + 1 < t.children.len() {
        let next = entry_toks(t.children[k + 1], commas.inside[k + 1]);
        lemma_entries_prefix(input, pos, t, commas, k + 2, t.children.len() as int);
        assert(entries_toks(t, commas, (k + 2) as nat) == before + toks + next);
        lemma_stand_split(input, pos, before + toks, next);
        assert(entry_fits(input.floats, t.children[k + 1], (n - 1) as nat));
        lemma_entry_first(
            input.floats,
            t.children[k + 1],
            commas.inside[k + 1],
            (n - 1) as nat,
        );
        lemma_stand_one_of(input, start + toks.len(), next, 0);
    }
}

/// The entries of an entity from entry `k` on.
#[verifier::rlimit(50)]
proof fn lemma_reparse_entries(
    input: Input,
    depth: nat,
    pos: int,
    t: NodeTree,
    commas: NodeCommas,
    k: int,
    parts: Parts,
)
    requires
        canonical_floats(input.floats),
        0 <= k <= t.children.len(),
        depth <= MAX_NESTING_DEPTH,
        entity_fits(input.floats, t, (MAX_NESTING_DEPTH - depth + 1) as nat),
        node_commas_fit(t, commas),
        stand_at(input, pos, entries_toks(t, commas, t.children.len())),
        ends_entity(input.kind(pos + entries_toks(t, commas, t.children.len()).len())),
        parts.entries.len() == k,
        forall|i: int| 0 <= i < k ==> twin_nodes(#[trigger] t.children[i], parts.entries[i]),
    ensures
        input.entries(depth, pos + entries_toks(t, commas, k as nat).len(), false, parts) matches Ok(
            (more, q),
        ) && q == pos + entries_toks(t, commas, t.children.len()).len() && more.entries.len()
            == t.children.len() && more.name == parts.name && more.base == parts.base && (forall|
            i: int,
        |
            0 <= i < t.children.len() ==> twin_nodes(
                #[trigger] t.children[i],
                more.entries[i],
            )),
    decreases t, t.children.len() - k,
{
    if k < t.children.len() {
        let n = (MAX_NESTING_DEPTH - depth + 1) as nat;
        let at = pos + entries_toks(t, commas, k as nat).len();
        lemma_entry_parts(input, pos, t, commas, k, n);
        assert(entry_fits(input.floats, t.children[k], (n - 1) as nat));
        lemma_entry_first(input.floats, t.children[k], commas.inside[k], (n - 1) as nat);
        lemma_reparse_entry(input, depth, at, t.children[k], commas.inside[k], parts);
        let (more, q) = input.entry(depth, at, parts)->Ok_0;
        lemma_stand_inside(input, at, entry_toks(t.children[k], commas.inside[k]));
        lemma_entries_step(input, depth, at, parts);
        lemma_reparse_entries(input, depth, pos, t, commas, k + 1, more);
    }
}

/// One step of parsing the entries of an entity.
proof fn lemma_entries_step(input: Input, depth: nat, pos: int, parts: Parts)
    requires
        !is_stop(input.kind(pos), false),
        input.entry(depth, pos, parts) is Ok,
        pos < input.entry(depth, pos, parts)->Ok_0.1 < input.toks.len(),
    ensures
        input.entries(depth, pos, false, parts) == input.entries(
            depth,
            input.entry(depth, pos, parts)->Ok_0.1,
            false,
            input.entry(depth, pos, parts)->Ok_0.0,
        ),
{
}

#[verifier::rlimit(50)]
proof fn lemma_reparse_entry(
    input: Input,
    depth: nat,
    pos: int,
    t: NodeTree,
    commas: NodeCommas,
    parts: Parts,
)
    requires
        canonical_floats(input.floats),
        stand_at(input, pos, entry_toks(t, commas)),
        depth <= MAX_NESTING_DEPTH,
        entry_fits(input.floats, t, (MAX_NESTING_DEPTH - depth) as nat),
        node_commas_fit(t, commas),
        ends_entity(input.kind(pos + entry_toks(t, commas).len())) || starts_entry(
            input.kind(pos + entry_toks(t, commas).len()),
        ),
    ensures
        gives_entry(
            input.entry(depth, pos, parts),
            parts,
            t,
            pos + entry_toks(t, commas).len(),
        ),
    decreases t, t.children.len() + 2,
{
    match t.head {
        NodeHead::Patch { .. } => {
            lemma_reparse_patch(input, depth, pos, t, commas, parts);
        },
        _ => {
            lemma_reparse_relation(input, depth, pos, t, commas, parts);
        },
    }
}

/// An identifier at the start of an entry does not announce a closure or an import.
proof fn lemma_plain_entry(input: Input, depth: nat, pos: int, path: Path, parts: Parts)
    requires
        stand_at(input, pos, path_toks(path)),
        path.segments.len() > 0,
        crate::reading::valid_ident(path.segments[0].ident),
        names_type(path),
        path.segments[0].ident != "use"@,
    ensures
        input.entry(depth, pos, parts) == input.patch(
            depth,
            pos,
            BsnPatchPrefix::FromTemplate,
            input.tok(pos).span,
            parts,
        ),
{
    lemma_segments_first(path.segments);
    assert(path_toks(path) == segments_toks(path.segments));
    lemma_stand_one_of(input, pos, path_toks(path), 0);
    if path.segments[0].ident == "on"@ {
        reveal_strlit("on");
        lemma_long_path(input, pos, path);
    }
}

#[verifier::rlimit(50)]
proof fn lemma_reparse_patch(
    input: Input,
    depth: nat,
    pos: int,
    t: NodeTree,
    commas: NodeCommas,
    parts: Parts,
)
    requires
        canonical_floats(input.floats),
        t.head is Patch,
        stand_at(input, pos, entry_toks(t, commas)),
        depth <= MAX_NESTING_DEPTH,
        entry_fits(input.floats, t, (MAX_NESTING_DEPTH - depth) as nat),
        node_commas_fit(t, commas),
        ends_entity(input.kind(pos + entry_toks(t, commas).len())) || starts_entry(
            input.kind(pos + entry_toks(t, commas).len()),
        ),
    ensures
        gives_entry(
            input.entry(depth, pos, parts),
            parts,
            t,
            pos + entry_toks(t, commas).len(),
        ),
{
    let symbol = t.head->symbol;
    let prefix = t.head->prefix;
    let value = t.head->value;
    let path = head_path(value.head)->0;
    let sigil = sigil_toks(prefix);
    let at = pos + sigil.len();
    assert(entry_toks(t, commas) == sigil + tree_toks(value, commas.value));
    lemma_stand_split(input, pos, sigil, tree_toks(value, commas.value));
    if sigil.len() > 0 {
        lemma_stand_one_of(input, pos, sigil, 0);
    } else {
        lemma_path_first(input, at, value, commas.value, path);
        lemma_plain_entry(input, depth, pos, path, parts);
    }
    let first = input.tok(pos).span;
    assert(input.entry(depth, pos, parts) == input.patch(depth, at, prefix, first, parts));
    lemma_path_then_body(input, depth, at, value, commas.value, path);
    let (p, q) = input.path(depth, at)->Ok_0;
    lemma_no_problem(path, p, unsupported::FN@);
    lemma_reparse_body(input, depth, q, value, commas.value, path, p);
    lemma_same_path_trans(symbol, path, p);
    if !has_body(value.head) {
        assert(tree_toks(value, commas.value) == path_toks(path));
    }
    let (u, r) = input.path_body(depth, q, p)->Ok_0;
    let entry = NodeTree {
        span: crate::grammar::cover(first, input.tok(r - 1).span),
        head: NodeHead::Patch { symbol: p, prefix, value: u },
        children: Seq::empty(),
    };
    assert(input.patch(depth, at, prefix, first, parts) == Ok::<_, crate::error::Error>(
        (with_entry(parts, entry), r),
    ));
    assert(with_entry(parts, entry).entries.last() == entry);
}

#[verifier::rlimit(50)]
proof fn lemma_reparse_relation(
    input: Input,
    depth: nat,
    pos: int,
    t: NodeTree,
    commas: NodeCommas,
    parts: Parts,
)
    requires
        canonical_floats(input.floats),
        t.head is Relation,
        stand_at(input, pos, entry_toks(t, commas)),
        depth <= MAX_NESTING_DEPTH,
        entry_fits(input.floats, t, (MAX_NESTING_DEPTH - depth) as nat),
        node_commas_fit(t, commas),
    ensures
        gives_entry(
            input.entry(depth, pos, parts),
            parts,
            t,
            pos + entry_toks(t, commas).len(),
        ),
    decreases t, t.children.len() + 1,
{
    let target = t.head->target;
    let name = path_toks(target);
    let open = seq![punct('[')];
    let list = entities_toks(t.children, commas.inside, t.children.len());
    let close = seq![punct(']')];
    assert(entry_toks(t, commas) =~= name + (open + (list + close)));
    lemma_stand_split(input, pos, name, open + (list + close));
    let q = pos + name.len();
    lemma_stand_split(input, q, open, list + close);
    lemma_stand_split(input, q + 1, list, close);
    lemma_stand_one(input, q, punct('['));
    lemma_stand_one(input, q + 1 + list.len(), punct(']'));
    lemma_plain_entry(input, depth, pos, target, parts);
    lemma_segments_first(target.segments);
    assert(path_toks(target) == segments_toks(target.segments));
    lemma_reparse_path(input, depth, pos, target);
    let p = input.path(depth, pos)->Ok_0.0;
    lemma_no_problem(target, p, unsupported::FN@);
    lemma_reparse_list(
        input,
        depth,
        q + 1,
        t.children,
        commas.inside,
        0,
        TokenKind::RBracket,
        Seq::empty(),
    );
    let first = input.tok(pos).span;
    let (entities, r) = input.entity_list(depth, q + 1, TokenKind::RBracket, Seq::empty())->Ok_0;
    let entry = NodeTree {
        span: crate::grammar::cover(first, input.tok(r).span),
        head: NodeHead::Relation { target: p },
        children: entities,
    };
    assert(input.patch(depth, pos, BsnPatchPrefix::FromTemplate, first, parts) == Ok::<
        _,
        crate::error::Error,
    >((with_entry(parts, entry), r + 1)));
    assert(with_entry(parts, entry).entries.last() == entry);
    assert(twin_nodes(t, entry));
}

/// The tokens of some entities are a prefix of the tokens of more entities.
proof fn lemma_list_prefix(
    input: Input,
    pos: int,
    ts: Seq<NodeTree>,
    commas: Seq<NodeCommas>,
    k: int,
    n: int,
)
    requires
        0 <= k <= n <= ts.len(),
        stand_at(input, pos, entities_toks(ts, commas, n as nat)),
    ensures
        stand_at(input, pos, entities_toks(ts, commas, k as nat)),
    decreases n,
{
    if k < n {
        let before = entities_toks(ts, commas, (n - 1) as nat);
        let last = entity_toks(ts[n - 1], commas[n - 1]) + comma_toks(n < ts.len());
        assert(entities_toks(ts, commas, n as nat) =~= before + last);
        lemma_stand_split(input, pos, before, last);
        lemma_list_prefix(input, pos, ts, commas, k, n - 1);
    }
}

/// The entities of a list from entity `k` on.
#[verifier::rlimit(50)]
pub proof fn lemma_reparse_list(
    input: Input,
    depth: nat,
    pos: int,
    ts: Seq<NodeTree>,
    commas: Seq<NodeCommas>,
    k: int,
    close: TokenKind,
    items: Seq<NodeTree>,
)
    requires
        canonical_floats(input.floats),
        close == TokenKind::RBracket || close == TokenKind::Eof,
        0 <= k <= ts.len(),
        k == ts.len() ==> k == 0,
        depth <= MAX_NESTING_DEPTH,
        forall|i: int|
            0 <= i < ts.len() ==> entity_fits(
                input.floats,
                #[trigger] ts[i],
                (MAX_NESTING_DEPTH - depth) as nat,
            ),
        forall|i: int| 0 <= i < ts.len() ==> node_commas_fit(#[trigger] ts[i], commas[i]),
        stand_at(input, pos, entities_toks(ts, commas, ts.len())),
        input.kind(pos + entities_toks(ts, commas, ts.len()).len()) == close,
        items.len() == k,
        forall|i: int| 0 <= i < k ==> twin_nodes(#[trigger] ts[i], items[i]),
    ensures
        input.entity_list(
            depth,
            pos + entities_toks(ts, commas, k as nat).len(),
            close,
            items,
        ) matches Ok((r, q)) && q == pos + entities_toks(ts, commas, ts.len()).len() && r.len()
            == ts.len() && (forall|i: int|
            0 <= i < ts.len() ==> twin_nodes(#[trigger] ts[i], r[i])),
    decreases ts, ts.len() - k,
{
    if k < ts.len() {
        let at = pos + entities_toks(ts, commas, k as nat).len();
        lemma_list_parts(input, depth, pos, ts, commas, k);
        lemma_reparse_entity(input, depth, at, ts[k], commas[k]);
        let (item, q) = input.entity(depth, at)->Ok_0;
        lemma_list_step(input, depth, at, close, items);
        if k + 1 < ts.len() {
            lemma_reparse_list(input, depth, pos, ts, commas, k + 1, close, items.push(item));
        }
    }
}

/// One step of parsing a list of entities.
proof fn lemma_list_step(
    input: Input,
    depth: nat,
    pos: int,
    close: TokenKind,
    items: Seq<NodeTree>,
)
    requires
        input.bad(pos) is None,
        input.kind(pos) != close,
        input.entity(depth, pos) is Ok,
        pos < input.entity(depth, pos)->Ok_0.1 < input.toks.len(),
        input.kind(input.entity(depth, pos)->Ok_0.1) == TokenKind::Comma ==> input.entity(
            depth,
            pos,
        )->Ok_0.1 + 1 < input.toks.len(),
    ensures
        ({
            let (item, q) = input.entity(depth, pos)->Ok_0;
            input.entity_list(depth, pos, close, items) == if input.kind(q) != TokenKind::Comma {
                Ok::<(Seq<NodeTree>, int), crate::error::Error>((items.push(item), q))
            } else {
                input.entity_list(depth, q + 1, close, items.push(item))
            }
        }),
{
}

/// The tokens of entity `k` of a list, and what follows them.
proof fn lemma_list_parts(
    input: Input,
    depth: nat,
    pos: int,
    ts: Seq<NodeTree>,
    commas: Seq<NodeCommas>,
    k: int,
)
    requires
        canonical_floats(input.floats),
        0 <= k < ts.len(),
        depth <= MAX_NESTING_DEPTH,
        entity_fits(input.floats, ts[k], (MAX_NESTING_DEPTH - depth) as nat),
        stand_at(input, pos, entities_toks(ts, commas, ts.len())),
    ensures
        ({
            let at = pos + entities_toks(ts, commas, k as nat).len();
            let toks = entity_toks(ts[k], commas[k]);
            let end = at + toks.len();
            let more = k + 1 < ts.len();
            &&& stand_at(input, at, toks)
            &&& toks.len() > 0
            &&& input.bad(at) is None
            &&& starts_entity(input.kind(at))
            &&& end < input.toks.len()
            &&& more ==> input.kind(end) == TokenKind::Comma && end + 1 < input.toks.len()
            &&& pos + entities_toks(ts, commas, (k + 1) as nat).len() == if more {
                end + 1
            } else {
                end
            }
        }),
{
    let before = entities_toks(ts, commas, k as nat);
    let toks = entity_toks(ts[k], commas[k]);
    let comma = comma_toks(k + 1 < ts.len());
    let at = pos + before.len();
    lemma_list_prefix(input, pos, ts, commas, k + 1, ts.len() as int);
    assert(entities_toks(ts, commas, (k + 1) as nat) =~= before + (toks + comma));
    lemma_stand_split(input, pos, before, toks + comma);
    lemma_stand_split(input, at, toks, comma);
    if k + 1 < ts.len() {
        lemma_stand_one(input, at + toks.len(), punct(','));
    }
    lemma_entity_first(input.floats, ts[k], commas[k], (MAX_NESTING_DEPTH - depth) as nat);
    lemma_stand_one_of(input, at, toks, 0);
}

#[verifier::rlimit(50)]
pub proof fn lemma_reparse_entity(
    input: Input,
    depth: nat,
    pos: int,
    t: NodeTree,
    commas: NodeCommas,
)
    requires
        canonical_floats(input.floats),
        stand_at(input, pos, entity_toks(t, commas)),
        depth < MAX_NESTING_DEPTH,
        entity_fits(input.floats, t, (MAX_NESTING_DEPTH - depth) as nat),
        node_commas_fit(t, commas),
        ends_entity(input.kind(pos + entity_toks(t, commas).len())),
    ensures
        gives_entity(input.entity(depth, pos), t, pos + entity_toks(t, commas).len()),
    decreases t, t.children.len() + 2,
{
    assert(input.entity(depth, pos) == input.entity_inner(depth + 1, pos));
    if is_blank(t) {
        lemma_reparse_blank(input, depth + 1, pos, t, commas);
    } else {
        lemma_reparse_parts(input, depth + 1, pos, t, commas);
    }
}

/// An entity that is blank, one level deeper.
#[verifier::spinoff_prover]
proof fn lemma_reparse_blank(
    input: Input,
    depth: nat,
    pos: int,
    t: NodeTree,
    commas: NodeCommas,
)
    requires
        is_blank(t),
        stand_at(input, pos, entity_toks(t, commas)),
    ensures
        gives_entity(input.entity_inner(depth, pos), t, pos + entity_toks(t, commas).len()),
{
    let toks = entity_toks(t, commas);
    assert(toks == seq![punct('('), punct(')')]);
    lemma_stand_one_of(input, pos, toks, 0);
    lemma_stand_one_of(input, pos, toks, 1);
    assert(input.base(pos + 1) == Ok::<(Parts, int), crate::error::Error>((no_parts(), pos + 1)));
    assert(input.entries(depth, pos + 1, true, no_parts()) == Ok::<
        (Parts, int),
        crate::error::Error,
    >((no_parts(), pos + 1)));
}

/// An entity that is not blank, one level deeper.
#[verifier::rlimit(50)]
proof fn lemma_reparse_parts(
    input: Input,
    depth: nat,
    pos: int,
    t: NodeTree,
    commas: NodeCommas,
)
    requires
        canonical_floats(input.floats),
        !is_blank(t),
        stand_at(input, pos, entity_toks(t, commas)),
        depth <= MAX_NESTING_DEPTH,
        entity_fits(input.floats, t, (MAX_NESTING_DEPTH - depth + 1) as nat),
        node_commas_fit(t, commas),
        ends_entity(input.kind(pos + entity_toks(t, commas).len())),
    ensures
        gives_entity(input.entity_inner(depth, pos), t, pos + entity_toks(t, commas).len()),
    decreases t, t.children.len() + 1,
{
    let n = (MAX_NESTING_DEPTH - depth + 1) as nat;
    let name = t.head->name;
    let base = t.head->base;
    let b = base_toks(base);
    let m = name_toks(name);
    let e = entries_toks(t, commas, t.children.len());
    lemma_entity_parts(input, pos, t, commas, n);
    lemma_reparse_base(input, pos, base);
    let (parts, at) = input.base(pos)->Ok_0;
    lemma_reparse_name(input, depth, at, name, parts);
    let next = at + m.len();
    let named = Parts {
        name,
        name_span: if name is Some {
            input.entry(depth, at, parts)->Ok_0.0.name_span
        } else {
            None
        },
        ..parts
    };
    assert(entries_toks(t, commas, 0) =~= Seq::empty());
    lemma_reparse_entries(input, depth, next, t, commas, 0, named);
    let (all, end) = input.entries(depth, next, false, named)->Ok_0;
    lemma_entity_end(input, depth, pos, parts, at);
}

/// The tokens of an entity that is not blank.
proof fn lemma_entity_parts(input: Input, pos: int, t: NodeTree, commas: NodeCommas, n: nat)
    requires
        canonical_floats(input.floats),
        !is_blank(t),
        stand_at(input, pos, entity_toks(t, commas)),
        entity_fits(input.floats, t, n),
    ensures
        ({
            let b = base_toks(t.head->base);
            let m = name_toks(t.head->name);
            let e = entries_toks(t, commas, t.children.len());
            &&& entity_toks(t, commas).len() == b.len() + m.len() + e.len()
            &&& entity_toks(t, commas).len() > 0
            &&& stand_at(input, pos, b)
            &&& stand_at(input, pos + b.len(), m)
            &&& stand_at(input, pos + b.len() + m.len(), e)
            &&& input.bad(pos) is None
            &&& input.kind(pos) != TokenKind::LParen
            &&& input.kind(pos) == TokenKind::Colon <==> t.head->base is Some
            &&& pos >= 0
            &&& pos + entity_toks(t, commas).len() < input.toks.len()
        }),
{
    let toks = entity_toks(t, commas);
    let b = base_toks(t.head->base);
    let m = name_toks(t.head->name);
    let e = entries_toks(t, commas, t.children.len());
    lemma_entity_first(input.floats, t, commas, n);
    lemma_stand_one_of(input, pos, toks, 0);
    assert(toks =~= b + (m + e));
    lemma_stand_split(input, pos, b, m + e);
    lemma_stand_split(input, pos + b.len(), m, e);
}

proof fn lemma_reparse_base(input: Input, pos: int, base: Option<Seq<char>>)
    requires
        stand_at(input, pos, base_toks(base)),
        input.kind(pos) == TokenKind::Colon <==> base is Some,
    ensures
        input.base(pos) matches Ok((parts, q)) && q == pos + base_toks(base).len() && parts.base
            == base && parts.name is None && parts.name_span is None && parts.entries
            == Seq::<NodeTree>::empty(),
{
    if base is Some {
        lemma_stand_one_of(input, pos, base_toks(base), 0);
        lemma_stand_one_of(input, pos, base_toks(base), 1);
        law_escape_round_trip(base->0);
    }
}

#[verifier::rlimit(50)]
proof fn lemma_reparse_name(
    input: Input,
    depth: nat,
    pos: int,
    name: Option<Seq<char>>,
    parts: Parts,
)
    requires
        stand_at(input, pos, name_toks(name)),
        parts.name is None,
        parts.name_span is None,
    ensures
        input.entries(depth, pos, false, parts) == input.entries(
            depth,
            pos + name_toks(name).len(),
            false,
            Parts {
                name,
                name_span: if name is Some {
                    input.entry(depth, pos, parts)->Ok_0.0.name_span
                } else {
                    None
                },
                ..parts
            },
        ),
{
    if name is Some {
        lemma_stand_one_of(input, pos, name_toks(name), 0);
        lemma_stand_one_of(input, pos, name_toks(name), 1);
        assert(input.entry(depth, pos, parts) is Ok);
        lemma_entries_step(input, depth, pos, parts);
    }
}

/// The end of an entity without parentheses.
proof fn lemma_entity_end(input: Input, depth: nat, pos: int, parts: Parts, at: int)
    requires
        0 <= pos,
        input.bad(pos) is None,
        input.kind(pos) != TokenKind::LParen,
        input.base(pos) == Ok::<(Parts, int), crate::error::Error>((parts, at)),
        pos <= at < input.toks.len(),
        input.entries(depth, at, false, parts) is Ok,
        input.entries(depth, at, false, parts)->Ok_0.1 > pos,
    ensures
        ({
            let (all, q) = input.entries(depth, at, false, parts)->Ok_0;
            input.entity_inner(depth, pos) == Ok::<(NodeTree, int), crate::error::Error>(
                (
                    crate::grammar::entity_tree(
                        all,
                        crate::grammar::cover(input.tok(pos).span, input.tok(q - 1).span),
                    ),
                    q,
                ),
            )
        }),
{
}

} // verus!
