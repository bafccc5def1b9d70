//! Parsing the tokens of a well-formed value gives the value back, up to spans.

use vstd::prelude::*;

use crate::error::MAX_NESTING_DEPTH;
use crate::float::{canonical_floats, Float, Floats};
use crate::grammar::{path_problem, Input, Parsed, Tree};
use crate::model::{same_path, same_segment, same_segments, Head, Path, Segment};
use crate::reading::{
    double_colon, ident_token, law_escape_round_trip, lemma_int_text_value, lemma_no_separators,
    punct,
};
use crate::reparse_paths::{
    ends_path, gives_path, lemma_reparse_path, lemma_segments_first, lemma_stand_inside,
    lemma_stand_one, lemma_stand_one_of, lemma_stand_split, stand_at,
};
use crate::shape::{
    close_char, comma_toks, commas_fit, has_body, head_path, item_fits, items_toks, leaf_toks,
    names_type, open_toks, path_toks, paths_toks, prefix_toks, segment_toks, segments_toks,
    tree_fits, tree_toks, twin_head, twins, Commas,
};
use crate::token::TokenKind;

verus! {

// -- skipping balanced tokens -----------------------------------------------------------------

/// Looking for a comma from `pos` on is looking for it from `q` on.
spec fn skips(input: Input, pos: int, q: int, depth: nat, angles: nat) -> bool {
    input.comma_ahead(pos, depth, angles) == input.comma_ahead(q, depth, angles)
}

proof fn lemma_skip_path(input: Input, pos: int, path: Path, depth: nat, angles: nat)
    requires
        stand_at(input, pos, path_toks(path)),
    ensures
        skips(input, pos, pos + path_toks(path).len(), depth, angles),
    decreases path,
{
    lemma_skip_segments(input, pos, path.segments, depth, angles);
}

proof fn lemma_skip_segments(
    input: Input,
    pos: int,
    segments: Seq<Segment>,
    depth: nat,
    angles: nat,
)
    requires
        stand_at(input, pos, segments_toks(segments)),
    ensures
        skips(input, pos, pos + segments_toks(segments).len(), depth, angles),
    decreases segments,
{
    if segments.len() == 1 {
        lemma_skip_segment(input, pos, segments[0], depth, angles);
    } else if segments.len() > 1 {
        let before = segments_toks(segments.drop_last());
        let separator = seq![double_colon()];
        let last = segment_toks(segments.last());
        assert(segments_toks(segments) =~= before + (separator + last));
        lemma_stand_split(input, pos, before, separator + last);
        lemma_stand_split(input, pos + before.len(), separator, last);
        lemma_skip_segments(input, pos, segments.drop_last(), depth, angles);
        lemma_stand_one(input, pos + before.len(), double_colon());
        lemma_skip_segment(input, pos + before.len() + 1, segments.last(), depth, angles);
    }
}

proof fn lemma_skip_segment(input: Input, pos: int, segment: Segment, depth: nat, angles: nat)
    requires
        stand_at(input, pos, segment_toks(segment)),
    ensures
        skips(input, pos, pos + segment_toks(segment).len(), depth, angles),
    decreases segment,
{
    let toks = segment_toks(segment);
    lemma_stand_one_of(input, pos, toks, 0);
    if segment.generics.len() > 0 {
        let head = seq![ident_token(segment.ident), punct('<')];
        let list = paths_toks(segment.generics);
        assert(toks =~= head + (list + seq![punct('>')]));
        lemma_stand_split(input, pos, head, list + seq![punct('>')]);
        lemma_stand_split(input, pos + 2, list, seq![punct('>')]);
        lemma_stand_one_of(input, pos, toks, 1);
        lemma_skip_paths(input, pos + 2, segment.generics, depth, angles + 1);
        lemma_stand_one(input, pos + 2 + list.len(), punct('>'));
        assert(input.comma_ahead(pos + 1, depth, angles) == input.comma_ahead(
            pos + 2,
            depth,
            angles + 1,
        ));
        assert(input.comma_ahead(pos + 2 + list.len(), depth, angles + 1) == input.comma_ahead(
            pos + 3 + list.len(),
            depth,
            angles,
        ));
    }
}

proof fn lemma_skip_paths(input: Input, pos: int, paths: Seq<Path>, depth: nat, angles: nat)
    requires
        stand_at(input, pos, paths_toks(paths)),
        angles > 0,
    ensures
        skips(input, pos, pos + paths_toks(paths).len(), depth, angles),
    decreases paths,
{
    if paths.len() == 1 {
        lemma_skip_path(input, pos, paths[0], depth, angles);
    } else if paths.len() > 1 {
        let before = paths_toks(paths.drop_last());
        let separator = seq![punct(',')];
        let last = path_toks(paths.last());
        assert(paths_toks(paths) =~= before + (separator + last));
        lemma_stand_split(input, pos, before, separator + last);
        lemma_stand_split(input, pos + before.len(), separator, last);
        lemma_skip_paths(input, pos, paths.drop_last(), depth, angles);
        lemma_stand_one(input, pos + before.len(), punct(','));
        lemma_skip_path(input, pos + before.len() + 1, paths.last(), depth, angles);
    }
}

/// The parts of the tokens of a value with a body.
proof fn lemma_body_parts(input: Input, pos: int, t: Tree, commas: Commas)
    requires
        has_body(t.head),
        stand_at(input, pos, tree_toks(t, commas)),
    ensures
        ({
            let open = open_toks(t.head);
            let items = items_toks(t, commas, t.children.len());
            let close = punct(close_char(t.head));
            &&& stand_at(input, pos, open)
            &&& stand_at(input, pos + open.len(), items)
            &&& stand_at(input, pos + open.len() + items.len(), seq![close])
            &&& input.kind(pos + open.len() + items.len()) == close.kind
            &&& input.bad(pos + open.len() + items.len()) is None
            &&& tree_toks(t, commas).len() == open.len() + items.len() + 1
        }),
{
    let open = open_toks(t.head);
    let items = items_toks(t, commas, t.children.len());
    let close = seq![punct(close_char(t.head))];
    assert(tree_toks(t, commas) =~= open + (items + close));
    lemma_stand_split(input, pos, open, items + close);
    lemma_stand_split(input, pos + open.len(), items, close);
    lemma_stand_one(input, pos + open.len() + items.len(), punct(close_char(t.head)));
}

/// The parts of the tokens of item `k`.
proof fn lemma_item_parts(input: Input, pos: int, t: Tree, commas: Commas, k: int)
    requires
        0 <= k < t.children.len(),
        stand_at(input, pos, items_toks(t, commas, (k + 1) as nat)),
    ensures
        ({
            let start = pos + items_toks(t, commas, k as nat).len();
            let prefix = prefix_toks(t, k);
            let item = tree_toks(t.children[k], commas.inside[k]);
            let more = k + 1 < t.children.len() || commas.trailing;
            let end = start + prefix.len() + item.len();
            &&& stand_at(input, pos, items_toks(t, commas, k as nat))
            &&& stand_at(input, start, prefix)
            &&& stand_at(input, start + prefix.len(), item)
            &&& more ==> input.kind(end) == TokenKind::Comma && end + 1 < input.toks.len()
            &&& pos + items_toks(t, commas, (k + 1) as nat).len() == if more {
                end + 1
            } else {
                end
            }
        }),
{
    let before = items_toks(t, commas, k as nat);
    let prefix = prefix_toks(t, k);
    let item = tree_toks(t.children[k], commas.inside[k]);
    let more = k + 1 < t.children.len() || commas.trailing;
    let comma = comma_toks(more);
    let start = pos + before.len();
    assert(items_toks(t, commas, (k + 1) as nat) =~= before + (prefix + (item + comma)));
    lemma_stand_split(input, pos, before, prefix + (item + comma));
    lemma_stand_split(input, start, prefix, item + comma);
    lemma_stand_split(input, start + prefix.len(), item, comma);
    if more {
        lemma_stand_one(input, start + prefix.len() + item.len(), punct(','));
    }
}

/// The tokens of some items are a prefix of the tokens of more items.
proof fn lemma_items_prefix(input: Input, pos: int, t: Tree, commas: Commas, k: int, n: int)
    requires
        0 <= k <= n <= t.children.len(),
        stand_at(input, pos, items_toks(t, commas, n as nat)),
    ensures
        stand_at(input, pos, items_toks(t, commas, k as nat)),
    decreases n,
{
    if k < n {
        lemma_item_parts(input, pos, t, commas, n - 1);
        lemma_items_prefix(input, pos, t, commas, k, n - 1);
    }
}

proof fn lemma_skip_tree(
    input: Input,
    pos: int,
    t: Tree,
    commas: Commas,
    depth: nat,
    angles: nat,
)
    requires
        stand_at(input, pos, tree_toks(t, commas)),
    ensures
        skips(input, pos, pos + tree_toks(t, commas).len(), depth, angles),
    decreases t, t.children.len() + 1,
{
    if has_body(t.head) {
        lemma_body_parts(input, pos, t, commas);
        let open = open_toks(t.head);
        let items = items_toks(t, commas, t.children.len());
        let bracket = pos + open.len() - 1;
        if let Some(path) = head_path(t.head) {
            let last = seq![open.last()];
            assert(open =~= path_toks(path) + last);
            lemma_stand_split(input, pos, path_toks(path), last);
            lemma_skip_path(input, pos, path, depth, angles);
            lemma_stand_one(input, bracket, open.last());
        } else {
            lemma_stand_one(input, bracket, open.last());
        }
        assert(input.comma_ahead(bracket, depth, angles) == input.comma_ahead(
            bracket + 1,
            depth + 1,
            angles,
        ));
        lemma_skip_items(input, bracket + 1, t, commas, t.children.len(), depth + 1, angles);
    } else {
        lemma_skip_leaf(input, pos, t.head, depth, angles);
    }
}

proof fn lemma_skip_leaf(input: Input, pos: int, head: Head, depth: nat, angles: nat)
    requires
        stand_at(input, pos, leaf_toks(head)),
    ensures
        skips(input, pos, pos + leaf_toks(head).len(), depth, angles),
{
    let toks = leaf_toks(head);
    if let Head::Path(path) = head {
        lemma_skip_path(input, pos, path, depth, angles);
    } else if toks.len() > 0 {
        lemma_stand_one_of(input, pos, toks, 0);
        if toks.len() > 1 {
            lemma_stand_one_of(input, pos, toks, 1);
            if head is Unit {
                assert(input.comma_ahead(pos, depth, angles) == input.comma_ahead(
                    pos + 1,
                    depth + 1,
                    angles,
                ));
                assert(input.comma_ahead(pos + 1, depth + 1, angles) == input.comma_ahead(
                    pos + 2,
                    depth,
                    angles,
                ));
            } else {
                assert(input.comma_ahead(pos, depth, angles) == input.comma_ahead(
                    pos + 1,
                    depth,
                    angles,
                ));
                assert(input.comma_ahead(pos + 1, depth, angles) == input.comma_ahead(
                    pos + 2,
                    depth,
                    angles,
                ));
            }
        }
    }
}

proof fn lemma_skip_items(
    input: Input,
    pos: int,
    t: Tree,
    commas: Commas,
    n: nat,
    depth: nat,
    angles: nat,
)
    requires
        n <= t.children.len(),
        depth > 0,
        stand_at(input, pos, items_toks(t, commas, n)),
    ensures
        skips(input, pos, pos + items_toks(t, commas, n).len(), depth, angles),
    decreases t, n,
{
    if n > 0 {
        let k = n - 1;
        lemma_stand_inside(input, pos, items_toks(t, commas, n));
        lemma_item_parts(input, pos, t, commas, k);
        lemma_skip_items(input, pos, t, commas, k as nat, depth, angles);
        let start = pos + items_toks(t, commas, k as nat).len();
        let prefix = prefix_toks(t, k);
        if t.head is Struct {
            lemma_stand_one_of(input, start, prefix, 0);
            lemma_stand_one_of(input, start, prefix, 1);
            assert(input.comma_ahead(start, depth, angles) == input.comma_ahead(
                start + 1,
                depth,
                angles,
            ));
        }
        assert(skips(input, start, start + prefix.len(), depth, angles));
        lemma_skip_tree(
            input,
            start + prefix.len(),
            t.children[k],
            commas.inside[k],
            depth,
            angles,
        );
    }
}

// -- values -----------------------------------------------------------------------------------

/// The words that are values of their own differ.
proof fn lemma_value_words()
    ensures
        "true"@ != "false"@,
        "true"@ != "inf"@,
        "true"@ != "NaN"@,
        "false"@ != "inf"@,
        "false"@ != "NaN"@,
        "inf"@ != "NaN"@,
{
    reveal_strlit("true");
    reveal_strlit("false");
    reveal_strlit("inf");
    reveal_strlit("NaN");
    assert("inf"@[0] == 'i' && "NaN"@[0] == 'N');
    assert("true"@.len() == 4 && "false"@.len() == 5 && "inf"@.len() == 3 && "NaN"@.len() == 3);
}

/// A value that starts at `pos` is parsed as a twin of `t`, up to `end`.
pub open spec fn gives(outcome: Parsed<Tree>, t: Tree, end: int) -> bool {
    outcome matches Ok((u, q)) && q == end && twins(t, u)
}

/// No value can go on at a token of this kind.
pub open spec fn ends_value(kind: TokenKind) -> bool {
    ends_path(kind) && kind != TokenKind::LBrace && kind != TokenKind::LParen && kind !is Error
}

/// The kind of the first token of a value.
pub open spec fn starts_value(kind: TokenKind) -> bool {
    kind == TokenKind::LParen || kind == TokenKind::LBracket || kind == TokenKind::Ident || kind
        == TokenKind::Int || kind == TokenKind::Float || kind == TokenKind::Str || kind
        == TokenKind::Minus || kind == TokenKind::Hash
}

pub proof fn lemma_tree_first(floats: Floats, t: Tree, commas: Commas, n: nat)
    requires
        canonical_floats(floats),
        tree_fits(floats, t, n),
    ensures
        tree_toks(t, commas).len() > 0,
        starts_value(tree_toks(t, commas)[0].kind),
        head_path(t.head) matches Some(path) ==> tree_toks(t, commas)[0] == ident_token(
            path.segments[0].ident,
        ),
{
    if let Some(path) = head_path(t.head) {
        lemma_segments_first(path.segments);
        assert(path_toks(path) == segments_toks(path.segments));
        if has_body(t.head) {
            assert(open_toks(t.head)[0] == path_toks(path)[0]);
        }
    }
}

#[verifier::rlimit(50)]
proof fn lemma_reparse_leaf(input: Input, depth: nat, pos: int, t: Tree, commas: Commas)
    requires
        canonical_floats(input.floats),
        !has_body(t.head),
        head_path(t.head) is None,
        stand_at(input, pos, tree_toks(t, commas)),
        depth <= MAX_NESTING_DEPTH,
        tree_fits(input.floats, t, (MAX_NESTING_DEPTH - depth + 1) as nat),
    ensures
        gives(input.value_inner(depth, pos), t, pos + tree_toks(t, commas).len()),
{
    let toks = leaf_toks(t.head);
    assert(toks == tree_toks(t, commas));
    lemma_stand_one_of(input, pos, toks, 0);
    if toks.len() > 1 {
        lemma_stand_one_of(input, pos, toks, 1);
    }
    lemma_value_words();
    assert(t.names =~= Seq::empty());
    match t.head {
        Head::Int(v) => {
            if v < 0 {
                lemma_int_text_value((-v) as nat);
            } else {
                lemma_int_text_value(v as nat);
            }
        },
        Head::Float(f) => {
            if f.is_finite() {
                lemma_no_separators(f.magnitude);
            }
        },
        Head::Str(x) => {
            law_escape_round_trip(x);
        },
        _ => {},
    }
    let outcome = input.value_inner(depth, pos);
    assert(outcome is Ok);
    assert(twin_head(t.head, outcome->Ok_0.0.head));
}

/// The problem of a path does not depend on its spans.
pub proof fn lemma_no_problem(a: Path, b: Path, message: Seq<char>)
    requires
        same_path(a, b),
        a.segments.len() > 0,
        names_type(a),
    ensures
        path_problem(b, message) is None,
{
    assert(same_segments(a.segments, b.segments));
    assert(same_segment(a.segments.last(), b.segments.last()));
}

#[verifier::rlimit(50)]
pub proof fn lemma_reparse_value(input: Input, depth: nat, pos: int, t: Tree, commas: Commas)
    requires
        canonical_floats(input.floats),
        stand_at(input, pos, tree_toks(t, commas)),
        depth < MAX_NESTING_DEPTH,
        item_fits(input.floats, t, (MAX_NESTING_DEPTH - depth) as nat),
        commas_fit(t, commas),
        ends_value(input.kind(pos + tree_toks(t, commas).len())),
    ensures
        gives(input.value(depth, pos), t, pos + tree_toks(t, commas).len()),
    decreases t, t.children.len() + 4,
{
    if head_path(t.head) is Some {
        lemma_reparse_path_value(input, depth, pos, t, commas);
    } else if has_body(t.head) {
        lemma_reparse_brackets(input, depth, pos, t, commas);
    } else {
        lemma_reparse_leaf(input, depth + 1, pos, t, commas);
    }
}

/// A value that starts with a path.
#[verifier::rlimit(50)]
proof fn lemma_reparse_path_value(
    input: Input,
    depth: nat,
    pos: int,
    t: Tree,
    commas: Commas,
)
    requires
        canonical_floats(input.floats),
        head_path(t.head) is Some,
        stand_at(input, pos, tree_toks(t, commas)),
        depth < MAX_NESTING_DEPTH,
        item_fits(input.floats, t, (MAX_NESTING_DEPTH - depth) as nat),
        commas_fit(t, commas),
        ends_value(input.kind(pos + tree_toks(t, commas).len())),
    ensures
        gives(input.value_inner(depth + 1, pos), t, pos + tree_toks(t, commas).len()),
    decreases t, t.children.len() + 3,
{
    let toks = tree_toks(t, commas);
    let path = head_path(t.head)->0;
    lemma_tree_first(input.floats, t, commas, (MAX_NESTING_DEPTH - depth) as nat);
    lemma_stand_one_of(input, pos, toks, 0);
    lemma_path_then_body(input, depth + 1, pos, t, commas, path);
    let (p, q) = input.path(depth + 1, pos)->Ok_0;
    lemma_no_problem(path, p, crate::unsupported::PATH_CASE@);
    lemma_reparse_body(input, depth + 1, q, t, commas, path, p);
    if toks[0].text == "const"@ || toks[0].text == "unsafe"@ {
        lemma_keyword_path(input, pos, t, commas, path);
    }
    assert(input.value_inner(depth + 1, pos) == input.path_value(depth + 1, pos));
}

/// A tuple or a list.
#[verifier::rlimit(50)]
proof fn lemma_reparse_brackets(input: Input, depth: nat, pos: int, t: Tree, commas: Commas)
    requires
        canonical_floats(input.floats),
        head_path(t.head) is None,
        has_body(t.head),
        stand_at(input, pos, tree_toks(t, commas)),
        depth < MAX_NESTING_DEPTH,
        item_fits(input.floats, t, (MAX_NESTING_DEPTH - depth) as nat),
        commas_fit(t, commas),
        ends_value(input.kind(pos + tree_toks(t, commas).len())),
    ensures
        gives(input.value_inner(depth + 1, pos), t, pos + tree_toks(t, commas).len()),
    decreases t, t.children.len() + 2,
{
    let n = (MAX_NESTING_DEPTH - depth) as nat;
    let span = input.tok(pos).span;
    lemma_stand_one_of(input, pos, tree_toks(t, commas), 0);
    if t.head is Tuple {
        lemma_body_parts(input, pos, t, commas);
        lemma_items_prefix(input, pos + 1, t, commas, 1, t.children.len() as int);
        lemma_item_parts(input, pos + 1, t, commas, 0);
        assert(item_fits(input.floats, t.children[0], (n - 1) as nat));
        lemma_tree_first(input.floats, t.children[0], commas.inside[0], (n - 1) as nat);
        lemma_stand_one_of(input, pos + 1, tree_toks(t.children[0], commas.inside[0]), 0);
        lemma_skip_tree(input, pos + 1, t.children[0], commas.inside[0], 0, 0);
        assert(input.comma_ahead(pos + 1, 0, 0));
        lemma_reparse_bracketed(
            input,
            depth + 1,
            pos,
            t,
            commas,
            pos,
            seq!["`,`"@, "`)`"@],
            span,
            Head::Tuple,
        );
        assert(input.value_inner(depth + 1, pos) == input.paren_value(depth + 1, pos));
    } else {
        lemma_reparse_bracketed(
            input,
            depth + 1,
            pos,
            t,
            commas,
            pos,
            seq!["`,`"@, "`]`"@],
            span,
            Head::List,
        );
    }
}

/// A bracketed list of values whose opening bracket is at `pos`, in a value that starts at
/// `start`.
#[verifier::rlimit(50)]
proof fn lemma_reparse_bracketed(
    input: Input,
    depth: nat,
    start: int,
    t: Tree,
    commas: Commas,
    pos: int,
    expected: Seq<Seq<char>>,
    first: crate::span::Span,
    head: Head,
)
    requires
        canonical_floats(input.floats),
        has_body(t.head),
        !(t.head is Struct),
        twin_head(t.head, head),
        stand_at(input, start, tree_toks(t, commas)),
        pos + 1 == start + open_toks(t.head).len(),
        depth <= MAX_NESTING_DEPTH,
        tree_fits(input.floats, t, (MAX_NESTING_DEPTH - depth + 1) as nat),
        commas_fit(t, commas),
    ensures
        gives(
            input.bracketed(depth, pos, punct(close_char(t.head)).kind, expected, first, head),
            t,
            start + tree_toks(t, commas).len(),
        ),
    decreases t, t.children.len() + 1,
{
    lemma_body_parts(input, start, t, commas);
    lemma_open_len(t.head);
    lemma_stand_inside(input, start, tree_toks(t, commas));
    lemma_reparse_items(input, depth, pos + 1, t, commas, 0, Seq::empty());
    let (items, q) = input.value_list(
        depth,
        pos + 1,
        punct(close_char(t.head)).kind,
        Seq::empty(),
    )->Ok_0;
    assert(t.names =~= Seq::empty());
}

proof fn lemma_open_len(head: Head)
    requires
        has_body(head),
    ensures
        open_toks(head).len() > 0,
{
}

/// The tokens of a value that starts with a path: the path is parsed, and what follows is the
/// body or the end of the value.
pub proof fn lemma_path_then_body(
    input: Input,
    depth: nat,
    pos: int,
    t: Tree,
    commas: Commas,
    path: Path,
)
    requires
        canonical_floats(input.floats),
        head_path(t.head) == Some(path),
        stand_at(input, pos, tree_toks(t, commas)),
        depth <= MAX_NESTING_DEPTH,
        tree_fits(input.floats, t, (MAX_NESTING_DEPTH - depth + 1) as nat),
        ends_value(input.kind(pos + tree_toks(t, commas).len())),
    ensures
        gives_path(input.path(depth, pos), path, pos + path_toks(path).len()),
        input.bad(pos + path_toks(path).len()) is None,
        path_toks(path).len() > 0,
        pos + path_toks(path).len() < input.toks.len(),
        has_body(t.head) ==> path_toks(path).len() + 1 == open_toks(t.head).len() && input.kind(
            pos + path_toks(path).len(),
        ) == (if t.head is Struct {
            TokenKind::LBrace
        } else {
            TokenKind::LParen
        }),
{
    lemma_segments_first(path.segments);
    assert(path_toks(path) == segments_toks(path.segments));
    if has_body(t.head) {
        lemma_body_parts(input, pos, t, commas);
        let open = open_toks(t.head);
        let last = seq![open.last()];
        assert(open =~= path_toks(path) + last);
        lemma_stand_split(input, pos, path_toks(path), last);
        lemma_stand_one(input, pos + path_toks(path).len(), open.last());
    }
    lemma_path_first(input, pos, t, commas, path);
    lemma_stand_inside(input, pos, path_toks(path));
    lemma_reparse_path(input, depth, pos, path);
}

/// A type path that starts with a keyword has another segment or generic arguments.
proof fn lemma_keyword_path(
    input: Input,
    pos: int,
    t: Tree,
    commas: Commas,
    path: Path,
)
    requires
        head_path(t.head) == Some(path),
        stand_at(input, pos, tree_toks(t, commas)),
        path.segments.len() > 0,
        names_type(path),
        path.segments[0].ident == "const"@ || path.segments[0].ident == "unsafe"@,
    ensures
        input.kind(pos + 1) != TokenKind::LBrace,
{
    reveal_strlit("const");
    reveal_strlit("unsafe");
    lemma_path_first(input, pos, t, commas, path);
    lemma_long_path(input, pos, path);
}

/// The second token of a type path that starts with a lowercase identifier.
pub proof fn lemma_long_path(input: Input, pos: int, path: Path)
    requires
        stand_at(input, pos, path_toks(path)),
        path.segments.len() > 0,
        names_type(path),
        path.segments[0].ident.len() > 0,
        !crate::chars::spec_is_upper(path.segments[0].ident[0]),
    ensures
        input.kind(pos + 1) == TokenKind::ColonColon || input.kind(pos + 1) == TokenKind::Lt,
{
    assert(path.segments.len() > 1);
    lemma_second_token(path.segments);
    assert(path_toks(path) == segments_toks(path.segments));
    lemma_stand_one_of(input, pos, path_toks(path), 1);
}

/// The tokens of a value that starts with a path start with those of the path.
pub proof fn lemma_path_first(input: Input, pos: int, t: Tree, commas: Commas, path: Path)
    requires
        head_path(t.head) == Some(path),
        stand_at(input, pos, tree_toks(t, commas)),
    ensures
        stand_at(input, pos, path_toks(path)),
{
    if has_body(t.head) {
        lemma_body_parts(input, pos, t, commas);
        let open = open_toks(t.head);
        let last = seq![open.last()];
        assert(open =~= path_toks(path) + last);
        lemma_stand_split(input, pos, path_toks(path), last);
    }
}

/// The second token of a path with more than one segment.
proof fn lemma_second_token(segments: Seq<Segment>)
    requires
        segments.len() > 1,
    ensures
        segments_toks(segments).len() > 1,
        segments_toks(segments)[1].kind == TokenKind::ColonColon || segments_toks(
            segments,
        )[1].kind == TokenKind::Lt,
    decreases segments.len(),
{
    let first = segment_toks(segments[0]);
    assert(first.len() == 1 || first.len() > 2 && first[1] == punct('<'));
    let before = segments_toks(segments.drop_last());
    assert(segments_toks(segments) == before + seq![double_colon()] + segment_toks(
        segments.last(),
    ));
    if segments.len() > 2 {
        lemma_second_token(segments.drop_last());
    } else {
        assert(segments.drop_last()[0] == segments[0]);
        assert(before == first);
    }
}

/// The body of a value whose path is parsed as `p`.
#[verifier::rlimit(50)]
pub proof fn lemma_reparse_body(
    input: Input,
    depth: nat,
    pos: int,
    t: Tree,
    commas: Commas,
    path: Path,
    p: Path,
)
    requires
        canonical_floats(input.floats),
        head_path(t.head) == Some(path),
        same_path(path, p),
        pos >= path_toks(path).len(),
        stand_at(input, pos - path_toks(path).len(), tree_toks(t, commas)),
        depth <= MAX_NESTING_DEPTH,
        tree_fits(input.floats, t, (MAX_NESTING_DEPTH - depth + 1) as nat),
        commas_fit(t, commas),
        ends_value(input.kind(pos - path_toks(path).len() + tree_toks(t, commas).len())),
        has_body(t.head) ==> path_toks(path).len() + 1 == open_toks(t.head).len() && input.kind(
            pos,
        ) == (if t.head is Struct {
            TokenKind::LBrace
        } else {
            TokenKind::LParen
        }),
    ensures
        gives(
            input.path_body(depth, pos, p),
            t,
            pos - path_toks(path).len() + tree_toks(t, commas).len(),
        ),
    decreases t, t.children.len() + 2,
{
    let start = pos - path_toks(path).len();
    if has_body(t.head) {
        lemma_body_parts(input, start, t, commas);
        if t.head is Struct {
            assert(t.names.take(0) =~= Seq::empty());
            lemma_reparse_fields(
                input,
                depth,
                pos + 1,
                t,
                commas,
                0,
                p,
                Seq::empty(),
                Seq::empty(),
                Seq::empty(),
            );
        } else {
            lemma_reparse_bracketed(
                input,
                depth,
                start,
                t,
                commas,
                pos,
                seq!["`,`"@, "`)`"@],
                p.span,
                Head::NamedTuple(p),
            );
        }
    } else {
        assert(tree_toks(t, commas) == path_toks(path));
        assert(t.names =~= Seq::empty());
    }
}

/// The values of a list from item `k` on.
#[verifier::rlimit(50)]
proof fn lemma_reparse_items(
    input: Input,
    depth: nat,
    pos: int,
    t: Tree,
    commas: Commas,
    k: int,
    items: Seq<Tree>,
)
    requires
        canonical_floats(input.floats),
        has_body(t.head),
        !(t.head is Struct),
        0 <= k <= t.children.len(),
        stand_at(input, pos, items_toks(t, commas, t.children.len())),
        depth <= MAX_NESTING_DEPTH,
        tree_fits(input.floats, t, (MAX_NESTING_DEPTH - depth + 1) as nat),
        commas_fit(t, commas),
        input.kind(pos + items_toks(t, commas, t.children.len()).len()) == punct(
            close_char(t.head),
        ).kind,
        items.len() == k,
        forall|i: int| 0 <= i < k ==> twins(#[trigger] t.children[i], items[i]),
    ensures
        input.value_list(
            depth,
            pos + items_toks(t, commas, k as nat).len(),
            punct(close_char(t.head)).kind,
            items,
        ) matches Ok((r, q)) && q == pos + items_toks(t, commas, t.children.len()).len() && r.len()
            == t.children.len() && (forall|i: int|
            0 <= i < r.len() ==> twins(#[trigger] t.children[i], r[i])),
    decreases t, t.children.len() - k,
{
    if k < t.children.len() {
        lemma_items_prefix(input, pos, t, commas, k + 1, t.children.len() as int);
        lemma_item_parts(input, pos, t, commas, k);
        let at = pos + items_toks(t, commas, k as nat).len();
        let child = t.children[k];
        let inside = commas.inside[k];
        assert(item_fits(input.floats, child, (MAX_NESTING_DEPTH - depth) as nat));
        lemma_tree_first(input.floats, child, inside, (MAX_NESTING_DEPTH - depth) as nat);
        lemma_stand_one_of(input, at, tree_toks(child, inside), 0);
        lemma_reparse_value(input, depth, at, child, inside);
        let (item, q) = input.value(depth, at)->Ok_0;
        if k + 1 < t.children.len() || commas.trailing {
            lemma_reparse_items(input, depth, pos, t, commas, k + 1, items.push(item));
        }
    }
}

/// The fields of a struct from field `k` on.
#[verifier::rlimit(50)]
proof fn lemma_reparse_fields(
    input: Input,
    depth: nat,
    pos: int,
    t: Tree,
    commas: Commas,
    k: int,
    p: Path,
    names: Seq<Seq<char>>,
    spans: Seq<crate::span::Span>,
    items: Seq<Tree>,
)
    requires
        canonical_floats(input.floats),
        t.head matches Head::Struct(path) && same_path(path, p),
        0 <= k <= t.children.len(),
        stand_at(input, pos, items_toks(t, commas, t.children.len())),
        depth <= MAX_NESTING_DEPTH,
        tree_fits(input.floats, t, (MAX_NESTING_DEPTH - depth + 1) as nat),
        commas_fit(t, commas),
        input.kind(pos + items_toks(t, commas, t.children.len()).len()) == TokenKind::RBrace,
        names == t.names.take(k),
        items.len() == k,
        forall|i: int| 0 <= i < k ==> twins(#[trigger] t.children[i], items[i]),
    ensures
        gives(
            input.fields(
                depth,
                pos + items_toks(t, commas, k as nat).len(),
                p,
                names,
                spans,
                items,
            ),
            t,
            pos + items_toks(t, commas, t.children.len()).len() + 1,
        ),
    decreases t, t.children.len() - k,
{
    assert(t.names.take(t.names.len() as int) =~= t.names);
    if k < t.children.len() {
        lemma_items_prefix(input, pos, t, commas, k + 1, t.children.len() as int);
        lemma_item_parts(input, pos, t, commas, k);
        let at = pos + items_toks(t, commas, k as nat).len();
        let child = t.children[k];
        let inside = commas.inside[k];
        assert(item_fits(input.floats, child, (MAX_NESTING_DEPTH - depth) as nat));
        lemma_stand_one_of(input, at, prefix_toks(t, k), 0);
        lemma_stand_one_of(input, at, prefix_toks(t, k), 1);
        lemma_reparse_value(input, depth, at + 2, child, inside);
        let (item, q) = input.value(depth, at + 2)->Ok_0;
        let next = names.push(t.names[k]);
        assert(next =~= t.names.take(k + 1));
        let ident = input.tok(at);
        if k + 1 < t.children.len() || commas.trailing {
            lemma_reparse_fields(
                input,
                depth,
                pos,
                t,
                commas,
                k + 1,
                p,
                next,
                spans.push(ident.span),
                items.push(item),
            );
        }
    }
}

} // verus!
