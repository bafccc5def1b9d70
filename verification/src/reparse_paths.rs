//! Parsing the tokens of a well-formed path gives the path back, up to spans.

use vstd::prelude::*;

use crate::error::MAX_NESTING_DEPTH;
use crate::grammar::{Input, Lexeme, Parsed};
use crate::model::{same_path, same_paths, same_segment, same_segments, Path, Segment};
use crate::reading::{double_colon, ident_token, punct, Bare};
use crate::shape::{path_fits, path_toks, paths_toks, segment_toks, segments_toks};
use crate::token::TokenKind;

verus! {

/// A token without its span.
pub open spec fn stripped(t: Lexeme) -> Bare {
    Bare { kind: t.kind, text: t.text }
}

/// The tokens `toks` stand at `pos`, and another token follows them.
#[verifier::opaque]
pub open spec fn stand_at(input: Input, pos: int, toks: Seq<Bare>) -> bool {
    &&& 0 <= pos
    &&& pos + toks.len() < input.toks.len()
    &&& forall|k: int|
        pos <= k < pos + toks.len() ==> stripped(#[trigger] input.toks[k]) == toks[k - pos]
}

pub proof fn lemma_stand_split(input: Input, pos: int, a: Seq<Bare>, b: Seq<Bare>)
    requires
        stand_at(input, pos, a + b),
    ensures
        stand_at(input, pos, a),
        stand_at(input, pos + a.len(), b),
        0 <= pos,
        pos + a.len() + b.len() < input.toks.len(),
{
    reveal(stand_at);
    assert forall|k: int| pos <= k < pos + a.len() implies stripped(#[trigger] input.toks[k])
        == a[k - pos] by {
        assert((a + b)[k - pos] == a[k - pos]);
    }
    assert forall|k: int|
        pos + a.len() <= k < pos + a.len() + b.len() implies stripped(#[trigger] input.toks[k])
        == b[k - (pos + a.len())] by {
        assert((a + b)[k - pos] == b[k - (pos + a.len())]);
    }
}

/// Tokens stand inside the input, with at least one more token after them.
pub proof fn lemma_stand_inside(input: Input, pos: int, toks: Seq<Bare>)
    requires
        stand_at(input, pos, toks),
    ensures
        0 <= pos,
        pos + toks.len() < input.toks.len(),
{
    reveal(stand_at);
}

pub proof fn lemma_stand_one(input: Input, pos: int, tok: Bare)
    requires
        stand_at(input, pos, seq![tok]),
    ensures
        0 <= pos,
        pos + 1 < input.toks.len(),
        input.tok(pos).kind == tok.kind,
        input.tok(pos).text == tok.text,
        tok.kind !is Error ==> input.bad(pos) is None,
{
    reveal(stand_at);
    assert(stripped(input.toks[pos]) == seq![tok][pos - pos]);
}

// -- paths ------------------------------------------------------------------------------------

/// What a successful production gives: something that satisfies `good`, up to `end`.
pub open spec fn gives_path(outcome: Parsed<Path>, path: Path, end: int) -> bool {
    outcome matches Ok((p, q)) && q == end && same_path(path, p)
}

pub open spec fn gives_segment(outcome: Parsed<Segment>, segment: Segment, end: int) -> bool {
    outcome matches Ok((p, q)) && q == end && same_segment(segment, p)
}

/// A path cannot go on at a token of this kind.
pub open spec fn ends_path(kind: TokenKind) -> bool {
    kind != TokenKind::ColonColon && kind != TokenKind::Lt
}

pub open spec fn segment_fits(segment: Segment, n: nat) -> bool {
    &&& crate::reading::valid_ident(segment.ident)
    &&& forall|j: int|
        0 <= j < segment.generics.len() ==> path_fits(#[trigger] segment.generics[j], n)
}

pub proof fn lemma_path_segments(path: Path, n: nat)
    requires
        path_fits(path, n),
    ensures
        n > 0,
        path.segments.len() > 0,
        forall|i: int|
            0 <= i < path.segments.len() ==> segment_fits(
                #[trigger] path.segments[i],
                (n - 1) as nat,
            ),
{
}

/// The tokens of a path start with its first identifier.
pub proof fn lemma_segments_first(segments: Seq<Segment>)
    requires
        segments.len() > 0,
    ensures
        segments_toks(segments).len() > 0,
        segments_toks(segments)[0] == ident_token(segments[0].ident),
    decreases segments.len(),
{
    let first = segment_toks(segments[0]);
    assert(first.len() > 0 && first[0] == ident_token(segments[0].ident));
    if segments.len() > 1 {
        lemma_segments_first(segments.drop_last());
        assert(segments_toks(segments) == segments_toks(segments.drop_last()) + seq![
            double_colon(),
        ] + segment_toks(segments.last()));
    }
}

/// The tokens of some paths are a prefix of the tokens of more paths.
pub proof fn lemma_paths_prefix(input: Input, pos: int, paths: Seq<Path>, k: int, n: int)
    requires
        1 <= k <= n <= paths.len(),
        stand_at(input, pos, paths_toks(paths.take(n))),
    ensures
        stand_at(input, pos, paths_toks(paths.take(k))),
    decreases n,
{
    if k < n {
        assert(paths.take(n).drop_last() =~= paths.take(n - 1));
        let before = paths_toks(paths.take(n - 1));
        let tail = seq![punct(',')] + path_toks(paths.take(n).last());
        assert(paths_toks(paths.take(n)) =~= before + tail);
        lemma_stand_split(input, pos, before, tail);
        lemma_paths_prefix(input, pos, paths, k, n - 1);
    }
}

pub proof fn lemma_segments_prefix(input: Input, pos: int, segments: Seq<Segment>, k: int, n: int)
    requires
        1 <= k <= n <= segments.len(),
        stand_at(input, pos, segments_toks(segments.take(n))),
    ensures
        stand_at(input, pos, segments_toks(segments.take(k))),
    decreases n,
{
    if k < n {
        assert(segments.take(n).drop_last() =~= segments.take(n - 1));
        let before = segments_toks(segments.take(n - 1));
        let tail = seq![double_colon()] + segment_toks(segments.take(n).last());
        assert(segments_toks(segments.take(n)) =~= before + tail);
        lemma_stand_split(input, pos, before, tail);
        lemma_segments_prefix(input, pos, segments, k, n - 1);
    }
}

/// Where path `k` of a list of paths starts.
pub open spec fn path_start(pos: int, paths: Seq<Path>, k: int) -> int {
    if k == 0 {
        pos
    } else {
        pos + paths_toks(paths.take(k)).len() + 1
    }
}

pub proof fn lemma_reparse_path(input: Input, depth: nat, pos: int, path: Path)
    requires
        stand_at(input, pos, path_toks(path)),
        depth < MAX_NESTING_DEPTH,
        path_fits(path, (MAX_NESTING_DEPTH - depth) as nat),
        ends_path(input.kind(pos + path_toks(path).len())),
    ensures
        gives_path(input.path(depth, pos), path, pos + path_toks(path).len()),
    decreases path, 0nat,
{
    let segments = path.segments;
    lemma_path_segments(path, (MAX_NESTING_DEPTH - depth) as nat);
    assert(segments.take(segments.len() as int) =~= segments);
    lemma_segments_prefix(input, pos, segments, 1, segments.len() as int);
    let first = segments.take(1);
    assert(segments_toks(first) == segment_toks(segments[0]));
    let q = pos + segment_toks(segments[0]).len();
    if segments.len() > 1 {
        lemma_segments_prefix(input, pos, segments, 2, segments.len() as int);
        lemma_next_segment(input, pos, segments, 1);
    }
    lemma_segments_first(segments);
    lemma_stand_one_of(input, pos, path_toks(path), 0);
    lemma_reparse_segment(input, depth + 1, pos, segments[0]);
    let segment = input.segment(depth + 1, pos)->Ok_0.0;
    assert(same_segments(first.drop_last(), seq![segment].drop_last()));
    assert(same_segments(first, seq![segment]));
    lemma_segments_first(first);
    lemma_reparse_more(input, depth + 1, pos, segments, 1, seq![segment]);
}

/// Token `k` of tokens that stand at `pos`.
pub proof fn lemma_stand_one_of(input: Input, pos: int, toks: Seq<Bare>, k: int)
    requires
        stand_at(input, pos, toks),
        0 <= k < toks.len(),
    ensures
        0 <= pos,
        pos + toks.len() < input.toks.len(),
        input.tok(pos + k).kind == toks[k].kind,
        input.tok(pos + k).text == toks[k].text,
        input.kind(pos + k) == toks[k].kind,
        toks[k].kind !is Error ==> input.bad(pos + k) is None,
{
    reveal(stand_at);
    assert(stripped(input.toks[pos + k]) == toks[k]);
}

/// The separator and the tokens of segment `k`.
pub proof fn lemma_next_segment(input: Input, pos: int, segments: Seq<Segment>, k: int)
    requires
        1 <= k < segments.len(),
        stand_at(input, pos, segments_toks(segments.take(k + 1))),
    ensures
        input.kind(pos + segments_toks(segments.take(k)).len()) == TokenKind::ColonColon,
        stand_at(
            input,
            pos + segments_toks(segments.take(k)).len() + 1,
            segment_toks(segments[k]),
        ),
        segments_toks(segments.take(k + 1)).len() == segments_toks(segments.take(k)).len() + 1
            + segment_toks(segments[k]).len(),
{
    let all = segments.take(k + 1);
    assert(all.drop_last() =~= segments.take(k));
    let before = segments_toks(segments.take(k));
    let separator = seq![double_colon()];
    let last = segment_toks(segments[k]);
    assert(segments_toks(all) =~= before + (separator + last));
    lemma_stand_split(input, pos, before, separator + last);
    lemma_stand_split(input, pos + before.len(), separator, last);
    lemma_stand_one(input, pos + before.len(), double_colon());
}

proof fn lemma_reparse_more(
    input: Input,
    depth: nat,
    pos: int,
    segments: Seq<Segment>,
    k: int,
    done: Seq<Segment>,
)
    requires
        1 <= k <= segments.len(),
        stand_at(input, pos, segments_toks(segments)),
        done.len() == k,
        same_segments(segments.take(k), done),
        depth <= MAX_NESTING_DEPTH,
        forall|i: int|
            0 <= i < segments.len() ==> segment_fits(
                #[trigger] segments[i],
                (MAX_NESTING_DEPTH - depth) as nat,
            ),
        ends_path(input.kind(pos + segments_toks(segments).len())),
    ensures
        input.more_segments(depth, pos + segments_toks(segments.take(k)).len(), done) matches Ok(
            (p, q),
        ) && q == pos + segments_toks(segments).len() && same_segments(segments, p.segments),
    decreases segments, segments.len() - k,
{
    assert(segments.take(segments.len() as int) =~= segments);
    lemma_segments_prefix(input, pos, segments, k, segments.len() as int);
    lemma_stand_inside(input, pos, segments_toks(segments.take(k)));
    if k < segments.len() {
        let at = pos + segments_toks(segments.take(k)).len();
        lemma_segments_prefix(input, pos, segments, k + 1, segments.len() as int);
        lemma_next_segment(input, pos, segments, k);
        if k + 1 < segments.len() {
            lemma_segments_prefix(input, pos, segments, k + 2, segments.len() as int);
            lemma_next_segment(input, pos, segments, k + 1);
        }
        lemma_reparse_segment(input, depth, at + 1, segments[k]);
        lemma_stand_inside(input, at + 1, segment_toks(segments[k]));
        lemma_stand_inside(input, pos, segments_toks(segments.take(k + 1)));
        let (segment, q) = input.segment(depth, at + 1)->Ok_0;
        let next = done.push(segment);
        assert(segments.take(k + 1).drop_last() =~= segments.take(k));
        assert(next.drop_last() =~= done);
        assert(same_segments(segments.take(k + 1), next));
        lemma_reparse_more(input, depth, pos, segments, k + 1, next);
    }
}

proof fn lemma_reparse_segment(input: Input, depth: nat, pos: int, segment: Segment)
    requires
        stand_at(input, pos, segment_toks(segment)),
        depth <= MAX_NESTING_DEPTH,
        segment_fits(segment, (MAX_NESTING_DEPTH - depth) as nat),
        input.kind(pos + segment_toks(segment).len()) != TokenKind::Lt,
    ensures
        gives_segment(
            input.segment(depth, pos),
            segment,
            pos + segment_toks(segment).len(),
        ),
    decreases segment, 0nat,
{
    let toks = segment_toks(segment);
    lemma_stand_one_of(input, pos, toks, 0);
    if segment.generics.len() > 0 {
        let head = seq![ident_token(segment.ident), punct('<')];
        let list = paths_toks(segment.generics);
        let close = seq![punct('>')];
        assert(toks =~= head + (list + close));
        lemma_stand_one_of(input, pos, toks, 1);
        lemma_stand_split(input, pos, head, list + close);
        lemma_stand_split(input, pos + 2, list, close);
        lemma_stand_one(input, pos + 2 + list.len(), punct('>'));
        assert(same_paths(segment.generics.take(0), Seq::<Path>::empty()));
        lemma_reparse_paths(input, depth, pos + 2, segment.generics, 0, Seq::empty());
    } else {
        assert(same_paths(segment.generics, Seq::<Path>::empty()));
    }
}

proof fn lemma_reparse_paths(
    input: Input,
    depth: nat,
    pos: int,
    paths: Seq<Path>,
    k: int,
    items: Seq<Path>,
)
    requires
        0 <= k < paths.len(),
        stand_at(input, pos, paths_toks(paths)),
        items.len() == k,
        same_paths(paths.take(k), items),
        depth <= MAX_NESTING_DEPTH,
        forall|i: int|
            0 <= i < paths.len() ==> path_fits(
                #[trigger] paths[i],
                (MAX_NESTING_DEPTH - depth) as nat,
            ),
        input.kind(pos + paths_toks(paths).len()) == TokenKind::Gt,
    ensures
        input.path_list(depth, path_start(pos, paths, k), items) matches Ok((r, q)) && q == pos
            + paths_toks(paths).len() && same_paths(paths, r),
    decreases paths, paths.len() - k,
{
    let at = path_start(pos, paths, k);
    assert(paths.take(paths.len() as int) =~= paths);
    lemma_paths_prefix(input, pos, paths, k + 1, paths.len() as int);
    lemma_next_path(input, pos, paths, k);
    if k + 1 < paths.len() {
        lemma_paths_prefix(input, pos, paths, k + 2, paths.len() as int);
        lemma_next_path(input, pos, paths, k + 1);
    }
    lemma_segments_first(paths[k].segments);
    lemma_stand_one_of(input, at, path_toks(paths[k]), 0);
    lemma_reparse_path(input, depth, at, paths[k]);
    let (item, q) = input.path(depth, at)->Ok_0;
    let next = items.push(item);
    assert(paths.take(k + 1).drop_last() =~= paths.take(k));
    assert(next.drop_last() =~= items);
    assert(same_paths(paths.take(k + 1), next));
    if k + 1 < paths.len() {
        lemma_reparse_paths(input, depth, pos, paths, k + 1, next);
    }
}

/// The separator before path `k`, if it is not the first, and its tokens.
pub proof fn lemma_next_path(input: Input, pos: int, paths: Seq<Path>, k: int)
    requires
        0 <= k < paths.len(),
        stand_at(input, pos, paths_toks(paths.take(k + 1))),
    ensures
        k > 0 ==> input.kind(path_start(pos, paths, k) - 1) == TokenKind::Comma,
        stand_at(input, path_start(pos, paths, k), path_toks(paths[k])),
        pos + paths_toks(paths.take(k + 1)).len() == path_start(pos, paths, k) + path_toks(
            paths[k],
        ).len(),
{
    let all = paths.take(k + 1);
    if k == 0 {
        assert(all[0] == paths[0]);
    } else {
        assert(all.drop_last() =~= paths.take(k));
        let before = paths_toks(paths.take(k));
        let separator = seq![punct(',')];
        let last = path_toks(paths[k]);
        assert(paths_toks(all) =~= before + (separator + last));
        lemma_stand_split(input, pos, before, separator + last);
        lemma_stand_split(input, pos + before.len(), separator, last);
        lemma_stand_one(input, pos + before.len(), punct(','));
    }
}

} // verus!
