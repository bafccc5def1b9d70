//! What the text of a path says of the path.

use vstd::prelude::*;

use crate::ast::{last_ident, plain_path};
use crate::entities::{input_of, path_model};
use crate::equality::lemma_same_path_sym;
use crate::error::{joined, MAX_NESTING_DEPTH};
use crate::grammar::Input;
use crate::model::{
    path_text, same_path, same_paths, same_segment, same_segments, segment_text, segments_text,
    Path, Segment,
};
use crate::parsed_trees::lemma_path_parsed;
use crate::reading::{holds_at, ident_token, punct, stops};
use crate::reparse_paths::{
    ends_path, gives_path, gives_segment, lemma_next_path, lemma_next_segment, lemma_path_segments,
    lemma_paths_prefix, lemma_segments_first, lemma_segments_prefix, lemma_stand_inside,
    lemma_stand_one, lemma_stand_one_of, lemma_stand_split, path_start, segment_fits, stand_at,
};
use crate::reread_document::lemma_input;
use crate::reread_values::lemma_reads_path;
use crate::roundtrip::lemma_sound;
use crate::shape::{path_fits, path_toks, paths_toks, segment_toks, segments_toks};
use crate::token::TokenKind;
use crate::twin::lemma_same_path_text;

verus! {

/// The tokens of the text of a path.
proof fn lemma_path_input(path: Path, n: nat)
    requires
        path_fits(path, n),
    ensures
        ({
            let input = input_of(path_text(path), Seq::empty());
            &&& stand_at(input, 0, path_toks(path))
            &&& input.kind(path_toks(path).len() as int) == TokenKind::Eof
        }),
{
    let s = path_text(path);
    assert(s.subrange(0, s.len() as int) =~= s);
    assert(holds_at(s, 0, s));
    assert(stops(s, s.len() as int));
    lemma_reads_path(s, 0, path, n);
    lemma_segments_first(path.segments);
    assert(path_toks(path) == segments_toks(path.segments));
    lemma_input(s, Seq::empty(), path_toks(path));
}

// -- one text, one path -------------------------------------------------------------------------

proof fn lemma_one_path(input: Input, pos: int, a: Path, b: Path, n: nat, m: nat)
    requires
        stand_at(input, pos, path_toks(a)),
        stand_at(input, pos, path_toks(b)),
        path_fits(a, n),
        path_fits(b, m),
        ends_path(input.kind(pos + path_toks(a).len())),
        ends_path(input.kind(pos + path_toks(b).len())),
    ensures
        same_path(a, b),
        path_toks(a).len() == path_toks(b).len(),
    decreases a, 0nat,
{
    let x = a.segments;
    let y = b.segments;
    lemma_path_segments(a, n);
    lemma_path_segments(b, m);
    assert(x.take(x.len() as int) =~= x);
    assert(y.take(y.len() as int) =~= y);
    lemma_segments_prefix(input, pos, x, 1, x.len() as int);
    lemma_segments_prefix(input, pos, y, 1, y.len() as int);
    assert(segments_toks(x.take(1)) == segment_toks(x[0]));
    assert(segments_toks(y.take(1)) == segment_toks(y[0]));
    if x.len() > 1 {
        lemma_segments_prefix(input, pos, x, 2, x.len() as int);
        lemma_next_segment(input, pos, x, 1);
    }
    if y.len() > 1 {
        lemma_segments_prefix(input, pos, y, 2, y.len() as int);
        lemma_next_segment(input, pos, y, 1);
    }
    lemma_one_segment(input, pos, x[0], y[0], (n - 1) as nat, (m - 1) as nat);
    assert(same_segments(x.take(1).drop_last(), y.take(1).drop_last()));
    assert(same_segments(x.take(1), y.take(1)));
    lemma_one_list(input, pos, x, y, 1, (n - 1) as nat, (m - 1) as nat);
}

proof fn lemma_one_list(
    input: Input,
    pos: int,
    x: Seq<Segment>,
    y: Seq<Segment>,
    k: int,
    n: nat,
    m: nat,
)
    requires
        1 <= k <= x.len(),
        k <= y.len(),
        stand_at(input, pos, segments_toks(x)),
        stand_at(input, pos, segments_toks(y)),
        forall|i: int| 0 <= i < x.len() ==> segment_fits(#[trigger] x[i], n),
        forall|i: int| 0 <= i < y.len() ==> segment_fits(#[trigger] y[i], m),
        ends_path(input.kind(pos + segments_toks(x).len())),
        ends_path(input.kind(pos + segments_toks(y).len())),
        same_segments(x.take(k), y.take(k)),
        segments_toks(x.take(k)).len() == segments_toks(y.take(k)).len(),
    ensures
        same_segments(x, y),
        segments_toks(x).len() == segments_toks(y).len(),
    decreases x, x.len() - k,
{
    assert(x.take(x.len() as int) =~= x);
    assert(y.take(y.len() as int) =~= y);
    if k < x.len() {
        lemma_segments_prefix(input, pos, x, k + 1, x.len() as int);
        lemma_next_segment(input, pos, x, k);
    }
    if k < y.len() {
        lemma_segments_prefix(input, pos, y, k + 1, y.len() as int);
        lemma_next_segment(input, pos, y, k);
    }
    if k < x.len() {
        assert(k < y.len());
        let at = pos + segments_toks(x.take(k)).len() + 1;
        if k + 1 < x.len() {
            lemma_segments_prefix(input, pos, x, k + 2, x.len() as int);
            lemma_next_segment(input, pos, x, k + 1);
        }
        if k + 1 < y.len() {
            lemma_segments_prefix(input, pos, y, k + 2, y.len() as int);
            lemma_next_segment(input, pos, y, k + 1);
        }
        lemma_one_segment(input, at, x[k], y[k], n, m);
        assert(x.take(k + 1).drop_last() =~= x.take(k));
        assert(y.take(k + 1).drop_last() =~= y.take(k));
        assert(same_segments(x.take(k + 1), y.take(k + 1)));
        lemma_one_list(input, pos, x, y, k + 1, n, m);
    }
}

proof fn lemma_one_segment(input: Input, pos: int, a: Segment, b: Segment, n: nat, m: nat)
    requires
        stand_at(input, pos, segment_toks(a)),
        stand_at(input, pos, segment_toks(b)),
        segment_fits(a, n),
        segment_fits(b, m),
        input.kind(pos + segment_toks(a).len()) != TokenKind::Lt,
        input.kind(pos + segment_toks(b).len()) != TokenKind::Lt,
    ensures
        same_segment(a, b),
        segment_toks(a).len() == segment_toks(b).len(),
    decreases a, 0nat,
{
    lemma_stand_one_of(input, pos, segment_toks(a), 0);
    lemma_stand_one_of(input, pos, segment_toks(b), 0);
    if a.generics.len() > 0 {
        lemma_segment_generics(input, pos, a);
    }
    if b.generics.len() > 0 {
        lemma_segment_generics(input, pos, b);
    }
    if a.generics.len() > 0 {
        assert(same_paths(a.generics.take(0), b.generics.take(0)));
        lemma_one_of_paths(input, pos + 2, a.generics, b.generics, 0, n, m);
    } else {
        assert(same_paths(a.generics, b.generics));
    }
}

/// The tokens of the generic arguments of a segment.
proof fn lemma_segment_generics(input: Input, pos: int, segment: Segment)
    requires
        stand_at(input, pos, segment_toks(segment)),
        segment.generics.len() > 0,
    ensures
        input.kind(pos + 1) == TokenKind::Lt,
        stand_at(input, pos + 2, paths_toks(segment.generics)),
        input.kind(pos + 2 + paths_toks(segment.generics).len()) == TokenKind::Gt,
        segment_toks(segment).len() == paths_toks(segment.generics).len() + 3,
{
    let toks = segment_toks(segment);
    let head = seq![ident_token(segment.ident), punct('<')];
    let list = paths_toks(segment.generics);
    let close = seq![punct('>')];
    assert(toks =~= head + (list + close));
    lemma_stand_one_of(input, pos, toks, 1);
    lemma_stand_split(input, pos, head, list + close);
    lemma_stand_split(input, pos + 2, list, close);
    lemma_stand_one(input, pos + 2 + list.len(), punct('>'));
}

proof fn lemma_one_of_paths(
    input: Input,
    pos: int,
    x: Seq<Path>,
    y: Seq<Path>,
    k: int,
    n: nat,
    m: nat,
)
    requires
        0 <= k < x.len(),
        k < y.len(),
        stand_at(input, pos, paths_toks(x)),
        stand_at(input, pos, paths_toks(y)),
        forall|i: int| 0 <= i < x.len() ==> path_fits(#[trigger] x[i], n),
        forall|i: int| 0 <= i < y.len() ==> path_fits(#[trigger] y[i], m),
        input.kind(pos + paths_toks(x).len()) == TokenKind::Gt,
        input.kind(pos + paths_toks(y).len()) == TokenKind::Gt,
        same_paths(x.take(k), y.take(k)),
        path_start(pos, x, k) == path_start(pos, y, k),
    ensures
        same_paths(x, y),
        paths_toks(x).len() == paths_toks(y).len(),
    decreases x, x.len() - k,
{
    assert(x.take(x.len() as int) =~= x);
    assert(y.take(y.len() as int) =~= y);
    lemma_paths_prefix(input, pos, x, k + 1, x.len() as int);
    lemma_next_path(input, pos, x, k);
    lemma_paths_prefix(input, pos, y, k + 1, y.len() as int);
    lemma_next_path(input, pos, y, k);
    if k + 1 < x.len() {
        lemma_paths_prefix(input, pos, x, k + 2, x.len() as int);
        lemma_next_path(input, pos, x, k + 1);
    }
    if k + 1 < y.len() {
        lemma_paths_prefix(input, pos, y, k + 2, y.len() as int);
        lemma_next_path(input, pos, y, k + 1);
    }
    lemma_one_path(input, path_start(pos, x, k), x[k], y[k], n, m);
    assert(x.take(k + 1).drop_last() =~= x.take(k));
    assert(y.take(k + 1).drop_last() =~= y.take(k));
    assert(same_paths(x.take(k + 1), y.take(k + 1)));
    if k + 1 < x.len() {
        lemma_one_of_paths(input, pos, x, y, k + 1, n, m);
    }
}

/// Two paths of identifiers, nested however deep, are structurally equal exactly when their
/// canonical texts are equal.
pub proof fn law_paths_equal_when_texts_are(a: Path, b: Path, n: nat, m: nat)
    requires
        path_fits(a, n),
        path_fits(b, m),
    ensures
        same_path(a, b) <==> path_text(a) == path_text(b),
{
    if same_path(a, b) {
        lemma_same_path_text(a, b);
    }
    if path_text(a) == path_text(b) {
        let input = input_of(path_text(a), Seq::empty());
        lemma_path_input(a, n);
        lemma_path_input(b, m);
        lemma_one_path(input, 0, a, b, n, m);
    }
}

// -- paths that nest too deep -------------------------------------------------------------------

proof fn lemma_read_path(input: Input, depth: nat, pos: int, path: Path, n: nat)
    requires
        stand_at(input, pos, path_toks(path)),
        path_fits(path, n),
        ends_path(input.kind(pos + path_toks(path).len())),
    ensures
        input.path(depth, pos) is Ok ==> gives_path(
            input.path(depth, pos),
            path,
            pos + path_toks(path).len(),
        ),
    decreases path, 0nat,
{
    if input.path(depth, pos) is Ok {
        let segments = path.segments;
        lemma_path_segments(path, n);
        assert(segments.take(segments.len() as int) =~= segments);
        lemma_segments_prefix(input, pos, segments, 1, segments.len() as int);
        let first = segments.take(1);
        assert(segments_toks(first) == segment_toks(segments[0]));
        if segments.len() > 1 {
            lemma_segments_prefix(input, pos, segments, 2, segments.len() as int);
            lemma_next_segment(input, pos, segments, 1);
        }
        lemma_segments_first(segments);
        lemma_stand_one_of(input, pos, path_toks(path), 0);
        lemma_read_segment(input, depth + 1, pos, segments[0], (n - 1) as nat);
        let segment = input.segment(depth + 1, pos)->Ok_0.0;
        assert(same_segments(first.drop_last(), seq![segment].drop_last()));
        assert(same_segments(first, seq![segment]));
        lemma_segments_first(first);
        lemma_read_more(input, depth + 1, pos, segments, 1, seq![segment], (n - 1) as nat);
    }
}

proof fn lemma_read_more(
    input: Input,
    depth: nat,
    pos: int,
    segments: Seq<Segment>,
    k: int,
    done: Seq<Segment>,
    n: nat,
)
    requires
        1 <= k <= segments.len(),
        stand_at(input, pos, segments_toks(segments)),
        done.len() == k,
        same_segments(segments.take(k), done),
        forall|i: int| 0 <= i < segments.len() ==> segment_fits(#[trigger] segments[i], n),
        ends_path(input.kind(pos + segments_toks(segments).len())),
    ensures
        input.more_segments(depth, pos + segments_toks(segments.take(k)).len(), done) matches Ok(
            (p, q),
        ) ==> q == pos + segments_toks(segments).len() && same_segments(segments, p.segments),
    decreases segments, segments.len() - k,
{
    assert(segments.take(segments.len() as int) =~= segments);
    lemma_segments_prefix(input, pos, segments, k, segments.len() as int);
    lemma_stand_inside(input, pos, segments_toks(segments.take(k)));
    if k < segments.len() {
        let at = pos + segments_toks(segments.take(k)).len();
        lemma_segments_prefix(input, pos, segments, k + 1, segments.len() as int);
        lemma_next_segment(input, pos, segments, k);
        if k + 1 < segments.len() {
            lemma_segments_prefix(input, pos, segments, k + 2, segments.len() as int);
            lemma_next_segment(input, pos, segments, k + 1);
        }
        lemma_read_segment(input, depth, at + 1, segments[k], n);
        lemma_stand_inside(input, at + 1, segment_toks(segments[k]));
        if let Ok((segment, q)) = input.segment(depth, at + 1) {
            let next = done.push(segment);
            assert(segments.take(k + 1).drop_last() =~= segments.take(k));
            assert(next.drop_last() =~= done);
            assert(same_segments(segments.take(k + 1), next));
            lemma_read_more(input, depth, pos, segments, k + 1, next, n);
        }
    }
}

proof fn lemma_read_segment(input: Input, depth: nat, pos: int, segment: Segment, n: nat)
    requires
        stand_at(input, pos, segment_toks(segment)),
        segment_fits(segment, n),
        input.kind(pos + segment_toks(segment).len()) != TokenKind::Lt,
    ensures
        input.segment(depth, pos) is Ok ==> gives_segment(
            input.segment(depth, pos),
            segment,
            pos + segment_toks(segment).len(),
        ),
    decreases segment, 0nat,
{
    lemma_stand_one_of(input, pos, segment_toks(segment), 0);
    if segment.generics.len() > 0 {
        lemma_segment_generics(input, pos, segment);
        assert(same_paths(segment.generics.take(0), Seq::<Path>::empty()));
        lemma_read_paths(input, depth, pos + 2, segment.generics, 0, Seq::empty(), n);
    } else {
        assert(same_paths(segment.generics, Seq::<Path>::empty()));
    }
}

proof fn lemma_read_paths(
    input: Input,
    depth: nat,
    pos: int,
    paths: Seq<Path>,
    k: int,
    items: Seq<Path>,
    n: nat,
)
    requires
        0 <= k < paths.len(),
        stand_at(input, pos, paths_toks(paths)),
        items.len() == k,
        same_paths(paths.take(k), items),
        forall|i: int| 0 <= i < paths.len() ==> path_fits(#[trigger] paths[i], n),
        input.kind(pos + paths_toks(paths).len()) == TokenKind::Gt,
    ensures
        input.path_list(depth, path_start(pos, paths, k), items) matches Ok((r, q)) ==> q == pos
            + paths_toks(paths).len() && same_paths(paths, r),
    decreases paths, paths.len() - k,
{
    let at = path_start(pos, paths, k);
    assert(paths.take(paths.len() as int) =~= paths);
    lemma_paths_prefix(input, pos, paths, k + 1, paths.len() as int);
    lemma_next_path(input, pos, paths, k);
    if k + 1 < paths.len() {
        lemma_paths_prefix(input, pos, paths, k + 2, paths.len() as int);
        lemma_next_path(input, pos, paths, k + 1);
    }
    lemma_segments_first(paths[k].segments);
    lemma_stand_one_of(input, at, path_toks(paths[k]), 0);
    lemma_read_path(input, depth, at, paths[k], n);
    if let Ok((item, q)) = input.path(depth, at) {
        let next = items.push(item);
        assert(paths.take(k + 1).drop_last() =~= paths.take(k));
        assert(next.drop_last() =~= items);
        assert(same_paths(paths.take(k + 1), next));
        if k + 1 < paths.len() {
            lemma_read_paths(input, depth, pos, paths, k + 1, next, n);
        }
    }
}

// -- paths that differ in spans nest alike ------------------------------------------------------

proof fn lemma_same_fits(a: Path, b: Path, n: nat)
    requires
        same_path(a, b),
        path_fits(a, n),
    ensures
        path_fits(b, n),
    decreases n,
{
    let x = a.segments;
    let y = b.segments;
    lemma_each_segment(x, y);
    assert forall|i: int, j: int|
        0 <= i < y.len() && 0 <= j < y[i].generics.len() implies path_fits(
        #[trigger] y[i].generics[j],
        (n - 1) as nat,
    ) by {
        assert(same_segment(x[i], y[i]));
        lemma_each_path(x[i].generics, y[i].generics);
        assert(path_fits(x[i].generics[j], (n - 1) as nat));
        lemma_same_fits(x[i].generics[j], y[i].generics[j], (n - 1) as nat);
    }
    assert forall|i: int| 0 <= i < y.len() implies crate::reading::valid_ident(
        #[trigger] y[i].ident,
    ) by {
        assert(same_segment(x[i], y[i]));
        assert(crate::reading::valid_ident(x[i].ident));
    }
}

proof fn lemma_each_segment(x: Seq<Segment>, y: Seq<Segment>)
    requires
        same_segments(x, y),
    ensures
        x.len() == y.len(),
        forall|i: int| 0 <= i < x.len() ==> same_segment(#[trigger] x[i], y[i]),
    decreases x.len(),
{
    if x.len() > 0 {
        lemma_each_segment(x.drop_last(), y.drop_last());
        assert forall|i: int| 0 <= i < x.len() implies same_segment(#[trigger] x[i], y[i]) by {
            if i < x.len() - 1 {
                assert(same_segment(x.drop_last()[i], y.drop_last()[i]));
            }
        }
    }
}

proof fn lemma_each_path(x: Seq<Path>, y: Seq<Path>)
    requires
        same_paths(x, y),
    ensures
        x.len() == y.len(),
        forall|i: int| 0 <= i < x.len() ==> same_path(#[trigger] x[i], y[i]),
    decreases x.len(),
{
    if x.len() > 0 {
        lemma_each_path(x.drop_last(), y.drop_last());
        assert forall|i: int| 0 <= i < x.len() implies same_path(#[trigger] x[i], y[i]) by {
            if i < x.len() - 1 {
                assert(same_path(x.drop_last()[i], y.drop_last()[i]));
            }
        }
    }
}

/// Every path that is read from a text nests at most as deep as documents may, so the text of a
/// path that nests deeper stands for no path.
pub proof fn law_deep_paths_are_refused(source: Seq<char>, path: Path, n: nat)
    requires
        path_fits(path, n),
    ensures
        path_model(source) matches Some(p) ==> path_fits(p, MAX_NESTING_DEPTH as nat),
        !path_fits(path, MAX_NESTING_DEPTH as nat) ==> path_model(path_text(path)) is None,
{
    lemma_read_fits(source);
    if let Some(p) = path_model(path_text(path)) {
        let input = input_of(path_text(path), Seq::empty());
        lemma_path_input(path, n);
        lemma_read_path(input, 0, 0, path, n);
        lemma_read_fits(path_text(path));
        lemma_same_path_sym(path, p);
        lemma_same_fits(p, path, MAX_NESTING_DEPTH as nat);
    }
}

proof fn lemma_read_fits(source: Seq<char>)
    ensures
        path_model(source) matches Some(p) ==> path_fits(p, MAX_NESTING_DEPTH as nat),
{
    let input = input_of(source, Seq::empty());
    lemma_sound(source, Seq::empty());
    lemma_path_parsed(input, 0, 0);
}

// -- parts of paths -----------------------------------------------------------------------------

/// The text of a path is that of everything but its last segment, `::`, and that of the last
/// segment, which starts with its identifier.
pub proof fn law_paths_end_with_their_last_segment(path: Path)
    requires
        path.segments.len() >= 2,
    ensures
        ({
            let parent = segments_text(path.segments.drop_last());
            let start = parent + seq![':', ':'] + last_ident(path);
            &&& start.is_prefix_of(path_text(path))
            &&& path.segments.last().generics.len() == 0 ==> path_text(path) == start
        }),
{
    reveal_strlit("::");
    assert("::"@ =~= seq![':', ':']);
    let parent = segments_text(path.segments.drop_last());
    let start = parent + seq![':', ':'] + last_ident(path);
    let text = path_text(path);
    assert(text == parent + "::"@ + segment_text(path.segments.last()));
    assert(text.take(start.len() as int) =~= start);
}

/// The text of a path of plain identifiers is the identifiers with `::` between them.
pub proof fn law_plain_paths_are_joined(idents: Seq<Seq<char>>)
    ensures
        path_text(plain_path(idents)) == joined(idents, seq![':', ':']),
    decreases idents.len(),
{
    reveal_strlit("::");
    assert("::"@ =~= seq![':', ':']);
    let segments = plain_path(idents).segments;
    if idents.len() == 1 {
        assert(segment_text(segments[0]) == idents[0]);
    } else if idents.len() > 1 {
        law_plain_paths_are_joined(idents.drop_last());
        assert(segments.drop_last() =~= plain_path(idents.drop_last()).segments);
        assert(segment_text(segments.last()) == idents.last());
    }
}

} // verus!
