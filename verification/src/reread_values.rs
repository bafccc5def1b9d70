//! The lexer reads the printed text of a value as the tokens of the value.

use vstd::prelude::*;

use crate::chars::spec_is_space;
use crate::digits::{decimal, int_text};
use crate::error::joined;
use crate::float::{canonical_floats, Float, Floats};
use crate::grammar::Tree;
use crate::lexical::char_at;
use crate::model::{path_text, paths_text, segment_text, segments_text, Head, Path, Segment};
use crate::reading::{
    double_colon, float_token, holds_at, ident_token, int_token, is_punct, is_stopper,
    lemma_holds_char, lemma_holds_split, lemma_reads_concat, lemma_reads_double_colon,
    lemma_reads_float, lemma_reads_ident, lemma_reads_int, lemma_reads_nothing, lemma_reads_punct,
    lemma_reads_space, lemma_reads_string, punct, reads, stops, valid_ident, Bare,
};
use crate::render::{
    body_text, breakable, close_text, fields_text, forces_comma, item_prefix, leaf_text, open_text,
    Style,
};
use crate::shape::{
    close_char, comma_toks, commas_fit, float_toks, has_body, head_fits, item_fits, items_toks,
    leaf_toks, open_toks, path_fits, path_toks, paths_toks, prefix_toks, segment_toks,
    segments_toks, tree_fits, tree_toks, Commas,
};
use crate::span::last_line;
use crate::tree_text::{inline_parts, tree_inline, tree_lines, tree_text, value_of};

verus! {

// -- small pieces -----------------------------------------------------------------------------

/// A piece of text that is one punctuation character.
pub proof fn lemma_reads_char(s: Seq<char>, i: int, c: char)
    requires
        holds_at(s, i, seq![c]),
        is_punct(c),
        c == ':' ==> char_at(s, i + 1) != Some(':'),
    ensures
        reads(s, i, i + 1, seq![punct(c)]),
{
    lemma_holds_char(s, i, seq![c], 0);
    lemma_reads_punct(s, i, c);
}

/// A piece of text that is whitespace.
pub proof fn lemma_reads_blank(s: Seq<char>, i: int, text: Seq<char>)
    requires
        holds_at(s, i, text),
        forall|k: int| 0 <= k < text.len() ==> spec_is_space(#[trigger] text[k]),
    ensures
        reads(s, i, i + text.len(), Seq::empty()),
{
    assert forall|k: int| i <= k < i + text.len() implies spec_is_space(#[trigger] s[k]) by {
        lemma_holds_char(s, i, text, k - i);
        assert(spec_is_space(text[k - i]));
    }
    lemma_reads_space(s, i, i + text.len());
}

/// Two pieces of text, one after the other, and their tokens.
pub proof fn lemma_reads_two(
    s: Seq<char>,
    i: int,
    j: int,
    k: int,
    a: Seq<Bare>,
    b: Seq<Bare>,
    all: Seq<Bare>,
)
    requires
        reads(s, i, j, a),
        reads(s, j, k, b),
        a + b == all,
    ensures
        reads(s, i, k, all),
{
    lemma_reads_concat(s, i, j, k, a, b);
}

/// The character after a piece of text.
pub proof fn lemma_stops_at(s: Seq<char>, i: int, text: Seq<char>)
    requires
        holds_at(s, i, text),
        text.len() > 0,
        is_stopper(text[0]),
    ensures
        stops(s, i),
{
    lemma_holds_char(s, i, text, 0);
}

// -- paths ------------------------------------------------------------------------------------

pub proof fn lemma_reads_path(s: Seq<char>, i: int, path: Path, n: nat)
    requires
        holds_at(s, i, path_text(path)),
        path_fits(path, n),
        stops(s, i + path_text(path).len()),
    ensures
        reads(s, i, i + path_text(path).len(), path_toks(path)),
    decreases path,
{
    assert forall|k: int| 0 <= k < path.segments.len() implies segment_ok(
        #[trigger] path.segments[k],
        (n - 1) as nat,
    ) by {}
    lemma_reads_segments(s, i, path.segments, (n - 1) as nat);
}

spec fn segment_ok(segment: Segment, n: nat) -> bool {
    &&& valid_ident(segment.ident)
    &&& forall|j: int|
        0 <= j < segment.generics.len() ==> path_fits(#[trigger] segment.generics[j], n)
}

proof fn lemma_reads_segments(s: Seq<char>, i: int, segments: Seq<Segment>, n: nat)
    requires
        holds_at(s, i, segments_text(segments)),
        segments.len() > 0,
        forall|k: int| 0 <= k < segments.len() ==> segment_ok(#[trigger] segments[k], n),
        stops(s, i + segments_text(segments).len()),
    ensures
        reads(s, i, i + segments_text(segments).len(), segments_toks(segments)),
    decreases segments,
{
    if segments.len() == 1 {
        lemma_reads_segment(s, i, segments[0], n);
    } else {
        let init = segments.drop_last();
        let before = segments_text(init);
        let last = segment_text(segments.last());
        reveal_strlit("::");
        assert(segments_text(segments) =~= before + ("::"@ + last));
        lemma_holds_split(s, i, before, "::"@ + last);
        let j = i + before.len();
        lemma_holds_split(s, j, "::"@, last);
        lemma_stops_at(s, j, "::"@);
        assert forall|k: int| 0 <= k < init.len() implies segment_ok(#[trigger] init[k], n) by {
            assert(init[k] == segments[k]);
        }
        lemma_reads_segments(s, i, init, n);
        lemma_holds_char(s, j, "::"@, 0);
        lemma_holds_char(s, j, "::"@, 1);
        lemma_reads_double_colon(s, j);
        lemma_reads_segment(s, j + 2, segments.last(), n);
        let end = i + segments_text(segments).len();
        let separator = seq![double_colon()];
        lemma_reads_concat(s, i, j, j + 2, segments_toks(init), separator);
        lemma_reads_two(
            s,
            i,
            j + 2,
            end,
            segments_toks(init) + separator,
            segment_toks(segments.last()),
            segments_toks(segments),
        );
    }
}

proof fn lemma_reads_segment(s: Seq<char>, i: int, segment: Segment, n: nat)
    requires
        holds_at(s, i, segment_text(segment)),
        segment_ok(segment, n),
        stops(s, i + segment_text(segment).len()),
    ensures
        reads(s, i, i + segment_text(segment).len(), segment_toks(segment)),
    decreases segment,
{
    let ident = segment.ident;
    if segment.generics.len() == 0 {
        lemma_reads_ident(s, i, ident);
    } else {
        let list = paths_text(segment.generics);
        reveal_strlit("<");
        reveal_strlit(">");
        assert("<"@ =~= seq!['<']);
        assert(">"@ =~= seq!['>']);
        assert(segment_text(segment) =~= ident + (seq!['<'] + (list + seq!['>'])));
        lemma_holds_split(s, i, ident, seq!['<'] + (list + seq!['>']));
        let j = i + ident.len();
        lemma_holds_split(s, j, seq!['<'], list + seq!['>']);
        lemma_holds_split(s, j + 1, list, seq!['>']);
        let k = j + 1 + list.len();
        lemma_stops_at(s, j, seq!['<']);
        lemma_stops_at(s, k, seq!['>']);
        lemma_reads_ident(s, i, ident);
        lemma_reads_char(s, j, '<');
        lemma_reads_paths(s, j + 1, segment.generics, n);
        lemma_reads_char(s, k, '>');
        let a = seq![ident_token(ident)];
        let b = seq![punct('<')];
        let c = paths_toks(segment.generics);
        let d = seq![punct('>')];
        lemma_reads_concat(s, i, j, j + 1, a, b);
        lemma_reads_concat(s, i, j + 1, k, a + b, c);
        lemma_reads_concat(s, i, k, k + 1, a + b + c, d);
        assert(a + b + c + d =~= segment_toks(segment));
    }
}

proof fn lemma_reads_paths(s: Seq<char>, i: int, paths: Seq<Path>, n: nat)
    requires
        holds_at(s, i, paths_text(paths)),
        paths.len() > 0,
        forall|k: int| 0 <= k < paths.len() ==> path_fits(#[trigger] paths[k], n),
        stops(s, i + paths_text(paths).len()),
    ensures
        reads(s, i, i + paths_text(paths).len(), paths_toks(paths)),
    decreases paths,
{
    if paths.len() == 1 {
        lemma_reads_path(s, i, paths[0], n);
    } else {
        let init = paths.drop_last();
        let before = paths_text(init);
        let last = path_text(paths.last());
        reveal_strlit(", ");
        assert(", "@ =~= seq![','] + seq![' ']);
        assert(paths_text(paths) =~= before + (seq![','] + (seq![' '] + last)));
        lemma_holds_split(s, i, before, seq![','] + (seq![' '] + last));
        let j = i + before.len();
        lemma_holds_split(s, j, seq![','], seq![' '] + last);
        lemma_holds_split(s, j + 1, seq![' '], last);
        lemma_stops_at(s, j, seq![',']);
        assert forall|k: int| 0 <= k < init.len() implies path_fits(#[trigger] init[k], n) by {
            assert(init[k] == paths[k]);
        }
        lemma_reads_paths(s, i, init, n);
        lemma_reads_char(s, j, ',');
        lemma_reads_blank(s, j + 1, seq![' ']);
        lemma_reads_path(s, j + 2, paths.last(), n);
        let end = i + paths_text(paths).len();
        let a = paths_toks(init);
        let b = seq![punct(',')];
        let c = path_toks(paths.last());
        lemma_reads_concat(s, i, j, j + 1, a, b);
        lemma_reads_concat(s, i, j + 1, j + 2, a + b, Seq::empty());
        lemma_reads_concat(s, i, j + 2, end, a + b + Seq::empty(), c);
        assert(a + b + Seq::empty() + c =~= paths_toks(paths));
    }
}

// -- values without a body --------------------------------------------------------------------

/// An ASCII word is an identifier.
proof fn lemma_word(word: Seq<char>)
    requires
        word.len() > 0,
        forall|k: int|
            0 <= k < word.len() ==> 'a' <= #[trigger] word[k] <= 'z' || 'A' <= word[k] <= 'Z',
    ensures
        valid_ident(word),
{
    assert('a' <= word[0] <= 'z' || 'A' <= word[0] <= 'Z');
}

proof fn lemma_words()
    ensures
        valid_ident("true"@),
        valid_ident("false"@),
        valid_ident("inf"@),
        valid_ident("NaN"@),
{
    reveal_strlit("true");
    reveal_strlit("false");
    reveal_strlit("inf");
    reveal_strlit("NaN");
    lemma_word("true"@);
    lemma_word("false"@);
    lemma_word("inf"@);
    lemma_word("NaN"@);
}

/// A character and what follows it.
proof fn lemma_reads_signed(
    s: Seq<char>,
    i: int,
    c: char,
    text: Seq<char>,
    toks: Seq<Bare>,
)
    requires
        holds_at(s, i, seq![c] + text),
        is_punct(c),
        c != ':',
        reads(s, i + 1, i + 1 + text.len(), toks),
    ensures
        reads(s, i, i + 1 + text.len(), seq![punct(c)] + toks),
{
    lemma_holds_split(s, i, seq![c], text);
    lemma_reads_char(s, i, c);
    lemma_reads_concat(s, i, i + 1, i + 1 + text.len(), seq![punct(c)], toks);
}

proof fn lemma_reads_float_value(s: Seq<char>, i: int, floats: Floats, f: Float)
    requires
        canonical_floats(floats),
        holds_at(s, i, f.text()),
        crate::shape::float_fits(floats, f),
        stops(s, i + f.text().len()),
    ensures
        reads(s, i, i + f.text().len(), float_toks(f)),
{
    lemma_words();
    reveal_strlit("-");
    assert("-"@ =~= seq!['-']);
    let unsigned = if f.is_nan() {
        "NaN"@
    } else if f.is_infinite() {
        "inf"@
    } else {
        f.magnitude
    };
    let j = if f.is_negative() {
        i + 1
    } else {
        i
    };
    if f.is_negative() {
        assert(f.text() == seq!['-'] + unsigned);
        lemma_holds_split(s, i, seq!['-'], unsigned);
    }
    let tok = if f.is_nan() || f.is_infinite() {
        lemma_reads_ident(s, j, unsigned);
        ident_token(unsigned)
    } else {
        lemma_reads_float(s, j, unsigned);
        float_token(unsigned)
    };
    if f.is_negative() {
        lemma_reads_signed(s, i, '-', unsigned, seq![tok]);
        assert(seq![punct('-')] + seq![tok] =~= float_toks(f));
    } else {
        assert(seq![tok] =~= float_toks(f));
    }
}

proof fn lemma_reads_leaf(s: Seq<char>, i: int, floats: Floats, head: Head, n: nat)
    requires
        canonical_floats(floats),
        !has_body(head),
        head_fits(floats, head, n),
        holds_at(s, i, leaf_text(head)),
        stops(s, i + leaf_text(head).len()),
    ensures
        reads(s, i, i + leaf_text(head).len(), leaf_toks(head)),
{
    match head {
        Head::Unit => {
            reveal_strlit("()");
            assert("()"@ =~= seq!['('] + seq![')']);
            lemma_holds_split(s, i, seq!['('], seq![')']);
            lemma_reads_char(s, i + 1, ')');
            lemma_reads_signed(s, i, '(', seq![')'], seq![punct(')')]);
            assert(seq![punct('(')] + seq![punct(')')] =~= leaf_toks(head));
        },
        Head::Bool(b) => {
            lemma_words();
            lemma_reads_ident(s, i, leaf_text(head));
        },
        Head::Int(v) => {
            reveal_strlit("-");
            if v < 0 {
                let digits = decimal((-v) as nat);
                assert(int_text(v) =~= seq!['-'] + digits);
                lemma_holds_split(s, i, seq!['-'], digits);
                lemma_reads_int(s, i + 1, (-v) as nat);
                lemma_reads_signed(s, i, '-', digits, seq![int_token((-v) as nat)]);
                assert(seq![punct('-')] + seq![int_token((-v) as nat)] =~= leaf_toks(head));
            } else {
                lemma_reads_int(s, i, v as nat);
            }
        },
        Head::Float(f) => {
            lemma_reads_float_value(s, i, floats, f);
        },
        Head::Str(x) => {
            lemma_reads_string(s, i, x);
        },
        Head::EntityRef(name) => {
            reveal_strlit("#");
            assert("#"@ =~= seq!['#']);
            lemma_holds_split(s, i, seq!['#'], name);
            lemma_reads_ident(s, i + 1, name);
            lemma_reads_signed(s, i, '#', name, seq![ident_token(name)]);
            assert(seq![punct('#')] + seq![ident_token(name)] =~= leaf_toks(head));
        },
        Head::Path(path) => {
            lemma_reads_path(s, i, path, n);
        },
        _ => {},
    }
}

// -- bodies -----------------------------------------------------------------------------------

/// The tokens of the first `n` items of a body, without a comma after the last of them.
pub open spec fn joined_toks(t: Tree, commas: Commas, n: nat) -> Seq<Bare> {
    if n == 0 || n > t.children.len() {
        Seq::empty()
    } else {
        items_toks(t, commas, (n - 1) as nat) + prefix_toks(t, n - 1) + tree_toks(
            t.children[n - 1],
            commas.inside[n - 1],
        )
    }
}

/// The tokens of the first `n` items depend on the commas inside these items only.
proof fn lemma_items_cong(t: Tree, a: Commas, b: Commas, n: nat)
    requires
        n <= t.children.len(),
        a.trailing == b.trailing,
        forall|k: int| 0 <= k < n ==> #[trigger] a.inside[k] == b.inside[k],
    ensures
        items_toks(t, a, n) == items_toks(t, b, n),
    decreases n,
{
    if n > 0 {
        lemma_items_cong(t, a, b, (n - 1) as nat);
        assert(a.inside[n - 1] == b.inside[n - 1]);
    }
}

/// A list of commas with one more item.
proof fn lemma_items_push(t: Tree, trailing: bool, inside: Seq<Commas>, more: Commas)
    requires
        inside.len() < t.children.len(),
    ensures
        ({
            let n = inside.len();
            let a = Commas { trailing, inside };
            let b = Commas { trailing, inside: inside.push(more) };
            &&& items_toks(t, b, n) == items_toks(t, a, n)
            &&& joined_toks(t, b, n) == joined_toks(t, a, n)
            &&& joined_toks(t, b, n + 1) == items_toks(t, a, n) + prefix_toks(t, n as int)
                + tree_toks(t.children[n as int], more)
            &&& items_toks(t, b, n + 1) == joined_toks(t, b, n + 1) + comma_toks(
                n + 1 < t.children.len() || trailing,
            )
        }),
{
    let n = inside.len();
    let a = Commas { trailing, inside };
    let b = Commas { trailing, inside: inside.push(more) };
    assert forall|k: int| 0 <= k < n implies #[trigger] b.inside[k] == a.inside[k] by {}
    lemma_items_cong(t, b, a, n);
    if n > 0 {
        lemma_items_cong(t, b, a, (n - 1) as nat);
    }
    assert(b.inside[n as int] == more);
}

/// The field name before an item.
proof fn lemma_reads_prefix(s: Seq<char>, i: int, floats: Floats, t: Tree, m: nat, k: int)
    requires
        canonical_floats(floats),
        tree_fits(floats, t, m),
        0 <= k < t.children.len(),
        holds_at(s, i, item_prefix(value_of(t), k)),
    ensures
        reads(s, i, i + item_prefix(value_of(t), k).len(), prefix_toks(t, k)),
{
    if t.head is Struct {
        let name = t.names[k];
        reveal_strlit(": ");
        assert(": "@ =~= seq![':'] + seq![' ']);
        assert(item_prefix(value_of(t), k) =~= name + (seq![':'] + seq![' ']));
        lemma_holds_split(s, i, name, seq![':'] + seq![' ']);
        let j = i + name.len();
        lemma_holds_split(s, j, seq![':'], seq![' ']);
        lemma_stops_at(s, j, seq![':']);
        lemma_holds_char(s, j + 1, seq![' '], 0);
        lemma_reads_ident(s, i, name);
        lemma_reads_char(s, j, ':');
        lemma_reads_blank(s, j + 1, seq![' ']);
        let a = seq![ident_token(name)];
        let b = seq![punct(':')];
        lemma_reads_concat(s, i, j, j + 1, a, b);
        lemma_reads_concat(s, i, j + 1, j + 2, a + b, Seq::empty());
        assert(a + b + Seq::empty() =~= prefix_toks(t, k));
    } else {
        lemma_reads_nothing(s, i);
    }
}

/// The first `n` items of a body on one line.
spec fn items_inline(t: Tree, n: nat) -> Seq<char> {
    if t.head is Struct {
        fields_text(t.names, inline_parts(t, n))
    } else {
        joined(inline_parts(t, n), ", "@)
    }
}

pub proof fn lemma_parts_len(t: Tree, n: nat)
    requires
        n <= t.children.len(),
    ensures
        inline_parts(t, n).len() == n,
    decreases n,
{
    if n > 0 {
        lemma_parts_len(t, (n - 1) as nat);
    }
}

proof fn lemma_items_inline(t: Tree, n: nat)
    requires
        0 < n <= t.children.len(),
    ensures
        items_inline(t, n) == (if n > 1 {
            items_inline(t, (n - 1) as nat) + ", "@
        } else {
            Seq::empty()
        }) + (item_prefix(value_of(t), n - 1) + tree_inline(t.children[n - 1])),
{
    lemma_parts_len(t, n);
    lemma_parts_len(t, (n - 1) as nat);
    let parts = inline_parts(t, n);
    let last = tree_inline(t.children[n - 1]);
    assert(parts.drop_last() =~= inline_parts(t, (n - 1) as nat));
    assert(parts.last() == last);
    if n == 1 {
        assert(fields_text(t.names, parts.drop_last()) =~= Seq::empty());
    }
    assert(items_inline(t, n) =~= (if n > 1 {
        items_inline(t, (n - 1) as nat) + ", "@
    } else {
        Seq::empty()
    }) + (item_prefix(value_of(t), n - 1) + last));
}

/// A value on one line is read as its tokens.
pub proof fn lemma_reads_inline(s: Seq<char>, i: int, floats: Floats, t: Tree, m: nat) -> (commas: Commas)
    requires
        canonical_floats(floats),
        tree_fits(floats, t, m),
        holds_at(s, i, tree_inline(t)),
        stops(s, i + tree_inline(t).len()),
    ensures
        reads(s, i, i + tree_inline(t).len(), tree_toks(t, commas)),
        commas_fit(t, commas),
    decreases t, t.children.len() + 1,
{
    let n = t.children.len();
    if !has_body(t.head) {
        let commas = Commas { trailing: false, inside: Seq::empty() };
        lemma_reads_leaf(s, i, floats, t.head, (m - 1) as nat);
        commas
    } else {
        let trailing = t.head is Tuple && n == 1;
        let open = open_inline(t.head, n);
        let items = items_inline(t, n);
        let close = close_inline(t.head, n);
        lemma_inline_body(t);
        lemma_holds_split(s, i, open, items + close);
        lemma_holds_split(s, i + open.len(), items, close);
        let j = i + open.len();
        let k = j + items.len();
        lemma_reads_open_inline(s, i, floats, t.head, (m - 1) as nat, n);
        lemma_close_first(s, k, t.head, n);
        let inside = if n > 0 {
            lemma_inline_items(s, j, floats, t, m, n, trailing)
        } else {
            lemma_parts_len(t, 0);
            assert(items =~= Seq::empty());
            lemma_reads_nothing(s, j);
            Seq::empty()
        };
        let commas = Commas { trailing, inside };
        lemma_reads_close_inline(s, k, t.head, n);
        let a = open_toks(t.head);
        let b = joined_toks(t, commas, n);
        let c = comma_toks(trailing) + seq![punct(close_char(t.head))];
        lemma_reads_concat(s, i, j, k, a, b);
        lemma_reads_concat(s, i, k, k + close.len(), a + b, c);
        assert(a + b + c =~= tree_toks(t, commas)) by {
            assert(items_toks(t, commas, n) =~= b + comma_toks(n > 0 && trailing));
        }
        commas
    }
}

/// What opens a body on one line.
spec fn open_inline(head: Head, n: nat) -> Seq<char> {
    open_text(head) + (if head is Struct && n > 0 {
        " "@
    } else {
        Seq::empty()
    })
}

/// What closes a body on one line.
spec fn close_inline(head: Head, n: nat) -> Seq<char> {
    (if head is Struct && n > 0 {
        " "@
    } else if head is Tuple && n == 1 {
        ","@
    } else {
        Seq::empty()
    }) + close_text(head)
}

proof fn lemma_inline_body(t: Tree)
    requires
        has_body(t.head),
    ensures
        ({
            let n = t.children.len();
            tree_inline(t) == open_inline(t.head, n) + (items_inline(t, n) + close_inline(
                t.head,
                n,
            ))
        }),
{
    let n = t.children.len();
    let parts = inline_parts(t, n);
    lemma_parts_len(t, n);
    reveal_strlit(" {");
    reveal_strlit(" { ");
    reveal_strlit(" }");
    reveal_strlit("}");
    reveal_strlit(" {}");
    reveal_strlit(" ");
    reveal_strlit(",");
    reveal_strlit(",)");
    reveal_strlit(")");
    assert(tree_inline(t) == body_text(value_of(t), parts));
    assert(body_text(value_of(t), parts) =~= open_inline(t.head, n) + (items_inline(t, n)
        + close_inline(t.head, n)));
}

/// Opening brackets and the path before them.
proof fn lemma_reads_open(s: Seq<char>, i: int, floats: Floats, head: Head, m: nat)
    requires
        canonical_floats(floats),
        has_body(head),
        head_fits(floats, head, m),
        holds_at(s, i, open_text(head)),
    ensures
        reads(s, i, i + open_text(head).len(), open_toks(head)),
{
    reveal_strlit("(");
    reveal_strlit("[");
    reveal_strlit(" {");
    assert("("@ =~= seq!['(']);
    assert("["@ =~= seq!['[']);
    assert(" {"@ =~= seq![' '] + seq!['{']);
    match head {
        Head::Tuple => {
            lemma_reads_char(s, i, '(');
        },
        Head::List => {
            lemma_reads_char(s, i, '[');
        },
        Head::NamedTuple(path) => {
            let text = path_text(path);
            let j = i + text.len();
            lemma_holds_split(s, i, text, seq!['(']);
            lemma_stops_at(s, j, seq!['(']);
            lemma_reads_path(s, i, path, m);
            lemma_reads_char(s, j, '(');
            lemma_reads_concat(s, i, j, j + 1, path_toks(path), seq![punct('(')]);
        },
        Head::Struct(path) => {
            let text = path_text(path);
            let j = i + text.len();
            assert(open_text(head) =~= text + (seq![' '] + seq!['{']));
            lemma_holds_split(s, i, text, seq![' '] + seq!['{']);
            lemma_holds_split(s, j, seq![' '], seq!['{']);
            lemma_stops_at(s, j, seq![' ']);
            lemma_reads_path(s, i, path, m);
            lemma_reads_blank(s, j, seq![' ']);
            lemma_reads_char(s, j + 1, '{');
            lemma_reads_concat(s, i, j, j + 1, path_toks(path), Seq::empty());
            lemma_reads_concat(
                s,
                i,
                j + 1,
                j + 2,
                path_toks(path) + Seq::empty(),
                seq![punct('{')],
            );
            assert(path_toks(path) + Seq::empty() + seq![punct('{')] =~= open_toks(head));
        },
        _ => {},
    }
}

proof fn lemma_reads_open_inline(
    s: Seq<char>,
    i: int,
    floats: Floats,
    head: Head,
    m: nat,
    n: nat,
)
    requires
        canonical_floats(floats),
        has_body(head),
        head_fits(floats, head, m),
        holds_at(s, i, open_inline(head, n)),
    ensures
        reads(s, i, i + open_inline(head, n).len(), open_toks(head)),
{
    reveal_strlit(" ");
    let space = if head is Struct && n > 0 {
        " "@
    } else {
        Seq::empty()
    };
    lemma_holds_split(s, i, open_text(head), space);
    lemma_reads_open(s, i, floats, head, m);
    let j = i + open_text(head).len();
    lemma_reads_blank(s, j, space);
    lemma_reads_concat(s, i, j, j + space.len(), open_toks(head), Seq::empty());
    assert(open_toks(head) + Seq::empty() =~= open_toks(head));
}

/// Closing brackets.
proof fn lemma_reads_close(s: Seq<char>, i: int, head: Head)
    requires
        has_body(head),
        holds_at(s, i, close_text(head)),
    ensures
        close_text(head).len() == 1,
        reads(s, i, i + 1, seq![punct(close_char(head))]),
{
    reveal_strlit(")");
    reveal_strlit("]");
    reveal_strlit("}");
    assert(close_text(head) =~= seq![close_char(head)]);
    lemma_reads_char(s, i, close_char(head));
}

/// An item ends where the closing of a body on one line starts.
proof fn lemma_close_first(s: Seq<char>, i: int, head: Head, n: nat)
    requires
        has_body(head),
        holds_at(s, i, close_inline(head, n)),
    ensures
        n > 0 ==> stops(s, i),
{
    reveal_strlit(" ");
    reveal_strlit(",");
    reveal_strlit(")");
    reveal_strlit("]");
    reveal_strlit("}");
    if n > 0 {
        lemma_stops_at(s, i, close_inline(head, n));
    }
}

proof fn lemma_reads_close_inline(s: Seq<char>, i: int, head: Head, n: nat)
    requires
        has_body(head),
        holds_at(s, i, close_inline(head, n)),
    ensures
        reads(
            s,
            i,
            i + close_inline(head, n).len(),
            comma_toks(head is Tuple && n == 1) + seq![punct(close_char(head))],
        ),
{
    reveal_strlit(" ");
    reveal_strlit(",");
    let first = if head is Struct && n > 0 {
        " "@
    } else if head is Tuple && n == 1 {
        ","@
    } else {
        Seq::empty()
    };
    lemma_holds_split(s, i, first, close_text(head));
    let j = i + first.len();
    lemma_reads_close(s, j, head);
    if head is Tuple && n == 1 {
        assert(","@ =~= seq![',']);
        lemma_reads_char(s, i, ',');
        lemma_reads_concat(s, i, j, j + 1, seq![punct(',')], seq![punct(close_char(head))]);
    } else {
        lemma_reads_blank(s, i, first);
        lemma_reads_concat(s, i, j, j + 1, Seq::empty(), seq![punct(close_char(head))]);
    }
}

/// The first `n` items of a body on one line are read as their tokens.
proof fn lemma_inline_items(
    s: Seq<char>,
    i: int,
    floats: Floats,
    t: Tree,
    m: nat,
    n: nat,
    trailing: bool,
) -> (inside: Seq<Commas>)
    requires
        canonical_floats(floats),
        tree_fits(floats, t, m),
        0 < n <= t.children.len(),
        holds_at(s, i, items_inline(t, n)),
        stops(s, i + items_inline(t, n).len()),
    ensures
        inside.len() == n,
        reads(
            s,
            i,
            i + items_inline(t, n).len(),
            joined_toks(t, Commas { trailing, inside }, n),
        ),
        forall|k: int| 0 <= k < n ==> commas_fit(#[trigger] t.children[k], inside[k]),
    decreases t, n,
{
    let child = t.children[n - 1];
    let prefix = item_prefix(value_of(t), n - 1);
    let item = tree_inline(child);
    let end = i + items_inline(t, n).len();
    lemma_items_inline(t, n);
    assert(item_fits(floats, child, (m - 1) as nat));
    let (before, at): (Seq<Commas>, int) = if n > 1 {
        let text = items_inline(t, (n - 1) as nat);
        let j = i + text.len();
        reveal_strlit(", ");
        assert(", "@ =~= seq![','] + seq![' ']);
        assert(items_inline(t, n) =~= text + (seq![','] + (seq![' '] + (prefix + item))));
        lemma_holds_split(s, i, text, seq![','] + (seq![' '] + (prefix + item)));
        lemma_holds_split(s, j, seq![','], seq![' '] + (prefix + item));
        lemma_holds_split(s, j + 1, seq![' '], prefix + item);
        lemma_stops_at(s, j, seq![',']);
        let before = lemma_inline_items(s, i, floats, t, m, (n - 1) as nat, trailing);
        let commas = Commas { trailing, inside: before };
        lemma_reads_char(s, j, ',');
        lemma_reads_blank(s, j + 1, seq![' ']);
        let a = joined_toks(t, commas, (n - 1) as nat);
        lemma_reads_concat(s, i, j, j + 1, a, seq![punct(',')]);
        lemma_reads_concat(s, i, j + 1, j + 2, a + seq![punct(',')], Seq::empty());
        assert(a + seq![punct(',')] + Seq::empty() =~= items_toks(t, commas, (n - 1) as nat));
        (before, j + 2)
    } else {
        assert(items_inline(t, n) =~= prefix + item);
        lemma_reads_nothing(s, i);
        (Seq::empty(), i)
    };
    let commas = Commas { trailing, inside: before };
    assert(reads(s, i, at, items_toks(t, commas, (n - 1) as nat)));
    assert(holds_at(s, at, prefix + item));
    lemma_holds_split(s, at, prefix, item);
    lemma_reads_prefix(s, at, floats, t, m, n - 1);
    let start = at + prefix.len();
    let last = lemma_reads_inline(s, start, floats, child, (m - 1) as nat);
    let a = items_toks(t, commas, (n - 1) as nat);
    lemma_reads_concat(s, i, at, start, a, prefix_toks(t, n - 1));
    lemma_reads_concat(
        s,
        i,
        start,
        end,
        a + prefix_toks(t, n - 1),
        tree_toks(child, last),
    );
    lemma_items_push(t, trailing, before, last);
    before.push(last)
}

/// Indentation is whitespace.
pub proof fn lemma_reads_indent(s: Seq<char>, i: int, style: Style, level: nat)
    requires
        holds_at(s, i, style.indent(level)),
    ensures
        reads(s, i, i + style.indent(level).len(), Seq::empty()),
{
    lemma_reads_blank(s, i, style.indent(level));
}

/// The first `n` items of a body, each on lines of its own, are read as their tokens.
#[verifier::rlimit(50)]
proof fn lemma_reads_lines(
    s: Seq<char>,
    i: int,
    floats: Floats,
    style: Style,
    t: Tree,
    m: nat,
    n: nat,
    level: nat,
) -> (inside: Seq<Commas>)
    requires
        canonical_floats(floats),
        tree_fits(floats, t, m),
        n <= t.children.len(),
        holds_at(s, i, tree_lines(style, t, n, level)),
    ensures
        inside.len() == n,
        reads(
            s,
            i,
            i + tree_lines(style, t, n, level).len(),
            items_toks(t, Commas { trailing: keeps_comma(style, t), inside }, n),
        ),
        forall|k: int| 0 <= k < n ==> commas_fit(#[trigger] t.children[k], inside[k]),
    decreases t, n,
{
    if n == 0 {
        lemma_reads_nothing(s, i);
        Seq::empty()
    } else {
        let k = n - 1;
        let child = t.children[k];
        let trailing = keeps_comma(style, t);
        let before = tree_lines(style, t, k as nat, level);
        let pad = style.indent(level + 1);
        let prefix = item_prefix(value_of(t), k);
        let column = last_line(pad + prefix).len() as int;
        let item = tree_text(style, child, level + 1, column);
        let separator = style.separator(value_of(t), k);
        assert(item_fits(floats, child, (m - 1) as nat));
        assert(tree_lines(style, t, n, level) =~= before + (pad + (prefix + (item + separator))));
        lemma_holds_split(s, i, before, pad + (prefix + (item + separator)));
        let p1 = i + before.len();
        lemma_holds_split(s, p1, pad, prefix + (item + separator));
        let p2 = p1 + pad.len();
        lemma_holds_split(s, p2, prefix, item + separator);
        let p3 = p2 + prefix.len();
        lemma_holds_split(s, p3, item, separator);
        let p4 = p3 + item.len();
        let p5 = p4 + separator.len();
        let inside = lemma_reads_lines(s, i, floats, style, t, m, k as nat, level);
        let commas = Commas { trailing, inside };
        lemma_reads_indent(s, p1, style, level + 1);
        lemma_reads_prefix(s, p2, floats, t, m, k);
        reveal_strlit(",\n");
        reveal_strlit("\n");
        lemma_stops_at(s, p4, separator);
        let last = lemma_reads_tree(
            s,
            p3,
            floats,
            style,
            child,
            (m - 1) as nat,
            level + 1,
            column,
        );
        lemma_reads_separator(s, p4, style, t, k);
        let a = items_toks(t, commas, k as nat);
        let b = prefix_toks(t, k);
        let c = tree_toks(child, last);
        let d = comma_toks(n < t.children.len() || trailing);
        lemma_reads_two(s, i, p1, p2, a, Seq::empty(), a);
        lemma_reads_concat(s, i, p2, p3, a, b);
        lemma_reads_concat(s, i, p3, p4, a + b, c);
        lemma_reads_concat(s, i, p4, p5, a + b + c, d);
        lemma_items_push(t, trailing, inside, last);
        inside.push(last)
    }
}

/// Whether the last item of a body that is broken across lines keeps its comma.
pub open spec fn keeps_comma(style: Style, t: Tree) -> bool {
    style.options.trailing_commas || forces_comma(value_of(t))
}

proof fn lemma_reads_separator(s: Seq<char>, i: int, style: Style, t: Tree, k: int)
    requires
        0 <= k < t.children.len(),
        holds_at(s, i, style.separator(value_of(t), k)),
    ensures
        reads(
            s,
            i,
            i + style.separator(value_of(t), k).len(),
            comma_toks(k + 1 < t.children.len() || keeps_comma(style, t)),
        ),
{
    reveal_strlit(",\n");
    reveal_strlit("\n");
    assert("\n"@ =~= seq!['\n']);
    if k + 1 < t.children.len() || keeps_comma(style, t) {
        assert(",\n"@ =~= seq![','] + seq!['\n']);
        lemma_holds_split(s, i, seq![','], seq!['\n']);
        lemma_reads_char(s, i, ',');
        lemma_reads_blank(s, i + 1, seq!['\n']);
        lemma_reads_concat(s, i, i + 1, i + 2, seq![punct(',')], Seq::empty());
        assert(seq![punct(',')] + Seq::empty() =~= seq![punct(',')]);
    } else {
        lemma_reads_blank(s, i, seq!['\n']);
    }
}

/// A printed value is read as its tokens.
pub proof fn lemma_reads_tree(
    s: Seq<char>,
    i: int,
    floats: Floats,
    style: Style,
    t: Tree,
    m: nat,
    level: nat,
    column: int,
) -> (commas: Commas)
    requires
        canonical_floats(floats),
        tree_fits(floats, t, m),
        holds_at(s, i, tree_text(style, t, level, column)),
        stops(s, i + tree_text(style, t, level, column).len()),
    ensures
        reads(s, i, i + tree_text(style, t, level, column).len(), tree_toks(t, commas)),
        commas_fit(t, commas),
    decreases t, t.children.len() + 1,
{
    let inline = tree_inline(t);
    let n = t.children.len();
    if !breakable(value_of(t)) || column + inline.len() <= style.options.max_inline_width {
        lemma_reads_inline(s, i, floats, t, m)
    } else {
        let open = open_text(t.head);
        let lines = tree_lines(style, t, n, level);
        let pad = style.indent(level);
        let close = close_text(t.head);
        reveal_strlit("\n");
        assert("\n"@ =~= seq!['\n']);
        assert(tree_text(style, t, level, column) =~= open + (seq!['\n'] + (lines + (pad
            + close))));
        lemma_holds_split(s, i, open, seq!['\n'] + (lines + (pad + close)));
        let p1 = i + open.len();
        lemma_holds_split(s, p1, seq!['\n'], lines + (pad + close));
        let p2 = p1 + 1;
        lemma_holds_split(s, p2, lines, pad + close);
        let p3 = p2 + lines.len();
        lemma_holds_split(s, p3, pad, close);
        let p4 = p3 + pad.len();
        lemma_reads_open(s, i, floats, t.head, (m - 1) as nat);
        lemma_reads_blank(s, p1, seq!['\n']);
        let inside = lemma_reads_lines(s, p2, floats, style, t, m, n, level);
        lemma_reads_indent(s, p3, style, level);
        lemma_reads_close(s, p4, t.head);
        let commas = Commas { trailing: keeps_comma(style, t), inside };
        let a = open_toks(t.head);
        let b = items_toks(t, commas, n);
        let c = seq![punct(close_char(t.head))];
        lemma_reads_two(s, i, p1, p2, a, Seq::empty(), a);
        lemma_reads_concat(s, i, p2, p3, a, b);
        lemma_reads_two(s, i, p3, p4, a + b, Seq::empty(), a + b);
        lemma_reads_concat(s, i, p4, p4 + 1, a + b, c);
        commas
    }
}

} // verus!
