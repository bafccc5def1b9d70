//! The printed text of well-formed trees is parsed as these trees, up to spans.

use vstd::prelude::*;

use crate::chars::{spec_ident_continue, spec_is_digit, spec_is_space};
use crate::digits::{decimal, lemma_radix_chars, lemma_radix_round_trip};
use crate::entities::input_of;
use crate::error::{joined, MAX_NESTING_DEPTH};
use crate::float::{canonical_floats, is_float_literal, Float, Floats};
use crate::grammar::{lexeme_of, NodeHead, NodeTree, Tree};
use crate::lexical::{
    lemma_run_end, lex, lex_from, lex_start, number_body, run_end, suffixed, token_here, Class,
};
use crate::model::{path_text, segment_text, segments_text, Head, Path};
use crate::reading::{
    bare, holds_at, lemma_holds_split, lemma_reads_concat, lemma_reads_nothing, lemma_reads_space,
    lemma_reads_token, punct, reads, rest, stops, valid_ident, Bare,
};
use crate::render::{body_text, breakable, close_text, leaf_text, string_text, trimmed, Style};
use crate::reparse_entities::{lemma_entity_first, lemma_reparse_list, starts_entity};
use crate::reparse_paths::{stand_at, stripped};
use crate::reread_entities::{is_line, lemma_entities_push, lemma_entity_lines, lemma_reads_entity};
use crate::reread_values::{lemma_reads_blank, lemma_reads_char, lemma_reads_two, lemma_stops_at};
use crate::shape::{
    entities_toks, entity_fits, entity_toks, entry_fits, has_body, head_fits, is_blank,
    node_commas_fit, path_fits, tree_fits, twin_nodes, NodeCommas,
};
use crate::span::last_line;
use crate::token::TokenKind;
use crate::tree_text::{
    entity_text, entries_text, entry_text, inline_parts, root_separator, roots_text, roots_texts,
    tree_inline, tree_lines, tree_text, value_of,
};

verus! {

// -- the last character of a text -------------------------------------------------------------

/// A text that does not end with a line feed.
pub open spec fn ends_plain(text: Seq<char>) -> bool {
    text.len() > 0 && text.last() != '\n'
}

proof fn lemma_path_ends(path: Path, n: nat)
    requires
        path_fits(path, n),
    ensures
        ends_plain(path_text(path)),
{
    let segments = path.segments;
    let last = segments.last();
    assert(valid_ident(segments[segments.len() - 1].ident));
    assert(spec_ident_continue(last.ident[last.ident.len() - 1]));
    assert(!spec_ident_continue('\n'));
    reveal_strlit(">");
    assert(ends_plain(segment_text(last)));
    assert(path_text(path) == segments_text(segments));
    if segments.len() == 1 {
        assert(segments_text(segments) == segment_text(last));
    } else {
        assert(segments_text(segments) == segments_text(segments.drop_last()) + "::"@
            + segment_text(last));
    }
}

proof fn lemma_float_ends(text: Seq<char>)
    requires
        is_float_literal(text),
    ensures
        ends_plain(text),
{
    let n = text.len() as int;
    let (e, is_float) = number_body(text, 0);
    let whole = run_end(text, 0, Class::Decimal);
    lemma_run_end(text, 0, Class::Decimal);
    lemma_run_end(text, whole + 1, Class::Decimal);
    let dotted = crate::lexical::char_at(text, whole) == Some('.') && crate::lexical::char_at(
        text,
        whole + 1,
    ) != Some('.');
    let mantissa = if dotted {
        run_end(text, whole + 1, Class::Decimal)
    } else {
        whole
    };
    lemma_run_end(text, mantissa + 1, Class::Decimal);
    lemma_run_end(text, mantissa + 2, Class::Decimal);
    assert(suffixed(text, 0, e, TokenKind::Float).end == n);
    assert(e == n);
    assert(text.last() == text[n - 1]);
}

proof fn lemma_leaf_ends(floats: Floats, head: Head, n: nat)
    requires
        canonical_floats(floats),
        !has_body(head),
        head_fits(floats, head, n),
    ensures
        ends_plain(leaf_text(head)),
{
    reveal_strlit("()");
    reveal_strlit("true");
    reveal_strlit("false");
    reveal_strlit("inf");
    reveal_strlit("NaN");
    assert(!spec_ident_continue('\n'));
    match head {
        Head::Int(v) => {
            let m = if v < 0 {
                (-v) as nat
            } else {
                v as nat
            };
            lemma_radix_round_trip(m, 10);
            lemma_radix_chars(m, 10);
            assert(spec_is_digit(decimal(m)[decimal(m).len() - 1]));
        },
        Head::Float(f) => {
            if f.is_finite() {
                lemma_float_ends(f.magnitude);
            }
        },
        Head::EntityRef(name) => {
            assert(spec_ident_continue(name[name.len() - 1]));
        },
        Head::Path(path) => {
            lemma_path_ends(path, n);
        },
        _ => {},
    }
}

proof fn lemma_close_ends(head: Head)
    requires
        has_body(head),
    ensures
        ends_plain(close_text(head)),
{
    reveal_strlit(")");
    reveal_strlit("]");
    reveal_strlit("}");
}

proof fn lemma_tree_ends(floats: Floats, style: Style, t: Tree, n: nat, level: nat, column: int)
    requires
        canonical_floats(floats),
        tree_fits(floats, t, n),
    ensures
        ends_plain(tree_text(style, t, level, column)),
{
    if has_body(t.head) {
        lemma_close_ends(t.head);
        let inline = tree_inline(t);
        reveal_strlit(",)");
        reveal_strlit(")");
        reveal_strlit("]");
        reveal_strlit(" {}");
        reveal_strlit(" }");
        assert(inline == body_text(value_of(t), inline_parts(t, t.children.len())));
        assert(ends_plain(inline));
        if breakable(value_of(t)) && column + inline.len() > style.options.max_inline_width {
            let before = crate::render::open_text(t.head) + "\n"@ + tree_lines(
                style,
                t,
                t.children.len(),
                level,
            ) + style.indent(level);
            assert(tree_text(style, t, level, column) == before + close_text(t.head));
        }
    } else {
        lemma_leaf_ends(floats, t.head, (n - 1) as nat);
        assert(tree_inline(t) == leaf_text(t.head));
    }
}

proof fn lemma_entry_ends(floats: Floats, style: Style, t: NodeTree, n: nat, level: nat)
    requires
        canonical_floats(floats),
        entry_fits(floats, t, n),
    ensures
        is_line(entry_text(style, t, level)),
        ends_plain(entry_text(style, t, level).drop_last()),
{
    let text = entry_text(style, t, level);
    reveal_strlit("\n");
    reveal_strlit("]\n");
    reveal_strlit(" []\n");
    match t.head {
        NodeHead::Patch { prefix, value, .. } => {
            let start = style.indent(level) + prefix.spec_sigil();
            let column = last_line(start).len() as int;
            lemma_tree_ends(floats, style, value, n + 1, level, column);
            assert(text.drop_last() =~= start + tree_text(style, value, level, column));
        },
        NodeHead::Relation { target } => {
            assert(text[text.len() - 2] == ']');
        },
        _ => {},
    }
}

/// A printed entity without its last line feed does not end with another.
proof fn lemma_entity_ends(floats: Floats, style: Style, t: NodeTree, n: nat, level: nat)
    requires
        canonical_floats(floats),
        entity_fits(floats, t, n),
    ensures
        ends_plain(entity_text(style, t, level).drop_last()),
{
    let text = entity_text(style, t, level);
    let line = text.drop_last();
    let k = t.children.len();
    lemma_entity_lines(floats, style, t, n, level);
    assert(!spec_ident_continue('\n'));
    reveal_strlit("\n");
    if is_blank(t) {
        assert(line.last() == ')');
    } else if k > 0 {
        let child = t.children[k - 1];
        assert(entry_fits(floats, child, (n - 1) as nat));
        lemma_entry_ends(floats, style, child, (n - 1) as nat, level);
        let entry = entry_text(style, child, level);
        assert(entries_text(style, t, k, level) == entries_text(style, t, (k - 1) as nat, level)
            + entry);
        assert(line.last() == entry.drop_last().last());
    } else {
        assert(entries_text(style, t, k, level) =~= Seq::empty());
        let name = t.head->name;
        if name is Some {
            assert(spec_ident_continue(name->0[name->0.len() - 1]));
            assert(line.last() == name->0.last());
        } else {
            let base = t.head->base;
            assert(line.last() == string_text(base->0).last());
        }
    }
}

proof fn lemma_trimmed(text: Seq<char>)
    requires
        is_line(text),
        ends_plain(text.drop_last()),
    ensures
        trimmed(text) == text.drop_last(),
{
    reveal_with_fuel(trimmed, 2);
}

// -- documents --------------------------------------------------------------------------------

/// The tokens of the first `n` roots, without a comma after the last of them.
spec fn joined_roots(ts: Seq<NodeTree>, commas: Seq<NodeCommas>, n: nat) -> Seq<Bare> {
    if n == 0 || n > ts.len() {
        Seq::empty()
    } else {
        entities_toks(ts, commas, (n - 1) as nat) + entity_toks(ts[n - 1], commas[n - 1])
    }
}

proof fn lemma_texts_len(style: Style, ts: Seq<NodeTree>, n: nat)
    requires
        n <= ts.len(),
    ensures
        roots_texts(style, ts, n).len() == n,
    decreases n,
{
    if n > 0 {
        lemma_texts_len(style, ts, (n - 1) as nat);
    }
}

/// The separator of roots: a comma and whitespace.
proof fn lemma_root_separator(style: Style)
    ensures
        root_separator(style).len() > 1,
        root_separator(style)[0] == ',',
        root_separator(style) == seq![','] + root_separator(style).skip(1),
        forall|k: int|
            0 <= k < root_separator(style).skip(1).len() ==> spec_is_space(
                #[trigger] root_separator(style).skip(1)[k],
            ),
{
    reveal_strlit(",\n");
    reveal_strlit(",\n\n");
    let s = root_separator(style);
    assert(s =~= seq![','] + s.skip(1));
}

/// The printed roots are read as their tokens.
#[verifier::rlimit(50)]
proof fn lemma_reads_roots(
    s: Seq<char>,
    i: int,
    floats: Floats,
    style: Style,
    ts: Seq<NodeTree>,
    m: nat,
    n: nat,
) -> (commas: Seq<NodeCommas>)
    requires
        canonical_floats(floats),
        0 < n <= ts.len(),
        forall|k: int| 0 <= k < ts.len() ==> entity_fits(floats, #[trigger] ts[k], m),
        holds_at(s, i, joined(roots_texts(style, ts, n), root_separator(style))),
        stops(s, i + joined(roots_texts(style, ts, n), root_separator(style)).len()),
    ensures
        commas.len() == n,
        reads(
            s,
            i,
            i + joined(roots_texts(style, ts, n), root_separator(style)).len(),
            joined_roots(ts, commas, n),
        ),
        forall|k: int| 0 <= k < n ==> node_commas_fit(#[trigger] ts[k], commas[k]),
    decreases n,
{
    let k = n - 1;
    let parts = roots_texts(style, ts, n);
    let separator = root_separator(style);
    let line = entity_text(style, ts[k], 0).drop_last();
    lemma_texts_len(style, ts, n);
    lemma_texts_len(style, ts, k as nat);
    lemma_entity_lines(floats, style, ts[k], m, 0);
    lemma_entity_ends(floats, style, ts[k], m, 0);
    lemma_trimmed(entity_text(style, ts[k], 0));
    assert(parts.last() == line);
    assert(parts.drop_last() =~= roots_texts(style, ts, k as nat));
    if n == 1 {
        let last = lemma_reads_entity(s, i, floats, style, ts[0], m, 0);
        let commas = seq![last];
        assert(entities_toks(ts, commas, 0) =~= Seq::empty());
        assert(joined_roots(ts, commas, 1) =~= entity_toks(ts[0], last));
        commas
    } else {
        let before = joined(roots_texts(style, ts, k as nat), separator);
        let blank = separator.skip(1);
        lemma_root_separator(style);
        assert(joined(parts, separator) =~= before + (seq![','] + (blank + line)));
        lemma_holds_split(s, i, before, seq![','] + (blank + line));
        let p = i + before.len();
        lemma_holds_split(s, p, seq![','], blank + line);
        lemma_holds_split(s, p + 1, blank, line);
        let q = p + 1 + blank.len();
        let end = q + line.len();
        lemma_stops_at(s, p, seq![',']);
        let inside = lemma_reads_roots(s, i, floats, style, ts, m, k as nat);
        lemma_reads_char(s, p, ',');
        lemma_reads_blank(s, p + 1, blank);
        let last = lemma_reads_entity(s, q, floats, style, ts[k], m, 0);
        let commas = inside.push(last);
        let a = joined_roots(ts, inside, k as nat);
        let b = entity_toks(ts[k], last);
        lemma_reads_concat(s, i, p, p + 1, a, seq![punct(',')]);
        lemma_reads_two(
            s,
            i,
            p + 1,
            q,
            a + seq![punct(',')],
            Seq::empty(),
            a + seq![punct(',')],
        );
        lemma_reads_concat(s, i, q, end, a + seq![punct(',')], b);
        assert(a + seq![punct(',')] =~= entities_toks(ts, inside, k as nat));
        lemma_entities_push(ts, inside, last);
        commas
    }
}

/// A leading byte order mark is not read as a token.
proof fn lemma_lex_start(s: Seq<char>, j: int, toks: Seq<Bare>)
    requires
        reads(s, 0, j, toks),
        toks.len() > 0,
        toks[0].kind !is Error,
    ensures
        rest(s, lex_start(s)) == rest(s, 0),
{
    reveal(reads);
    if lex_start(s) == 1 {
        if spec_is_space(s[0]) {
            lemma_reads_space(s, 0, 1);
            assert(rest(s, 0) =~= rest(s, 1));
        } else {
            lemma_reads_token(s, 0);
            assert(rest(s, 0)[0] == toks[0]);
            assert(rest(s, 0)[0] == bare(s, token_here(s, 0)));
        }
    }
}

/// The tokens of a text that reads as `toks`.
pub proof fn lemma_input(s: Seq<char>, floats: Floats, toks: Seq<Bare>)
    requires
        reads(s, 0, s.len() as int, toks),
        toks.len() > 0 ==> toks[0].kind !is Error,
        toks.len() == 0 ==> s.len() == 0,
    ensures
        stand_at(input_of(s, floats), 0, toks),
        input_of(s, floats).kind(toks.len() as int) == TokenKind::Eof,
        input_of(s, floats).bad(toks.len() as int) is None,
{
    let input = input_of(s, floats);
    let n = s.len() as int;
    reveal(stand_at);
    reveal(reads);
    if toks.len() > 0 {
        lemma_lex_start(s, n, toks);
    }
    assert(lex_from(s, n).len() == 1 && lex_from(s, n)[0].kind == TokenKind::Eof);
    let all = rest(s, lex_start(s));
    assert(all == toks + rest(s, n));
    assert(all.len() == toks.len() + 1);
    assert(input.toks.len() == all.len());
    assert forall|k: int| 0 <= k < all.len() implies stripped(#[trigger] input.toks[k])
        == all[k] by {
        assert(input.toks[k] == lexeme_of(s, lex(s)[k]));
    }
    assert(stripped(input.toks[toks.len() as int]) == rest(s, n)[0]);
}

/// The printed text of well-formed trees is parsed as these trees, up to spans.
pub proof fn lemma_text_round_trip(floats: Floats, style: Style, ts: Seq<NodeTree>)
    requires
        canonical_floats(floats),
        forall|k: int|
            0 <= k < ts.len() ==> entity_fits(floats, #[trigger] ts[k], MAX_NESTING_DEPTH as nat),
    ensures
        input_of(roots_text(style, ts), floats).document() matches Ok(us) && us.len() == ts.len()
            && (forall|k: int| 0 <= k < ts.len() ==> twin_nodes(#[trigger] ts[k], us[k])),
{
    let s = roots_text(style, ts);
    let m = MAX_NESTING_DEPTH as nat;
    let input = input_of(s, floats);
    let n = ts.len();
    if n == 0 {
        lemma_reads_nothing(s, 0);
        lemma_input(s, floats, Seq::empty());
        let commas = Seq::<NodeCommas>::empty();
        assert(entities_toks(ts, commas, 0) =~= Seq::empty());
        lemma_reparse_list(input, 0, 0, ts, commas, 0, TokenKind::Eof, Seq::empty());
    } else {
        let text = joined(roots_texts(style, ts, n), root_separator(style));
        reveal_strlit("\n");
        assert("\n"@ =~= seq!['\n']);
        assert(s == text + seq!['\n']);
        assert(s.subrange(0, s.len() as int) =~= s);
        assert(holds_at(s, 0, text + seq!['\n']));
        lemma_holds_split(s, 0, text, seq!['\n']);
        lemma_stops_at(s, text.len() as int, seq!['\n']);
        let commas = lemma_reads_roots(s, 0, floats, style, ts, m, n);
        lemma_reads_blank(s, text.len() as int, seq!['\n']);
        let toks = entities_toks(ts, commas, n);
        assert(toks =~= joined_roots(ts, commas, n));
        lemma_reads_two(s, 0, text.len() as int, s.len() as int, toks, Seq::empty(), toks);
        lemma_list_first(floats, ts, commas, m, n);
        lemma_input(s, floats, toks);
        lemma_reparse_list(input, 0, 0, ts, commas, 0, TokenKind::Eof, Seq::empty());
    }
}

/// The first token of a list of entities.
proof fn lemma_list_first(
    floats: Floats,
    ts: Seq<NodeTree>,
    commas: Seq<NodeCommas>,
    m: nat,
    n: nat,
)
    requires
        canonical_floats(floats),
        0 < n <= ts.len(),
        forall|k: int| 0 <= k < ts.len() ==> entity_fits(floats, #[trigger] ts[k], m),
    ensures
        entities_toks(ts, commas, n).len() > 0,
        starts_entity(entities_toks(ts, commas, n)[0].kind),
    decreases n,
{
    lemma_entity_first(floats, ts[n - 1], commas[n - 1], m);
    if n > 1 {
        lemma_list_first(floats, ts, commas, m, (n - 1) as nat);
    } else {
        assert(entities_toks(ts, commas, 0) =~= Seq::empty());
    }
}

/// The printed roots do not end with a line feed.
proof fn lemma_roots_end(floats: Floats, style: Style, ts: Seq<NodeTree>, m: nat)
    requires
        canonical_floats(floats),
        ts.len() > 0,
        forall|k: int| 0 <= k < ts.len() ==> entity_fits(floats, #[trigger] ts[k], m),
    ensures
        ends_plain(joined(roots_texts(style, ts, ts.len()), root_separator(style))),
{
    let n = ts.len();
    let k = n - 1;
    let parts = roots_texts(style, ts, n);
    lemma_texts_len(style, ts, n);
    lemma_texts_len(style, ts, k as nat);
    lemma_entity_lines(floats, style, ts[k], m, 0);
    lemma_entity_ends(floats, style, ts[k], m, 0);
    lemma_trimmed(entity_text(style, ts[k], 0));
    assert(parts.last() == trimmed(entity_text(style, ts[k], 0)));
    if n > 1 {
        assert(joined(parts, root_separator(style)) == joined(
            parts.drop_last(),
            root_separator(style),
        ) + root_separator(style) + parts.last());
    }
}

/// A printed document is empty, or ends with exactly one line feed.
pub proof fn lemma_text_ends(floats: Floats, style: Style, ts: Seq<NodeTree>, m: nat)
    requires
        canonical_floats(floats),
        forall|k: int| 0 <= k < ts.len() ==> entity_fits(floats, #[trigger] ts[k], m),
    ensures
        ts.len() == 0 ==> roots_text(style, ts).len() == 0,
        ts.len() > 0 ==> is_line(roots_text(style, ts)) && ends_plain(
            roots_text(style, ts).drop_last(),
        ),
{
    reveal_strlit("\n");
    if ts.len() > 0 {
        let text = joined(roots_texts(style, ts, ts.len()), root_separator(style));
        lemma_roots_end(floats, style, ts, m);
        assert(roots_text(style, ts).drop_last() =~= text);
    }
}

} // verus!
