//! The lexer reads the printed text of entities as their tokens.

use vstd::prelude::*;

use crate::ast::BsnPatchPrefix;
use crate::float::{canonical_floats, Floats};
use crate::grammar::{NodeHead, NodeTree};
use crate::model::path_text;
use crate::reading::{
    holds_at, ident_token, lemma_holds_char, lemma_holds_split, lemma_reads_concat,
    lemma_reads_ident, lemma_reads_nothing, lemma_reads_string, punct, reads, stops, string_token,
    valid_ident, Bare,
};
use crate::render::{string_text, Style};
use crate::reread_values::{
    lemma_reads_blank, lemma_reads_char, lemma_reads_indent, lemma_reads_path, lemma_reads_tree,
    lemma_reads_two, lemma_stops_at,
};
use crate::shape::{
    base_toks, comma_toks, entities_toks, entity_fits, entity_toks, entries_toks, entry_fits,
    entry_toks, is_blank, name_toks, node_commas_fit, path_fits, path_toks, sigil_toks, tree_toks,
    Commas, NodeCommas,
};
use crate::span::last_line;
use crate::tree_text::{
    base_text, entities_text, entity_text, entries_text, entry_text, name_text, tree_text,
};

verus! {

/// A text that is a line feed after something else.
pub open spec fn is_line(text: Seq<char>) -> bool {
    text.len() > 0 && text.last() == '\n'
}

pub open spec fn no_commas() -> Commas {
    Commas { trailing: false, inside: Seq::empty() }
}

proof fn lemma_line(text: Seq<char>)
    requires
        is_line(text),
    ensures
        text == text.drop_last() + seq!['\n'],
{
    assert(text =~= text.drop_last() + seq!['\n']);
}

/// A line whose contents are read as `toks` is read as `toks`.
proof fn lemma_reads_line(s: Seq<char>, i: int, text: Seq<char>, toks: Seq<Bare>)
    requires
        is_line(text),
        holds_at(s, i, text),
        reads(s, i, i + text.len() - 1, toks),
    ensures
        reads(s, i, i + text.len(), toks),
{
    lemma_line(text);
    lemma_holds_split(s, i, text.drop_last(), seq!['\n']);
    let j = i + text.len() - 1;
    lemma_reads_blank(s, j, seq!['\n']);
    lemma_reads_two(s, i, j, j + 1, toks, Seq::empty(), toks);
}

/// The contents of a line end where the line feed stands.
proof fn lemma_line_stops(s: Seq<char>, i: int, text: Seq<char>)
    requires
        is_line(text),
        holds_at(s, i, text),
    ensures
        holds_at(s, i, text.drop_last()),
        stops(s, i + text.len() - 1),
{
    lemma_line(text);
    lemma_holds_split(s, i, text.drop_last(), seq!['\n']);
    lemma_stops_at(s, i + text.len() - 1, seq!['\n']);
}

proof fn lemma_base_line(style: Style, base: Option<Seq<char>>, level: nat)
    ensures
        base is Some ==> is_line(base_text(style, base, level)),
        base is Some ==> base_text(style, base, level).drop_last() == style.indent(level) + (seq![
            ':',
        ] + string_text(base->0)),
        base is None ==> base_text(style, base, level) == Seq::<char>::empty(),
{
    reveal_strlit(":");
    reveal_strlit("\n");
    if base is Some {
        assert(base_text(style, base, level).drop_last() =~= style.indent(level) + (seq![':']
            + string_text(base->0)));
    }
}

proof fn lemma_reads_base(
    s: Seq<char>,
    i: int,
    style: Style,
    base: Option<Seq<char>>,
    level: nat,
)
    requires
        base is Some,
        holds_at(s, i, base_text(style, base, level).drop_last()),
    ensures
        reads(s, i, i + base_text(style, base, level).len() - 1, base_toks(base)),
{
    let pad = style.indent(level);
    let text = string_text(base->0);
    lemma_base_line(style, base, level);
    lemma_holds_split(s, i, pad, seq![':'] + text);
    let j = i + pad.len();
    lemma_holds_split(s, j, seq![':'], text);
    lemma_holds_char(s, j + 1, text, 0);
    lemma_reads_indent(s, i, style, level);
    lemma_reads_char(s, j, ':');
    lemma_reads_string(s, j + 1, base->0);
    let a = seq![punct(':')];
    let b = seq![string_token(base->0)];
    lemma_reads_concat(s, i, j, j + 1, Seq::empty(), a);
    lemma_reads_concat(s, i, j + 1, j + 1 + text.len(), Seq::empty() + a, b);
    assert(Seq::empty() + a + b =~= base_toks(base));
}

proof fn lemma_name_line(style: Style, name: Option<Seq<char>>, level: nat)
    ensures
        name is Some ==> is_line(name_text(style, name, level)),
        name is Some ==> name_text(style, name, level).drop_last() == style.indent(level) + (seq![
            '#',
        ] + name->0),
        name is None ==> name_text(style, name, level) == Seq::<char>::empty(),
{
    reveal_strlit("#");
    reveal_strlit("\n");
    if name is Some {
        assert(name_text(style, name, level).drop_last() =~= style.indent(level) + (seq!['#']
            + name->0));
    }
}

proof fn lemma_reads_name(
    s: Seq<char>,
    i: int,
    style: Style,
    name: Option<Seq<char>>,
    level: nat,
)
    requires
        name is Some,
        valid_ident(name->0),
        holds_at(s, i, name_text(style, name, level).drop_last()),
        stops(s, i + name_text(style, name, level).len() - 1),
    ensures
        reads(s, i, i + name_text(style, name, level).len() - 1, name_toks(name)),
{
    let pad = style.indent(level);
    lemma_name_line(style, name, level);
    lemma_holds_split(s, i, pad, seq!['#'] + name->0);
    let j = i + pad.len();
    lemma_holds_split(s, j, seq!['#'], name->0);
    lemma_reads_indent(s, i, style, level);
    lemma_reads_char(s, j, '#');
    lemma_reads_ident(s, j + 1, name->0);
    let a = seq![punct('#')];
    let b = seq![ident_token(name->0)];
    lemma_reads_concat(s, i, j, j + 1, Seq::empty(), a);
    lemma_reads_concat(s, i, j + 1, j + 1 + name->0.len(), Seq::empty() + a, b);
    assert(Seq::empty() + a + b =~= name_toks(name));
}

// -- entries ----------------------------------------------------------------------------------

proof fn lemma_entry_line(floats: Floats, style: Style, t: NodeTree, m: nat, level: nat)
    requires
        canonical_floats(floats),
        entry_fits(floats, t, m),
    ensures
        is_line(entry_text(style, t, level)),
        ({
            let pad = style.indent(level);
            let line = entry_text(style, t, level).drop_last();
            match t.head {
                NodeHead::Patch { prefix, value, .. } => {
                    let sigil = prefix.spec_sigil();
                    let column = last_line(pad + sigil).len() as int;
                    line == pad + (sigil + tree_text(style, value, level, column))
                },
                NodeHead::Relation { target } => if t.children.len() == 0 {
                    line == pad + (path_text(target) + (seq![' '] + (seq!['['] + seq![']'])))
                } else {
                    line == pad + (path_text(target) + (seq![' '] + (seq!['['] + (seq!['\n'] + (
                    entities_text(style, t.children, t.children.len(), level) + (pad + seq![']']))))))
                },
                _ => true,
            }
        }),
{
    let pad = style.indent(level);
    let line = entry_text(style, t, level).drop_last();
    reveal_strlit("\n");
    reveal_strlit(" []\n");
    reveal_strlit(" [\n");
    reveal_strlit("]\n");
    match t.head {
        NodeHead::Patch { prefix, value, .. } => {
            let sigil = prefix.spec_sigil();
            let column = last_line(pad + sigil).len() as int;
            assert(line =~= pad + (sigil + tree_text(style, value, level, column)));
        },
        NodeHead::Relation { target } => {
            if t.children.len() == 0 {
                assert(line =~= pad + (path_text(target) + (seq![' '] + (seq!['['] + seq![']']))));
            } else {
                let inside = entities_text(style, t.children, t.children.len(), level);
                assert(line =~= pad + (path_text(target) + (seq![' '] + (seq!['['] + (seq!['\n'] + (
                inside + (pad + seq![']'])))))));
            }
        },
        _ => {},
    }
}

/// A printed patch or relation, without its last line feed, is read as its tokens.
proof fn lemma_reads_entry(
    s: Seq<char>,
    i: int,
    floats: Floats,
    style: Style,
    t: NodeTree,
    m: nat,
    level: nat,
) -> (commas: NodeCommas)
    requires
        canonical_floats(floats),
        entry_fits(floats, t, m),
        holds_at(s, i, entry_text(style, t, level).drop_last()),
        stops(s, i + entry_text(style, t, level).len() - 1),
    ensures
        reads(s, i, i + entry_text(style, t, level).len() - 1, entry_toks(t, commas)),
        node_commas_fit(t, commas),
    decreases t, t.children.len() + 2,
{
    lemma_entry_line(floats, style, t, m, level);
    match t.head {
        NodeHead::Patch { .. } => lemma_reads_patch(s, i, floats, style, t, m, level),
        _ => lemma_reads_relation(s, i, floats, style, t, m, level),
    }
}

proof fn lemma_reads_patch(
    s: Seq<char>,
    i: int,
    floats: Floats,
    style: Style,
    t: NodeTree,
    m: nat,
    level: nat,
) -> (commas: NodeCommas)
    requires
        canonical_floats(floats),
        t.head is Patch,
        entry_fits(floats, t, m),
        holds_at(s, i, entry_text(style, t, level).drop_last()),
        stops(s, i + entry_text(style, t, level).len() - 1),
    ensures
        reads(s, i, i + entry_text(style, t, level).len() - 1, entry_toks(t, commas)),
        node_commas_fit(t, commas),
{
    lemma_entry_line(floats, style, t, m, level);
    let pad = style.indent(level);
    let prefix = t.head->prefix;
    let value = t.head->value;
    let sigil = prefix.spec_sigil();
    let column = last_line(pad + sigil).len() as int;
    let text = tree_text(style, value, level, column);
    lemma_holds_split(s, i, pad, sigil + text);
    let j = i + pad.len();
    lemma_holds_split(s, j, sigil, text);
    let k = j + sigil.len();
    let end = k + text.len();
    lemma_reads_indent(s, i, style, level);
    lemma_reads_sigil(s, j, prefix);
    let inside = lemma_reads_tree(s, k, floats, style, value, m + 1, level, column);
    lemma_reads_two(s, i, j, k, Seq::empty(), sigil_toks(prefix), sigil_toks(prefix));
    let commas = NodeCommas { value: inside, inside: Seq::empty() };
    lemma_reads_two(
        s,
        i,
        k,
        end,
        sigil_toks(prefix),
        tree_toks(value, inside),
        entry_toks(t, commas),
    );
    commas
}

proof fn lemma_reads_sigil(s: Seq<char>, i: int, prefix: BsnPatchPrefix)
    requires
        holds_at(s, i, prefix.spec_sigil()),
    ensures
        reads(s, i, i + prefix.spec_sigil().len(), sigil_toks(prefix)),
{
    reveal_strlit("");
    reveal_strlit("~");
    reveal_strlit("@");
    match prefix {
        BsnPatchPrefix::FromTemplate => {
            lemma_reads_nothing(s, i);
        },
        BsnPatchPrefix::Template => {
            assert("~"@ =~= seq!['~']);
            lemma_reads_char(s, i, '~');
        },
        BsnPatchPrefix::SceneComponent => {
            assert("@"@ =~= seq!['@']);
            lemma_reads_char(s, i, '@');
        },
    }
}

/// The path, the space and the bracket at the start of a relation.
proof fn lemma_reads_target(
    s: Seq<char>,
    i: int,
    style: Style,
    target: crate::model::Path,
    m: nat,
    level: nat,
    tail: Seq<char>,
)
    requires
        path_fits(target, m),
        holds_at(
            s,
            i,
            style.indent(level) + (path_text(target) + (seq![' '] + (seq!['['] + tail))),
        ),
    ensures
        ({
            let j = i + style.indent(level).len() + path_text(target).len() + 2;
            reads(s, i, j, path_toks(target) + seq![punct('[')]) && holds_at(s, j, tail)
        }),
{
    let pad = style.indent(level);
    let path = path_text(target);
    lemma_holds_split(s, i, pad, path + (seq![' '] + (seq!['['] + tail)));
    let p1 = i + pad.len();
    lemma_holds_split(s, p1, path, seq![' '] + (seq!['['] + tail));
    let p2 = p1 + path.len();
    lemma_holds_split(s, p2, seq![' '], seq!['['] + tail);
    lemma_holds_split(s, p2 + 1, seq!['['], tail);
    lemma_stops_at(s, p2, seq![' ']);
    lemma_reads_indent(s, i, style, level);
    lemma_reads_path(s, p1, target, m);
    lemma_reads_blank(s, p2, seq![' ']);
    lemma_reads_char(s, p2 + 1, '[');
    let a = path_toks(target);
    lemma_reads_two(s, i, p1, p2, Seq::empty(), a, a);
    lemma_reads_two(s, i, p2, p2 + 1, a, Seq::empty(), a);
    lemma_reads_concat(s, i, p2 + 1, p2 + 2, a, seq![punct('[')]);
}

proof fn lemma_reads_relation(
    s: Seq<char>,
    i: int,
    floats: Floats,
    style: Style,
    t: NodeTree,
    m: nat,
    level: nat,
) -> (commas: NodeCommas)
    requires
        canonical_floats(floats),
        t.head is Relation,
        entry_fits(floats, t, m),
        holds_at(s, i, entry_text(style, t, level).drop_last()),
        stops(s, i + entry_text(style, t, level).len() - 1),
    ensures
        reads(s, i, i + entry_text(style, t, level).len() - 1, entry_toks(t, commas)),
        node_commas_fit(t, commas),
    decreases t, t.children.len() + 1,
{
    lemma_entry_line(floats, style, t, m, level);
    let pad = style.indent(level);
    let target = t.head->target;
    let n = t.children.len();
    let p = i + pad.len() + path_text(target).len() + 2;
    let a = path_toks(target) + seq![punct('[')];
    let close = seq![punct(']')];
    if n == 0 {
        lemma_reads_target(s, i, style, target, m, level, seq![']']);
        lemma_reads_char(s, p, ']');
        lemma_reads_concat(s, i, p, p + 1, a, close);
        let commas = NodeCommas { value: no_commas(), inside: Seq::empty() };
        assert(entry_toks(t, commas) =~= a + close) by {
            assert(entities_toks(t.children, commas.inside, 0) =~= Seq::empty());
        }
        commas
    } else {
        let text = entities_text(style, t.children, n, level);
        let tail = seq!['\n'] + (text + (pad + seq![']']));
        lemma_reads_target(s, i, style, target, m, level, tail);
        lemma_holds_split(s, p, seq!['\n'], text + (pad + seq![']']));
        lemma_holds_split(s, p + 1, text, pad + seq![']']);
        let q = p + 1 + text.len();
        lemma_holds_split(s, q, pad, seq![']']);
        let r = q + pad.len();
        lemma_reads_blank(s, p, seq!['\n']);
        let inside = lemma_reads_entities(s, p + 1, floats, style, t.children, m, n, level);
        lemma_reads_indent(s, q, style, level);
        lemma_reads_char(s, r, ']');
        let b = entities_toks(t.children, inside, n);
        lemma_reads_two(s, i, p, p + 1, a, Seq::empty(), a);
        lemma_reads_concat(s, i, p + 1, q, a, b);
        lemma_reads_two(s, i, q, r, a + b, Seq::empty(), a + b);
        lemma_reads_concat(s, i, r, r + 1, a + b, close);
        let commas = NodeCommas { value: no_commas(), inside };
        assert(entry_toks(t, commas) =~= a + b + close);
        commas
    }
}

/// The tokens of the first `n` entries depend on the commas inside these entries only.
proof fn lemma_entries_cong(t: NodeTree, a: NodeCommas, b: NodeCommas, n: nat)
    requires
        n <= t.children.len(),
        forall|k: int| 0 <= k < n ==> #[trigger] a.inside[k] == b.inside[k],
    ensures
        entries_toks(t, a, n) == entries_toks(t, b, n),
    decreases n,
{
    if n > 0 {
        lemma_entries_cong(t, a, b, (n - 1) as nat);
        assert(a.inside[n - 1] == b.inside[n - 1]);
    }
}

/// The tokens of one more entry.
proof fn lemma_entries_push(t: NodeTree, inside: Seq<NodeCommas>, more: NodeCommas)
    requires
        inside.len() < t.children.len(),
    ensures
        ({
            let n = inside.len();
            let a = NodeCommas { value: no_commas(), inside };
            let b = NodeCommas { value: no_commas(), inside: inside.push(more) };
            entries_toks(t, b, n + 1) == entries_toks(t, a, n) + entry_toks(
                t.children[n as int],
                more,
            )
        }),
{
    let n = inside.len();
    let a = NodeCommas { value: no_commas(), inside };
    let b = NodeCommas { value: no_commas(), inside: inside.push(more) };
    assert forall|k: int| 0 <= k < n implies #[trigger] b.inside[k] == a.inside[k] by {}
    lemma_entries_cong(t, b, a, n);
    assert(b.inside[n as int] == more);
}

/// The lines of the first `n` entries are read as their tokens.
proof fn lemma_reads_entries(
    s: Seq<char>,
    i: int,
    floats: Floats,
    style: Style,
    t: NodeTree,
    m: nat,
    n: nat,
    level: nat,
) -> (inside: Seq<NodeCommas>)
    requires
        canonical_floats(floats),
        entity_fits(floats, t, m),
        n <= t.children.len(),
        holds_at(s, i, entries_text(style, t, n, level)),
    ensures
        inside.len() == n,
        reads(
            s,
            i,
            i + entries_text(style, t, n, level).len(),
            entries_toks(t, NodeCommas { value: no_commas(), inside }, n),
        ),
        forall|k: int| 0 <= k < n ==> node_commas_fit(#[trigger] t.children[k], inside[k]),
    decreases t, n,
{
    if n == 0 {
        lemma_reads_nothing(s, i);
        Seq::empty()
    } else {
        let k = n - 1;
        let before = entries_text(style, t, k as nat, level);
        let text = entry_text(style, t.children[k], level);
        lemma_holds_split(s, i, before, text);
        let j = i + before.len();
        assert(entry_fits(floats, t.children[k], (m - 1) as nat));
        lemma_entry_line(floats, style, t.children[k], (m - 1) as nat, level);
        lemma_line_stops(s, j, text);
        let inside = lemma_reads_entries(s, i, floats, style, t, m, k as nat, level);
        let last = lemma_reads_entry(
            s,
            j,
            floats,
            style,
            t.children[k],
            (m - 1) as nat,
            level,
        );
        lemma_reads_line(s, j, text, entry_toks(t.children[k], last));
        lemma_entries_push(t, inside, last);
        lemma_reads_concat(
            s,
            i,
            j,
            j + text.len(),
            entries_toks(t, NodeCommas { value: no_commas(), inside }, k as nat),
            entry_toks(t.children[k], last),
        );
        inside.push(last)
    }
}

// -- entities ---------------------------------------------------------------------------------

proof fn lemma_entries_lines(
    floats: Floats,
    style: Style,
    t: NodeTree,
    m: nat,
    n: nat,
    level: nat,
)
    requires
        canonical_floats(floats),
        entity_fits(floats, t, m),
        0 < n <= t.children.len(),
    ensures
        is_line(entries_text(style, t, n, level)),
        entries_text(style, t, n, level).drop_last() == entries_text(style, t, (n - 1) as nat, level)
            + entry_text(style, t.children[n - 1], level).drop_last(),
{
    assert(entry_fits(floats, t.children[n - 1], (m - 1) as nat));
    lemma_entry_line(floats, style, t.children[n - 1], (m - 1) as nat, level);
    let before = entries_text(style, t, (n - 1) as nat, level);
    let text = entry_text(style, t.children[n - 1], level);
    assert((before + text).drop_last() =~= before + text.drop_last());
}

/// A printed entity is made of lines.
pub proof fn lemma_entity_lines(floats: Floats, style: Style, t: NodeTree, m: nat, level: nat)
    requires
        canonical_floats(floats),
        entity_fits(floats, t, m),
    ensures
        is_line(entity_text(style, t, level)),
        is_blank(t) ==> entity_text(style, t, level).drop_last() == style.indent(level) + (seq![
            '(',
        ] + seq![')']),
        !is_blank(t) ==> entity_text(style, t, level) == base_text(style, t.head->base, level)
            + name_text(style, t.head->name, level) + entries_text(
            style,
            t,
            t.children.len(),
            level,
        ),
{
    let text = entity_text(style, t, level);
    let n = t.children.len();
    reveal_strlit("()\n");
    lemma_base_line(style, t.head->base, level);
    lemma_name_line(style, t.head->name, level);
    if n > 0 {
        lemma_entries_lines(floats, style, t, m, n, level);
    }
    if is_blank(t) {
        assert(text.drop_last() =~= style.indent(level) + (seq!['('] + seq![')']));
    }
}

/// A printed entity, without its last line feed, is read as its tokens.
pub proof fn lemma_reads_entity(
    s: Seq<char>,
    i: int,
    floats: Floats,
    style: Style,
    t: NodeTree,
    m: nat,
    level: nat,
) -> (commas: NodeCommas)
    requires
        canonical_floats(floats),
        entity_fits(floats, t, m),
        holds_at(s, i, entity_text(style, t, level).drop_last()),
        stops(s, i + entity_text(style, t, level).len() - 1),
    ensures
        reads(s, i, i + entity_text(style, t, level).len() - 1, entity_toks(t, commas)),
        node_commas_fit(t, commas),
    decreases t, t.children.len() + 2,
{
    let n = t.children.len();
    let text = entity_text(style, t, level);
    lemma_entity_lines(floats, style, t, m, level);
    if is_blank(t) {
        let pad = style.indent(level);
        let j = i + pad.len();
        lemma_holds_split(s, i, pad, seq!['('] + seq![')']);
        lemma_holds_split(s, j, seq!['('], seq![')']);
        lemma_reads_indent(s, i, style, level);
        lemma_reads_char(s, j, '(');
        lemma_reads_char(s, j + 1, ')');
        lemma_reads_concat(s, i, j, j + 1, Seq::empty(), seq![punct('(')]);
        lemma_reads_concat(
            s,
            i,
            j + 1,
            j + 2,
            Seq::empty() + seq![punct('(')],
            seq![punct(')')],
        );
        let commas = NodeCommas { value: no_commas(), inside: Seq::empty() };
        assert(Seq::empty() + seq![punct('(')] + seq![punct(')')] =~= entity_toks(t, commas));
        commas
    } else if n == 0 {
        lemma_reads_bare_entity(s, i, floats, style, t, m, level)
    } else {
        lemma_reads_full_entity(s, i, floats, style, t, m, level)
    }
}

/// The lines of the base scene and the name.
proof fn lemma_reads_head(
    s: Seq<char>,
    i: int,
    style: Style,
    base: Option<Seq<char>>,
    name: Option<Seq<char>>,
    level: nat,
)
    requires
        name matches Some(x) ==> valid_ident(x),
        holds_at(s, i, base_text(style, base, level) + name_text(style, name, level)),
    ensures
        reads(
            s,
            i,
            i + base_text(style, base, level).len() + name_text(style, name, level).len(),
            base_toks(base) + name_toks(name),
        ),
{
    let b = base_text(style, base, level);
    let c = name_text(style, name, level);
    let j = i + b.len();
    lemma_holds_split(s, i, b, c);
    lemma_base_line(style, base, level);
    lemma_name_line(style, name, level);
    if base is Some {
        lemma_line_stops(s, i, b);
        lemma_reads_base(s, i, style, base, level);
        lemma_reads_line(s, i, b, base_toks(base));
    } else {
        lemma_reads_nothing(s, i);
    }
    if name is Some {
        lemma_line_stops(s, j, c);
        lemma_reads_name(s, j, style, name, level);
        lemma_reads_line(s, j, c, name_toks(name));
    } else {
        lemma_reads_nothing(s, j);
    }
    lemma_reads_concat(s, i, j, j + c.len(), base_toks(base), name_toks(name));
}

/// An entity without entries.
proof fn lemma_reads_bare_entity(
    s: Seq<char>,
    i: int,
    floats: Floats,
    style: Style,
    t: NodeTree,
    m: nat,
    level: nat,
) -> (commas: NodeCommas)
    requires
        canonical_floats(floats),
        t.children.len() == 0,
        !is_blank(t),
        entity_fits(floats, t, m),
        holds_at(s, i, entity_text(style, t, level).drop_last()),
        stops(s, i + entity_text(style, t, level).len() - 1),
    ensures
        reads(s, i, i + entity_text(style, t, level).len() - 1, entity_toks(t, commas)),
        node_commas_fit(t, commas),
{
    let base = t.head->base;
    let name = t.head->name;
    let b = base_text(style, base, level);
    let c = name_text(style, name, level);
    let text = entity_text(style, t, level);
    let end = i + text.len() - 1;
    let commas = NodeCommas { value: no_commas(), inside: Seq::empty() };
    lemma_entity_lines(floats, style, t, m, level);
    lemma_base_line(style, base, level);
    lemma_name_line(style, name, level);
    assert(entries_text(style, t, 0, level) =~= Seq::empty());
    assert(text =~= b + c);
    assert(entries_toks(t, commas, 0) =~= Seq::empty());
    assert(entity_toks(t, commas) =~= base_toks(base) + name_toks(name));
    if name is Some {
        assert(text.drop_last() =~= b + c.drop_last());
        lemma_holds_split(s, i, b, c.drop_last());
        let j = i + b.len();
        if base is Some {
            lemma_line_stops(s, i, b);
            lemma_reads_base(s, i, style, base, level);
            lemma_reads_line(s, i, b, base_toks(base));
        } else {
            lemma_reads_nothing(s, i);
        }
        lemma_reads_name(s, j, style, name, level);
        lemma_reads_concat(s, i, j, end, base_toks(base), name_toks(name));
    } else {
        assert(text =~= b);
        lemma_reads_base(s, i, style, base, level);
        assert(base_toks(base) + name_toks(name) =~= base_toks(base));
    }
    commas
}

/// An entity with entries.
proof fn lemma_reads_full_entity(
    s: Seq<char>,
    i: int,
    floats: Floats,
    style: Style,
    t: NodeTree,
    m: nat,
    level: nat,
) -> (commas: NodeCommas)
    requires
        canonical_floats(floats),
        t.children.len() > 0,
        entity_fits(floats, t, m),
        holds_at(s, i, entity_text(style, t, level).drop_last()),
        stops(s, i + entity_text(style, t, level).len() - 1),
    ensures
        reads(s, i, i + entity_text(style, t, level).len() - 1, entity_toks(t, commas)),
        node_commas_fit(t, commas),
    decreases t, t.children.len() + 1,
{
    let n = t.children.len();
    let base = t.head->base;
    let name = t.head->name;
    let b = base_text(style, base, level);
    let c = name_text(style, name, level);
    let before = entries_text(style, t, (n - 1) as nat, level);
    let child = t.children[n - 1];
    let last = entry_text(style, child, level).drop_last();
    let text = entity_text(style, t, level);
    let end = i + text.len() - 1;
    lemma_entity_lines(floats, style, t, m, level);
    lemma_entries_lines(floats, style, t, m, n, level);
    assert(text.drop_last() =~= (b + c) + (before + last));
    lemma_holds_split(s, i, b + c, before + last);
    let j = i + b.len() + c.len();
    lemma_holds_split(s, j, before, last);
    let k = j + before.len();
    lemma_reads_head(s, i, style, base, name, level);
    let inside = lemma_reads_entries(s, j, floats, style, t, m, (n - 1) as nat, level);
    assert(entry_fits(floats, child, (m - 1) as nat));
    lemma_entry_line(floats, style, child, (m - 1) as nat, level);
    let more = lemma_reads_entry(s, k, floats, style, child, (m - 1) as nat, level);
    let commas = NodeCommas { value: no_commas(), inside: inside.push(more) };
    lemma_entries_push(t, inside, more);
    let d = base_toks(base) + name_toks(name);
    let e = entries_toks(t, NodeCommas { value: no_commas(), inside }, (n - 1) as nat);
    let f = entry_toks(child, more);
    lemma_reads_concat(s, i, j, k, d, e);
    lemma_reads_concat(s, i, k, end, d + e, f);
    assert(entity_toks(t, commas) =~= d + e + f);
    commas
}

/// The tokens of the first `n` entities depend on the commas inside these entities only.
proof fn lemma_entities_cong(
    ts: Seq<NodeTree>,
    a: Seq<NodeCommas>,
    b: Seq<NodeCommas>,
    n: nat,
)
    requires
        n <= ts.len(),
        forall|k: int| 0 <= k < n ==> #[trigger] a[k] == b[k],
    ensures
        entities_toks(ts, a, n) == entities_toks(ts, b, n),
    decreases n,
{
    if n > 0 {
        lemma_entities_cong(ts, a, b, (n - 1) as nat);
        assert(a[n - 1] == b[n - 1]);
    }
}

/// The tokens of one more entity.
pub proof fn lemma_entities_push(ts: Seq<NodeTree>, inside: Seq<NodeCommas>, more: NodeCommas)
    requires
        inside.len() < ts.len(),
    ensures
        ({
            let n = inside.len();
            entities_toks(ts, inside.push(more), n) == entities_toks(ts, inside, n)
                && entities_toks(ts, inside.push(more), n + 1) == entities_toks(ts, inside, n)
                + entity_toks(ts[n as int], more) + comma_toks(n + 1 < ts.len())
        }),
{
    let n = inside.len();
    let b = inside.push(more);
    assert forall|k: int| 0 <= k < n implies #[trigger] b[k] == inside[k] by {}
    lemma_entities_cong(ts, b, inside, n);
    assert(b[n as int] == more);
}

/// The lines of the first `n` entities of a relation are read as their tokens.
#[verifier::rlimit(50)]
proof fn lemma_reads_entities(
    s: Seq<char>,
    i: int,
    floats: Floats,
    style: Style,
    ts: Seq<NodeTree>,
    m: nat,
    n: nat,
    level: nat,
) -> (inside: Seq<NodeCommas>)
    requires
        canonical_floats(floats),
        forall|k: int| 0 <= k < ts.len() ==> entity_fits(floats, #[trigger] ts[k], m),
        n <= ts.len(),
        holds_at(s, i, entities_text(style, ts, n, level)),
    ensures
        inside.len() == n,
        reads(
            s,
            i,
            i + entities_text(style, ts, n, level).len(),
            entities_toks(ts, inside, n),
        ),
        forall|k: int| 0 <= k < n ==> node_commas_fit(#[trigger] ts[k], inside[k]),
    decreases ts, n,
{
    if n == 0 {
        lemma_reads_nothing(s, i);
        Seq::empty()
    } else {
        let k = n - 1;
        let before = entities_text(style, ts, k as nat, level);
        let text = entity_text(style, ts[k], level + 1);
        let line = text.drop_last();
        let separator = if n < ts.len() {
            seq![',', '\n']
        } else {
            seq!['\n']
        };
        reveal_strlit(",\n");
        lemma_entity_lines(floats, style, ts[k], m, level + 1);
        assert(",\n"@ =~= seq![',', '\n']);
        assert(entities_text(style, ts, n, level) =~= before + (line + separator));
        lemma_holds_split(s, i, before, line + separator);
        let p = i + before.len();
        lemma_holds_split(s, p, line, separator);
        let q = p + line.len();
        let r = q + separator.len();
        lemma_stops_at(s, q, separator);
        let inside = lemma_reads_entities(s, i, floats, style, ts, m, k as nat, level);
        let last = lemma_reads_entity(s, p, floats, style, ts[k], m, level + 1);
        lemma_reads_list_separator(s, q, n < ts.len());
        lemma_entities_push(ts, inside, last);
        let a = entities_toks(ts, inside, k as nat);
        let b = entity_toks(ts[k], last);
        lemma_reads_concat(s, i, p, q, a, b);
        lemma_reads_concat(s, i, q, r, a + b, comma_toks(n < ts.len()));
        inside.push(last)
    }
}

proof fn lemma_reads_list_separator(s: Seq<char>, i: int, comma: bool)
    requires
        holds_at(
            s,
            i,
            if comma {
                seq![',', '\n']
            } else {
                seq!['\n']
            },
        ),
    ensures
        reads(
            s,
            i,
            i + if comma {
                2int
            } else {
                1int
            },
            comma_toks(comma),
        ),
{
    if comma {
        assert(seq![',', '\n'] =~= seq![','] + seq!['\n']);
        lemma_holds_split(s, i, seq![','], seq!['\n']);
        lemma_reads_char(s, i, ',');
        lemma_reads_blank(s, i + 1, seq!['\n']);
        lemma_reads_two(
            s,
            i,
            i + 1,
            i + 2,
            seq![punct(',')],
            Seq::empty(),
            comma_toks(comma),
        );
    } else {
        lemma_reads_blank(s, i, seq!['\n']);
    }
}

} // verus!
