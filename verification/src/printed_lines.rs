//! How printed bodies, entities and roots are laid out: what stands on one line, what stands on
//! lines of its own, and what separates them.

use vstd::prelude::*;

use crate::digits::decimal;
use crate::error::{joined, repeated};
use crate::model::{path_text, Document, NodeKind, Value};
use crate::order::{lemma_merged_unique, merged};
use crate::render::{
    breakable, close_text, item_prefix, open_text, print_model, string_text, trimmed, PrintOptions,
    Style, MAX_WALK_DEPTH,
};
use crate::report_law::is_line;
use crate::span::last_line;

verus! {

/// Whether `piece` stands in `text` from the character `at` on.
pub open spec fn stands_at(text: Seq<char>, at: int, piece: Seq<char>) -> bool {
    0 <= at && at + piece.len() <= text.len() && text.subrange(at, at + piece.len()) == piece
}

proof fn lemma_stands_in_sum(a: Seq<char>, b: Seq<char>, c: Seq<char>, at: int, piece: Seq<char>)
    requires
        stands_at(b, at, piece),
    ensures
        stands_at(a + b + c, a.len() + at, piece),
{
    let text = a + b + c;
    let from = a.len() + at;
    assert(text.subrange(from, from + piece.len()) =~= b.subrange(at, at + piece.len()));
}

// -- one line -----------------------------------------------------------------------------------

proof fn lemma_inline_options(
    a: Style,
    b: Style,
    id: int,
    depth: nat,
    path: Seq<int>,
    budget: nat,
)
    requires
        a.document == b.document,
    ensures
        a.inline(id, depth, path, budget) == b.inline(id, depth, path, budget),
    decreases MAX_WALK_DEPTH + 1 - depth, 0nat,
{
    if depth <= MAX_WALK_DEPTH && !path.contains(id) && budget > 0 {
        if let Some(value) = a.document.value(id) {
            lemma_inline_items_options(
                a,
                b,
                value.children,
                value.children.len(),
                depth,
                path.push(id),
                (budget - 1) as nat,
            );
        }
    }
}

proof fn lemma_inline_items_options(
    a: Style,
    b: Style,
    ids: Seq<int>,
    n: nat,
    depth: nat,
    path: Seq<int>,
    budget: nat,
)
    requires
        depth <= MAX_WALK_DEPTH,
        a.document == b.document,
    ensures
        a.inline_items(ids, n, depth, path, budget) == b.inline_items(ids, n, depth, path, budget),
    decreases MAX_WALK_DEPTH - depth, n + 1,
{
    if n > 0 {
        lemma_inline_items_options(a, b, ids, (n - 1) as nat, depth, path, budget);
        let (parts, left) = a.inline_items(ids, (n - 1) as nat, depth, path, budget);
        lemma_inline_options(a, b, ids[n - 1], depth + 1, path, left);
    }
}

proof fn lemma_lines_end(
    style: Style,
    value: Value,
    n: nat,
    level: nat,
    depth: nat,
    path: Seq<int>,
    budget: nat,
)
    requires
        depth <= MAX_WALK_DEPTH,
        n > 0,
    ensures
        ({
            let lines = style.lines(value, n, level, depth, path, budget).0;
            lines.len() > 0 && lines.last() == '\n'
        }),
{
    reveal_strlit(",\n");
    reveal_strlit("\n");
}

/// The text of a body on a single line, whatever the options: that of the widest line.
pub open spec fn single_line(
    document: Document,
    id: int,
    depth: nat,
    path: Seq<int>,
    budget: nat,
) -> Option<Seq<char>> {
    let options = PrintOptions {
        indent: 0,
        max_inline_width: u16::MAX,
        trailing_commas: false,
        blank_line_between_roots: false,
    };
    (Style { document, options }).inline(id, depth, path, budget).0
}

/// Whether there is a line, and it ends within the width when it begins at `column`.
pub open spec fn fits(line: Option<Seq<char>>, column: int, width: int) -> bool {
    line is Some && column + line->0.len() <= width
}

/// A body is on one line exactly when it fits there: when its single line, which no option
/// changes, ends within the width. Otherwise its opening bracket ends a line, and its closing
/// bracket stands on a line of its own behind the indent of the line that the body began on.
pub proof fn law_bodies_fit_or_break(
    style: Style,
    id: int,
    level: nat,
    depth: nat,
    path: Seq<int>,
    budget: nat,
    column: int,
)
    requires
        depth <= MAX_WALK_DEPTH,
        budget > 0,
        !path.contains(id),
        style.document.value(id) matches Some(value) && breakable(value),
    ensures
        ({
            let value = style.document.value(id)->0;
            let width = style.options.max_inline_width;
            let text = style.value(id, level, depth, path, budget, column).0;
            let line = single_line(style.document, id, depth, path, (budget - 1) as nat);
            let opening = open_text(value.head) + seq!['\n'];
            let closing = seq!['\n'] + repeated(' ', level * style.options.indent as int)
                + close_text(value.head);
            &&& is_line(text) ==> column + text.len() <= width
            &&& fits(line, column, width as int) ==> line == Some(text)
            &&& !fits(line, column, width as int) ==> {
                &&& stands_at(text, 0, opening)
                &&& stands_at(text, text.len() - closing.len(), closing)
                &&& !is_line(text)
            }
        }),
{
    let value = style.document.value(id)->0;
    let width = style.options.max_inline_width;
    let options = PrintOptions {
        indent: 0,
        max_inline_width: u16::MAX,
        trailing_commas: false,
        blank_line_between_roots: false,
    };
    lemma_inline_options(
        style,
        Style { document: style.document, options },
        id,
        depth,
        path,
        (budget - 1) as nat,
    );
    let (line, left) = style.inline(id, depth, path, (budget - 1) as nat);
    let text = style.value(id, level, depth, path, budget, column).0;
    let n = value.children.len();
    let opening = open_text(value.head) + seq!['\n'];
    let pad = repeated(' ', level * style.options.indent as int);
    let closing = seq!['\n'] + pad + close_text(value.head);
    if !fits(line, column, width as int) {
        let lines = style.lines(value, n, level, depth, path.push(id), left).0;
        lemma_lines_end(style, value, n, level, depth, path.push(id), left);
        reveal_strlit("\n");
        assert(style.indent(level) == pad);
        assert(text == open_text(value.head) + "\n"@ + lines + pad + close_text(value.head));
        assert("\n"@ =~= seq!['\n']);
        assert(text.subrange(0, opening.len() as int) =~= opening);
        let at = text.len() - closing.len();
        assert(at == open_text(value.head).len() + 1 + lines.len() - 1);
        assert(text.subrange(at, text.len() as int) =~= closing);
        assert(text[open_text(value.head).len() as int] == '\n');
    }
}

// -- lines of their own -------------------------------------------------------------------------

/// The line of the item `i` of a body that is broken across lines, with the text of the item
/// itself: the indent, the field name of a struct, the item, a comma unless it is the last and
/// trailing commas are off, and the line feed. The only item of a tuple keeps its comma.
pub open spec fn item_line(
    value: Value,
    i: int,
    level: nat,
    options: PrintOptions,
    item: Seq<char>,
) -> Seq<char> {
    let last = i == value.children.len() - 1;
    let only = value.children.len() == 1 && (value.head is Tuple || value.head is NamedTuple);
    repeated(' ', (level + 1) * options.indent as int) + (if value.head is Struct {
        value.names[i] + seq![':', ' ']
    } else {
        Seq::empty()
    }) + item + (if last && !options.trailing_commas && !only {
        seq!['\n']
    } else {
        seq![',', '\n']
    })
}

/// Whether the line of the item `i` stands at `at` in a text, the item printed one level deeper
/// with `budget` visits left and behind `column` characters.
pub open spec fn item_stands_at(
    style: Style,
    value: Value,
    i: int,
    level: nat,
    depth: nat,
    path: Seq<int>,
    text: Seq<char>,
    at: int,
    budget: nat,
    column: int,
) -> bool {
    let item = style.value(value.children[i], level + 1, depth + 1, path, budget, column).0;
    stands_at(text, at, item_line(value, i, level, style.options, item))
}

proof fn lemma_item_line(
    style: Style,
    value: Value,
    n: nat,
    i: int,
    level: nat,
    depth: nat,
    path: Seq<int>,
    budget: nat,
)
    requires
        depth <= MAX_WALK_DEPTH,
        0 <= i < n <= value.children.len(),
    ensures
        exists|at: int, left: nat, column: int| #[trigger]
            item_stands_at(
                style,
                value,
                i,
                level,
                depth,
                path,
                style.lines(value, n, level, depth, path, budget).0,
                at,
                left,
                column,
            ) && (at == 0 || style.lines(value, n, level, depth, path, budget).0[at - 1] == '\n'),
    decreases n,
{
    let k = n - 1;
    let lines = style.lines(value, n, level, depth, path, budget).0;
    let (before, left) = style.lines(value, k as nat, level, depth, path, budget);
    let start = style.indent(level + 1) + item_prefix(value, k);
    let column = last_line(start).len() as int;
    let item = style.value(value.children[k], level + 1, depth + 1, path, left, column).0;
    assert(lines == before + start + item + style.separator(value, k));
    if i == k {
        reveal_strlit(",\n");
        reveal_strlit("\n");
        reveal_strlit(": ");
        assert(",\n"@ =~= seq![',', '\n']);
        assert("\n"@ =~= seq!['\n']);
        assert(": "@ =~= seq![':', ' ']);
        let line = item_line(value, i, level, style.options, item);
        assert(start =~= repeated(' ', (level + 1) * style.options.indent as int) + (
        if value.head is Struct {
            value.names[i] + seq![':', ' ']
        } else {
            Seq::empty()
        }));
        assert(lines =~= before + line + Seq::<char>::empty());
        assert(stands_at(line, 0, line)) by {
            assert(line.subrange(0, line.len() as int) =~= line);
        }
        lemma_stands_in_sum(before, line, Seq::empty(), 0, line);
        if k > 0 {
            lemma_lines_end(style, value, k as nat, level, depth, path, budget);
        }
        assert(item_stands_at(
            style,
            value,
            i,
            level,
            depth,
            path,
            lines,
            before.len() as int,
            left,
            column,
        ));
    } else {
        lemma_item_line(style, value, k as nat, i, level, depth, path, budget);
        let (at, spent, begin) = choose|at: int, spent: nat, begin: int| #[trigger]
            item_stands_at(style, value, i, level, depth, path, before, at, spent, begin) && (at
                == 0 || before[at - 1] == '\n');
        let inner = style.value(value.children[i], level + 1, depth + 1, path, spent, begin).0;
        let line = item_line(value, i, level, style.options, inner);
        let rest = start + item + style.separator(value, k);
        assert(lines =~= Seq::<char>::empty() + before + rest);
        lemma_stands_in_sum(Seq::empty(), before, rest, at, line);
        assert(item_stands_at(style, value, i, level, depth, path, lines, at, spent, begin));
    }
}

/// Each item of a body that is broken across lines begins a line, behind the indent one level
/// deeper and, in a struct, its field name. A comma follows it, but for the last item where
/// trailing commas are off and it is not the only item of a tuple; a line feed ends it.
pub proof fn law_items_have_lines(
    style: Style,
    id: int,
    level: nat,
    depth: nat,
    path: Seq<int>,
    budget: nat,
    column: int,
    i: int,
)
    requires
        depth <= MAX_WALK_DEPTH,
        budget > 0,
        !path.contains(id),
        style.document.value(id) matches Some(value) && breakable(value) && 0 <= i
            < value.children.len(),
        !fits(
            single_line(style.document, id, depth, path, (budget - 1) as nat),
            column,
            style.options.max_inline_width as int,
        ),
    ensures
        exists|at: int, left: nat, begin: int| #[trigger]
            item_stands_at(
                style,
                style.document.value(id)->0,
                i,
                level,
                depth,
                path.push(id),
                style.value(id, level, depth, path, budget, column).0,
                at,
                left,
                begin,
            ) && at > 0 && style.value(id, level, depth, path, budget, column).0[at - 1] == '\n',
{
    law_bodies_fit_or_break(style, id, level, depth, path, budget, column);
    let value = style.document.value(id)->0;
    let options = PrintOptions {
        indent: 0,
        max_inline_width: u16::MAX,
        trailing_commas: false,
        blank_line_between_roots: false,
    };
    lemma_inline_options(
        style,
        Style { document: style.document, options },
        id,
        depth,
        path,
        (budget - 1) as nat,
    );
    let (line, left) = style.inline(id, depth, path, (budget - 1) as nat);
    let text = style.value(id, level, depth, path, budget, column).0;
    let n = value.children.len();
    let inside = path.push(id);
    let lines = style.lines(value, n, level, depth, inside, left).0;
    lemma_item_line(style, value, n, i, level, depth, inside, left);
    let (at, spent, begin) = choose|at: int, spent: nat, begin: int| #[trigger]
        item_stands_at(style, value, i, level, depth, inside, lines, at, spent, begin) && (at == 0
            || lines[at - 1] == '\n');
    let item = style.value(value.children[i], level + 1, depth + 1, inside, spent, begin).0;
    let piece = item_line(value, i, level, style.options, item);
    reveal_strlit("\n");
    let head = open_text(value.head) + "\n"@;
    let tail = style.indent(level) + close_text(value.head);
    assert(text =~= head + lines + tail);
    lemma_stands_in_sum(head, lines, tail, at, piece);
    assert(text[head.len() + at - 1] == '\n');
    assert(item_stands_at(
        style,
        value,
        i,
        level,
        depth,
        inside,
        text,
        head.len() + at,
        spent,
        begin,
    ));
}

// -- roots --------------------------------------------------------------------------------------

/// Whether a text is what an entity is printed as without the line feeds at its end, with
/// `budget` visits left.
pub open spec fn is_root_text(style: Style, id: int, budget: nat, text: Seq<char>) -> bool {
    let whole = style.entity(id, 0, Seq::empty(), budget).0;
    &&& text.len() <= whole.len()
    &&& text == whole.take(text.len() as int)
    &&& text.len() > 0 ==> text.last() != '\n'
    &&& forall|i: int| text.len() <= i < whole.len() ==> #[trigger] whole[i] == '\n'
}

/// Whether a text is what an entity is printed as, whatever is left of the budget.
pub open spec fn prints_root(style: Style, id: int, text: Seq<char>) -> bool {
    exists|left: nat| #[trigger] is_root_text(style, id, left, text)
}

proof fn lemma_trimmed_prefix(text: Seq<char>)
    ensures
        trimmed(text).len() <= text.len(),
        trimmed(text) == text.take(trimmed(text).len() as int),
        trimmed(text).len() > 0 ==> trimmed(text).last() != '\n',
        forall|i: int| trimmed(text).len() <= i < text.len() ==> #[trigger] text[i] == '\n',
    decreases text.len(),
{
    if text.len() > 0 && text.last() == '\n' {
        let shorter = text.drop_last();
        lemma_trimmed_prefix(shorter);
        let kept = trimmed(shorter).len() as int;
        assert(shorter.take(kept) =~= text.take(kept));
        assert forall|i: int| kept <= i < text.len() implies #[trigger] text[i] == '\n' by {
            if i < shorter.len() {
                assert(shorter[i] == '\n');
            }
        }
    } else {
        assert(text.take(text.len() as int) =~= text);
    }
}

proof fn lemma_roots(style: Style, n: nat, budget: nat, i: int)
    requires
        0 <= i < n,
    ensures
        style.roots(n, budget).0.len() == n,
        prints_root(style, style.document.roots[i], style.roots(n, budget).0[i]),
    decreases n,
{
    let (before, left) = style.roots((n - 1) as nat, budget);
    let text = style.entity(style.document.roots[n - 1], 0, Seq::empty(), left).0;
    lemma_trimmed_prefix(text);
    lemma_roots_len(style, (n - 1) as nat, budget);
    if i < n - 1 {
        lemma_roots(style, (n - 1) as nat, budget, i);
        assert(style.roots(n, budget).0[i] == before[i]);
    } else {
        assert(style.roots(n, budget).0[i] == trimmed(text));
        assert(is_root_text(style, style.document.roots[i], left, trimmed(text)));
    }
}

proof fn lemma_roots_len(style: Style, n: nat, budget: nat)
    ensures
        style.roots(n, budget).0.len() == n,
    decreases n,
{
    if n > 0 {
        lemma_roots_len(style, (n - 1) as nat, budget);
    }
}

/// Whether texts are those of the roots of a document, one for each.
pub open spec fn are_root_texts(style: Style, parts: Seq<Seq<char>>) -> bool {
    &&& parts.len() == style.document.roots.len()
    &&& forall|i: int|
        0 <= i < parts.len() ==> prints_root(style, style.document.roots[i], #[trigger] parts[i])
}

/// A document is printed root by root, in their order. A comma ends all but the last, a blank
/// line follows where the options ask for it, and one line feed ends the whole. A document
/// without roots is printed as nothing.
pub proof fn law_roots_are_separated(document: Document, options: PrintOptions)
    ensures
        document.roots.len() == 0 ==> print_model(document, options).len() == 0,
        document.roots.len() > 0 ==> exists|parts: Seq<Seq<char>>| #[trigger]
            are_root_texts(Style { document, options }, parts) && print_model(document, options)
                == joined(
                parts,
                if options.blank_line_between_roots {
                    seq![',', '\n', '\n']
                } else {
                    seq![',', '\n']
                },
            ) + seq!['\n'],
{
    let style = Style { document, options };
    let n = document.roots.len();
    let parts = style.roots(n, style.budget()).0;
    lemma_roots_len(style, n, style.budget());
    reveal_strlit(",\n\n");
    reveal_strlit(",\n");
    reveal_strlit("\n");
    assert(",\n\n"@ =~= seq![',', '\n', '\n']);
    assert(",\n"@ =~= seq![',', '\n']);
    assert("\n"@ =~= seq!['\n']);
    assert forall|i: int| 0 <= i < parts.len() implies prints_root(
        style,
        document.roots[i],
        #[trigger] parts[i],
    ) by {
        lemma_roots(style, n, style.budget(), i);
    }
    if n > 0 {
        assert(are_root_texts(style, parts));
    }
}

// -- entities -----------------------------------------------------------------------------------

/// An entity begins with the line of its base, then that of its name, each behind its indent; an
/// entity that has neither these nor entries is `()`.
pub proof fn law_entities_begin_with_base_and_name(
    style: Style,
    id: int,
    level: nat,
    path: Seq<int>,
    budget: nat,
)
    requires
        level <= MAX_WALK_DEPTH,
        !path.contains(id),
        style.document.node(id) matches Some(node) && node.kind is Entity,
    ensures
        ({
            let kind = style.document.node(id)->0.kind;
            let text = style.entity(id, level, path, budget).0;
            let pad = repeated(' ', level * style.options.indent as int);
            let base = match kind->base {
                Some(base) => pad + seq![':'] + string_text(base) + seq!['\n'],
                None => Seq::empty(),
            };
            let name = match kind->name {
                Some(name) => pad + seq!['#'] + name + seq!['\n'],
                None => Seq::empty(),
            };
            &&& stands_at(text, 0, base + name)
            &&& kind->base is None && kind->name is None && kind->patches.len() == 0
                && kind->relations.len() == 0 ==> text == pad + seq!['(', ')', '\n']
        }),
{
    let kind = style.document.node(id)->0.kind;
    let text = style.entity(id, level, path, budget).0;
    let pad = repeated(' ', level * style.options.indent as int);
    assert(pad == style.indent(level));
    reveal_strlit(":");
    reveal_strlit("#");
    reveal_strlit("\n");
    reveal_strlit("()\n");
    assert(":"@ =~= seq![':']);
    assert("#"@ =~= seq!['#']);
    assert("\n"@ =~= seq!['\n']);
    assert("()\n"@ =~= seq!['(', ')', '\n']);
    let base = match kind->base {
        Some(base) => pad + seq![':'] + string_text(base) + seq!['\n'],
        None => Seq::empty(),
    };
    let name = match kind->name {
        Some(name) => pad + seq!['#'] + name + seq!['\n'],
        None => Seq::empty(),
    };
    let head = base + name;
    let order = merged(style.document, kind->patches, kind->relations);
    let entries = style.entries(order, order.len(), level, path.push(id), budget).0;
    if (head + entries).len() > 0 {
        assert(text == head + entries);
        assert(text.subrange(0, head.len() as int) =~= head);
    } else {
        assert(head =~= Seq::empty());
        assert(text.subrange(0, 0) =~= head);
    }
    if kind->patches.len() == 0 && kind->relations.len() == 0 {
        let none = Seq::<int>::empty();
        assert(kind->patches + kind->relations =~= none);
        lemma_merged_unique(style.document, kind->patches, kind->relations, none);
    }
}

/// An entry stands behind its indent and ends its line: a patch is its sigil and its value, a
/// relation its path and its entities between brackets, which stand on lines of their own unless
/// there are none.
pub proof fn law_entries_have_lines(style: Style, id: int, level: nat, path: Seq<int>, budget: nat)
    requires
        level <= MAX_WALK_DEPTH,
        style.document.node(id) matches Some(node) && !(node.kind is Entity),
    ensures
        ({
            let text = style.entry(id, level, path, budget).0;
            let pad = repeated(' ', level * style.options.indent as int);
            match style.document.node(id)->0.kind {
                NodeKind::Patch { prefix, value, .. } => {
                    let start = pad + prefix.spec_sigil();
                    text == start + style.value(
                        value,
                        level,
                        0,
                        Seq::empty(),
                        budget,
                        last_line(start).len() as int,
                    ).0 + seq!['\n']
                },
                NodeKind::Relation { target, entities } => {
                    let opening = pad + path_text(target) + seq![' ', '['];
                    if entities.len() == 0 {
                        text == opening + seq![']', '\n']
                    } else {
                        let closing = pad + seq![']', '\n'];
                        &&& stands_at(text, 0, opening + seq!['\n'])
                        &&& stands_at(text, text.len() - closing.len(), closing)
                    }
                },
                _ => true,
            }
        }),
{
    let text = style.entry(id, level, path, budget).0;
    let pad = repeated(' ', level * style.options.indent as int);
    assert(pad == style.indent(level));
    reveal_strlit("\n");
    reveal_strlit(" []\n");
    reveal_strlit(" [\n");
    reveal_strlit("]\n");
    assert("\n"@ =~= seq!['\n']);
    match style.document.node(id)->0.kind {
        NodeKind::Relation { target, entities } => {
            let opening = pad + path_text(target) + seq![' ', '['];
            if entities.len() == 0 {
                assert(text =~= opening + seq![']', '\n']);
            } else {
                let inner = style.entities(entities, entities.len(), level, path, budget).0;
                assert(text == pad + path_text(target) + " [\n"@ + inner + pad + "]\n"@);
                let first = opening + seq!['\n'];
                assert(text.subrange(0, first.len() as int) =~= first);
                let closing = pad + seq![']', '\n'];
                let at = text.len() - closing.len();
                assert(text.subrange(at, text.len() as int) =~= closing);
            }
        },
        _ => {},
    }
}

// -- what cannot be printed ---------------------------------------------------------------------

/// Where a value cannot be followed, a comment stands in its place, and nothing of the document:
/// it names the id where there is no such value, and says so where a value nests too deep, lies on
/// its own path, or the visits are spent. No comment takes more than a visit.
pub proof fn law_markers_stand_for_what_is_not_printed(
    style: Style,
    id: int,
    level: nat,
    depth: nat,
    path: Seq<int>,
    budget: nat,
    column: int,
)
    requires
        depth > MAX_WALK_DEPTH || budget == 0 || path.contains(id) || style.document.value(id) is None,
    ensures
        ({
            let (text, left) = style.value(id, level, depth, path, budget, column);
            &&& left <= budget <= left + 1
            &&& depth > MAX_WALK_DEPTH || budget > 0 && path.contains(id) ==> text
                == "/* <nesting too deep> */"@
            &&& depth <= MAX_WALK_DEPTH && budget == 0 ==> text == "/* <print budget exceeded> */"@
            &&& depth <= MAX_WALK_DEPTH && budget > 0 && !path.contains(id) ==> text
                == "/* <invalid node id "@ + decimal(id as nat) + "> */"@
        }),
{
}

} // verus!
