//! The text of trees: what the printer writes for a document that unfolds to them.

use vstd::prelude::*;

use crate::error::joined;
use crate::grammar::{NodeHead, NodeTree, Tree};
use crate::model::{path_text, Value};
use crate::render::{
    body_text, breakable, close_text, item_prefix, open_text, string_text, trimmed, Style,
};
use crate::span::last_line;

verus! {

/// A value with the head, the names and the number of children of a tree.
pub open spec fn value_of(t: Tree) -> Value {
    Value {
        id: 0,
        span: t.span,
        head: t.head,
        names: t.names,
        children: Seq::new(t.children.len(), |i: int| 0int),
    }
}

/// A value on one line.
pub open spec fn tree_inline(t: Tree) -> Seq<char>
    decreases t, t.children.len() + 1,
{
    body_text(value_of(t), inline_parts(t, t.children.len()))
}

/// The first `n` values inside a value, each on one line.
pub open spec fn inline_parts(t: Tree, n: nat) -> Seq<Seq<char>>
    decreases t, n,
{
    if n == 0 || n > t.children.len() {
        Seq::empty()
    } else {
        inline_parts(t, (n - 1) as nat).push(tree_inline(t.children[n - 1]))
    }
}

/// A value that starts `column` characters into its line.
pub open spec fn tree_text(style: Style, t: Tree, level: nat, column: int) -> Seq<char>
    decreases t, t.children.len() + 1,
{
    let inline = tree_inline(t);
    if !breakable(value_of(t)) || column + inline.len() <= style.options.max_inline_width {
        inline
    } else {
        open_text(t.head) + "\n"@ + tree_lines(style, t, t.children.len(), level) + style.indent(
            level,
        ) + close_text(t.head)
    }
}

/// The lines of the first `n` items of a body.
pub open spec fn tree_lines(style: Style, t: Tree, n: nat, level: nat) -> Seq<char>
    decreases t, n,
{
    if n == 0 || n > t.children.len() {
        Seq::empty()
    } else {
        let i = n - 1;
        let start = style.indent(level + 1) + item_prefix(value_of(t), i);
        tree_lines(style, t, i as nat, level) + start + tree_text(
            style,
            t.children[i],
            level + 1,
            last_line(start).len() as int,
        ) + style.separator(value_of(t), i)
    }
}

/// The line of a base scene.
pub open spec fn base_text(style: Style, base: Option<Seq<char>>, level: nat) -> Seq<char> {
    match base {
        Some(base) => style.indent(level) + ":"@ + string_text(base) + "\n"@,
        None => Seq::empty(),
    }
}

/// The line of a name.
pub open spec fn name_text(style: Style, name: Option<Seq<char>>, level: nat) -> Seq<char> {
    match name {
        Some(name) => style.indent(level) + "#"@ + name + "\n"@,
        None => Seq::empty(),
    }
}

/// The lines of an entity.
pub open spec fn entity_text(style: Style, t: NodeTree, level: nat) -> Seq<char>
    decreases t, t.children.len() + 1,
{
    match t.head {
        NodeHead::Entity { name, base, .. } => {
            let text = base_text(style, base, level) + name_text(style, name, level)
                + entries_text(style, t, t.children.len(), level);
            if text.len() == 0 {
                style.indent(level) + "()\n"@
            } else {
                text
            }
        },
        _ => Seq::empty(),
    }
}

/// The lines of the first `n` entries of an entity.
pub open spec fn entries_text(style: Style, t: NodeTree, n: nat, level: nat) -> Seq<char>
    decreases t, n,
{
    if n == 0 || n > t.children.len() {
        Seq::empty()
    } else {
        entries_text(style, t, (n - 1) as nat, level) + entry_text(style, t.children[n - 1], level)
    }
}

/// The lines of a patch or a relation.
pub open spec fn entry_text(style: Style, t: NodeTree, level: nat) -> Seq<char>
    decreases t, t.children.len() + 1,
{
    let pad = style.indent(level);
    match t.head {
        NodeHead::Patch { prefix, value, .. } => {
            let start = pad + prefix.spec_sigil();
            start + tree_text(style, value, level, last_line(start).len() as int) + "\n"@
        },
        NodeHead::Relation { target } => if t.children.len() == 0 {
            pad + path_text(target) + " []\n"@
        } else {
            pad + path_text(target) + " [\n"@ + entities_text(
                style,
                t.children,
                t.children.len(),
                level,
            ) + pad + "]\n"@
        },
        _ => Seq::empty(),
    }
}

/// The lines of the first `n` entities of a relation.
pub open spec fn entities_text(style: Style, ts: Seq<NodeTree>, n: nat, level: nat) -> Seq<char>
    decreases ts, n,
{
    if n == 0 || n > ts.len() {
        Seq::empty()
    } else {
        let text = entity_text(style, ts[n - 1], level + 1);
        entities_text(style, ts, (n - 1) as nat, level) + (if n < ts.len() {
            text.drop_last() + ",\n"@
        } else {
            text
        })
    }
}

/// The texts of the first `n` roots of a document.
pub open spec fn roots_texts(style: Style, ts: Seq<NodeTree>, n: nat) -> Seq<Seq<char>>
    decreases n,
{
    if n == 0 || n > ts.len() {
        Seq::empty()
    } else {
        roots_texts(style, ts, (n - 1) as nat).push(trimmed(entity_text(style, ts[n - 1], 0)))
    }
}

/// What stands between two roots.
pub open spec fn root_separator(style: Style) -> Seq<char> {
    if style.options.blank_line_between_roots {
        ",\n\n"@
    } else {
        ",\n"@
    }
}

/// The text of a document.
pub open spec fn roots_text(style: Style, ts: Seq<NodeTree>) -> Seq<char> {
    if ts.len() == 0 {
        Seq::empty()
    } else {
        joined(roots_texts(style, ts, ts.len()), root_separator(style)) + "\n"@
    }
}

} // verus!
