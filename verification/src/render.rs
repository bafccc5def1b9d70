//! The canonical text of a document.
//!
//! Printing follows ids through the arenas, so it is defined for every document, including
//! ones with dangling ids, cycles or shared values: nesting is cut off, an id on its own path
//! is not followed, and a budget bounds the number of values that are visited. Each function
//! gives a text and what is left of the budget.

use vstd::prelude::*;

use crate::chars::spec_is_control;
use crate::digits::{decimal, int_text, radix_text};
use crate::error::{joined, repeated};
use crate::model::{path_text, Document, Head, NodeKind, Value};
use crate::order::merged;
use crate::span::last_line;

verus! {

/// A guard against pathological or cyclic hand-built documents.
pub const MAX_WALK_DEPTH: u32 = 256;

/// Emitted in place of a node or value whose id is not present in the document.
pub const INVALID: &'static str = "/* <invalid node id ";

/// Emitted when a (necessarily hand-built) document nests deeper than [`MAX_WALK_DEPTH`].
pub const TOO_DEEP: &'static str = "/* <nesting too deep> */";

/// Emitted when a (necessarily hand-built) document exhausts the printer's visit budget.
pub const OVER_BUDGET: &'static str = "/* <print budget exceeded> */";

/// Value visits allowed per value node, on top of [`BUDGET_BASE`].
///
/// A legal tree is visited at most once per ancestor — the printer renders each body inline
/// first and re-renders it broken across lines if it does not fit — so `depth + 1` visits per
/// node bounds it, and the parser caps nesting at 128.
pub const BUDGET_PER_VALUE: usize = 256;

/// Visits allowed regardless of document size, so tiny documents are never constrained.
pub const BUDGET_BASE: usize = 1024;

/// Formatting knobs for the printer.
///
/// [`Default`] is the canonical style, and is what [`crate::print_document`] uses.
#[derive(Clone, Copy, Debug)]
pub struct PrintOptions {
    /// Spaces per indent level. Default 4.
    pub indent: u8,
    /// Soft line-width budget for keeping a struct, tuple or list body on one line.
    /// Default 100.
    pub max_inline_width: u16,
    /// Emit a trailing comma on multi-line bodies. Default `true`.
    pub trailing_commas: bool,
    /// Emit a blank line between top-level roots. Default `true`.
    pub blank_line_between_roots: bool,
}

/// The canonical style.
pub open spec fn default_options() -> PrintOptions {
    PrintOptions {
        indent: 4,
        max_inline_width: 100,
        trailing_commas: true,
        blank_line_between_roots: true,
    }
}

impl Default for PrintOptions {
    fn default() -> (r: Self)
        ensures
            r == default_options(),
    {
        PrintOptions {
            indent: 4,
            max_inline_width: 100,
            trailing_commas: true,
            blank_line_between_roots: true,
        }
    }
}

/// A character inside a string literal.
pub open spec fn escaped_char(c: char) -> Seq<char> {
    if c == '\\' {
        seq!['\\', '\\']
    } else if c == '"' {
        seq!['\\', '"']
    } else if c == '\n' {
        seq!['\\', 'n']
    } else if c == '\r' {
        seq!['\\', 'r']
    } else if c == '\t' {
        seq!['\\', 't']
    } else if c == '\0' {
        seq!['\\', '0']
    } else if spec_is_control(c) {
        seq!['\\', 'u', '{'] + radix_text(c as u32 as nat, 16) + seq!['}']
    } else {
        seq![c]
    }
}

/// The inside of a string literal for `s`.
pub open spec fn escaped(s: Seq<char>) -> Seq<char>
    decreases s.len(),
{
    if s.len() == 0 {
        Seq::empty()
    } else {
        escaped(s.drop_last()) + escaped_char(s.last())
    }
}

/// The string literal for `s`, with its quotes.
pub open spec fn string_text(s: Seq<char>) -> Seq<char> {
    seq!['"'] + escaped(s) + seq!['"']
}

/// The marker for an id that is not present.
pub open spec fn invalid_text(id: int) -> Seq<char> {
    INVALID@ + decimal(id as nat) + "> */"@
}

/// Whether a value has a body that can be broken across lines.
pub open spec fn breakable(value: Value) -> bool {
    value.children.len() > 0 && (value.head is Tuple || value.head is List || value.head is Struct
        || value.head is NamedTuple)
}

/// The text of a value without values inside it.
pub open spec fn leaf_text(head: Head) -> Seq<char> {
    match head {
        Head::Unit => "()"@,
        Head::Bool(b) => if b {
            "true"@
        } else {
            "false"@
        },
        Head::Int(v) => int_text(v),
        Head::Float(f) => f.text(),
        Head::Str(s) => string_text(s),
        Head::EntityRef(name) => "#"@ + name,
        Head::Path(path) => path_text(path),
        _ => Seq::empty(),
    }
}

/// The fields of a struct body on one line.
pub open spec fn fields_text(names: Seq<Seq<char>>, parts: Seq<Seq<char>>) -> Seq<char>
    decreases parts.len(),
{
    if parts.len() == 0 {
        Seq::empty()
    } else {
        fields_text(names, parts.drop_last()) + (if parts.len() > 1 {
            ", "@
        } else {
            Seq::empty()
        }) + names[parts.len() - 1] + ": "@ + parts.last()
    }
}

/// A value with its body on one line, from the texts of the values inside it.
pub open spec fn body_text(value: Value, parts: Seq<Seq<char>>) -> Seq<char> {
    match value.head {
        Head::Tuple => if parts.len() == 1 {
            "("@ + parts[0] + ",)"@
        } else {
            "("@ + joined(parts, ", "@) + ")"@
        },
        Head::List => "["@ + joined(parts, ", "@) + "]"@,
        Head::NamedTuple(path) => path_text(path) + "("@ + joined(parts, ", "@) + ")"@,
        Head::Struct(path) => if parts.len() == 0 {
            path_text(path) + " {}"@
        } else {
            path_text(path) + " { "@ + fields_text(value.names, parts) + " }"@
        },
        _ => leaf_text(value.head),
    }
}

/// What precedes a body that is broken across lines, up to its opening bracket.
pub open spec fn open_text(head: Head) -> Seq<char> {
    match head {
        Head::Tuple => "("@,
        Head::List => "["@,
        Head::NamedTuple(path) => path_text(path) + "("@,
        Head::Struct(path) => path_text(path) + " {"@,
        _ => Seq::empty(),
    }
}

pub open spec fn close_text(head: Head) -> Seq<char> {
    match head {
        Head::Tuple => ")"@,
        Head::List => "]"@,
        Head::NamedTuple(_) => ")"@,
        Head::Struct(_) => "}"@,
        _ => Seq::empty(),
    }
}

/// Whether the only item of a body keeps its comma: a one-element tuple needs it.
pub open spec fn forces_comma(value: Value) -> bool {
    value.children.len() == 1 && (value.head is Tuple || value.head is NamedTuple)
}

/// The start of the line of item `i` of a body: the field name, for a struct.
pub open spec fn item_prefix(value: Value, i: int) -> Seq<char> {
    if value.head is Struct {
        value.names[i] + ": "@
    } else {
        Seq::empty()
    }
}

/// What a printer works with: the document and the options.
pub ghost struct Style {
    pub document: Document,
    pub options: PrintOptions,
}

impl Style {
    pub open spec fn indent(self, level: nat) -> Seq<char> {
        repeated(' ', level * self.options.indent as int)
    }

    // -- values on one line -----------------------------------------------------------------

    /// A value on a single line, or `None` if it holds an id that cannot be followed.
    pub open spec fn inline(self, id: int, depth: nat, path: Seq<int>, budget: nat) -> (
        Option<Seq<char>>,
        nat,
    )
        decreases MAX_WALK_DEPTH + 1 - depth, 0nat, 1nat,
    {
        if depth > MAX_WALK_DEPTH || path.contains(id) {
            (None, budget)
        } else if budget == 0 {
            (Some(OVER_BUDGET@), 0)
        } else {
            match self.document.value(id) {
                None => (None, (budget - 1) as nat),
                Some(value) => {
                    let (parts, left) = self.inline_items(
                        value.children,
                        value.children.len(),
                        depth,
                        path.push(id),
                        (budget - 1) as nat,
                    );
                    match parts {
                        None => (None, left),
                        Some(parts) => (Some(body_text(value, parts)), left),
                    }
                },
            }
        }
    }

    /// The first `n` of the values `ids`, each on a single line, or `None` if one of them
    /// cannot be rendered.
    pub open spec fn inline_items(
        self,
        ids: Seq<int>,
        n: nat,
        depth: nat,
        path: Seq<int>,
        budget: nat,
    ) -> (Option<Seq<Seq<char>>>, nat)
        decreases MAX_WALK_DEPTH - depth, n + 1, 0nat,
        when depth <= MAX_WALK_DEPTH
    {
        if n == 0 {
            (Some(Seq::empty()), budget)
        } else {
            let (parts, left) = self.inline_items(ids, (n - 1) as nat, depth, path, budget);
            match parts {
                None => (None, left),
                Some(parts) => {
                    let (part, left) = self.inline(ids[n - 1], depth + 1, path, left);
                    match part {
                        None => (None, left),
                        Some(part) => (Some(parts.push(part)), left),
                    }
                },
            }
        }
    }

    // -- values ---------------------------------------------------------------------------

    /// A value that starts `column` characters into its line. Bodies that do not fit are broken
    /// across lines, with their contents indented relative to `level`.
    pub open spec fn value(
        self,
        id: int,
        level: nat,
        depth: nat,
        path: Seq<int>,
        budget: nat,
        column: int,
    ) -> (Seq<char>, nat)
        decreases MAX_WALK_DEPTH + 1 - depth, 0nat, 1nat,
    {
        if depth > MAX_WALK_DEPTH {
            (TOO_DEEP@, budget)
        } else if budget == 0 {
            (OVER_BUDGET@, 0)
        } else if path.contains(id) {
            (TOO_DEEP@, (budget - 1) as nat)
        } else {
            match self.document.value(id) {
                None => (invalid_text(id), (budget - 1) as nat),
                Some(value) => {
                    let (text, left) = self.inline(id, depth, path, (budget - 1) as nat);
                    if text matches Some(t) && (!breakable(value) || column + t.len()
                        <= self.options.max_inline_width) {
                        (text->0, left)
                    } else if !breakable(value) {
                        (invalid_text(id), left)
                    } else {
                        let (lines, left) = self.lines(
                            value,
                            value.children.len(),
                            level,
                            depth,
                            path.push(id),
                            left,
                        );
                        (
                            open_text(value.head) + "\n"@ + lines + self.indent(level)
                                + close_text(value.head),
                            left,
                        )
                    }
                },
            }
        }
    }

    /// What ends the line of item `i` of a body.
    pub open spec fn separator(self, value: Value, i: int) -> Seq<char> {
        if i + 1 < value.children.len() || self.options.trailing_commas || forces_comma(value) {
            ",\n"@
        } else {
            "\n"@
        }
    }

    /// The lines of the first `n` items of a body.
    pub open spec fn lines(
        self,
        value: Value,
        n: nat,
        level: nat,
        depth: nat,
        path: Seq<int>,
        budget: nat,
    ) -> (Seq<char>, nat)
        decreases MAX_WALK_DEPTH - depth, n + 1, 0nat,
        when depth <= MAX_WALK_DEPTH
    {
        if n == 0 {
            (Seq::empty(), budget)
        } else {
            let i = n - 1;
            let (before, left) = self.lines(value, i as nat, level, depth, path, budget);
            let start = self.indent(level + 1) + item_prefix(value, i);
            let (text, left) = self.value(
                value.children[i],
                level + 1,
                depth + 1,
                path,
                left,
                last_line(start).len() as int,
            );
            (before + start + text + self.separator(value, i), left)
        }
    }

    // -- entities ---------------------------------------------------------------------------

    /// The lines of an entity, each terminated by `\n`.
    pub open spec fn entity(self, id: int, level: nat, path: Seq<int>, budget: nat) -> (
        Seq<char>,
        nat,
    )
        decreases 2 * (MAX_WALK_DEPTH + 1 - level), 0nat,
    {
        let pad = self.indent(level);
        if level > MAX_WALK_DEPTH || path.contains(id) {
            (pad + TOO_DEEP@ + "\n"@, budget)
        } else {
            match self.document.node(id) {
                None => (pad + invalid_text(id) + "\n"@, budget),
                Some(node) => match node.kind {
                    NodeKind::Entity { name, base, patches, relations, .. } => {
                        let head = (match base {
                            Some(base) => pad + ":"@ + string_text(base) + "\n"@,
                            None => Seq::empty(),
                        }) + (match name {
                            Some(name) => pad + "#"@ + name + "\n"@,
                            None => Seq::empty(),
                        });
                        let order = merged(self.document, patches, relations);
                        let (entries, left) = self.entries(
                            order,
                            order.len(),
                            level,
                            path.push(id),
                            budget,
                        );
                        let text = head + entries;
                        if text.len() == 0 {
                            (pad + "()\n"@, left)
                        } else {
                            (text, left)
                        }
                    },
                    _ => (pad + invalid_text(id) + "\n"@, budget),
                },
            }
        }
    }

    /// The lines of the first `n` entries.
    pub open spec fn entries(
        self,
        order: Seq<int>,
        n: nat,
        level: nat,
        path: Seq<int>,
        budget: nat,
    ) -> (Seq<char>, nat)
        decreases 2 * (MAX_WALK_DEPTH - level) + 1, n + 1,
        when level <= MAX_WALK_DEPTH
    {
        if n == 0 {
            (Seq::empty(), budget)
        } else {
            let (before, left) = self.entries(order, (n - 1) as nat, level, path, budget);
            let (text, left) = self.entry(order[n - 1], level, path, left);
            (before + text, left)
        }
    }

    /// The lines of a patch or a relation.
    pub open spec fn entry(self, id: int, level: nat, path: Seq<int>, budget: nat) -> (
        Seq<char>,
        nat,
    )
        decreases 2 * (MAX_WALK_DEPTH - level) + 1, 1nat,
        when level <= MAX_WALK_DEPTH
    {
        let pad = self.indent(level);
        match self.document.node(id) {
            None => (pad + invalid_text(id) + "\n"@, budget),
            Some(node) => match node.kind {
                NodeKind::Patch { prefix, value, .. } => {
                    let start = pad + prefix.spec_sigil();
                    let (text, left) = self.value(
                        value,
                        level,
                        0,
                        Seq::empty(),
                        budget,
                        last_line(start).len() as int,
                    );
                    (start + text + "\n"@, left)
                },
                NodeKind::Relation { target, entities } => if entities.len() == 0 {
                    (pad + path_text(target) + " []\n"@, budget)
                } else {
                    let (text, left) = self.entities(
                        entities,
                        entities.len(),
                        level,
                        path,
                        budget,
                    );
                    (pad + path_text(target) + " [\n"@ + text + pad + "]\n"@, left)
                },
                _ => (pad + invalid_text(id) + "\n"@, budget),
            },
        }
    }

    /// The lines of the first `n` entities of a relation, with a comma after all but the last
    /// of all.
    pub open spec fn entities(
        self,
        ids: Seq<int>,
        n: nat,
        level: nat,
        path: Seq<int>,
        budget: nat,
    ) -> (Seq<char>, nat)
        decreases 2 * (MAX_WALK_DEPTH - level), n + 1,
        when level <= MAX_WALK_DEPTH
    {
        if n == 0 {
            (Seq::empty(), budget)
        } else {
            let (before, left) = self.entities(ids, (n - 1) as nat, level, path, budget);
            let (text, left) = self.entity(ids[n - 1], level + 1, path, left);
            (
                before + (if n < ids.len() {
                    text.drop_last() + ",\n"@
                } else {
                    text
                }),
                left,
            )
        }
    }

    // -- documents --------------------------------------------------------------------------

    /// The texts of the first `n` roots.
    pub open spec fn roots(self, n: nat, budget: nat) -> (Seq<Seq<char>>, nat)
        decreases n,
    {
        if n == 0 {
            (Seq::empty(), budget)
        } else {
            let (before, left) = self.roots((n - 1) as nat, budget);
            let (text, left) = self.entity(self.document.roots[n - 1], 0, Seq::empty(), left);
            (before.push(trimmed(text)), left)
        }
    }

    /// The visits that the printer may spend.
    pub open spec fn budget(self) -> nat {
        let b = self.document.values.len() * BUDGET_PER_VALUE + BUDGET_BASE;
        if b <= usize::MAX {
            b as nat
        } else {
            usize::MAX as nat
        }
    }

    /// The whole document, ending with exactly one newline when non-empty.
    pub open spec fn text(self) -> Seq<char> {
        let parts = self.roots(self.document.roots.len(), self.budget()).0;
        if parts.len() == 0 {
            Seq::empty()
        } else {
            joined(
                parts,
                if self.options.blank_line_between_roots {
                    ",\n\n"@
                } else {
                    ",\n"@
                },
            ) + "\n"@
        }
    }
}

/// A text without the line feeds at its end.
pub open spec fn trimmed(text: Seq<char>) -> Seq<char>
    decreases text.len(),
{
    if text.len() > 0 && text.last() == '\n' {
        trimmed(text.drop_last())
    } else {
        text
    }
}

/// The text of a document in the given style.
pub open spec fn print_model(document: Document, options: PrintOptions) -> Seq<char> {
    (Style { document, options }).text()
}

} // verus!
