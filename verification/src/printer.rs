//! The canonical printer: the write side of the format.
//!
//! [`print_document`] renders a [`BsnDocument`] back to `.bsn` text in a fixed, stable
//! style, so tools can emit files that diff cleanly. Printing is *semantics preserving* but
//! not *source preserving*: comments, layout, integer radix and raw-string delimiters are
//! not carried by the AST and therefore do not survive a parse/print cycle.
//!
//! Two AST distinctions likewise have no text to survive in, and
//! [`BsnDocument::structural_eq`] treats each pair as equal so that the round-trip property
//! still holds for documents a builder can construct:
//!
//! - [`BsnValue::Unit`] and an empty [`BsnValue::Tuple`] both print as `()`.
//! - Every `NaN` of a given sign prints as `NaN` or `-NaN`. The *sign* round-trips; a
//!   non-canonical `NaN` *payload* does not.

use vstd::prelude::*;

use crate::ast::{
    node_ids, value_ids, BsnDocument, BsnNodeId, BsnNodeKind, BsnPath, BsnValue, BsnValueId,
    BsnValueNode,
};
use crate::chars::is_control;
use crate::digits::{push_decimal, push_int, push_radix};
use crate::error::{joined, push_repeated};
use crate::model::Value;
use crate::order::merge_entries;
use crate::render::{
    body_text, breakable, close_text, default_options, escaped, escaped_char, fields_text,
    forces_comma, invalid_text, item_prefix, open_text, print_model, string_text, trimmed,
    PrintOptions, Style, BUDGET_BASE, BUDGET_PER_VALUE, INVALID, MAX_WALK_DEPTH, OVER_BUDGET,
    TOO_DEEP,
};
use crate::span::last_line;
use crate::text::{chars_of, push_chars, push_text};

verus! {

/// Whether a text ends where a line starts.
pub open spec fn at_line_start(text: Seq<char>) -> bool {
    text.len() == 0 || text.last() == '\n'
}

/// The line of item `i` of a body, and what is left of the budget.
pub open spec fn item_line(
    style: Style,
    value: Value,
    i: int,
    level: nat,
    depth: nat,
    path: Seq<int>,
    budget: nat,
) -> (Seq<char>, nat) {
    let start = style.indent(level + 1) + item_prefix(value, i);
    let (text, left) = style.value(
        value.children[i],
        level + 1,
        depth + 1,
        path,
        budget,
        last_line(start).len() as int,
    );
    (start + text + style.separator(value, i), left)
}

proof fn lemma_line_concat(a: Seq<char>, b: Seq<char>, c: Seq<char>, d: Seq<char>)
    ensures
        a + b + c + d == a + (b + c + d),
{
    assert(a + b + c + d =~= a + (b + c + d));
}

/// The lines of a body grow by the line of the next item.
proof fn lemma_next_line(
    style: Style,
    value: Value,
    i: nat,
    level: nat,
    depth: nat,
    path: Seq<int>,
    budget: nat,
    before: Seq<char>,
)
    requires
        depth <= MAX_WALK_DEPTH,
    ensures
        ({
            let (lines, left) = style.lines(value, i, level, depth, path, budget);
            let (line, rest) = item_line(style, value, i as int, level, depth, path, left);
            let longer = style.lines(value, i + 1, level, depth, path, budget);
            longer.1 == rest && before + lines + line == before + longer.0
        }),
{
    let (lines, left) = style.lines(value, i, level, depth, path, budget);
    let start = style.indent(level + 1) + item_prefix(value, i as int);
    let (text, rest) = style.value(
        value.children[i as int],
        level + 1,
        depth + 1,
        path,
        left,
        last_line(start).len() as int,
    );
    let end = style.separator(value, i as int);
    assert(style.lines(value, i + 1, level, depth, path, budget) == (
        lines + start + text + end,
        rest,
    ));
    assert(before + lines + (start + text + end) =~= before + (lines + start + text + end));
}

/// The last line of a text that starts on a new line.
pub proof fn lemma_last_line_concat(a: Seq<char>, b: Seq<char>)
    requires
        at_line_start(a),
    ensures
        last_line(a + b) == last_line(b),
    decreases b.len(),
{
    if b.len() == 0 {
        assert(a + b =~= a);
    } else {
        assert((a + b).drop_last() =~= a + b.drop_last());
        lemma_last_line_concat(a, b.drop_last());
    }
}

/// Appends `value` as a double-quoted BSN string literal, including the quotes.
///
/// Only `\\`, `\"`, `\n`, `\r`, `\t`, `\0` and other control characters are escaped; all
/// other text, including non-ASCII characters, is emitted verbatim.
pub(crate) fn escape_string(out: &mut Vec<char>, value: &str)
    ensures
        final(out)@ == old(out)@ + string_text(value@),
{
    let ghost before = out@;
    let chars = chars_of(value);
    out.push('"');
    let mut i: usize = 0;
    assert(chars@.take(0) =~= Seq::<char>::empty());
    while i < chars.len()
        invariant
            i <= chars.len(),
            out@ =~= before + seq!['"'] + escaped(chars@.take(i as int)),
        decreases chars.len() - i,
    {
        let ghost so_far = out@;
        let ch = chars[i];
        match ch {
            '\\' => {
                out.push('\\');
                out.push('\\');
            },
            '"' => {
                out.push('\\');
                out.push('"');
            },
            '\n' => {
                out.push('\\');
                out.push('n');
            },
            '\r' => {
                out.push('\\');
                out.push('r');
            },
            '\t' => {
                out.push('\\');
                out.push('t');
            },
            '\0' => {
                out.push('\\');
                out.push('0');
            },
            _ => {
                if is_control(ch) {
                    out.push('\\');
                    out.push('u');
                    out.push('{');
                    push_radix(out, ch as u32 as u128, 16);
                    out.push('}');
                } else {
                    out.push(ch);
                }
            },
        }
        proof {
            assert(out@ =~= so_far + escaped_char(ch));
            assert(chars@.take(i as int + 1).drop_last() =~= chars@.take(i as int));
        }
        i = i + 1;
    }
    out.push('"');
    assert(chars@.take(chars.len() as int) =~= chars@);
    assert(out@ =~= before + string_text(value@));
}

/// Appends texts separated by `separator`.
fn push_joined(out: &mut Vec<char>, parts: &Vec<Vec<char>>, separator: &str)
    ensures
        final(out)@ == old(out)@ + joined(parts@.map_values(|p: Vec<char>| p@), separator@),
{
    let ghost before = out@;
    let ghost list = parts@.map_values(|p: Vec<char>| p@);
    let mut i: usize = 0;
    assert(list.take(0) =~= Seq::<Seq<char>>::empty());
    while i < parts.len()
        invariant
            i <= parts.len(),
            list == parts@.map_values(|p: Vec<char>| p@),
            out@ =~= before + joined(list.take(i as int), separator@),
        decreases parts.len() - i,
    {
        if i > 0 {
            push_text(out, separator);
        }
        push_chars(out, &parts[i]);
        proof {
            assert(list.take(i as int + 1).drop_last() =~= list.take(i as int));
            assert(list.take(i as int + 1).last() == parts@[i as int]@);
            if i == 0 {
                assert(list.take(1)[0] == parts@[0]@);
            }
        }
        i = i + 1;
    }
    assert(list.take(parts.len() as int) =~= list);
}

/// Appends the marker for an id that is not present.
fn push_invalid(out: &mut Vec<char>, id: u32)
    ensures
        final(out)@ == old(out)@ + invalid_text(id as int),
{
    let ghost before = out@;
    push_text(out, INVALID);
    push_decimal(out, id as u128);
    push_text(out, "> */");
    assert(out@ =~= before + invalid_text(id as int));
}

/// The width, in `char`s, of the text after the last newline in `out`.
fn last_line_width(out: &Vec<char>) -> (r: usize)
    ensures
        r == last_line(out@).len(),
{
    let mut i: usize = out.len();
    assert(out@.take(out.len() as int) =~= out@);
    while i > 0 && out[i - 1] != '\n'
        invariant
            i <= out.len(),
            last_line(out@).len() == last_line(out@.take(i as int)).len() + (out.len() - i),
        decreases i,
    {
        assert(out@.take(i as int).drop_last() =~= out@.take(i - 1));
        i = i - 1;
    }
    out.len() - i
}

/// Returns `true` if a value has a body that can be broken across lines.
fn is_breakable(node: &BsnValueNode) -> (r: bool)
    ensures
        r == breakable(node@),
{
    match &node.value {
        BsnValue::Struct(_, fields) => fields.len() > 0,
        BsnValue::NamedTuple(_, items) => items.len() > 0,
        BsnValue::Tuple(items) => items.len() > 0,
        BsnValue::List(items) => items.len() > 0,
        _ => false,
    }
}

struct Printer<'a> {
    document: &'a BsnDocument,
    options: PrintOptions,
    /// Ids on the current value recursion path, so a cyclic hand-built document terminates.
    value_stack: Vec<BsnValueId>,
    /// Ids on the current entity recursion path, for the same reason.
    node_stack: Vec<BsnNodeId>,
    /// Remaining value visits, so a shared (DAG) value cannot expand exponentially.
    budget: usize,
}

impl<'a> Printer<'a> {
    spec fn style(&self) -> Style {
        Style { document: self.document@, options: self.options }
    }

    /// Only the budget may differ.
    spec fn same(&self, other: &Self) -> bool {
        &&& self.document == other.document
        &&& self.options == other.options
        &&& self.value_stack@ == other.value_stack@
        &&& self.node_stack@ == other.node_stack@
    }

    spec fn value_path(&self) -> Seq<int> {
        value_ids(self.value_stack@)
    }

    spec fn node_path(&self) -> Seq<int> {
        node_ids(self.node_stack@)
    }

    /// Charges one value visit to the budget, returning `false` once it is exhausted.
    fn spend(&mut self) -> (r: bool)
        ensures
            final(self).same(old(self)),
            r == (old(self).budget > 0),
            final(self).budget == (if r {
                old(self).budget - 1
            } else {
                0
            }),
    {
        if self.budget > 0 {
            self.budget = self.budget - 1;
            true
        } else {
            false
        }
    }

    /// Whether a value is on the current recursion path.
    fn on_value_path(&self, id: BsnValueId) -> (r: bool)
        ensures
            r == self.value_path().contains(id.0 as int),
    {
        let mut i: usize = 0;
        while i < self.value_stack.len()
            invariant
                i <= self.value_stack.len(),
                forall|k: int| 0 <= k < i ==> #[trigger] self.value_path()[k] != id.0,
            decreases self.value_stack.len() - i,
        {
            if self.value_stack[i].0 == id.0 {
                assert(self.value_path()[i as int] == id.0);
                return true;
            }
            i = i + 1;
        }
        false
    }

    /// Whether an entity is on the current recursion path.
    fn on_node_path(&self, id: BsnNodeId) -> (r: bool)
        ensures
            r == self.node_path().contains(id.0 as int),
    {
        let mut i: usize = 0;
        while i < self.node_stack.len()
            invariant
                i <= self.node_stack.len(),
                forall|k: int| 0 <= k < i ==> #[trigger] self.node_path()[k] != id.0,
            decreases self.node_stack.len() - i,
        {
            if self.node_stack[i].0 == id.0 {
                assert(self.node_path()[i as int] == id.0);
                return true;
            }
            i = i + 1;
        }
        false
    }

    /// Appends the indentation of a level.
    fn push_indent(&self, out: &mut Vec<char>, level: usize)
        requires
            level <= 1024,
        ensures
            final(out)@ == old(out)@ + self.style().indent(level as nat),
    {
        let indent: usize = self.options.indent as usize;
        assert(0 <= level * indent <= 1024 * 255) by (nonlinear_arith)
            requires
                0 <= level <= 1024,
                0 <= indent <= 255,
        ;
        push_repeated(out, ' ', level * indent);
    }

    /// Renders a value on a single line, or `None` if it contains a dangling id.
    fn inline_value(&mut self, id: BsnValueId, depth: u32) -> (r: Option<Vec<char>>)
        requires
            depth <= MAX_WALK_DEPTH + 1,
        ensures
            final(self).same(old(self)),
            ({
                let (text, left) = old(self).style().inline(
                    id.0 as int,
                    depth as nat,
                    old(self).value_path(),
                    old(self).budget as nat,
                );
                &&& final(self).budget == left
                &&& match r {
                    Some(t) => text == Some(t@),
                    None => text is None,
                }
            }),
        decreases MAX_WALK_DEPTH + 1 - depth, 1nat,
    {
        if depth > MAX_WALK_DEPTH || self.on_value_path(id) {
            return None;
        }
        if !self.spend() {
            // Not `None`: falling back to the multi-line path would keep descending, and the
            // whole point of the budget is to stop.
            return Some(chars_of(OVER_BUDGET));
        }
        let document = self.document;
        let node = match document.value(id) {
            Some(node) => node,
            None => {
                return None;
            },
        };
        let ghost stack = self.value_stack@;
        self.value_stack.push(id);
        proof {
            assert(self.value_path() =~= value_ids(stack).push(id.0 as int));
        }
        let result = self.inline_value_inner(node, depth);
        self.value_stack.pop();
        assert(self.value_stack@ =~= stack);
        result
    }

    fn inline_value_inner(&mut self, node: &BsnValueNode, depth: u32) -> (r: Option<Vec<char>>)
        requires
            depth <= MAX_WALK_DEPTH,
        ensures
            final(self).same(old(self)),
            ({
                let (parts, left) = old(self).style().inline_items(
                    node@.children,
                    node@.children.len(),
                    depth as nat,
                    old(self).value_path(),
                    old(self).budget as nat,
                );
                &&& final(self).budget == left
                &&& match r {
                    Some(t) => parts is Some && t@ == body_text(node@, parts->0),
                    None => parts is None,
                }
            }),
        decreases MAX_WALK_DEPTH + 1 - depth, 0nat,
    {
        let mut out: Vec<char> = Vec::new();
        let ghost none = Seq::<Seq<char>>::empty();
        match &node.value {
            BsnValue::Unit => push_text(&mut out, "()"),
            BsnValue::Bool(value) => if *value {
                push_text(&mut out, "true");
            } else {
                push_text(&mut out, "false");
            },
            BsnValue::Int(value) => push_int(&mut out, *value),
            BsnValue::Float(value) => value.push_to(&mut out),
            BsnValue::String(value) => escape_string(&mut out, value.as_str()),
            BsnValue::EntityRef(name) => {
                push_text(&mut out, "#");
                push_text(&mut out, name.as_str());
            },
            BsnValue::Path(path) => path.push_type_path(&mut out),
            BsnValue::Tuple(values) => {
                let parts = match self.inline_items(values, depth) {
                    Some(parts) => parts,
                    None => {
                        return None;
                    },
                };
                push_text(&mut out, "(");
                if parts.len() == 1 {
                    push_chars(&mut out, &parts[0]);
                    push_text(&mut out, ",)");
                } else {
                    push_joined(&mut out, &parts, ", ");
                    push_text(&mut out, ")");
                }
                let ghost list = parts@.map_values(|p: Vec<char>| p@);
                assert(out@ =~= body_text(node@, list));
                return Some(out);
            },
            BsnValue::List(values) => {
                let parts = match self.inline_items(values, depth) {
                    Some(parts) => parts,
                    None => {
                        return None;
                    },
                };
                push_text(&mut out, "[");
                push_joined(&mut out, &parts, ", ");
                push_text(&mut out, "]");
                let ghost list = parts@.map_values(|p: Vec<char>| p@);
                assert(out@ =~= body_text(node@, list));
                return Some(out);
            },
            BsnValue::NamedTuple(path, values) => {
                let parts = match self.inline_items(values, depth) {
                    Some(parts) => parts,
                    None => {
                        return None;
                    },
                };
                path.push_type_path(&mut out);
                push_text(&mut out, "(");
                push_joined(&mut out, &parts, ", ");
                push_text(&mut out, ")");
                let ghost list = parts@.map_values(|p: Vec<char>| p@);
                assert(out@ =~= body_text(node@, list));
                return Some(out);
            },
            BsnValue::Struct(path, fields) => {
                return self.inline_struct(node, path, fields, depth);
            },
        }
        assert(out@ =~= body_text(node@, none));
        Some(out)
    }

    /// Renders a struct value on a single line.
    #[verifier::loop_isolation(false)]
    fn inline_struct(
        &mut self,
        node: &BsnValueNode,
        path: &BsnPath,
        fields: &Vec<(String, BsnValueId)>,
        depth: u32,
    ) -> (r: Option<Vec<char>>)
        requires
            depth <= MAX_WALK_DEPTH,
            node.value == BsnValue::Struct(*path, *fields),
        ensures
            final(self).same(old(self)),
            ({
                let (parts, left) = old(self).style().inline_items(
                    node@.children,
                    node@.children.len(),
                    depth as nat,
                    old(self).value_path(),
                    old(self).budget as nat,
                );
                &&& final(self).budget == left
                &&& match r {
                    Some(t) => parts is Some && t@ == body_text(node@, parts->0),
                    None => parts is None,
                }
            }),
        decreases MAX_WALK_DEPTH - depth, 2nat,
    {
        let ghost style = self.style();
        let ghost ids = node@.children;
        let ghost names = node@.names;
        let ghost stack = self.value_path();
        let ghost budget = self.budget as nat;
        let mut out: Vec<char> = Vec::new();
        path.push_type_path(&mut out);
        if fields.len() == 0 {
            push_text(&mut out, " {}");
            assert(out@ =~= body_text(node@, Seq::empty()));
            return Some(out);
        }
        push_text(&mut out, " { ");
        let ghost head = out@;
        let ghost mut parts = Seq::<Seq<char>>::empty();
        let mut i: usize = 0;
        while i < fields.len()
            invariant
                i <= fields.len(),
                self.same(old(self)),
                parts.len() == i,
                style.inline_items(ids, i as nat, depth as nat, stack, budget) == (
                    Some(parts),
                    self.budget as nat,
                ),
                out@ =~= head + fields_text(names, parts),
            decreases fields.len() - i,
        {
            let ghost before = parts;
            if i > 0 {
                push_text(&mut out, ", ");
            }
            push_text(&mut out, fields[i].0.as_str());
            push_text(&mut out, ": ");
            let part = match self.inline_value(fields[i].1, depth + 1) {
                Some(part) => part,
                None => {
                    proof {
                        lemma_items_stop(
                            style,
                            ids,
                            (i + 1) as nat,
                            ids.len(),
                            depth as nat,
                            stack,
                            budget,
                        );
                    }
                    return None;
                },
            };
            push_chars(&mut out, &part);
            proof {
                parts = before.push(part@);
                assert(parts.drop_last() =~= before);
                assert(names[i as int] == fields@[i as int].0@);
            }
            i = i + 1;
        }
        push_text(&mut out, " }");
        assert(out@ =~= body_text(node@, parts));
        Some(out)
    }

    /// Renders each item on a single line, or `None` if any of them cannot be rendered.
    #[verifier::loop_isolation(false)]
    fn inline_items(&mut self, items: &Vec<BsnValueId>, depth: u32) -> (r: Option<Vec<Vec<char>>>)
        requires
            depth <= MAX_WALK_DEPTH,
        ensures
            final(self).same(old(self)),
            ({
                let (parts, left) = old(self).style().inline_items(
                    value_ids(items@),
                    items@.len(),
                    depth as nat,
                    old(self).value_path(),
                    old(self).budget as nat,
                );
                &&& final(self).budget == left
                &&& match r {
                    Some(t) => parts == Some(t@.map_values(|p: Vec<char>| p@)),
                    None => parts is None,
                }
            }),
        decreases MAX_WALK_DEPTH - depth, 2nat,
    {
        let ghost style = self.style();
        let ghost ids = value_ids(items@);
        let ghost stack = self.value_path();
        let ghost budget = self.budget as nat;
        let mut parts: Vec<Vec<char>> = Vec::new();
        let mut i: usize = 0;
        assert(parts@.map_values(|p: Vec<char>| p@) =~= Seq::<Seq<char>>::empty());
        while i < items.len()
            invariant
                i <= items.len(),
                self.same(old(self)),
                style.inline_items(ids, i as nat, depth as nat, stack, budget) == (
                    Some(parts@.map_values(|p: Vec<char>| p@)),
                    self.budget as nat,
                ),
            decreases items.len() - i,
        {
            let ghost before = parts@;
            match self.inline_value(items[i], depth + 1) {
                Some(part) => {
                    parts.push(part);
                    assert(parts@.map_values(|p: Vec<char>| p@) =~= before.map_values(
                        |p: Vec<char>| p@,
                    ).push(part@));
                },
                None => {
                    proof {
                        lemma_items_stop(
                            style,
                            ids,
                            (i + 1) as nat,
                            ids.len(),
                            depth as nat,
                            stack,
                            budget,
                        );
                    }
                    return None;
                },
            }
            i = i + 1;
        }
        Some(parts)
    }

    /// Appends a value, continuing the current line. Multi-line bodies indent their contents
    /// relative to `level` and leave the cursor after the closing delimiter.
    fn value(&mut self, out: &mut Vec<char>, id: BsnValueId, level: usize, depth: u32)
        requires
            depth <= MAX_WALK_DEPTH + 1,
            level <= MAX_WALK_DEPTH + depth,
        ensures
            final(self).same(old(self)),
            ({
                let (text, left) = old(self).style().value(
                    id.0 as int,
                    level as nat,
                    depth as nat,
                    old(self).value_path(),
                    old(self).budget as nat,
                    last_line(old(out)@).len() as int,
                );
                &&& final(self).budget == left
                &&& final(out)@ == old(out)@ + text
            }),
        decreases MAX_WALK_DEPTH + 1 - depth, 1nat,
    {
        let ghost before = out@;
        if depth > MAX_WALK_DEPTH {
            push_text(out, TOO_DEEP);
            return ;
        }
        if !self.spend() {
            push_text(out, OVER_BUDGET);
            return ;
        }
        if self.on_value_path(id) {
            push_text(out, TOO_DEEP);
            return ;
        }
        let document = self.document;
        let node = match document.value(id) {
            Some(node) => node,
            None => {
                push_invalid(out, id.0);
                return ;
            },
        };
        let inline = self.inline_value(id, depth);
        let breakable = is_breakable(node);
        match inline {
            Some(text) => {
                let column = last_line_width(out);
                let limit: usize = self.options.max_inline_width as usize;
                if !breakable || (column <= limit && text.len() <= limit - column) {
                    push_chars(out, &text);
                    return ;
                }
            },
            None => {
                if !breakable {
                    push_invalid(out, id.0);
                    return ;
                }
            },
        }
        let ghost stack = self.value_stack@;
        let ghost left = self.budget as nat;
        self.value_stack.push(id);
        assert(self.value_path() =~= value_ids(stack).push(id.0 as int));
        self.push_open(out, node);
        push_text(out, "\n");
        let ghost opened = out@;
        proof {
            reveal_strlit("\n");
            assert(opened.last() == '\n');
        }
        self.push_lines(out, node, level, depth);
        self.push_indent(out, level);
        self.push_close(out, node);
        self.value_stack.pop();
        assert(self.value_stack@ =~= stack);
        proof {
            let style = old(self).style();
            let (lines, rest) = style.lines(
                node@,
                node@.children.len(),
                level as nat,
                depth as nat,
                value_ids(stack).push(id.0 as int),
                left,
            );
            assert(out@ =~= before + (open_text(node@.head) + "\n"@ + lines + style.indent(
                level as nat,
            ) + close_text(node@.head)));
        }
    }

    /// Appends what precedes a body that is broken across lines.
    fn push_open(&self, out: &mut Vec<char>, node: &BsnValueNode)
        requires
            breakable(node@),
        ensures
            final(out)@ == old(out)@ + open_text(node@.head),
    {
        let ghost before = out@;
        match &node.value {
            BsnValue::Struct(path, _) => {
                path.push_type_path(out);
                push_text(out, " {");
            },
            BsnValue::NamedTuple(path, _) => {
                path.push_type_path(out);
                push_text(out, "(");
            },
            BsnValue::Tuple(_) => push_text(out, "("),
            BsnValue::List(_) => push_text(out, "["),
            _ => {},
        }
        assert(out@ =~= before + open_text(node@.head));
    }

    /// Appends the closing delimiter of a body.
    fn push_close(&self, out: &mut Vec<char>, node: &BsnValueNode)
        requires
            breakable(node@),
        ensures
            final(out)@ == old(out)@ + close_text(node@.head),
    {
        match &node.value {
            BsnValue::Struct(_, _) => push_text(out, "}"),
            BsnValue::NamedTuple(_, _) => push_text(out, ")"),
            BsnValue::Tuple(_) => push_text(out, ")"),
            BsnValue::List(_) => push_text(out, "]"),
            _ => {},
        }
    }

    /// Appends the lines of the items of a body.
    fn push_lines(&mut self, out: &mut Vec<char>, node: &BsnValueNode, level: usize, depth: u32)
        requires
            depth <= MAX_WALK_DEPTH,
            level <= MAX_WALK_DEPTH + depth,
            breakable(node@),
            at_line_start(old(out)@),
        ensures
            final(self).same(old(self)),
            ({
                let (text, left) = old(self).style().lines(
                    node@,
                    node@.children.len(),
                    level as nat,
                    depth as nat,
                    old(self).value_path(),
                    old(self).budget as nat,
                );
                &&& final(self).budget == left
                &&& final(out)@ == old(out)@ + text
            }),
        decreases MAX_WALK_DEPTH + 1 - depth, 0nat,
    {
        match &node.value {
            BsnValue::Struct(_, fields) => self.push_fields(out, node, fields, level, depth),
            BsnValue::NamedTuple(_, items) => {
                self.push_items(out, node, items, level, depth, items.len() == 1)
            },
            BsnValue::Tuple(items) => {
                self.push_items(out, node, items, level, depth, items.len() == 1)
            },
            BsnValue::List(items) => self.push_items(out, node, items, level, depth, false),
            _ => {},
        }
    }

    #[verifier::loop_isolation(false)]
    fn push_fields(
        &mut self,
        out: &mut Vec<char>,
        node: &BsnValueNode,
        fields: &Vec<(String, BsnValueId)>,
        level: usize,
        depth: u32,
    )
        requires
            depth <= MAX_WALK_DEPTH,
            level <= MAX_WALK_DEPTH + depth,
            node.value is Struct,
            node.value->Struct_1 == *fields,
            at_line_start(old(out)@),
        ensures
            final(self).same(old(self)),
            ({
                let (text, left) = old(self).style().lines(
                    node@,
                    node@.children.len(),
                    level as nat,
                    depth as nat,
                    old(self).value_path(),
                    old(self).budget as nat,
                );
                &&& final(self).budget == left
                &&& final(out)@ == old(out)@ + text
            }),
        decreases MAX_WALK_DEPTH - depth, 3nat,
    {
        let ghost style = self.style();
        let ghost stack = self.value_path();
        let ghost budget = self.budget as nat;
        let ghost before = out@;
        let mut i: usize = 0;
        while i < fields.len()
            invariant
                i <= fields.len(),
                self.same(old(self)),
                at_line_start(out@),
                out@ =~= before + style.lines(
                    node@,
                    i as nat,
                    level as nat,
                    depth as nat,
                    stack,
                    budget,
                ).0,
                self.budget == style.lines(
                    node@,
                    i as nat,
                    level as nat,
                    depth as nat,
                    stack,
                    budget,
                ).1,
            decreases fields.len() - i,
        {
            assert(node@.names[i as int] == fields@[i as int].0@);
            assert(node@.children[i as int] == fields@[i as int].1.0);
            self.push_item(
                out,
                Ghost(node@),
                Ghost(i as int),
                Some(fields[i].0.as_str()),
                fields[i].1,
                level,
                depth,
                i + 1 == fields.len(),
                false,
            );
            proof {
                lemma_next_line(
                    style,
                    node@,
                    i as nat,
                    level as nat,
                    depth as nat,
                    stack,
                    budget,
                    before,
                );
            }
            i = i + 1;
        }
    }

    #[verifier::loop_isolation(false)]
    fn push_items(
        &mut self,
        out: &mut Vec<char>,
        node: &BsnValueNode,
        items: &Vec<BsnValueId>,
        level: usize,
        depth: u32,
        force_comma: bool,
    )
        requires
            depth <= MAX_WALK_DEPTH,
            level <= MAX_WALK_DEPTH + depth,
            node@.children == value_ids(items@),
            !(node@.head is Struct),
            force_comma == forces_comma(node@),
            at_line_start(old(out)@),
        ensures
            final(self).same(old(self)),
            ({
                let (text, left) = old(self).style().lines(
                    node@,
                    node@.children.len(),
                    level as nat,
                    depth as nat,
                    old(self).value_path(),
                    old(self).budget as nat,
                );
                &&& final(self).budget == left
                &&& final(out)@ == old(out)@ + text
            }),
        decreases MAX_WALK_DEPTH - depth, 3nat,
    {
        let ghost style = self.style();
        let ghost stack = self.value_path();
        let ghost budget = self.budget as nat;
        let ghost before = out@;
        let ghost value = node@;
        let mut i: usize = 0;
        while i < items.len()
            invariant
                i <= items.len(),
                self.same(old(self)),
                at_line_start(out@),
                out@ =~= before + style.lines(
                    value,
                    i as nat,
                    level as nat,
                    depth as nat,
                    stack,
                    budget,
                ).0,
                self.budget == style.lines(
                    value,
                    i as nat,
                    level as nat,
                    depth as nat,
                    stack,
                    budget,
                ).1,
            decreases items.len() - i,
        {
            self.push_item(
                out,
                Ghost(value),
                Ghost(i as int),
                None,
                items[i],
                level,
                depth,
                i + 1 == items.len(),
                force_comma,
            );
            proof {
                lemma_next_line(
                    style,
                    value,
                    i as nat,
                    level as nat,
                    depth as nat,
                    stack,
                    budget,
                    before,
                );
            }
            i = i + 1;
        }
    }

    /// Appends the line of one item of a body: the field name, for a struct, and the value.
    fn push_item(
        &mut self,
        out: &mut Vec<char>,
        Ghost(value): Ghost<Value>,
        Ghost(i): Ghost<int>,
        name: Option<&str>,
        id: BsnValueId,
        level: usize,
        depth: u32,
        last: bool,
        force_comma: bool,
    )
        requires
            depth <= MAX_WALK_DEPTH,
            level <= MAX_WALK_DEPTH + depth,
            0 <= i < value.children.len(),
            value.children[i] == id.0,
            last == (i + 1 == value.children.len()),
            match name {
                Some(name) => value.head is Struct && value.names[i] == name@,
                None => !(value.head is Struct),
            },
            force_comma == forces_comma(value),
            at_line_start(old(out)@),
        ensures
            final(self).same(old(self)),
            at_line_start(final(out)@),
            ({
                let (text, left) = item_line(
                    old(self).style(),
                    value,
                    i,
                    level as nat,
                    depth as nat,
                    old(self).value_path(),
                    old(self).budget as nat,
                );
                &&& final(self).budget == left
                &&& final(out)@ == old(out)@ + text
            }),
        decreases MAX_WALK_DEPTH - depth, 2nat,
    {
        let ghost style = self.style();
        let ghost line = out@;
        let ghost start = style.indent((level + 1) as nat) + item_prefix(value, i);
        self.push_indent(out, level + 1);
        if let Some(name) = name {
            push_text(out, name);
            push_text(out, ": ");
        }
        proof {
            assert(out@ =~= line + start);
            lemma_last_line_concat(line, start);
        }
        let ghost begun = out@;
        self.value(out, id, level + 1, depth + 1);
        let ghost valued = out@;
        self.item_separator(out, last, force_comma);
        proof {
            lemma_line_concat(
                line,
                start,
                valued.skip(begun.len() as int),
                style.separator(value, i),
            );
            assert(valued =~= begun + valued.skip(begun.len() as int));
        }
    }

    /// Ends the line of an item.
    fn item_separator(&self, out: &mut Vec<char>, last: bool, force_comma: bool)
        ensures
            final(out)@ == old(out)@ + (if !last || self.options.trailing_commas || force_comma {
                ",\n"@
            } else {
                "\n"@
            }),
            at_line_start(final(out)@),
    {
        let ghost before = out@;
        proof {
            reveal_strlit(",\n");
            reveal_strlit("\n");
        }
        if !last || self.options.trailing_commas || force_comma {
            out.push(',');
        }
        out.push('\n');
        assert(out@ =~= before + (if !last || self.options.trailing_commas || force_comma {
            ",\n"@
        } else {
            "\n"@
        }));
    }

    // -- entities ---------------------------------------------------------------------------

    /// Appends the lines of an entity, each terminated by `\n`.
    fn entity(&mut self, out: &mut Vec<char>, id: BsnNodeId, level: usize)
        requires
            level <= MAX_WALK_DEPTH + 1,
            old(self).value_stack@.len() == 0,
            at_line_start(old(out)@),
        ensures
            final(self).same(old(self)),
            at_line_start(final(out)@),
            final(out)@.len() > old(out)@.len(),
            ({
                let (text, left) = old(self).style().entity(
                    id.0 as int,
                    level as nat,
                    old(self).node_path(),
                    old(self).budget as nat,
                );
                &&& final(self).budget == left
                &&& final(out)@ == old(out)@ + text
            }),
        decreases 2 * (MAX_WALK_DEPTH + 1 - level), 0nat,
    {
        let ghost before = out@;
        let ghost style = self.style();
        let ghost pad = style.indent(level as nat);
        let start: usize = out.len();
        proof {
            reveal_strlit("\n");
            reveal_strlit("()\n");
        }
        if level > MAX_WALK_DEPTH as usize || self.on_node_path(id) {
            self.push_indent(out, level);
            push_text(out, TOO_DEEP);
            push_text(out, "\n");
            assert(out@ =~= before + (pad + TOO_DEEP@ + "\n"@));
            return ;
        }
        let document = self.document;
        if let Some(node) = document.node(id) {
            if let BsnNodeKind::Entity { name, base, patches, relations, .. } = &node.kind {
                let ghost stack = self.node_stack@;
                self.node_stack.push(id);
                assert(self.node_path() =~= node_ids(stack).push(id.0 as int));
                if let Some(base) = base {
                    self.push_indent(out, level);
                    push_text(out, ":");
                    escape_string(out, base.as_str());
                    push_text(out, "\n");
                }
                let ghost base_text = match base {
                    Some(base) => pad + ":"@ + string_text(base@) + "\n"@,
                    None => Seq::empty(),
                };
                assert(out@ =~= before + base_text);
                if let Some(name) = name {
                    self.push_indent(out, level);
                    push_text(out, "#");
                    push_text(out, name.as_str());
                    push_text(out, "\n");
                }
                let ghost name_text = match name {
                    Some(name) => pad + "#"@ + name@ + "\n"@,
                    None => Seq::empty(),
                };
                assert(out@ =~= before + (base_text + name_text));
                assert(at_line_start(out@));
                let order = merge_entries(document, patches, relations);
                let ghost headed = out@;
                self.entries(out, &order, level);
                let ghost entries_text = style.entries(
                    node_ids(order@),
                    order@.len(),
                    level as nat,
                    node_ids(stack).push(id.0 as int),
                    old(self).budget as nat,
                ).0;
                assert(out@ =~= before + (base_text + name_text + entries_text));
                if out.len() == start {
                    assert(base_text + name_text + entries_text =~= Seq::<char>::empty());
                    self.push_indent(out, level);
                    push_text(out, "()\n");
                    assert(out@ =~= before + (pad + "()\n"@));
                }
                self.node_stack.pop();
                assert(self.node_stack@ =~= stack);
                return ;
            }
        }
        self.push_indent(out, level);
        push_invalid(out, id.0);
        push_text(out, "\n");
        assert(out@ =~= before + (pad + invalid_text(id.0 as int) + "\n"@));
    }

    /// Appends the lines of entries.
    #[verifier::loop_isolation(false)]
    fn entries(&mut self, out: &mut Vec<char>, order: &Vec<BsnNodeId>, level: usize)
        requires
            level <= MAX_WALK_DEPTH,
            old(self).value_stack@.len() == 0,
            at_line_start(old(out)@),
        ensures
            final(self).same(old(self)),
            at_line_start(final(out)@),
            ({
                let (text, left) = old(self).style().entries(
                    node_ids(order@),
                    order@.len(),
                    level as nat,
                    old(self).node_path(),
                    old(self).budget as nat,
                );
                &&& final(self).budget == left
                &&& final(out)@ == old(out)@ + text
            }),
        decreases 2 * (MAX_WALK_DEPTH - level) + 1, 2nat,
    {
        let ghost style = self.style();
        let ghost ids = node_ids(order@);
        let ghost path = self.node_path();
        let ghost budget = self.budget as nat;
        let ghost before = out@;
        let mut i: usize = 0;
        while i < order.len()
            invariant
                i <= order.len(),
                self.same(old(self)),
                at_line_start(out@),
                out@ =~= before + style.entries(ids, i as nat, level as nat, path, budget).0,
                self.budget == style.entries(ids, i as nat, level as nat, path, budget).1,
            decreases order.len() - i,
        {
            self.entry(out, order[i], level);
            i = i + 1;
        }
    }

    /// Appends the lines of a patch or a relation.
    fn entry(&mut self, out: &mut Vec<char>, id: BsnNodeId, level: usize)
        requires
            level <= MAX_WALK_DEPTH,
            old(self).value_stack@.len() == 0,
            at_line_start(old(out)@),
        ensures
            final(self).same(old(self)),
            at_line_start(final(out)@),
            ({
                let (text, left) = old(self).style().entry(
                    id.0 as int,
                    level as nat,
                    old(self).node_path(),
                    old(self).budget as nat,
                );
                &&& final(self).budget == left
                &&& final(out)@ == old(out)@ + text
            }),
        decreases 2 * (MAX_WALK_DEPTH - level) + 1, 1nat,
    {
        let ghost before = out@;
        let ghost style = self.style();
        let ghost pad = style.indent(level as nat);
        proof {
            reveal_strlit("\n");
            reveal_strlit(" []\n");
            reveal_strlit(" [\n");
            reveal_strlit("]\n");
            assert(self.value_path() =~= Seq::<int>::empty());
        }
        let document = self.document;
        if let Some(node) = document.node(id) {
            match &node.kind {
                BsnNodeKind::Patch { prefix, value, .. } => {
                    self.push_indent(out, level);
                    push_text(out, prefix.sigil());
                    let ghost start = pad + prefix.spec_sigil();
                    proof {
                        assert(out@ =~= before + start);
                        lemma_last_line_concat(before, start);
                    }
                    self.value(out, *value, level, 0);
                    push_text(out, "\n");
                    proof {
                        let text = style.value(
                            value.0 as int,
                            level as nat,
                            0,
                            Seq::empty(),
                            old(self).budget as nat,
                            last_line(start).len() as int,
                        ).0;
                        assert(out@ =~= before + (start + text + "\n"@));
                    }
                    return ;
                },
                BsnNodeKind::Relation { target_symbol, entities } => {
                    self.push_indent(out, level);
                    target_symbol.push_type_path(out);
                    if entities.len() == 0 {
                        push_text(out, " []\n");
                        assert(out@ =~= before + (pad + crate::model::path_text(target_symbol@)
                            + " []\n"@));
                        return ;
                    }
                    push_text(out, " [\n");
                    self.entities(out, entities, level);
                    self.push_indent(out, level);
                    push_text(out, "]\n");
                    proof {
                        let text = style.entities(
                            node_ids(entities@),
                            entities@.len(),
                            level as nat,
                            old(self).node_path(),
                            old(self).budget as nat,
                        ).0;
                        assert(out@ =~= before + (pad + crate::model::path_text(target_symbol@)
                            + " [\n"@ + text + pad + "]\n"@));
                    }
                    return ;
                },
                BsnNodeKind::Entity { .. } => {},
            }
        }
        self.push_indent(out, level);
        push_invalid(out, id.0);
        push_text(out, "\n");
        assert(out@ =~= before + (pad + invalid_text(id.0 as int) + "\n"@));
    }

    /// Appends the lines of the entities of a relation.
    #[verifier::loop_isolation(false)]
    fn entities(&mut self, out: &mut Vec<char>, ids: &Vec<BsnNodeId>, level: usize)
        requires
            level <= MAX_WALK_DEPTH,
            old(self).value_stack@.len() == 0,
            at_line_start(old(out)@),
        ensures
            final(self).same(old(self)),
            at_line_start(final(out)@),
            ({
                let (text, left) = old(self).style().entities(
                    node_ids(ids@),
                    ids@.len(),
                    level as nat,
                    old(self).node_path(),
                    old(self).budget as nat,
                );
                &&& final(self).budget == left
                &&& final(out)@ == old(out)@ + text
            }),
        decreases 2 * (MAX_WALK_DEPTH - level), 1nat,
    {
        let ghost style = self.style();
        let ghost list = node_ids(ids@);
        let ghost path = self.node_path();
        let ghost budget = self.budget as nat;
        let ghost before = out@;
        let mut i: usize = 0;
        while i < ids.len()
            invariant
                i <= ids.len(),
                self.same(old(self)),
                at_line_start(out@),
                out@ =~= before + style.entities(list, i as nat, level as nat, path, budget).0,
                self.budget == style.entities(list, i as nat, level as nat, path, budget).1,
            decreases ids.len() - i,
        {
            let ghost so_far = out@;
            let ghost left = self.budget as nat;
            self.entity(out, ids[i], level + 1);
            let ghost text = style.entity(list[i as int], (level + 1) as nat, path, left).0;
            if i + 1 < ids.len() {
                out.pop();
                push_text(out, ",\n");
                proof {
                    reveal_strlit(",\n");
                    assert(out@ =~= so_far + (text.drop_last() + ",\n"@));
                }
            }
            i = i + 1;
        }
    }

    /// The whole document, ending with exactly one newline when non-empty.
    #[verifier::loop_isolation(false)]
    fn document_text(&mut self) -> (r: Vec<char>)
        requires
            old(self).value_stack@.len() == 0,
            old(self).node_stack@.len() == 0,
            old(self).budget == old(self).style().budget(),
        ensures
            r@ == old(self).style().text(),
    {
        let ghost style = self.style();
        let ghost budget = self.budget as nat;
        let document = self.document;
        let mut parts: Vec<Vec<char>> = Vec::new();
        let mut i: usize = 0;
        proof {
            assert(self.node_path() =~= Seq::<int>::empty());
            assert(parts@.map_values(|p: Vec<char>| p@) =~= Seq::<Seq<char>>::empty());
        }
        while i < document.roots.len()
            invariant
                i <= document.roots.len(),
                self.same(old(self)),
                parts@.len() == i,
                parts@.map_values(|p: Vec<char>| p@) == style.roots(i as nat, budget).0,
                self.budget == style.roots(i as nat, budget).1,
            decreases document.roots.len() - i,
        {
            let ghost before = parts@;
            let mut text: Vec<char> = Vec::new();
            self.entity(&mut text, document.roots[i], 0);
            let ghost whole = text@;
            proof {
                assert(self.node_path() =~= Seq::<int>::empty());
                assert(Seq::<char>::empty() + whole =~= whole);
            }
            while text.len() > 0 && text[text.len() - 1] == '\n'
                invariant
                    trimmed(whole) == trimmed(text@),
                decreases text.len(),
            {
                text.pop();
            }
            parts.push(text);
            assert(parts@.map_values(|p: Vec<char>| p@) =~= before.map_values(
                |p: Vec<char>| p@,
            ).push(text@));
            i = i + 1;
        }
        let mut out: Vec<char> = Vec::new();
        if parts.len() == 0 {
            assert(out@ =~= style.text());
            return out;
        }
        if self.options.blank_line_between_roots {
            push_joined(&mut out, &parts, ",\n\n");
        } else {
            push_joined(&mut out, &parts, ",\n");
        }
        push_text(&mut out, "\n");
        assert(out@ =~= style.text());
        out
    }
}

/// Once an item cannot be rendered, no longer list of items can.
proof fn lemma_items_stop(
    style: Style,
    ids: Seq<int>,
    n: nat,
    m: nat,
    depth: nat,
    path: Seq<int>,
    budget: nat,
)
    requires
        depth <= MAX_WALK_DEPTH,
        n <= m,
        style.inline_items(ids, n, depth, path, budget).0 is None,
    ensures
        style.inline_items(ids, m, depth, path, budget) == style.inline_items(
            ids,
            n,
            depth,
            path,
            budget,
        ),
    decreases m,
{
    if n < m {
        lemma_items_stop(style, ids, n, (m - 1) as nat, depth, path, budget);
    }
}

/// Renders `document` as canonical `.bsn` text.
///
/// Never fails and never panics: a malformed document (a dangling id, or a cycle) prints a
/// `/* <invalid node id N> */` marker instead of aborting.
///
/// # Output is bounded
///
/// [`parse`](crate::parse) always produces a tree, but the builder API hands out
/// [`BsnValueId`]s, so a hand-built document may share a value between several parents.
/// Printing such a DAG expands it back into a tree, which is exponential in the number of
/// value nodes. The printer therefore spends from a fixed budget of value visits —
/// `values.len() * 256 + 1024`, computed once — and emits a
/// `/* <print budget exceeded> */` marker instead of descending once it runs out. The budget
/// is generous enough that no legal tree can reach it (a tree costs at most one visit per
/// node per ancestor, and nesting is capped at [`MAX_NESTING_DEPTH`](crate::MAX_NESTING_DEPTH)),
/// and it is consumed in a fixed traversal order, so the output stays deterministic.
pub fn print_document(document: &BsnDocument) -> (r: String)
    ensures
        r@ == print_model(document@, default_options()),
{
    let mut out: String = String::new();
    write_document(document, &mut out);
    assert(out@ =~= print_model(document@, default_options()));
    out
}

/// Appends `document` to `out` using the canonical style.
pub fn write_document(document: &BsnDocument, out: &mut String)
    ensures
        final(out)@ == old(out)@ + print_model(document@, default_options()),
{
    write_document_with(document, out, &PrintOptions::default())
}

/// Appends `document` to `out` using explicit [`PrintOptions`].
pub fn write_document_with(document: &BsnDocument, out: &mut String, options: &PrintOptions)
    ensures
        final(out)@ == old(out)@ + print_model(document@, *options),
{
    let ghost before = out@;
    let count: usize = document.values.len();
    let budget: usize = if count <= (usize::MAX - BUDGET_BASE) / BUDGET_PER_VALUE {
        count * BUDGET_PER_VALUE + BUDGET_BASE
    } else {
        usize::MAX
    };
    let mut printer = Printer {
        document,
        options: *options,
        value_stack: Vec::new(),
        node_stack: Vec::new(),
        budget,
    };
    let text = printer.document_text();
    let mut i: usize = 0;
    while i < text.len()
        invariant
            i <= text.len(),
            out@ =~= before + text@.take(i as int),
        decreases text.len() - i,
    {
        out.push(text[i]);
        i = i + 1;
    }
    assert(text@.take(text.len() as int) =~= text@);
}

impl BsnDocument {
    /// Canonical `.bsn` text for this document. Convenience alias for [`print_document`].
    pub fn to_bsn_string(&self) -> (r: String)
        ensures
            r@ == print_model(self@, default_options()),
    {
        print_document(self)
    }
}

} // verus!
