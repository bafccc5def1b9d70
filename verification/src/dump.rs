//! A deterministic dump of a document, for tests and debugging.

use vstd::prelude::*;

use crate::ast::{
    field_ids, field_names, node_ids, text_view, value_ids, BsnDocument, BsnNodeId, BsnNodeKind,
    BsnPatchPrefix, BsnPath, BsnValue, BsnValueId,
};
use crate::digits::{
    decimal, int_text, lemma_radix_chars, lemma_radix_round_trip, push_decimal, push_int,
    radix_text,
};
use crate::error::{push_repeated, repeated};
use crate::model::{path_text, Document, Head, NodeKind, Path, Value};
use crate::order::{merge_entries, merged};
use crate::printer::escape_string;
use crate::render::{string_text, MAX_WALK_DEPTH};
use crate::text::{push_text, string_of};

verus! {

/// A name or scene of an entity: a string literal, or `-` when there is none.
pub open spec fn option_text(text: Option<Seq<char>>) -> Seq<char> {
    match text {
        Some(text) => string_text(text),
        None => "-"@,
    }
}

pub open spec fn prefix_text(prefix: BsnPatchPrefix) -> Seq<char> {
    match prefix {
        BsnPatchPrefix::FromTemplate => "patch"@,
        BsnPatchPrefix::Template => "template"@,
        BsnPatchPrefix::SceneComponent => "scene"@,
    }
}

pub open spec fn entity_line(id: int, name: Option<Seq<char>>, base: Option<Seq<char>>) -> Seq<char> {
    "Entity#"@ + decimal(id as nat) + " name="@ + option_text(name) + " base="@ + option_text(base)
        + "\n"@
}

pub open spec fn patch_line(id: int, symbol: Path, prefix: BsnPatchPrefix, value: int) -> Seq<char> {
    "Patch#"@ + decimal(id as nat) + " "@ + prefix_text(prefix) + " `"@ + path_text(symbol)
        + "` value=$"@ + decimal(value as nat) + "\n"@
}

pub open spec fn relation_line(id: int, target: Path) -> Seq<char> {
    "Relation#"@ + decimal(id as nat) + " `"@ + path_text(target) + "`\n"@
}

/// The lines of a node and the nodes inside it.
pub open spec fn node_dump(document: Document, id: int, indent: nat) -> Seq<char>
    decreases MAX_WALK_DEPTH + 2 - indent, 0nat,
{
    let pad = repeated(' ', indent as int);
    if indent > MAX_WALK_DEPTH {
        Seq::empty()
    } else {
        match document.node(id) {
            None => pad + "<invalid node id "@ + decimal(id as nat) + ">\n"@,
            Some(node) => match node.kind {
                NodeKind::Entity { name, base, patches, relations, .. } => {
                    let order = merged(document, patches, relations);
                    pad + entity_line(node.id, name, base) + nodes_dump(
                        document,
                        order,
                        order.len(),
                        indent,
                    )
                },
                NodeKind::Patch { symbol, prefix, value } => pad + patch_line(
                    node.id,
                    symbol,
                    prefix,
                    value,
                ),
                NodeKind::Relation { target, entities } => pad + relation_line(node.id, target)
                    + nodes_dump(document, entities, entities.len(), indent),
            },
        }
    }
}

/// The lines of the first `n` of some nodes, two columns further in than `indent`.
pub open spec fn nodes_dump(document: Document, ids: Seq<int>, n: nat, indent: nat) -> Seq<char>
    decreases MAX_WALK_DEPTH + 1 - indent, n + 1,
    when indent <= MAX_WALK_DEPTH
{
    if n == 0 {
        Seq::empty()
    } else {
        nodes_dump(document, ids, (n - 1) as nat, indent) + node_dump(
            document,
            ids[n - 1],
            indent + 2,
        )
    }
}

/// What a value is, on one line.
pub open spec fn head_dump(head: Head) -> Seq<char> {
    match head {
        Head::Unit => "Unit"@,
        Head::Bool(b) => "Bool("@ + (if b {
            "true"@
        } else {
            "false"@
        }) + ")"@,
        Head::Int(v) => "Int("@ + int_text(v) + ")"@,
        Head::Float(f) => "Float("@ + f.text() + ")"@,
        Head::Str(s) => "Str("@ + string_text(s) + ")"@,
        Head::Path(path) => "Path("@ + path_text(path) + ")"@,
        Head::EntityRef(name) => "EntityRef("@ + name + ")"@,
        Head::Tuple => "Tuple"@,
        Head::List => "List"@,
        Head::Struct(path) => "Struct("@ + path_text(path) + ")"@,
        Head::NamedTuple(path) => "NamedTuple("@ + path_text(path) + ")"@,
    }
}

/// The lines of the first `n` values inside a value.
pub open spec fn children_dump(value: Value, n: nat) -> Seq<char>
    decreases n,
{
    if n == 0 {
        Seq::empty()
    } else {
        children_dump(value, (n - 1) as nat) + (if value.head is Struct {
            "  field "@ + value.names[n - 1] + " = $"@
        } else {
            "  $"@
        }) + decimal(value.children[n - 1] as nat) + "\n"@
    }
}

pub open spec fn value_dump(value: Value) -> Seq<char> {
    "$"@ + decimal(value.id as nat) + " "@ + head_dump(value.head) + "\n"@ + children_dump(
        value,
        value.children.len(),
    )
}

/// The lines of the first `n` values of the arena.
pub open spec fn values_dump(values: Seq<Value>, n: nat) -> Seq<char>
    decreases n,
{
    if n == 0 {
        Seq::empty()
    } else {
        values_dump(values, (n - 1) as nat) + value_dump(values[n - 1])
    }
}

/// The lines of the first `n` roots.
pub open spec fn roots_dump(document: Document, n: nat) -> Seq<char>
    decreases n,
{
    if n == 0 {
        Seq::empty()
    } else {
        roots_dump(document, (n - 1) as nat) + node_dump(document, document.roots[n - 1], 0)
    }
}

/// The dump of a document: its nodes as a tree, then its values in ascending id.
pub open spec fn document_dump(document: Document) -> Seq<char> {
    roots_dump(document, document.roots.len()) + "values:\n"@ + values_dump(
        document.values,
        document.values.len(),
    )
}

fn push_option(out: &mut Vec<char>, text: &Option<String>)
    ensures
        final(out)@ == old(out)@ + option_text(text_view(*text)),
{
    match text {
        Some(text) => escape_string(out, text.as_str()),
        None => push_text(out, "-"),
    }
}

/// Appends the head line of a value.
fn debug_value_head(out: &mut Vec<char>, value: &BsnValue)
    ensures
        final(out)@ == old(out)@ + head_dump(value.head()),
{
    let ghost before = out@;
    match value {
        BsnValue::Unit => push_text(out, "Unit"),
        BsnValue::Bool(value) => {
            push_text(out, "Bool(");
            if *value {
                push_text(out, "true");
            } else {
                push_text(out, "false");
            }
            push_text(out, ")");
        },
        BsnValue::Int(value) => {
            push_text(out, "Int(");
            push_int(out, *value);
            push_text(out, ")");
        },
        BsnValue::Float(value) => {
            push_text(out, "Float(");
            value.push_to(out);
            push_text(out, ")");
        },
        BsnValue::String(value) => {
            push_text(out, "Str(");
            escape_string(out, value.as_str());
            push_text(out, ")");
        },
        BsnValue::Path(path) => {
            push_text(out, "Path(");
            path.push_type_path(out);
            push_text(out, ")");
        },
        BsnValue::EntityRef(name) => {
            push_text(out, "EntityRef(");
            push_text(out, name.as_str());
            push_text(out, ")");
        },
        BsnValue::Tuple(_) => push_text(out, "Tuple"),
        BsnValue::List(_) => push_text(out, "List"),
        BsnValue::Struct(path, _) => {
            push_text(out, "Struct(");
            path.push_type_path(out);
            push_text(out, ")");
        },
        BsnValue::NamedTuple(path, _) => {
            push_text(out, "NamedTuple(");
            path.push_type_path(out);
            push_text(out, ")");
        },
    }
    assert(out@ =~= before + head_dump(value.head()));
}

fn push_entity_line(
    out: &mut Vec<char>,
    id: BsnNodeId,
    name: &Option<String>,
    base: &Option<String>,
)
    ensures
        final(out)@ == old(out)@ + entity_line(id.0 as int, text_view(*name), text_view(*base)),
{
    let ghost before = out@;
    push_text(out, "Entity#");
    push_decimal(out, id.0 as u128);
    push_text(out, " name=");
    push_option(out, name);
    push_text(out, " base=");
    push_option(out, base);
    push_text(out, "\n");
    assert(out@ =~= before + entity_line(id.0 as int, text_view(*name), text_view(*base)));
}

fn push_patch_line(
    out: &mut Vec<char>,
    id: BsnNodeId,
    symbol: &BsnPath,
    prefix: BsnPatchPrefix,
    value: BsnValueId,
)
    ensures
        final(out)@ == old(out)@ + patch_line(id.0 as int, symbol@, prefix, value.0 as int),
{
    let ghost before = out@;
    push_text(out, "Patch#");
    push_decimal(out, id.0 as u128);
    push_text(out, " ");
    match prefix {
        BsnPatchPrefix::FromTemplate => push_text(out, "patch"),
        BsnPatchPrefix::Template => push_text(out, "template"),
        BsnPatchPrefix::SceneComponent => push_text(out, "scene"),
    }
    push_text(out, " `");
    symbol.push_type_path(out);
    push_text(out, "` value=$");
    push_decimal(out, value.0 as u128);
    push_text(out, "\n");
    assert(out@ =~= before + patch_line(id.0 as int, symbol@, prefix, value.0 as int));
}

fn push_relation_line(out: &mut Vec<char>, id: BsnNodeId, target: &BsnPath)
    ensures
        final(out)@ == old(out)@ + relation_line(id.0 as int, target@),
{
    let ghost before = out@;
    push_text(out, "Relation#");
    push_decimal(out, id.0 as u128);
    push_text(out, " `");
    target.push_type_path(out);
    push_text(out, "`\n");
    assert(out@ =~= before + relation_line(id.0 as int, target@));
}

/// Appends the lines of the items of a value.
fn debug_items(out: &mut Vec<char>, items: &Vec<BsnValueId>, Ghost(value): Ghost<Value>)
    requires
        !(value.head is Struct),
        value.children == value_ids(items@),
    ensures
        final(out)@ == old(out)@ + children_dump(value, value.children.len()),
{
    let ghost before = out@;
    let mut k: usize = 0;
    while k < items.len()
        invariant
            k <= items.len(),
            !(value.head is Struct),
            value.children == value_ids(items@),
            out@ =~= before + children_dump(value, k as nat),
        decreases items.len() - k,
    {
        push_text(out, "  $");
        push_decimal(out, items[k].0 as u128);
        push_text(out, "\n");
        k = k + 1;
    }
}

/// Appends the lines of the fields of a value.
fn debug_fields(out: &mut Vec<char>, fields: &Vec<(String, BsnValueId)>, Ghost(value): Ghost<Value>)
    requires
        value.head is Struct,
        value.children == field_ids(fields@),
        value.names == field_names(fields@),
    ensures
        final(out)@ == old(out)@ + children_dump(value, value.children.len()),
{
    let ghost before = out@;
    let mut k: usize = 0;
    while k < fields.len()
        invariant
            k <= fields.len(),
            value.head is Struct,
            value.children == field_ids(fields@),
            value.names == field_names(fields@),
            out@ =~= before + children_dump(value, k as nat),
        decreases fields.len() - k,
    {
        assert(value.names[k as int] == fields@[k as int].0@);
        push_text(out, "  field ");
        push_text(out, fields[k].0.as_str());
        push_text(out, " = $");
        push_decimal(out, fields[k].1.0 as u128);
        push_text(out, "\n");
        k = k + 1;
    }
}

impl BsnDocument {
    /// A deterministic, indented dump of the document, used by tests and for debugging.
    ///
    /// Nodes are printed as a tree, followed by a flat `values:` section in ascending id.
    pub fn debug_tree(&self) -> (r: String)
        ensures
            r@ == document_dump(self@),
    {
        let mut out: Vec<char> = Vec::new();
        let mut i: usize = 0;
        while i < self.roots.len()
            invariant
                i <= self.roots.len(),
                out@ =~= roots_dump(self@, i as nat),
            decreases self.roots.len() - i,
        {
            self.debug_node(self.roots[i], 0, &mut out);
            i = i + 1;
        }
        push_text(&mut out, "values:\n");
        let ghost nodes = out@;
        let mut i: usize = 0;
        while i < self.values.len()
            invariant
                i <= self.values.len(),
                out@ =~= nodes + values_dump(self@.values, i as nat),
            decreases self.values.len() - i,
        {
            self.debug_value(i, &mut out);
            i = i + 1;
        }
        assert(out@ =~= document_dump(self@));
        string_of(&out)
    }

    /// Appends the lines of the value at index `i`.
    fn debug_value(&self, i: usize, out: &mut Vec<char>)
        requires
            i < self.values.len(),
        ensures
            final(out)@ == old(out)@ + value_dump(self@.values[i as int]),
    {
        let ghost before = out@;
        let node = &self.values[i];
        let ghost value = node@;
        push_text(out, "$");
        push_decimal(out, node.id.0 as u128);
        push_text(out, " ");
        debug_value_head(out, &node.value);
        push_text(out, "\n");
        let ghost headed = out@;
        match &node.value {
            BsnValue::Struct(_, fields) => debug_fields(out, fields, Ghost(value)),
            BsnValue::Tuple(items) => debug_items(out, items, Ghost(value)),
            BsnValue::List(items) => debug_items(out, items, Ghost(value)),
            BsnValue::NamedTuple(_, items) => debug_items(out, items, Ghost(value)),
            _ => {},
        }
        assert(out@ =~= before + value_dump(value));
    }

    /// Appends the lines of a node and the nodes inside it.
    fn debug_node(&self, id: BsnNodeId, indent: usize, out: &mut Vec<char>)
        requires
            indent <= MAX_WALK_DEPTH + 2,
        ensures
            final(out)@ == old(out)@ + node_dump(self@, id.0 as int, indent as nat),
        decreases MAX_WALK_DEPTH + 2 - indent, 1nat,
    {
        let ghost before = out@;
        if indent > MAX_WALK_DEPTH as usize {
            assert(out@ =~= before + node_dump(self@, id.0 as int, indent as nat));
            return ;
        }
        push_repeated(out, ' ', indent);
        match self.node(id) {
            None => {
                push_text(out, "<invalid node id ");
                push_decimal(out, id.0 as u128);
                push_text(out, ">\n");
            },
            Some(node) => match &node.kind {
                BsnNodeKind::Entity { name, base, patches, relations, .. } => {
                    push_entity_line(out, node.id, name, base);
                    let order = merge_entries(self, patches, relations);
                    self.debug_nodes(&order, indent, out);
                },
                BsnNodeKind::Patch { symbol, prefix, value } => {
                    push_patch_line(out, node.id, symbol, *prefix, *value);
                },
                BsnNodeKind::Relation { target_symbol, entities } => {
                    push_relation_line(out, node.id, target_symbol);
                    self.debug_nodes(entities, indent, out);
                },
            },
        }
        assert(out@ =~= before + node_dump(self@, id.0 as int, indent as nat));
    }

    /// Appends the lines of some nodes, two columns further in.
    #[verifier::loop_isolation(false)]
    fn debug_nodes(&self, ids: &Vec<BsnNodeId>, indent: usize, out: &mut Vec<char>)
        requires
            indent <= MAX_WALK_DEPTH,
        ensures
            final(out)@ == old(out)@ + nodes_dump(
                self@,
                node_ids(ids@),
                ids@.len(),
                indent as nat,
            ),
        decreases MAX_WALK_DEPTH + 2 - indent, 0nat,
    {
        let ghost before = out@;
        let mut i: usize = 0;
        while i < ids.len()
            invariant
                i <= ids.len(),
                out@ =~= before + nodes_dump(self@, node_ids(ids@), i as nat, indent as nat),
            decreases ids.len() - i,
        {
            self.debug_node(ids[i], indent + 2, out);
            i = i + 1;
        }
    }
}

/// The line of a value tells what it holds: values of which one is a boolean, an integer, a
/// string or the name of an entity have the same line only where they hold the same.
pub proof fn law_dumps_tell_literals_apart(a: Head, b: Head)
    requires
        head_dump(a) == head_dump(b),
    ensures
        (a, b) matches (Head::Bool(x), Head::Bool(y)) ==> x == y,
        (a, b) matches (Head::Int(x), Head::Int(y)) ==> x == y,
        (a, b) matches (Head::EntityRef(x), Head::EntityRef(y)) ==> x == y,
        (a, b) matches (Head::Str(x), Head::Str(y)) ==> string_text(x) == string_text(y),
        (a, b) matches (Head::Path(x), Head::Path(y)) ==> path_text(x) == path_text(y),
        (a, b) matches (Head::Struct(x), Head::Struct(y)) ==> path_text(x) == path_text(y),
{
    let text = head_dump(a);
    match (a, b) {
        (Head::Bool(x), Head::Bool(y)) => {
            reveal_strlit("true");
            reveal_strlit("false");
            if x != y {
                let long = "Bool("@ + "false"@ + ")"@;
                let short = "Bool("@ + "true"@ + ")"@;
                assert(long.len() == short.len() + 1);
            }
        },
        (Head::Int(x), Head::Int(y)) => {
            lemma_middle("Int("@, int_text(x), int_text(y), ")"@);
            lemma_int_text(x, y);
        },
        (Head::EntityRef(x), Head::EntityRef(y)) => {
            lemma_middle("EntityRef("@, x, y, ")"@);
        },
        (Head::Str(x), Head::Str(y)) => {
            lemma_middle("Str("@, string_text(x), string_text(y), ")"@);
        },
        (Head::Path(x), Head::Path(y)) => {
            lemma_middle("Path("@, path_text(x), path_text(y), ")"@);
        },
        (Head::Struct(x), Head::Struct(y)) => {
            lemma_middle("Struct("@, path_text(x), path_text(y), ")"@);
        },
        _ => {},
    }
}

proof fn lemma_middle(a: Seq<char>, x: Seq<char>, y: Seq<char>, b: Seq<char>)
    requires
        a + x + b == a + y + b,
    ensures
        x == y,
{
    let text = a + x + b;
    assert(text.len() == a.len() + y.len() + b.len());
    let i = a.len() as int;
    assert(text.subrange(i, i + x.len()) =~= x);
    assert(text.subrange(i, i + x.len()) =~= y);
}

proof fn lemma_int_text(x: int, y: int)
    requires
        int_text(x) == int_text(y),
    ensures
        x == y,
{
    let (m, n) = (if x < 0 {
        -x
    } else {
        x
    }, if y < 0 {
        -y
    } else {
        y
    });
    lemma_radix_round_trip(m as nat, 10);
    lemma_radix_round_trip(n as nat, 10);
    lemma_radix_chars(m as nat, 10);
    lemma_radix_chars(n as nat, 10);
    assert(int_text(x)[0] == int_text(y)[0]);
    assert(decimal(m as nat)[0] != '-' && decimal(n as nat)[0] != '-') by {
        let c = radix_text(m as nat, 10)[0];
        let e = radix_text(n as nat, 10)[0];
    }
    if x < 0 && y < 0 {
        assert(int_text(x).skip(1) =~= decimal(m as nat));
        assert(int_text(y).skip(1) =~= decimal(n as nat));
    }
}

} // verus!
