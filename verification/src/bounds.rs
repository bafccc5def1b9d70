//! What is printed is bounded by the visits that are spent.
//!
//! A value that several values list is printed in each place, so the number of places can grow
//! exponentially with the number of values. Every value that is printed costs a visit, though,
//! and what a visit adds to the text has a bound of its own.

use vstd::arithmetic::mul::{lemma_mul_inequality, lemma_mul_is_distributive_add_other_way};
use vstd::prelude::*;

use crate::ast::{BsnDocument, BsnNodeKind, BsnValue};
use crate::digits::{decimal, radix_text};
use crate::error::joined;
use crate::model::{path_text, Document, Node, NodeKind, Value};
use crate::order::{lemma_entry_order, merged};
use crate::render::{
    body_text, breakable, close_text, fields_text, invalid_text, item_prefix, leaf_text, open_text,
    print_model, string_text, trimmed, PrintOptions, Style, MAX_WALK_DEPTH, OVER_BUDGET, TOO_DEEP,
};

verus! {

/// The length of the longest marker: that of an invalid id of ten digits.
pub open spec fn marker_len() -> nat {
    34
}

// -- what a visit writes ------------------------------------------------------------------------

/// What the first `n` items of a body take apart from their values: an indent, the field name,
/// what separates them, and room for a marker in place of the value.
pub open spec fn items_len(value: Value, n: nat, pad: nat) -> nat
    decreases n,
{
    if n == 0 {
        0
    } else {
        items_len(value, (n - 1) as nat, pad) + pad + item_prefix(value, n - 1).len() + 2
            + marker_len()
    }
}

/// The most characters that a visit of a value adds, whether it is printed on one line or broken
/// across lines: what it writes itself, and a marker for each value inside it.
pub open spec fn own_len(value: Value, pad: nat) -> nat {
    leaf_text(value.head).len() + open_text(value.head).len() + pad + 3 + items_len(
        value,
        value.children.len(),
        pad,
    )
}

/// The most characters that a visit of one of `values` adds.
pub open spec fn values_len(values: Seq<Value>, pad: nat) -> nat
    decreases values.len(),
{
    if values.len() == 0 {
        0
    } else {
        let before = values_len(values.drop_last(), pad);
        let last = own_len(values.last(), pad);
        if before <= last {
            last
        } else {
            before
        }
    }
}

/// The texts that a node holds itself.
pub open spec fn node_own_len(node: Node) -> nat {
    match node.kind {
        NodeKind::Entity { name, base, .. } => (match name {
            Some(name) => name.len(),
            None => 0,
        }) + (match base {
            Some(base) => string_text(base).len(),
            None => 0,
        }),
        NodeKind::Patch { prefix, .. } => prefix.spec_sigil().len(),
        NodeKind::Relation { target, .. } => path_text(target).len(),
    }
}

/// The most characters that an id among `nodes`, or one that is not there, adds apart from the
/// values and the nodes inside it.
pub open spec fn nodes_len(nodes: Seq<Node>, pad: nat) -> nat
    decreases nodes.len(),
{
    if nodes.len() == 0 {
        2 * pad + marker_len() + 5
    } else {
        let before = nodes_len(nodes.drop_last(), pad);
        let last = 2 * pad + marker_len() + 5 + node_own_len(nodes.last());
        if before <= last {
            last
        } else {
            before
        }
    }
}

impl Style {
    /// The widest indent that is printed.
    pub open spec fn widest_indent(self) -> nat {
        (2 * MAX_WALK_DEPTH as nat + 1) * self.options.indent as nat
    }

    /// The most characters that a visit of a value adds.
    pub open spec fn visit_len(self) -> nat {
        values_len(self.document.values, self.widest_indent())
    }

    /// The most characters that a node adds, apart from the values and the nodes inside it.
    pub open spec fn node_len(self) -> nat {
        nodes_len(self.document.nodes, self.widest_indent())
    }

    // -- the nodes that are met -------------------------------------------------------------

    /// The nodes that are met in an entity, itself included.
    pub open spec fn entity_met(self, id: int, level: nat, path: Seq<int>) -> nat
        decreases 2 * (MAX_WALK_DEPTH + 1 - level), 0nat,
    {
        if level > MAX_WALK_DEPTH || path.contains(id) {
            1
        } else {
            match self.document.node(id) {
                None => 1,
                Some(node) => match node.kind {
                    NodeKind::Entity { patches, relations, .. } => {
                        let order = merged(self.document, patches, relations);
                        1 + self.entries_met(order, order.len(), level, path.push(id))
                    },
                    _ => 1,
                },
            }
        }
    }

    /// The nodes that are met in the first `n` entries.
    pub open spec fn entries_met(self, order: Seq<int>, n: nat, level: nat, path: Seq<int>) -> nat
        decreases 2 * (MAX_WALK_DEPTH - level) + 1, n + 1,
        when level <= MAX_WALK_DEPTH
    {
        if n == 0 {
            0
        } else {
            self.entries_met(order, (n - 1) as nat, level, path) + self.entry_met(
                order[n - 1],
                level,
                path,
            )
        }
    }

    /// The nodes that are met in a patch or a relation, itself included.
    pub open spec fn entry_met(self, id: int, level: nat, path: Seq<int>) -> nat
        decreases 2 * (MAX_WALK_DEPTH - level) + 1, 1nat,
        when level <= MAX_WALK_DEPTH
    {
        match self.document.node(id) {
            Some(node) => match node.kind {
                NodeKind::Relation { entities, .. } => 1 + self.entities_met(
                    entities,
                    entities.len(),
                    level,
                    path,
                ),
                _ => 1,
            },
            None => 1,
        }
    }

    /// The nodes that are met in the first `n` entities of a relation.
    pub open spec fn entities_met(self, ids: Seq<int>, n: nat, level: nat, path: Seq<int>) -> nat
        decreases 2 * (MAX_WALK_DEPTH - level), n + 1,
        when level <= MAX_WALK_DEPTH
    {
        if n == 0 {
            0
        } else {
            self.entities_met(ids, (n - 1) as nat, level, path) + self.entity_met(
                ids[n - 1],
                level + 1,
                path,
            )
        }
    }

    /// The nodes that are met in the first `n` roots.
    pub open spec fn roots_met(self, n: nat) -> nat
        decreases n,
    {
        if n == 0 {
            0
        } else {
            self.roots_met((n - 1) as nat) + self.entity_met(
                self.document.roots[n - 1],
                0,
                Seq::empty(),
            )
        }
    }
}

// -- ids ----------------------------------------------------------------------------------------

/// Whether an integer is an id.
pub open spec fn is_id(id: int) -> bool {
    0 <= id <= u32::MAX
}

/// Whether integers are ids.
pub open spec fn are_ids(ids: Seq<int>) -> bool {
    forall|i: int| 0 <= i < ids.len() ==> is_id(#[trigger] ids[i])
}

/// Whether a node lists ids.
pub open spec fn lists_ids(node: Node) -> bool {
    match node.kind {
        NodeKind::Entity { patches, relations, .. } => are_ids(patches) && are_ids(relations),
        NodeKind::Patch { value, .. } => is_id(value),
        NodeKind::Relation { entities, .. } => are_ids(entities),
    }
}

/// Whether a document lists ids throughout.
pub open spec fn ids_fit(document: Document) -> bool {
    &&& are_ids(document.roots)
    &&& forall|i: int| 0 <= i < document.nodes.len() ==> lists_ids(#[trigger] document.nodes[i])
    &&& forall|i: int|
        0 <= i < document.values.len() ==> are_ids((#[trigger] document.values[i]).children)
}

proof fn lemma_ids_fit(document: BsnDocument)
    ensures
        ids_fit(document@),
{
    assert forall|i: int| 0 <= i < document@.nodes.len() implies lists_ids(
        #[trigger] document@.nodes[i],
    ) by {
        match document.nodes@[i].kind {
            BsnNodeKind::Entity { .. } => {},
            BsnNodeKind::Patch { .. } => {},
            BsnNodeKind::Relation { .. } => {},
        }
    }
    assert forall|i: int| 0 <= i < document@.values.len() implies are_ids(
        (#[trigger] document@.values[i]).children,
    ) by {
        match document.values@[i].value {
            BsnValue::Struct(_, _) => {},
            BsnValue::NamedTuple(_, _) => {},
            BsnValue::Tuple(_) => {},
            BsnValue::List(_) => {},
            _ => {},
        }
    }
}

/// Sorting the entries keeps them ids.
proof fn lemma_merged_ids_fit(document: Document, patches: Seq<int>, relations: Seq<int>)
    requires
        are_ids(patches),
        are_ids(relations),
    ensures
        are_ids(merged(document, patches, relations)),
{
    broadcast use vstd::seq_lib::group_to_multiset_ensures;

    let all = patches + relations;
    let order = merged(document, patches, relations);
    lemma_entry_order(document);
    all.lemma_sort_by_ensures(|a: int, b: int| crate::order::entry_leq(document, a, b));
    assert(order.to_multiset() == all.to_multiset());
    assert forall|i: int| 0 <= i < order.len() implies is_id(#[trigger] order[i]) by {
        order.to_multiset_ensures();
        all.to_multiset_ensures();
        assert(order.contains(order[i]));
        assert(order.to_multiset().count(order[i]) > 0);
        assert(all.contains(order[i]));
        let k = choose|k: int| 0 <= k < all.len() && all[k] == order[i];
        if k < patches.len() {
            assert(all[k] == patches[k]);
        } else {
            assert(all[k] == relations[k - patches.len()]);
        }
    }
}

// -- markers ------------------------------------------------------------------------------------

proof fn lemma_digits(n: nat)
    ensures
        n < 10 ==> decimal(n).len() == 1,
        n >= 10 ==> decimal(n).len() == decimal(n / 10).len() + 1,
{
    assert(radix_text(n, 10).len() >= 0);
}

/// An id has ten digits at most.
proof fn lemma_id_digits(id: int)
    requires
        is_id(id),
    ensures
        decimal(id as nat).len() <= 10,
{
    let n = id as nat;
    lemma_digits(n);
    lemma_digits(n / 10);
    lemma_digits(n / 10 / 10);
    lemma_digits(n / 10 / 10 / 10);
    lemma_digits(n / 10 / 10 / 10 / 10);
    lemma_digits(n / 10 / 10 / 10 / 10 / 10);
    lemma_digits(n / 10 / 10 / 10 / 10 / 10 / 10);
    lemma_digits(n / 10 / 10 / 10 / 10 / 10 / 10 / 10);
    lemma_digits(n / 10 / 10 / 10 / 10 / 10 / 10 / 10 / 10);
    lemma_digits(n / 10 / 10 / 10 / 10 / 10 / 10 / 10 / 10 / 10);
}

proof fn lemma_markers(id: int)
    ensures
        TOO_DEEP@.len() <= marker_len(),
        OVER_BUDGET@.len() <= marker_len(),
        is_id(id) ==> invalid_text(id).len() <= marker_len(),
{
    reveal_strlit("/* <nesting too deep> */");
    reveal_strlit("/* <print budget exceeded> */");
    reveal_strlit("/* <invalid node id ");
    reveal_strlit("> */");
    if is_id(id) {
        lemma_id_digits(id);
    }
}

// -- values on one line -------------------------------------------------------------------------

/// The characters of a list of texts.
pub open spec fn total_len(parts: Seq<Seq<char>>) -> nat
    decreases parts.len(),
{
    if parts.len() == 0 {
        0
    } else {
        total_len(parts.drop_last()) + parts.last().len()
    }
}

proof fn lemma_joined_len(parts: Seq<Seq<char>>, separator: Seq<char>)
    ensures
        joined(parts, separator).len() <= total_len(parts) + parts.len() * separator.len(),
    decreases parts.len(),
{
    if parts.len() == 0 {
    } else if parts.len() == 1 {
        assert(parts[0] == parts.last());
    } else {
        lemma_joined_len(parts.drop_last(), separator);
        lemma_mul_is_distributive_add_other_way(
            separator.len() as int,
            parts.len() - 1,
            1,
        );
    }
}

proof fn lemma_items_len(value: Value, n: nat, pad: nat)
    ensures
        items_len(value, n, pad) >= 2 * n + n * marker_len(),
    decreases n,
{
    if n > 0 {
        lemma_items_len(value, (n - 1) as nat, pad);
    }
}

proof fn lemma_fields_len(value: Value, parts: Seq<Seq<char>>, pad: nat)
    requires
        value.head is Struct,
    ensures
        fields_text(value.names, parts).len() + parts.len() * marker_len() <= total_len(parts)
            + items_len(value, parts.len(), pad),
    decreases parts.len(),
{
    if parts.len() > 0 {
        lemma_fields_len(value, parts.drop_last(), pad);
        reveal_strlit(", ");
        reveal_strlit(": ");
        assert(item_prefix(value, parts.len() - 1).len() == value.names[parts.len() - 1].len()
            + 2);
    }
}

/// A body on one line fits what a visit adds, with the texts of its values in place of markers.
proof fn lemma_body_len(value: Value, parts: Seq<Seq<char>>, pad: nat)
    requires
        parts.len() == value.children.len(),
    ensures
        body_text(value, parts).len() + parts.len() * marker_len() <= own_len(value, pad)
            + total_len(parts),
{
    reveal_strlit("(");
    reveal_strlit(")");
    reveal_strlit(",)");
    reveal_strlit("[");
    reveal_strlit("]");
    reveal_strlit(", ");
    reveal_strlit(" {}");
    reveal_strlit(" {");
    reveal_strlit(" { ");
    reveal_strlit(" }");
    lemma_joined_len(parts, ", "@);
    assert(parts.len() * ", "@.len() == 2 * parts.len());
    lemma_items_len(value, parts.len(), pad);
    if value.head is Struct {
        lemma_fields_len(value, parts, pad);
    }
    if parts.len() == 1 {
        assert(parts[0] == parts.last());
        assert(total_len(parts.drop_last()) == 0);
    }
}

proof fn lemma_visit(values: Seq<Value>, i: int, pad: nat)
    requires
        0 <= i < values.len(),
    ensures
        own_len(values[i], pad) <= values_len(values, pad),
    decreases values.len(),
{
    if i < values.len() - 1 {
        lemma_visit(values.drop_last(), i, pad);
    }
}

proof fn lemma_split(a: int, b: int, k: int)
    ensures
        (a + b) * k == a * k + b * k,
{
    lemma_mul_is_distributive_add_other_way(k, a, b);
}

/// A value on one line is no longer than a marker and what its visits add.
proof fn lemma_inline_len(style: Style, id: int, depth: nat, path: Seq<int>, budget: nat)
    ensures
        ({
            let (text, left) = style.inline(id, depth, path, budget);
            &&& left <= budget
            &&& text matches Some(t) ==> t.len() <= marker_len() + (budget - left)
                * style.visit_len()
        }),
    decreases MAX_WALK_DEPTH + 1 - depth, 0nat, 1nat,
{
    let k = style.visit_len();
    lemma_markers(id);
    if depth > MAX_WALK_DEPTH || path.contains(id) {
    } else if budget == 0 {
    } else {
        match style.document.value(id) {
            None => {},
            Some(value) => {
                let n = value.children.len();
                let (parts, left) = style.inline_items(
                    value.children,
                    n,
                    depth,
                    path.push(id),
                    (budget - 1) as nat,
                );
                lemma_inline_items_len(
                    style,
                    value.children,
                    n,
                    depth,
                    path.push(id),
                    (budget - 1) as nat,
                );
                if let Some(parts) = parts {
                    lemma_body_len(value, parts, style.widest_indent());
                    lemma_visit(style.document.values, id, style.widest_indent());
                    lemma_split(1, budget - 1 - left, k as int);
                }
            },
        }
    }
}

proof fn lemma_inline_items_len(
    style: Style,
    ids: Seq<int>,
    n: nat,
    depth: nat,
    path: Seq<int>,
    budget: nat,
)
    requires
        depth <= MAX_WALK_DEPTH,
    ensures
        ({
            let (parts, left) = style.inline_items(ids, n, depth, path, budget);
            &&& left <= budget
            &&& parts matches Some(parts) ==> parts.len() == n && total_len(parts) <= n
                * marker_len() + (budget - left) * style.visit_len()
        }),
    decreases MAX_WALK_DEPTH - depth, n + 1, 0nat,
{
    let k = style.visit_len();
    if n > 0 {
        let (parts, middle) = style.inline_items(ids, (n - 1) as nat, depth, path, budget);
        lemma_inline_items_len(style, ids, (n - 1) as nat, depth, path, budget);
        if let Some(parts) = parts {
            let (part, left) = style.inline(ids[n - 1], depth + 1, path, middle);
            lemma_inline_len(style, ids[n - 1], depth + 1, path, middle);
            if let Some(part) = part {
                assert(parts.push(part).drop_last() =~= parts);
                lemma_split(budget - middle, middle - left, k as int);
            }
        }
    }
}

// -- values -------------------------------------------------------------------------------------

proof fn lemma_indent_len(style: Style, level: nat)
    requires
        level <= 2 * MAX_WALK_DEPTH + 1,
    ensures
        style.indent(level).len() <= style.widest_indent(),
{
    lemma_mul_inequality(
        level as int,
        2 * MAX_WALK_DEPTH as int + 1,
        style.options.indent as int,
    );
    assert(level * style.options.indent as int >= 0) by (nonlinear_arith)
        requires
            level >= 0,
            style.options.indent >= 0,
    ;
}

/// A value spends no more visits than there are, and is no longer than a marker and what its
/// visits add.
pub proof fn law_values_are_bounded(
    style: Style,
    id: int,
    level: nat,
    depth: nat,
    path: Seq<int>,
    budget: nat,
    column: int,
)
    requires
        ids_fit(style.document),
        is_id(id),
        depth <= MAX_WALK_DEPTH + 1,
        level <= MAX_WALK_DEPTH + depth,
    ensures
        ({
            let (text, left) = style.value(id, level, depth, path, budget, column);
            &&& left <= budget
            &&& text.len() <= marker_len() + (budget - left) * style.visit_len()
        }),
    decreases MAX_WALK_DEPTH + 1 - depth, 0nat, 1nat,
{
    let k = style.visit_len() as int;
    lemma_markers(id);
    if depth > MAX_WALK_DEPTH {
    } else if budget == 0 {
    } else if path.contains(id) {
        assert(1 * k >= 0);
    } else {
        match style.document.value(id) {
            None => {
                assert(1 * k >= 0);
            },
            Some(value) => {
                let (text, middle) = style.inline(id, depth, path, (budget - 1) as nat);
                lemma_inline_len(style, id, depth, path, (budget - 1) as nat);
                lemma_split(1, budget - 1 - middle, k);
                assert((budget - 1 - middle) * k >= 0) by (nonlinear_arith)
                    requires
                        budget - 1 - middle >= 0,
                        k >= 0,
                ;
                if text matches Some(t) && (!breakable(value) || column + t.len()
                    <= style.options.max_inline_width) {
                } else if !breakable(value) {
                } else {
                    let (lines, left) = style.lines(
                        value,
                        value.children.len(),
                        level,
                        depth,
                        path.push(id),
                        middle,
                    );
                    lemma_lines_len(
                        style,
                        value,
                        value.children.len(),
                        level,
                        depth,
                        path.push(id),
                        middle,
                    );
                    lemma_visit(style.document.values, id, style.widest_indent());
                    lemma_indent_len(style, level);
                    lemma_broken_len(style, value, lines, level);
                    lemma_split(budget - middle, middle - left, k);
                }
            },
        }
    }
}

/// A broken body fits what a visit adds, with its lines in place of the items.
proof fn lemma_broken_len(style: Style, value: Value, lines: Seq<char>, level: nat)
    requires
        level <= 2 * MAX_WALK_DEPTH,
    ensures
        (open_text(value.head) + "\n"@ + lines + style.indent(level) + close_text(value.head)).len()
            + items_len(value, value.children.len(), style.widest_indent()) <= own_len(
            value,
            style.widest_indent(),
        ) + lines.len(),
{
    reveal_strlit("\n");
    reveal_strlit(")");
    reveal_strlit("]");
    reveal_strlit("}");
    lemma_indent_len(style, level);
}

proof fn lemma_lines_len(
    style: Style,
    value: Value,
    n: nat,
    level: nat,
    depth: nat,
    path: Seq<int>,
    budget: nat,
)
    requires
        ids_fit(style.document),
        are_ids(value.children),
        n <= value.children.len(),
        depth <= MAX_WALK_DEPTH,
        level <= MAX_WALK_DEPTH + depth,
    ensures
        ({
            let (text, left) = style.lines(value, n, level, depth, path, budget);
            &&& left <= budget
            &&& text.len() <= items_len(value, n, style.widest_indent()) + (budget - left)
                * style.visit_len()
        }),
    decreases MAX_WALK_DEPTH - depth, n + 1, 0nat,
{
    let k = style.visit_len() as int;
    if n > 0 {
        let i = n - 1;
        let (before, middle) = style.lines(value, i as nat, level, depth, path, budget);
        lemma_lines_len(style, value, i as nat, level, depth, path, budget);
        let start = style.indent(level + 1) + item_prefix(value, i);
        let column = crate::span::last_line(start).len() as int;
        let (text, left) = style.value(
            value.children[i],
            level + 1,
            depth + 1,
            path,
            middle,
            column,
        );
        law_values_are_bounded(
            style,
            value.children[i],
            level + 1,
            depth + 1,
            path,
            middle,
            column,
        );
        lemma_indent_len(style, level + 1);
        lemma_split(budget - middle, middle - left, k);
        reveal_strlit(",\n");
        reveal_strlit("\n");
    }
}

// -- nodes --------------------------------------------------------------------------------------

impl Style {
    /// The most characters that a number of nodes and visits add.
    pub open spec fn most(self, met: nat, visits: int) -> int {
        met * self.node_len() + visits * self.visit_len()
    }
}

proof fn lemma_most(style: Style, met: nat, visits: int, more: nat, further: int)
    requires
        visits >= 0,
        further >= 0,
    ensures
        style.most(met + more, visits + further) == style.most(met, visits) + style.most(
            more,
            further,
        ),
        style.most(met, visits) >= 0,
        style.most(1, visits) == style.node_len() + visits * style.visit_len(),
        style.most(1, 0) == style.node_len(),
        style.most(0, 0) == 0,
{
    lemma_split(met as int, more as int, style.node_len() as int);
    lemma_split(visits, further, style.visit_len() as int);
    assert(met * style.node_len() >= 0 && visits * style.visit_len() >= 0) by (nonlinear_arith)
        requires
            visits >= 0,
    ;
}

proof fn lemma_node_len(nodes: Seq<Node>, i: int, pad: nat)
    ensures
        nodes_len(nodes, pad) >= 2 * pad + marker_len() + 5,
        0 <= i < nodes.len() ==> nodes_len(nodes, pad) >= 2 * pad + marker_len() + 5
            + node_own_len(nodes[i]),
    decreases nodes.len(),
{
    if nodes.len() > 0 {
        lemma_node_len(nodes.drop_last(), i, pad);
    }
}

/// The line of a marker fits what a node adds.
proof fn lemma_marker_line(style: Style, id: int, level: nat)
    requires
        level <= MAX_WALK_DEPTH + 1,
        is_id(id),
    ensures
        0 < (style.indent(level) + TOO_DEEP@ + "\n"@).len() < style.node_len(),
        0 < (style.indent(level) + invalid_text(id) + "\n"@).len() < style.node_len(),
{
    reveal_strlit("\n");
    lemma_markers(id);
    lemma_indent_len(style, level);
    lemma_node_len(style.document.nodes, id, style.widest_indent());
}

/// An entity spends no more visits than there are, and is shorter than what its nodes and its
/// visits add.
proof fn lemma_entity_len(style: Style, id: int, level: nat, path: Seq<int>, budget: nat)
    requires
        ids_fit(style.document),
        is_id(id),
        level <= MAX_WALK_DEPTH + 1,
    ensures
        ({
            let (text, left) = style.entity(id, level, path, budget);
            &&& left <= budget
            &&& 0 < text.len() < style.most(style.entity_met(id, level, path), budget - left)
        }),
    decreases 2 * (MAX_WALK_DEPTH + 1 - level), 0nat,
{
    let pad = style.indent(level);
    lemma_marker_line(style, id, level);
    lemma_most(style, 1, 0, 0, 0);
    if level > MAX_WALK_DEPTH || path.contains(id) {
    } else {
        match style.document.node(id) {
            None => {},
            Some(node) => match node.kind {
                NodeKind::Entity { name, base, patches, relations, .. } => {
                    assert(lists_ids(style.document.nodes[id]));
                    let order = merged(style.document, patches, relations);
                    lemma_merged_ids_fit(style.document, patches, relations);
                    let (entries, left) = style.entries(
                        order,
                        order.len(),
                        level,
                        path.push(id),
                        budget,
                    );
                    lemma_entries_len(style, order, order.len(), level, path.push(id), budget);
                    lemma_head_len(style, id, level);
                    lemma_most(
                        style,
                        1,
                        0,
                        style.entries_met(order, order.len(), level, path.push(id)),
                        budget - left,
                    );
                },
                _ => {},
            },
        }
    }
}

/// The lines of the base and the name of an entity.
pub open spec fn entity_head(style: Style, node: Node, level: nat) -> Seq<char> {
    match node.kind {
        NodeKind::Entity { name, base, .. } => (match base {
            Some(base) => style.indent(level) + ":"@ + string_text(base) + "\n"@,
            None => Seq::empty(),
        }) + (match name {
            Some(name) => style.indent(level) + "#"@ + name + "\n"@,
            None => Seq::empty(),
        }),
        _ => Seq::empty(),
    }
}

/// The lines of an entity itself fit what a node adds.
proof fn lemma_head_len(style: Style, id: int, level: nat)
    requires
        level <= MAX_WALK_DEPTH,
        0 <= id < style.document.nodes.len(),
    ensures
        entity_head(style, style.document.nodes[id], level).len() < style.node_len(),
        0 < (style.indent(level) + "()\n"@).len() < style.node_len(),
{
    reveal_strlit(":");
    reveal_strlit("#");
    reveal_strlit("\n");
    reveal_strlit("()\n");
    lemma_indent_len(style, level);
    lemma_node_len(style.document.nodes, id, style.widest_indent());
}

proof fn lemma_entries_len(
    style: Style,
    order: Seq<int>,
    n: nat,
    level: nat,
    path: Seq<int>,
    budget: nat,
)
    requires
        ids_fit(style.document),
        are_ids(order),
        n <= order.len(),
        level <= MAX_WALK_DEPTH,
    ensures
        ({
            let (text, left) = style.entries(order, n, level, path, budget);
            &&& left <= budget
            &&& text.len() <= style.most(style.entries_met(order, n, level, path), budget - left)
        }),
    decreases 2 * (MAX_WALK_DEPTH - level) + 1, n + 1,
{
    if n > 0 {
        let m = (n - 1) as nat;
        let (before, middle) = style.entries(order, m, level, path, budget);
        lemma_entries_len(style, order, m, level, path, budget);
        let (text, left) = style.entry(order[n - 1], level, path, middle);
        lemma_entry_len(style, order[n - 1], level, path, middle);
        lemma_most(
            style,
            style.entries_met(order, m, level, path),
            budget - middle,
            style.entry_met(order[n - 1], level, path),
            middle - left,
        );
    } else {
        lemma_most(style, 0, 0, 0, 0);
    }
}

proof fn lemma_entry_len(style: Style, id: int, level: nat, path: Seq<int>, budget: nat)
    requires
        ids_fit(style.document),
        is_id(id),
        level <= MAX_WALK_DEPTH,
    ensures
        ({
            let (text, left) = style.entry(id, level, path, budget);
            &&& left <= budget
            &&& text.len() <= style.most(style.entry_met(id, level, path), budget - left)
        }),
    decreases 2 * (MAX_WALK_DEPTH - level) + 1, 1nat,
{
    let pad = style.indent(level);
    lemma_marker_line(style, id, level);
    lemma_most(style, 1, 0, 0, 0);
    lemma_indent_len(style, level);
    lemma_node_len(style.document.nodes, id, style.widest_indent());
    match style.document.node(id) {
        None => {},
        Some(node) => {
            assert(lists_ids(style.document.nodes[id]));
            match node.kind {
                NodeKind::Patch { prefix, value, .. } => {
                    let start = pad + prefix.spec_sigil();
                    let column = crate::span::last_line(start).len() as int;
                    let (text, left) = style.value(value, level, 0, Seq::empty(), budget, column);
                    law_values_are_bounded(style, value, level, 0, Seq::empty(), budget, column);
                    lemma_most(style, 1, budget - left, 0, 0);
                    reveal_strlit("\n");
                },
                NodeKind::Relation { target, entities } => {
                    let (text, left) = style.entities(
                        entities,
                        entities.len(),
                        level,
                        path,
                        budget,
                    );
                    lemma_entities_len(style, entities, entities.len(), level, path, budget);
                    lemma_most(
                        style,
                        1,
                        0,
                        style.entities_met(entities, entities.len(), level, path),
                        budget - left,
                    );
                    reveal_strlit(" []\n");
                    reveal_strlit(" [\n");
                    reveal_strlit("]\n");
                },
                _ => {},
            }
        },
    }
}

proof fn lemma_entities_len(
    style: Style,
    ids: Seq<int>,
    n: nat,
    level: nat,
    path: Seq<int>,
    budget: nat,
)
    requires
        ids_fit(style.document),
        are_ids(ids),
        n <= ids.len(),
        level <= MAX_WALK_DEPTH,
    ensures
        ({
            let (text, left) = style.entities(ids, n, level, path, budget);
            &&& left <= budget
            &&& text.len() <= style.most(style.entities_met(ids, n, level, path), budget - left)
        }),
    decreases 2 * (MAX_WALK_DEPTH - level), n + 1,
{
    if n > 0 {
        let m = (n - 1) as nat;
        let (before, middle) = style.entities(ids, m, level, path, budget);
        lemma_entities_len(style, ids, m, level, path, budget);
        let (text, left) = style.entity(ids[n - 1], level + 1, path, middle);
        lemma_entity_len(style, ids[n - 1], level + 1, path, middle);
        lemma_most(
            style,
            style.entities_met(ids, m, level, path),
            budget - middle,
            style.entity_met(ids[n - 1], level + 1, path),
            middle - left,
        );
        reveal_strlit(",\n");
    } else {
        lemma_most(style, 0, 0, 0, 0);
    }
}

// -- documents ----------------------------------------------------------------------------------

proof fn lemma_trimmed_len(text: Seq<char>)
    ensures
        trimmed(text).len() <= text.len(),
    decreases text.len(),
{
    if text.len() > 0 && text.last() == '\n' {
        lemma_trimmed_len(text.drop_last());
    }
}

proof fn lemma_roots_len(style: Style, n: nat, budget: nat)
    requires
        ids_fit(style.document),
        n <= style.document.roots.len(),
    ensures
        ({
            let (parts, left) = style.roots(n, budget);
            &&& left <= budget
            &&& parts.len() == n
            &&& total_len(parts) <= style.most(style.roots_met(n), budget - left)
        }),
    decreases n,
{
    if n > 0 {
        let m = (n - 1) as nat;
        let (before, middle) = style.roots(m, budget);
        lemma_roots_len(style, m, budget);
        let id = style.document.roots[n - 1];
        let (text, left) = style.entity(id, 0, Seq::empty(), middle);
        lemma_entity_len(style, id, 0, Seq::empty(), middle);
        lemma_trimmed_len(text);
        assert(before.push(trimmed(text)).drop_last() =~= before);
        lemma_most(
            style,
            style.roots_met(m),
            budget - middle,
            style.entity_met(id, 0, Seq::empty()),
            middle - left,
        );
    } else {
        lemma_most(style, 0, 0, 0, 0);
    }
}

/// Printing a document spends at most the visits of its budget, however its values are shared,
/// and the length of the text follows from them: it is at most what the nodes that are met and
/// the visits that are spent add, and what stands between the roots. Nodes cost no visits: one
/// that is listed several times is met each time.
pub proof fn law_output_is_bounded(document: BsnDocument, options: PrintOptions)
    ensures
        ({
            let style = Style { document: document@, options };
            let n = document@.roots.len();
            let (parts, left) = style.roots(n, style.budget());
            let visits = style.budget() - left;
            &&& 0 <= visits <= style.budget()
            &&& print_model(document@, options).len() <= style.roots_met(n) * style.node_len()
                + visits * style.visit_len() + 3 * n + 1
            &&& print_model(document@, options).len() <= style.roots_met(n) * style.node_len()
                + style.budget() * style.visit_len() + 3 * n + 1
        }),
{
    let style = Style { document: document@, options };
    let n = document@.roots.len();
    let (parts, left) = style.roots(n, style.budget());
    let visits = style.budget() - left;
    lemma_ids_fit(document);
    lemma_roots_len(style, n, style.budget());
    reveal_strlit(",\n\n");
    reveal_strlit(",\n");
    reveal_strlit("\n");
    lemma_joined_len(parts, ",\n\n"@);
    lemma_joined_len(parts, ",\n"@);
    assert(parts.len() * ",\n\n"@.len() == 3 * parts.len());
    assert(parts.len() * ",\n"@.len() == 2 * parts.len());
    lemma_mul_inequality(visits, style.budget() as int, style.visit_len() as int);
}

} // verus!
