//! Documents that unfold to trees, and what is printed for them.

use vstd::prelude::*;

use crate::float::Floats;
use crate::grammar::{NodeHead, NodeTree, Tree};
use crate::layout::{node_size, node_sizes, size, sizes};
use crate::model::{Document, NodeKind};
use crate::order::merged;
use crate::render::{body_text, breakable, item_prefix, Style, MAX_WALK_DEPTH};
use crate::shape::{entity_fits, entry_fits, item_fits, tree_fits};
use crate::span::last_line;
use crate::tree_text::{
    base_text, entities_text, entity_text, entries_text, entry_text, inline_parts, name_text,
    roots_text, roots_texts, tree_inline, tree_lines, tree_text, value_of,
};

verus! {

/// The value `id` of a document, with all the values inside it, is the tree `t`.
pub open spec fn unfolds(d: Document, id: int, t: Tree) -> bool
    decreases t,
{
    d.value(id) matches Some(value) && {
        &&& value.head == t.head
        &&& value.names == t.names
        &&& value.children.len() == t.children.len()
        &&& forall|i: int|
            0 <= i < t.children.len() ==> unfolds(d, value.children[i], #[trigger] t.children[i])
    }
}

/// The first `n` of the ids `order` that belong to patches (or to relations).
pub open spec fn picks(order: Seq<int>, ts: Seq<NodeTree>, patches: bool, n: nat) -> Seq<int>
    decreases n,
{
    if n == 0 {
        Seq::empty()
    } else if ts[n - 1].head is Patch == patches {
        picks(order, ts, patches, (n - 1) as nat).push(order[n - 1])
    } else {
        picks(order, ts, patches, (n - 1) as nat)
    }
}

/// The node `id` of a document, with all the nodes and values inside it, is the tree `t`; the
/// patches and the relations of an entity are each listed in the order in which they are
/// written.
pub open spec fn unfolds_node(d: Document, id: int, t: NodeTree) -> bool
    decreases t,
{
    d.node(id) matches Some(node) && match (node.kind, t.head) {
        (
            NodeKind::Entity { name, base, patches, relations, .. },
            NodeHead::Entity { name: tree_name, base: tree_base, .. },
        ) => {
            let order = merged(d, patches, relations);
            &&& name == tree_name
            &&& base == tree_base
            &&& order.len() == t.children.len()
            &&& patches == picks(order, t.children, true, order.len())
            &&& relations == picks(order, t.children, false, order.len())
            &&& forall|i: int|
                0 <= i < t.children.len() ==> unfolds_node(d, order[i], #[trigger] t.children[i])
        },
        (
            NodeKind::Patch { symbol, prefix, value },
            NodeHead::Patch { symbol: tree_symbol, prefix: tree_prefix, value: tree },
        ) => symbol == tree_symbol && prefix == tree_prefix && t.children.len() == 0 && unfolds(
            d,
            value,
            tree,
        ),
        (
            NodeKind::Relation { target, entities },
            NodeHead::Relation { target: tree_target },
        ) => {
            &&& target == tree_target
            &&& entities.len() == t.children.len()
            &&& forall|i: int|
                0 <= i < t.children.len() ==> unfolds_node(
                    d,
                    entities[i],
                    #[trigger] t.children[i],
                )
        },
        _ => false,
    }
}

/// The roots of a document, with all that is inside them, are the trees `ts`.
pub open spec fn unfolds_to(d: Document, ts: Seq<NodeTree>) -> bool {
    &&& d.roots.len() == ts.len()
    &&& forall|i: int| 0 <= i < ts.len() ==> unfolds_node(d, d.roots[i], #[trigger] ts[i])
}

// -- sizes ------------------------------------------------------------------------------------

proof fn lemma_sizes_same(a: Seq<Tree>, b: Seq<Tree>)
    requires
        a.len() == b.len(),
        forall|i: int| 0 <= i < a.len() ==> size(#[trigger] a[i]) == size(b[i]),
    ensures
        sizes(a) == sizes(b),
    decreases a.len(),
{
    if a.len() > 0 {
        assert(size(a[a.len() - 1]) == size(b[a.len() - 1]));
        assert forall|i: int| 0 <= i < a.drop_last().len() implies size(
            #[trigger] a.drop_last()[i],
        ) == size(b.drop_last()[i]) by {
            assert(size(a[i]) == size(b[i]));
        }
        lemma_sizes_same(a.drop_last(), b.drop_last());
    }
}

/// A value unfolds to trees of one size only.
proof fn lemma_unfold_size(d: Document, id: int, a: Tree, b: Tree)
    requires
        unfolds(d, id, a),
        unfolds(d, id, b),
    ensures
        size(a) == size(b),
    decreases a,
{
    let value = d.value(id)->0;
    assert forall|i: int| 0 <= i < a.children.len() implies size(#[trigger] a.children[i]) == size(
        b.children[i],
    ) by {
        assert(unfolds(d, value.children[i], a.children[i]));
        assert(unfolds(d, value.children[i], b.children[i]));
        lemma_unfold_size(d, value.children[i], a.children[i], b.children[i]);
    }
    lemma_sizes_same(a.children, b.children);
}

pub proof fn lemma_size_child(ts: Seq<Tree>, i: int)
    requires
        0 <= i < ts.len(),
    ensures
        size(ts[i]) <= sizes(ts),
    decreases ts.len(),
{
    if i < ts.len() - 1 {
        assert(ts.drop_last()[i] == ts[i]);
        lemma_size_child(ts.drop_last(), i);
    }
}

/// The value `id` unfolds to a tree of more than `n` values.
pub open spec fn bigger(d: Document, id: int, n: nat) -> bool {
    exists|u: Tree| #[trigger] unfolds(d, id, u) && size(u) > n
}

/// Every value on a path unfolds to a tree of more than `n` values.
pub open spec fn path_clear(d: Document, path: Seq<int>, n: nat) -> bool {
    forall|k: int| 0 <= k < path.len() ==> bigger(d, #[trigger] path[k], n)
}

/// A value that unfolds to a tree is not on a path of values that are all bigger.
proof fn lemma_not_on_path(d: Document, path: Seq<int>, id: int, t: Tree)
    requires
        unfolds(d, id, t),
        path_clear(d, path, size(t)),
    ensures
        !path.contains(id),
{
    if path.contains(id) {
        let k = choose|k: int| 0 <= k < path.len() && path[k] == id;
        assert(bigger(d, path[k], size(t)));
        let u = choose|u: Tree| #[trigger] unfolds(d, id, u) && size(u) > size(t);
        lemma_unfold_size(d, id, t, u);
    }
}

/// The path to the values inside a value.
proof fn lemma_path_push(d: Document, path: Seq<int>, id: int, t: Tree, i: int)
    requires
        unfolds(d, id, t),
        path_clear(d, path, size(t)),
        0 <= i < t.children.len(),
    ensures
        path_clear(d, path.push(id), size(t.children[i])),
{
    lemma_size_child(t.children, i);
    let n = size(t.children[i]);
    let next = path.push(id);
    assert forall|k: int| 0 <= k < next.len() implies bigger(d, #[trigger] next[k], n) by {
        if k < path.len() {
            assert(bigger(d, path[k], size(t)));
            let u = choose|u: Tree| #[trigger] unfolds(d, path[k], u) && size(u) > size(t);
            assert(unfolds(d, next[k], u) && size(u) > n);
        } else {
            assert(unfolds(d, next[k], t) && size(t) > n);
        }
    }
}

// -- values -----------------------------------------------------------------------------------

/// The visits that printing a value takes at most.
pub open spec fn cost(t: Tree) -> nat
    decreases t,
{
    1 + size(t) + costs(t.children)
}

pub open spec fn costs(ts: Seq<Tree>) -> nat
    decreases ts,
{
    if ts.len() == 0 {
        0
    } else {
        costs(ts.drop_last()) + cost(ts.last())
    }
}

pub proof fn lemma_inline(
    style: Style,
    floats: Floats,
    id: int,
    t: Tree,
    n: nat,
    depth: nat,
    path: Seq<int>,
    budget: nat,
)
    requires
        unfolds(style.document, id, t),
        tree_fits(floats, t, n),
        depth + n <= MAX_WALK_DEPTH + 1,
        path_clear(style.document, path, size(t)),
        budget >= size(t),
    ensures
        style.inline(id, depth, path, budget) == (
            Some(tree_inline(t)),
            (budget - size(t)) as nat,
        ),
    decreases t, t.children.len() + 1,
{
    let value = style.document.value(id)->0;
    lemma_not_on_path(style.document, path, id, t);
    lemma_take_all(t.children);
    lemma_inline_items(
        style,
        floats,
        id,
        t,
        n,
        depth,
        path,
        t.children.len(),
        (budget - 1) as nat,
    );
    let parts = inline_parts(t, t.children.len());
    assert(body_text(value, parts) == body_text(value_of(t), parts));
}

proof fn lemma_take_all(ts: Seq<Tree>)
    ensures
        ts.take(ts.len() as int) == ts,
{
    assert(ts.take(ts.len() as int) =~= ts);
}

/// The sizes of the first trees of a list.
proof fn lemma_take_next(ts: Seq<Tree>, k: int)
    requires
        0 < k <= ts.len(),
    ensures
        sizes(ts.take(k)) == sizes(ts.take(k - 1)) + size(ts[k - 1]),
        costs(ts.take(k)) == costs(ts.take(k - 1)) + cost(ts[k - 1]),
{
    assert(ts.take(k).drop_last() =~= ts.take(k - 1));
    assert(ts.take(k).last() == ts[k - 1]);
}

proof fn lemma_inline_items(
    style: Style,
    floats: Floats,
    id: int,
    t: Tree,
    n: nat,
    depth: nat,
    path: Seq<int>,
    k: nat,
    budget: nat,
)
    requires
        unfolds(style.document, id, t),
        tree_fits(floats, t, n),
        depth + n <= MAX_WALK_DEPTH + 1,
        path_clear(style.document, path, size(t)),
        k <= t.children.len(),
        budget >= sizes(t.children.take(k as int)),
    ensures
        style.inline_items(
            style.document.value(id)->0.children,
            k,
            depth,
            path.push(id),
            budget,
        ) == (
            Some(inline_parts(t, k)),
            (budget - sizes(t.children.take(k as int))) as nat,
        ),
    decreases t, k,
{
    if k > 0 {
        let ids = style.document.value(id)->0.children;
        lemma_take_next(t.children, k as int);
        lemma_inline_items(style, floats, id, t, n, depth, path, (k - 1) as nat, budget);
        let left = (budget - sizes(t.children.take(k - 1))) as nat;
        assert(item_fits(floats, t.children[k - 1], (n - 1) as nat));
        assert(unfolds(style.document, ids[k - 1], t.children[k - 1]));
        lemma_path_push(style.document, path, id, t, k - 1);
        lemma_inline(
            style,
            floats,
            ids[k - 1],
            t.children[k - 1],
            (n - 1) as nat,
            depth + 1,
            path.push(id),
            left,
        );
    } else {
        assert(t.children.take(0) =~= Seq::empty());
    }
}

proof fn lemma_value(
    style: Style,
    floats: Floats,
    id: int,
    t: Tree,
    n: nat,
    level: nat,
    depth: nat,
    path: Seq<int>,
    budget: nat,
    column: int,
)
    requires
        unfolds(style.document, id, t),
        tree_fits(floats, t, n),
        depth + n <= MAX_WALK_DEPTH + 1,
        path_clear(style.document, path, size(t)),
        budget >= cost(t),
    ensures
        style.value(id, level, depth, path, budget, column).0 == tree_text(style, t, level, column),
        style.value(id, level, depth, path, budget, column).1 >= budget - cost(t),
    decreases t, t.children.len() + 1,
{
    let value = style.document.value(id)->0;
    lemma_not_on_path(style.document, path, id, t);
    lemma_inline(style, floats, id, t, n, depth, path, (budget - 1) as nat);
    lemma_take_all(t.children);
    assert(breakable(value) == breakable(value_of(t)));
    lemma_lines(
        style,
        floats,
        id,
        t,
        n,
        level,
        depth,
        path,
        t.children.len(),
        (budget - 1 - size(t)) as nat,
    );
}

proof fn lemma_lines(
    style: Style,
    floats: Floats,
    id: int,
    t: Tree,
    n: nat,
    level: nat,
    depth: nat,
    path: Seq<int>,
    k: nat,
    budget: nat,
)
    requires
        unfolds(style.document, id, t),
        tree_fits(floats, t, n),
        depth + n <= MAX_WALK_DEPTH + 1,
        path_clear(style.document, path, size(t)),
        k <= t.children.len(),
        budget >= costs(t.children.take(k as int)),
    ensures
        ({
            let value = style.document.value(id)->0;
            let lines = style.lines(value, k, level, depth, path.push(id), budget);
            &&& lines.0 == tree_lines(style, t, k, level)
            &&& lines.1 >= budget - costs(t.children.take(k as int))
        }),
    decreases t, k,
{
    if k > 0 {
        let value = style.document.value(id)->0;
        let i = k - 1;
        lemma_take_next(t.children, k as int);
        lemma_lines(style, floats, id, t, n, level, depth, path, i as nat, budget);
        let left = style.lines(value, i as nat, level, depth, path.push(id), budget).1;
        let start = style.indent(level + 1) + item_prefix(value, i);
        assert(item_prefix(value, i) == item_prefix(value_of(t), i));
        assert(style.separator(value, i) == style.separator(value_of(t), i));
        assert(item_fits(floats, t.children[i], (n - 1) as nat));
        assert(unfolds(style.document, value.children[i], t.children[i]));
        lemma_path_push(style.document, path, id, t, i);
        lemma_value(
            style,
            floats,
            value.children[i],
            t.children[i],
            (n - 1) as nat,
            level + 1,
            depth + 1,
            path.push(id),
            left,
            last_line(start).len() as int,
        );
    }
}

/// A value of `n` levels is visited at most `n + 1` times per value inside it.
pub proof fn lemma_cost_bound(floats: Floats, t: Tree, n: nat)
    requires
        tree_fits(floats, t, n),
    ensures
        cost(t) <= size(t) * (n + 1),
    decreases n, 0nat,
{
    lemma_costs_bound(floats, t.children, (n - 1) as nat);
    let s = sizes(t.children);
    assert((1 + s) * (n + 1) == s * n + s + n + 1) by (nonlinear_arith);
}

proof fn lemma_costs_bound(floats: Floats, ts: Seq<Tree>, n: nat)
    requires
        forall|i: int| 0 <= i < ts.len() ==> item_fits(floats, #[trigger] ts[i], n),
    ensures
        costs(ts) <= sizes(ts) * (n + 1),
    decreases n, ts.len() + 1,
{
    if ts.len() > 0 {
        let init = ts.drop_last();
        assert forall|i: int| 0 <= i < init.len() implies item_fits(
            floats,
            #[trigger] init[i],
            n,
        ) by {
            assert(init[i] == ts[i]);
        }
        lemma_costs_bound(floats, init, n);
        assert(item_fits(floats, ts[ts.len() - 1], n));
        lemma_cost_bound(floats, ts.last(), n);
        let a = sizes(init);
        let b = size(ts.last());
        assert((a + b) * (n + 1) == a * (n + 1) + b * (n + 1)) by (nonlinear_arith);
    } else {
        assert(0 * (n + 1) == 0) by (nonlinear_arith);
    }
}

// -- entities ---------------------------------------------------------------------------------

proof fn lemma_node_sizes_same(a: Seq<NodeTree>, b: Seq<NodeTree>)
    requires
        a.len() == b.len(),
        forall|i: int| 0 <= i < a.len() ==> node_size(#[trigger] a[i]) == node_size(b[i]),
    ensures
        node_sizes(a) == node_sizes(b),
    decreases a.len(),
{
    if a.len() > 0 {
        assert(node_size(a[a.len() - 1]) == node_size(b[a.len() - 1]));
        assert forall|i: int| 0 <= i < a.drop_last().len() implies node_size(
            #[trigger] a.drop_last()[i],
        ) == node_size(b.drop_last()[i]) by {
            assert(node_size(a[i]) == node_size(b[i]));
        }
        lemma_node_sizes_same(a.drop_last(), b.drop_last());
    }
}

/// The nodes inside a node.
spec fn node_children(d: Document, id: int) -> Seq<int> {
    match d.node(id) {
        Some(node) => match node.kind {
            NodeKind::Entity { patches, relations, .. } => merged(d, patches, relations),
            NodeKind::Relation { entities, .. } => entities,
            NodeKind::Patch { .. } => Seq::empty(),
        },
        None => Seq::empty(),
    }
}

proof fn lemma_node_children(d: Document, id: int, t: NodeTree)
    requires
        unfolds_node(d, id, t),
    ensures
        node_children(d, id).len() == t.children.len(),
        forall|i: int|
            0 <= i < t.children.len() ==> unfolds_node(
                d,
                node_children(d, id)[i],
                #[trigger] t.children[i],
            ),
{
}

/// A node unfolds to trees of one size only.
proof fn lemma_unfold_node_size(d: Document, id: int, a: NodeTree, b: NodeTree)
    requires
        unfolds_node(d, id, a),
        unfolds_node(d, id, b),
    ensures
        node_size(a) == node_size(b),
    decreases a,
{
    let ids = node_children(d, id);
    lemma_node_children(d, id, a);
    lemma_node_children(d, id, b);
    assert forall|i: int| 0 <= i < a.children.len() implies node_size(#[trigger] a.children[i])
        == node_size(b.children[i]) by {
        assert(unfolds_node(d, ids[i], a.children[i]));
        assert(unfolds_node(d, ids[i], b.children[i]));
        lemma_unfold_node_size(d, ids[i], a.children[i], b.children[i]);
    }
    lemma_node_sizes_same(a.children, b.children);
}

proof fn lemma_node_size_child(ts: Seq<NodeTree>, i: int)
    requires
        0 <= i < ts.len(),
    ensures
        node_size(ts[i]) <= node_sizes(ts),
    decreases ts.len(),
{
    if i < ts.len() - 1 {
        assert(ts.drop_last()[i] == ts[i]);
        lemma_node_size_child(ts.drop_last(), i);
    }
}

/// The node `id` unfolds to a tree of more than `n` nodes.
pub open spec fn bigger_node(d: Document, id: int, n: nat) -> bool {
    exists|u: NodeTree| #[trigger] unfolds_node(d, id, u) && node_size(u) > n
}

/// Every node on a path unfolds to a tree of more than `n` nodes.
spec fn node_path_clear(d: Document, path: Seq<int>, n: nat) -> bool {
    forall|k: int| 0 <= k < path.len() ==> bigger_node(d, #[trigger] path[k], n)
}

proof fn lemma_node_not_on_path(d: Document, path: Seq<int>, id: int, t: NodeTree)
    requires
        unfolds_node(d, id, t),
        node_path_clear(d, path, node_size(t)),
    ensures
        !path.contains(id),
{
    if path.contains(id) {
        let k = choose|k: int| 0 <= k < path.len() && path[k] == id;
        assert(bigger_node(d, path[k], node_size(t)));
        let u = choose|u: NodeTree| #[trigger]
            unfolds_node(d, id, u) && node_size(u) > node_size(t);
        lemma_unfold_node_size(d, id, t, u);
    }
}

/// The path to the nodes inside an entity.
proof fn lemma_node_path_push(d: Document, path: Seq<int>, id: int, t: NodeTree, i: int)
    requires
        unfolds_node(d, id, t),
        node_path_clear(d, path, node_size(t)),
        0 <= i < t.children.len(),
    ensures
        node_path_clear(d, path.push(id), node_size(t.children[i])),
{
    lemma_node_size_child(t.children, i);
    let n = node_size(t.children[i]);
    let next = path.push(id);
    assert forall|k: int| 0 <= k < next.len() implies bigger_node(d, #[trigger] next[k], n) by {
        if k < path.len() {
            assert(bigger_node(d, path[k], node_size(t)));
            let u = choose|u: NodeTree| #[trigger]
                unfolds_node(d, path[k], u) && node_size(u) > node_size(t);
            assert(unfolds_node(d, next[k], u) && node_size(u) > n);
        } else {
            assert(unfolds_node(d, next[k], t) && node_size(t) > n);
        }
    }
}

/// The path to the nodes inside a relation, which is not on the path itself.
proof fn lemma_node_path_shrink(d: Document, path: Seq<int>, t: NodeTree, i: int)
    requires
        node_path_clear(d, path, node_size(t)),
        0 <= i < t.children.len(),
    ensures
        node_path_clear(d, path, node_size(t.children[i])),
{
    lemma_node_size_child(t.children, i);
    let n = node_size(t.children[i]);
    assert forall|k: int| 0 <= k < path.len() implies bigger_node(d, #[trigger] path[k], n) by {
        assert(bigger_node(d, path[k], node_size(t)));
        let u = choose|u: NodeTree| #[trigger]
            unfolds_node(d, path[k], u) && node_size(u) > node_size(t);
        assert(unfolds_node(d, path[k], u) && node_size(u) > n);
    }
}

/// The visits that printing a node takes at most.
pub open spec fn node_cost(t: NodeTree) -> nat
    decreases t,
{
    (match t.head {
        NodeHead::Patch { value, .. } => cost(value),
        _ => 0,
    }) + node_costs(t.children)
}

pub open spec fn node_costs(ts: Seq<NodeTree>) -> nat
    decreases ts,
{
    if ts.len() == 0 {
        0
    } else {
        node_costs(ts.drop_last()) + node_cost(ts.last())
    }
}

proof fn lemma_node_take(ts: Seq<NodeTree>, k: int)
    requires
        0 < k <= ts.len(),
    ensures
        node_costs(ts.take(k)) == node_costs(ts.take(k - 1)) + node_cost(ts[k - 1]),
        ts.take(ts.len() as int) == ts,
{
    assert(ts.take(k).drop_last() =~= ts.take(k - 1));
    assert(ts.take(k).last() == ts[k - 1]);
    assert(ts.take(ts.len() as int) =~= ts);
}

proof fn lemma_entity(
    style: Style,
    floats: Floats,
    id: int,
    t: NodeTree,
    n: nat,
    level: nat,
    path: Seq<int>,
    budget: nat,
)
    requires
        unfolds_node(style.document, id, t),
        entity_fits(floats, t, n),
        level + n <= MAX_WALK_DEPTH,
        node_path_clear(style.document, path, node_size(t)),
        budget >= node_cost(t),
    ensures
        style.entity(id, level, path, budget).0 == entity_text(style, t, level),
        style.entity(id, level, path, budget).1 >= budget - node_cost(t),
    decreases t, t.children.len() + 1,
{
    let d = style.document;
    let order = node_children(d, id);
    lemma_node_not_on_path(d, path, id, t);
    lemma_node_children(d, id, t);
    assert(t.children.take(t.children.len() as int) =~= t.children);
    lemma_entries(style, floats, id, t, n, level, path, t.children.len(), budget);
    let entries = style.entries(order, order.len(), level, path.push(id), budget);
    let name = t.head->name;
    let base = t.head->base;
    let head = (match base {
        Some(base) => style.indent(level) + ":"@ + crate::render::string_text(base) + "\n"@,
        None => Seq::empty(),
    }) + (match name {
        Some(name) => style.indent(level) + "#"@ + name + "\n"@,
        None => Seq::empty(),
    });
    assert(head == base_text(style, base, level) + name_text(style, name, level));
}

proof fn lemma_entries(
    style: Style,
    floats: Floats,
    id: int,
    t: NodeTree,
    n: nat,
    level: nat,
    path: Seq<int>,
    k: nat,
    budget: nat,
)
    requires
        unfolds_node(style.document, id, t),
        entity_fits(floats, t, n),
        level + n <= MAX_WALK_DEPTH,
        node_path_clear(style.document, path, node_size(t)),
        k <= t.children.len(),
        budget >= node_costs(t.children.take(k as int)),
    ensures
        ({
            let order = node_children(style.document, id);
            let lines = style.entries(order, k, level, path.push(id), budget);
            &&& lines.0 == entries_text(style, t, k, level)
            &&& lines.1 >= budget - node_costs(t.children.take(k as int))
        }),
    decreases t, k,
{
    if k > 0 {
        let d = style.document;
        let order = node_children(d, id);
        lemma_node_take(t.children, k as int);
        lemma_node_children(d, id, t);
        lemma_entries(style, floats, id, t, n, level, path, (k - 1) as nat, budget);
        let left = style.entries(order, (k - 1) as nat, level, path.push(id), budget).1;
        let child = t.children[k - 1];
        assert(entry_fits(floats, child, (n - 1) as nat));
        assert(unfolds_node(d, order[k - 1], child));
        lemma_node_path_push(d, path, id, t, k - 1);
        lemma_entry(
            style,
            floats,
            order[k - 1],
            child,
            (n - 1) as nat,
            level,
            path.push(id),
            left,
        );
    }
}

proof fn lemma_entry(
    style: Style,
    floats: Floats,
    id: int,
    t: NodeTree,
    n: nat,
    level: nat,
    path: Seq<int>,
    budget: nat,
)
    requires
        unfolds_node(style.document, id, t),
        entry_fits(floats, t, n),
        level + n < MAX_WALK_DEPTH,
        node_path_clear(style.document, path, node_size(t)),
        budget >= node_cost(t),
    ensures
        style.entry(id, level, path, budget).0 == entry_text(style, t, level),
        style.entry(id, level, path, budget).1 >= budget - node_cost(t),
    decreases t, t.children.len() + 1,
{
    let d = style.document;
    let node = d.node(id)->0;
    match t.head {
        NodeHead::Patch { prefix, value, .. } => {
            let start = style.indent(level) + prefix.spec_sigil();
            lemma_value(
                style,
                floats,
                node.kind->value,
                value,
                n + 1,
                level,
                0,
                Seq::empty(),
                budget,
                last_line(start).len() as int,
            );
        },
        NodeHead::Relation { target } => {
            assert(t.children.take(t.children.len() as int) =~= t.children);
            lemma_entities(
                style,
                floats,
                id,
                t,
                n,
                level,
                path,
                t.children.len(),
                budget,
            );
        },
        _ => {},
    }
}

proof fn lemma_entities(
    style: Style,
    floats: Floats,
    id: int,
    t: NodeTree,
    n: nat,
    level: nat,
    path: Seq<int>,
    k: nat,
    budget: nat,
)
    requires
        t.head is Relation,
        unfolds_node(style.document, id, t),
        entry_fits(floats, t, n),
        level + n < MAX_WALK_DEPTH,
        node_path_clear(style.document, path, node_size(t)),
        k <= t.children.len(),
        budget >= node_costs(t.children.take(k as int)),
    ensures
        ({
            let ids = node_children(style.document, id);
            let lines = style.entities(ids, k, level, path, budget);
            &&& lines.0 == entities_text(style, t.children, k, level)
            &&& lines.1 >= budget - node_costs(t.children.take(k as int))
        }),
    decreases t, k,
{
    if k > 0 {
        let d = style.document;
        let ids = node_children(d, id);
        lemma_node_take(t.children, k as int);
        lemma_node_children(d, id, t);
        lemma_entities(style, floats, id, t, n, level, path, (k - 1) as nat, budget);
        let left = style.entities(ids, (k - 1) as nat, level, path, budget).1;
        let child = t.children[k - 1];
        assert(entity_fits(floats, child, n));
        assert(unfolds_node(d, ids[k - 1], child));
        lemma_node_path_shrink(d, path, t, k - 1);
        lemma_entity(style, floats, ids[k - 1], child, n, level + 1, path, left);
    }
}

// -- documents --------------------------------------------------------------------------------

/// The texts of the first roots are those of the trees, when the budget is large enough.
pub proof fn lemma_roots(
    style: Style,
    floats: Floats,
    ts: Seq<NodeTree>,
    n: nat,
    k: nat,
    budget: nat,
)
    requires
        unfolds_to(style.document, ts),
        forall|i: int| 0 <= i < ts.len() ==> entity_fits(floats, #[trigger] ts[i], n),
        n <= MAX_WALK_DEPTH,
        k <= ts.len(),
        budget >= node_costs(ts.take(k as int)),
    ensures
        style.roots(k, budget).0 == roots_texts(style, ts, k),
        style.roots(k, budget).1 >= budget - node_costs(ts.take(k as int)),
    decreases k,
{
    if k > 0 {
        lemma_node_take(ts, k as int);
        lemma_roots(style, floats, ts, n, (k - 1) as nat, budget);
        let left = style.roots((k - 1) as nat, budget).1;
        assert(unfolds_node(style.document, style.document.roots[k - 1], ts[k - 1]));
        lemma_entity(
            style,
            floats,
            style.document.roots[k - 1],
            ts[k - 1],
            n,
            0,
            Seq::empty(),
            left,
        );
    }
}

/// What is printed for a document is the text of the trees that it unfolds to, when the budget
/// is large enough.
pub proof fn lemma_print(style: Style, floats: Floats, ts: Seq<NodeTree>, n: nat)
    requires
        unfolds_to(style.document, ts),
        forall|i: int| 0 <= i < ts.len() ==> entity_fits(floats, #[trigger] ts[i], n),
        n <= MAX_WALK_DEPTH,
        style.budget() >= node_costs(ts),
    ensures
        style.text() == roots_text(style, ts),
{
    assert(ts.take(ts.len() as int) =~= ts);
    lemma_roots(style, floats, ts, n, ts.len(), style.budget());
    lemma_root_texts_len(style, ts, ts.len());
}

proof fn lemma_root_texts_len(style: Style, ts: Seq<NodeTree>, n: nat)
    requires
        n <= ts.len(),
    ensures
        roots_texts(style, ts, n).len() == n,
    decreases n,
{
    if n > 0 {
        lemma_root_texts_len(style, ts, (n - 1) as nat);
    }
}

} // verus!
