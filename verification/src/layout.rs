//! How trees are laid out in the arenas of a document: in pre-order, so that a value or node
//! comes directly before everything inside it.

use vstd::prelude::*;

use crate::grammar::{NodeHead, NodeTree, Tree};
use crate::model::{Document, Node, NodeKind, Value};

verus! {

/// The number of values of a tree.
pub open spec fn size(t: Tree) -> nat
    decreases t,
{
    1 + sizes(t.children)
}

pub open spec fn sizes(ts: Seq<Tree>) -> nat
    decreases ts,
{
    if ts.len() == 0 {
        0
    } else {
        sizes(ts.drop_last()) + size(ts.last())
    }
}

/// The ids of trees laid out one after the other from `base` on.
pub open spec fn ids_from(ts: Seq<Tree>, base: int) -> Seq<int>
    decreases ts.len(),
{
    if ts.len() == 0 {
        Seq::empty()
    } else {
        ids_from(ts.drop_last(), base).push(base + sizes(ts.drop_last()))
    }
}

/// The values of a tree whose id is `base`.
pub open spec fn layout(t: Tree, base: int) -> Seq<Value>
    decreases t,
{
    seq![
        Value {
            id: base,
            span: t.span,
            head: t.head,
            names: t.names,
            children: ids_from(t.children, base + 1),
        },
    ] + layouts(t.children, base + 1)
}

/// The values of trees laid out one after the other from `base` on.
pub open spec fn layouts(ts: Seq<Tree>, base: int) -> Seq<Value>
    decreases ts,
{
    if ts.len() == 0 {
        Seq::empty()
    } else {
        layouts(ts.drop_last(), base) + layout(ts.last(), base + sizes(ts.drop_last()))
    }
}

/// The number of nodes of a node tree.
pub open spec fn node_size(t: NodeTree) -> nat
    decreases t,
{
    1 + node_sizes(t.children)
}

pub open spec fn node_sizes(ts: Seq<NodeTree>) -> nat
    decreases ts,
{
    if ts.len() == 0 {
        0
    } else {
        node_sizes(ts.drop_last()) + node_size(ts.last())
    }
}

/// The number of values inside a node tree.
pub open spec fn value_size(t: NodeTree) -> nat
    decreases t,
{
    (match t.head {
        NodeHead::Patch { value, .. } => size(value),
        _ => 0,
    }) + value_sizes(t.children)
}

pub open spec fn value_sizes(ts: Seq<NodeTree>) -> nat
    decreases ts,
{
    if ts.len() == 0 {
        0
    } else {
        value_sizes(ts.drop_last()) + value_size(ts.last())
    }
}

/// The ids of node trees laid out one after the other from `base` on.
pub open spec fn node_ids_from(ts: Seq<NodeTree>, base: int) -> Seq<int>
    decreases ts.len(),
{
    if ts.len() == 0 {
        Seq::empty()
    } else {
        node_ids_from(ts.drop_last(), base).push(base + node_sizes(ts.drop_last()))
    }
}

/// The ids of the patches among node trees laid out from `base` on.
pub open spec fn patch_ids_from(ts: Seq<NodeTree>, base: int) -> Seq<int>
    decreases ts.len(),
{
    if ts.len() == 0 {
        Seq::empty()
    } else if ts.last().head is Patch {
        patch_ids_from(ts.drop_last(), base).push(base + node_sizes(ts.drop_last()))
    } else {
        patch_ids_from(ts.drop_last(), base)
    }
}

/// The ids of the relations among node trees laid out from `base` on.
pub open spec fn relation_ids_from(ts: Seq<NodeTree>, base: int) -> Seq<int>
    decreases ts.len(),
{
    if ts.len() == 0 {
        Seq::empty()
    } else if ts.last().head is Relation {
        relation_ids_from(ts.drop_last(), base).push(base + node_sizes(ts.drop_last()))
    } else {
        relation_ids_from(ts.drop_last(), base)
    }
}

/// The kind of the node for a tree, whose children start at `base` and whose values start at
/// `values`.
pub open spec fn kind_of(t: NodeTree, base: int, values: int) -> NodeKind {
    match t.head {
        NodeHead::Entity { name, name_span, base: scene, base_span } => NodeKind::Entity {
            name,
            name_span,
            base: scene,
            base_span,
            patches: patch_ids_from(t.children, base),
            relations: relation_ids_from(t.children, base),
        },
        NodeHead::Patch { symbol, prefix, .. } => NodeKind::Patch { symbol, prefix, value: values },
        NodeHead::Relation { target } => NodeKind::Relation {
            target,
            entities: node_ids_from(t.children, base),
        },
    }
}

/// The nodes of a tree whose id is `base` and whose values start at `values`.
pub open spec fn node_layout(t: NodeTree, base: int, values: int) -> Seq<Node>
    decreases t,
{
    seq![Node { id: base, span: t.span, kind: kind_of(t, base + 1, values) }] + node_layouts(
        t.children,
        base + 1,
        values,
    )
}

pub open spec fn node_layouts(ts: Seq<NodeTree>, base: int, values: int) -> Seq<Node>
    decreases ts,
{
    if ts.len() == 0 {
        Seq::empty()
    } else {
        node_layouts(ts.drop_last(), base, values) + node_layout(
            ts.last(),
            base + node_sizes(ts.drop_last()),
            values + value_sizes(ts.drop_last()),
        )
    }
}

/// The values of a node tree, from `base` on.
pub open spec fn value_layout(t: NodeTree, base: int) -> Seq<Value>
    decreases t,
{
    match t.head {
        NodeHead::Patch { value, .. } => layout(value, base) + value_layouts(
            t.children,
            base + size(value),
        ),
        _ => value_layouts(t.children, base),
    }
}

pub open spec fn value_layouts(ts: Seq<NodeTree>, base: int) -> Seq<Value>
    decreases ts,
{
    if ts.len() == 0 {
        Seq::empty()
    } else {
        value_layouts(ts.drop_last(), base) + value_layout(
            ts.last(),
            base + value_sizes(ts.drop_last()),
        )
    }
}

/// The document whose roots are the given trees.
pub open spec fn document_of(roots: Seq<NodeTree>) -> Document {
    Document {
        roots: node_ids_from(roots, 0),
        nodes: node_layouts(roots, 0, 0),
        values: value_layouts(roots, 0),
    }
}

pub proof fn lemma_layout_len(t: Tree, base: int)
    ensures
        layout(t, base).len() == size(t),
    decreases t,
{
    lemma_layouts_len(t.children, base + 1);
}

pub proof fn lemma_layouts_len(ts: Seq<Tree>, base: int)
    ensures
        layouts(ts, base).len() == sizes(ts),
        ids_from(ts, base).len() == ts.len(),
    decreases ts,
{
    if ts.len() > 0 {
        lemma_layouts_len(ts.drop_last(), base);
        lemma_layout_len(ts.last(), base + sizes(ts.drop_last()));
    }
}

pub proof fn lemma_node_layout_len(t: NodeTree, base: int, values: int)
    ensures
        node_layout(t, base, values).len() == node_size(t),
    decreases t,
{
    lemma_node_layouts_len(t.children, base + 1, values);
}

pub proof fn lemma_node_layouts_len(ts: Seq<NodeTree>, base: int, values: int)
    ensures
        node_layouts(ts, base, values).len() == node_sizes(ts),
        node_ids_from(ts, base).len() == ts.len(),
    decreases ts,
{
    if ts.len() > 0 {
        lemma_node_layouts_len(ts.drop_last(), base, values);
        lemma_node_layout_len(
            ts.last(),
            base + node_sizes(ts.drop_last()),
            values + value_sizes(ts.drop_last()),
        );
    }
}

pub proof fn lemma_value_layout_len(t: NodeTree, base: int)
    ensures
        value_layout(t, base).len() == value_size(t),
    decreases t,
{
    match t.head {
        NodeHead::Patch { value, .. } => {
            lemma_layout_len(value, base);
            lemma_value_layouts_len(t.children, base + size(value));
        },
        _ => {
            lemma_value_layouts_len(t.children, base);
        },
    }
}

pub proof fn lemma_value_layouts_len(ts: Seq<NodeTree>, base: int)
    ensures
        value_layouts(ts, base).len() == value_sizes(ts),
    decreases ts,
{
    if ts.len() > 0 {
        lemma_value_layouts_len(ts.drop_last(), base);
        lemma_value_layout_len(ts.last(), base + value_sizes(ts.drop_last()));
    }
}

} // verus!
