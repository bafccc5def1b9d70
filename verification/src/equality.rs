//! Structural equality is symmetric and transitive.

use vstd::prelude::*;

use crate::compare::{
    same_document, same_head, same_node, same_nodes, same_roots, same_value, same_values,
};
use crate::model::{
    same_path, same_paths, same_segment, same_segments, Document, Head, NodeKind, Path, Segment,
};
use crate::render::MAX_WALK_DEPTH;
use crate::reparse_entities::lemma_same_path_trans;

verus! {

// -- paths ------------------------------------------------------------------------------------

pub proof fn lemma_same_path_sym(a: Path, b: Path)
    requires
        same_path(a, b),
    ensures
        same_path(b, a),
    decreases a,
{
    lemma_same_segments_sym(a.segments, b.segments);
}

proof fn lemma_same_segments_sym(a: Seq<Segment>, b: Seq<Segment>)
    requires
        same_segments(a, b),
    ensures
        same_segments(b, a),
    decreases a,
{
    if a.len() > 0 {
        lemma_same_segments_sym(a.drop_last(), b.drop_last());
        lemma_same_segment_sym(a.last(), b.last());
    }
}

proof fn lemma_same_segment_sym(a: Segment, b: Segment)
    requires
        same_segment(a, b),
    ensures
        same_segment(b, a),
    decreases a,
{
    lemma_same_paths_sym(a.generics, b.generics);
}

proof fn lemma_same_paths_sym(a: Seq<Path>, b: Seq<Path>)
    requires
        same_paths(a, b),
    ensures
        same_paths(b, a),
    decreases a,
{
    if a.len() > 0 {
        lemma_same_paths_sym(a.drop_last(), b.drop_last());
        lemma_same_path_sym(a.last(), b.last());
    }
}

// -- symmetry ---------------------------------------------------------------------------------

pub proof fn lemma_head_sym(a: Head, b: Head)
    requires
        same_head(a, b),
    ensures
        same_head(b, a),
{
    match a {
        Head::Path(x) => {
            lemma_same_path_sym(x, b->Path_0);
        },
        Head::Struct(x) => {
            lemma_same_path_sym(x, b->Struct_0);
        },
        Head::NamedTuple(x) => {
            lemma_same_path_sym(x, b->NamedTuple_0);
        },
        _ => {},
    }
}

pub proof fn lemma_value_sym(d: Document, a: int, e: Document, b: int, depth: nat)
    requires
        same_value(d, a, e, b, depth),
    ensures
        same_value(e, b, d, a, depth),
    decreases MAX_WALK_DEPTH + 1 - depth, 0nat,
{
    let x = d.value(a)->0;
    let y = e.value(b)->0;
    lemma_head_sym(x.head, y.head);
    lemma_values_sym(d, x.children, e, y.children, x.children.len(), depth);
}

proof fn lemma_values_sym(
    d: Document,
    xs: Seq<int>,
    e: Document,
    ys: Seq<int>,
    n: nat,
    depth: nat,
)
    requires
        depth <= MAX_WALK_DEPTH,
        same_values(d, xs, e, ys, n, depth),
    ensures
        same_values(e, ys, d, xs, n, depth),
    decreases MAX_WALK_DEPTH - depth, n + 1,
{
    if n > 0 {
        lemma_values_sym(d, xs, e, ys, (n - 1) as nat, depth);
        lemma_value_sym(d, xs[n - 1], e, ys[n - 1], depth + 1);
    }
}

proof fn lemma_node_sym(d: Document, a: int, e: Document, b: int, depth: nat)
    requires
        same_node(d, a, e, b, depth),
    ensures
        same_node(e, b, d, a, depth),
    decreases MAX_WALK_DEPTH + 1 - depth, 0nat,
{
    let x = d.node(a)->0.kind;
    let y = e.node(b)->0.kind;
    match x {
        NodeKind::Entity { patches, relations, .. } => {
            lemma_nodes_sym(d, patches, e, y->patches, patches.len(), depth);
            lemma_nodes_sym(d, relations, e, y->relations, relations.len(), depth);
        },
        NodeKind::Patch { symbol, value, .. } => {
            lemma_same_path_sym(symbol, y->symbol);
            lemma_value_sym(d, value, e, y->value, depth + 1);
        },
        NodeKind::Relation { target, entities } => {
            lemma_same_path_sym(target, y->target);
            lemma_nodes_sym(d, entities, e, y->entities, entities.len(), depth);
        },
    }
}

proof fn lemma_nodes_sym(
    d: Document,
    xs: Seq<int>,
    e: Document,
    ys: Seq<int>,
    n: nat,
    depth: nat,
)
    requires
        depth <= MAX_WALK_DEPTH,
        same_nodes(d, xs, e, ys, n, depth),
    ensures
        same_nodes(e, ys, d, xs, n, depth),
    decreases MAX_WALK_DEPTH - depth, n + 1,
{
    if n > 0 {
        lemma_nodes_sym(d, xs, e, ys, (n - 1) as nat, depth);
        lemma_node_sym(d, xs[n - 1], e, ys[n - 1], depth + 1);
    }
}

proof fn lemma_roots_sym(d: Document, e: Document, n: nat)
    requires
        same_roots(d, e, n),
    ensures
        same_roots(e, d, n),
    decreases n,
{
    if n > 0 {
        lemma_roots_sym(d, e, (n - 1) as nat);
        lemma_node_sym(d, d.roots[n - 1], e, e.roots[n - 1], 0);
    }
}

/// Structural equality does not depend on the order of the two documents.
pub proof fn law_equality_symmetric(d: Document, e: Document)
    ensures
        same_document(d, e) <==> same_document(e, d),
{
    if same_document(d, e) {
        lemma_roots_sym(d, e, d.roots.len());
    }
    if same_document(e, d) {
        lemma_roots_sym(e, d, e.roots.len());
    }
}

// -- transitivity -----------------------------------------------------------------------------

pub proof fn lemma_head_trans(a: Head, b: Head, c: Head)
    requires
        same_head(a, b),
        same_head(b, c),
    ensures
        same_head(a, c),
{
    match a {
        Head::Path(x) => {
            lemma_same_path_trans(x, b->Path_0, c->Path_0);
        },
        Head::Struct(x) => {
            lemma_same_path_trans(x, b->Struct_0, c->Struct_0);
        },
        Head::NamedTuple(x) => {
            lemma_same_path_trans(x, b->NamedTuple_0, c->NamedTuple_0);
        },
        _ => {},
    }
}

proof fn lemma_value_trans(
    d: Document,
    a: int,
    e: Document,
    b: int,
    f: Document,
    c: int,
    depth: nat,
)
    requires
        same_value(d, a, e, b, depth),
        same_value(e, b, f, c, depth),
    ensures
        same_value(d, a, f, c, depth),
    decreases MAX_WALK_DEPTH + 1 - depth, 0nat,
{
    let x = d.value(a)->0;
    let y = e.value(b)->0;
    let z = f.value(c)->0;
    lemma_head_trans(x.head, y.head, z.head);
    lemma_values_trans(
        d,
        x.children,
        e,
        y.children,
        f,
        z.children,
        x.children.len(),
        depth,
    );
}

proof fn lemma_values_trans(
    d: Document,
    xs: Seq<int>,
    e: Document,
    ys: Seq<int>,
    f: Document,
    zs: Seq<int>,
    n: nat,
    depth: nat,
)
    requires
        depth <= MAX_WALK_DEPTH,
        same_values(d, xs, e, ys, n, depth),
        same_values(e, ys, f, zs, n, depth),
    ensures
        same_values(d, xs, f, zs, n, depth),
    decreases MAX_WALK_DEPTH - depth, n + 1,
{
    if n > 0 {
        lemma_values_trans(d, xs, e, ys, f, zs, (n - 1) as nat, depth);
        lemma_value_trans(d, xs[n - 1], e, ys[n - 1], f, zs[n - 1], depth + 1);
    }
}

proof fn lemma_node_trans(
    d: Document,
    a: int,
    e: Document,
    b: int,
    f: Document,
    c: int,
    depth: nat,
)
    requires
        same_node(d, a, e, b, depth),
        same_node(e, b, f, c, depth),
    ensures
        same_node(d, a, f, c, depth),
    decreases MAX_WALK_DEPTH + 1 - depth, 0nat,
{
    let x = d.node(a)->0.kind;
    let y = e.node(b)->0.kind;
    let z = f.node(c)->0.kind;
    match x {
        NodeKind::Entity { patches, relations, .. } => {
            lemma_nodes_trans(d, patches, e, y->patches, f, z->patches, patches.len(), depth);
            lemma_nodes_trans(
                d,
                relations,
                e,
                y->relations,
                f,
                z->relations,
                relations.len(),
                depth,
            );
        },
        NodeKind::Patch { symbol, value, .. } => {
            lemma_same_path_trans(symbol, y->symbol, z->symbol);
            lemma_value_trans(d, value, e, y->value, f, z->value, depth + 1);
        },
        NodeKind::Relation { target, entities } => {
            lemma_same_path_trans(target, y->target, z->target);
            lemma_nodes_trans(
                d,
                entities,
                e,
                y->entities,
                f,
                z->entities,
                entities.len(),
                depth,
            );
        },
    }
}

proof fn lemma_nodes_trans(
    d: Document,
    xs: Seq<int>,
    e: Document,
    ys: Seq<int>,
    f: Document,
    zs: Seq<int>,
    n: nat,
    depth: nat,
)
    requires
        depth <= MAX_WALK_DEPTH,
        same_nodes(d, xs, e, ys, n, depth),
        same_nodes(e, ys, f, zs, n, depth),
    ensures
        same_nodes(d, xs, f, zs, n, depth),
    decreases MAX_WALK_DEPTH - depth, n + 1,
{
    if n > 0 {
        lemma_nodes_trans(d, xs, e, ys, f, zs, (n - 1) as nat, depth);
        lemma_node_trans(d, xs[n - 1], e, ys[n - 1], f, zs[n - 1], depth + 1);
    }
}

proof fn lemma_roots_trans(d: Document, e: Document, f: Document, n: nat)
    requires
        same_roots(d, e, n),
        same_roots(e, f, n),
    ensures
        same_roots(d, f, n),
    decreases n,
{
    if n > 0 {
        lemma_roots_trans(d, e, f, (n - 1) as nat);
        lemma_node_trans(d, d.roots[n - 1], e, e.roots[n - 1], f, f.roots[n - 1], 0);
    }
}

/// Documents that are structurally equal to one document are structurally equal to each other.
pub proof fn law_equality_transitive(d: Document, e: Document, f: Document)
    requires
        same_document(d, e),
        same_document(e, f),
    ensures
        same_document(d, f),
{
    lemma_roots_trans(d, e, f, d.roots.len());
}

} // verus!
