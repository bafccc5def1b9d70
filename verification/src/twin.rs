//! Trees that differ in spans only are printed alike, and documents that unfold to such trees
//! are structurally equal.

use vstd::prelude::*;

use crate::compare::{
    same_document, same_head, same_node, same_nodes, same_roots, same_value, same_values,
};
use crate::float::Floats;
use crate::grammar::{NodeHead, NodeTree, Tree};
use crate::layout::{size, sizes, value_size, value_sizes};
use crate::model::{
    path_text, paths_text, same_path, same_paths, same_segment, same_segments, segment_text,
    segments_text, Document, Head, Path, Segment,
};
use crate::order::merged;
use crate::render::{
    body_text, breakable, close_text, item_prefix, open_text, Style, MAX_WALK_DEPTH,
};
use crate::shape::{
    entity_fits, entry_fits, item_fits, tree_fits, twin_head, twin_nodes, twins,
};
use crate::span::last_line;
use crate::tree_text::{
    entities_text, entity_text, entries_text, entry_text, inline_parts, roots_text, roots_texts,
    tree_inline, tree_lines, tree_text, value_of,
};
use crate::unfolding::{picks, unfolds, unfolds_node, unfolds_to};

verus! {

// -- paths ------------------------------------------------------------------------------------

pub proof fn lemma_same_path_text(a: Path, b: Path)
    requires
        same_path(a, b),
    ensures
        path_text(a) == path_text(b),
    decreases a,
{
    lemma_same_segments_text(a.segments, b.segments);
}

proof fn lemma_same_segments_text(a: Seq<Segment>, b: Seq<Segment>)
    requires
        same_segments(a, b),
    ensures
        segments_text(a) == segments_text(b),
    decreases a,
{
    if a.len() > 0 {
        lemma_same_segments_text(a.drop_last(), b.drop_last());
        lemma_same_segment_text(a.last(), b.last());
    }
}

proof fn lemma_same_segment_text(a: Segment, b: Segment)
    requires
        same_segment(a, b),
    ensures
        segment_text(a) == segment_text(b),
    decreases a,
{
    lemma_same_paths_text(a.generics, b.generics);
}

proof fn lemma_same_paths_text(a: Seq<Path>, b: Seq<Path>)
    requires
        same_paths(a, b),
    ensures
        paths_text(a) == paths_text(b),
    decreases a,
{
    if a.len() > 0 {
        lemma_same_paths_text(a.drop_last(), b.drop_last());
        lemma_same_path_text(a.last(), b.last());
    }
}

pub proof fn lemma_same_path_refl(a: Path)
    ensures
        same_path(a, a),
    decreases a,
{
    lemma_same_segments_refl(a.segments);
}

proof fn lemma_same_segments_refl(a: Seq<Segment>)
    ensures
        same_segments(a, a),
    decreases a,
{
    if a.len() > 0 {
        lemma_same_segments_refl(a.drop_last());
        lemma_same_segment_refl(a.last());
    }
}

proof fn lemma_same_segment_refl(a: Segment)
    ensures
        same_segment(a, a),
    decreases a,
{
    lemma_same_paths_refl(a.generics);
}

proof fn lemma_same_paths_refl(a: Seq<Path>)
    ensures
        same_paths(a, a),
    decreases a,
{
    if a.len() > 0 {
        lemma_same_paths_refl(a.drop_last());
        lemma_same_path_refl(a.last());
    }
}

// -- texts ------------------------------------------------------------------------------------

proof fn lemma_twin_head_text(a: Tree, b: Tree, parts: Seq<Seq<char>>)
    requires
        twin_head(a.head, b.head),
        a.names == b.names,
        a.children.len() == b.children.len(),
    ensures
        body_text(value_of(a), parts) == body_text(value_of(b), parts),
        open_text(a.head) == open_text(b.head),
        close_text(a.head) == close_text(b.head),
        breakable(value_of(a)) == breakable(value_of(b)),
{
    match a.head {
        Head::Path(x) => {
            lemma_same_path_text(x, b.head->Path_0);
        },
        Head::Struct(x) => {
            lemma_same_path_text(x, b.head->Struct_0);
        },
        Head::NamedTuple(x) => {
            lemma_same_path_text(x, b.head->NamedTuple_0);
        },
        _ => {},
    }
}

proof fn lemma_twin_inline(a: Tree, b: Tree)
    requires
        twins(a, b),
    ensures
        tree_inline(a) == tree_inline(b),
    decreases a, a.children.len() + 1,
{
    let n = a.children.len();
    lemma_twin_parts(a, b, n);
    lemma_twin_head_text(a, b, inline_parts(a, n));
}

proof fn lemma_twin_parts(a: Tree, b: Tree, n: nat)
    requires
        twins(a, b),
        n <= a.children.len(),
    ensures
        inline_parts(a, n) == inline_parts(b, n),
    decreases a, n,
{
    if n > 0 {
        lemma_twin_parts(a, b, (n - 1) as nat);
        assert(twins(a.children[n - 1], b.children[n - 1]));
        lemma_twin_inline(a.children[n - 1], b.children[n - 1]);
    }
}

proof fn lemma_twin_text(style: Style, a: Tree, b: Tree, level: nat, column: int)
    requires
        twins(a, b),
    ensures
        tree_text(style, a, level, column) == tree_text(style, b, level, column),
    decreases a, a.children.len() + 1,
{
    lemma_twin_inline(a, b);
    lemma_twin_head_text(a, b, Seq::empty());
    lemma_twin_lines(style, a, b, a.children.len(), level);
}

proof fn lemma_twin_lines(style: Style, a: Tree, b: Tree, n: nat, level: nat)
    requires
        twins(a, b),
        n <= a.children.len(),
    ensures
        tree_lines(style, a, n, level) == tree_lines(style, b, n, level),
    decreases a, n,
{
    if n > 0 {
        let i = n - 1;
        lemma_twin_lines(style, a, b, i as nat, level);
        assert(twins(a.children[i], b.children[i]));
        let start = style.indent(level + 1) + item_prefix(value_of(a), i);
        assert(item_prefix(value_of(a), i) == item_prefix(value_of(b), i));
        assert(style.separator(value_of(a), i) == style.separator(value_of(b), i));
        lemma_twin_text(
            style,
            a.children[i],
            b.children[i],
            level + 1,
            last_line(start).len() as int,
        );
    }
}

proof fn lemma_twin_entity(style: Style, a: NodeTree, b: NodeTree, level: nat)
    requires
        twin_nodes(a, b),
    ensures
        entity_text(style, a, level) == entity_text(style, b, level),
    decreases a, a.children.len() + 1,
{
    lemma_twin_entries(style, a, b, a.children.len(), level);
}

proof fn lemma_twin_entries(style: Style, a: NodeTree, b: NodeTree, n: nat, level: nat)
    requires
        twin_nodes(a, b),
        n <= a.children.len(),
    ensures
        entries_text(style, a, n, level) == entries_text(style, b, n, level),
    decreases a, n,
{
    if n > 0 {
        lemma_twin_entries(style, a, b, (n - 1) as nat, level);
        assert(twin_nodes(a.children[n - 1], b.children[n - 1]));
        lemma_twin_entry(style, a.children[n - 1], b.children[n - 1], level);
    }
}

proof fn lemma_twin_entry(style: Style, a: NodeTree, b: NodeTree, level: nat)
    requires
        twin_nodes(a, b),
    ensures
        entry_text(style, a, level) == entry_text(style, b, level),
    decreases a, a.children.len() + 1,
{
    match a.head {
        NodeHead::Patch { prefix, value, .. } => {
            let start = style.indent(level) + prefix.spec_sigil();
            lemma_twin_text(style, value, b.head->value, level, last_line(start).len() as int);
        },
        NodeHead::Relation { target } => {
            lemma_same_path_text(target, b.head->target);
            lemma_twin_entities(style, a.children, b.children, a.children.len(), level);
        },
        _ => {},
    }
}

proof fn lemma_twin_entities(
    style: Style,
    a: Seq<NodeTree>,
    b: Seq<NodeTree>,
    n: nat,
    level: nat,
)
    requires
        a.len() == b.len(),
        forall|i: int| 0 <= i < a.len() ==> twin_nodes(#[trigger] a[i], b[i]),
        n <= a.len(),
    ensures
        entities_text(style, a, n, level) == entities_text(style, b, n, level),
    decreases a, n,
{
    if n > 0 {
        lemma_twin_entities(style, a, b, (n - 1) as nat, level);
        assert(twin_nodes(a[n - 1], b[n - 1]));
        lemma_twin_entity(style, a[n - 1], b[n - 1], level + 1);
    }
}

proof fn lemma_twin_root_texts(style: Style, a: Seq<NodeTree>, b: Seq<NodeTree>, n: nat)
    requires
        a.len() == b.len(),
        forall|i: int| 0 <= i < a.len() ==> twin_nodes(#[trigger] a[i], b[i]),
        n <= a.len(),
    ensures
        roots_texts(style, a, n) == roots_texts(style, b, n),
    decreases n,
{
    if n > 0 {
        lemma_twin_root_texts(style, a, b, (n - 1) as nat);
        assert(twin_nodes(a[n - 1], b[n - 1]));
        lemma_twin_entity(style, a[n - 1], b[n - 1], 0);
    }
}

/// Trees that differ in spans only have the same text.
pub proof fn lemma_twin_roots(style: Style, a: Seq<NodeTree>, b: Seq<NodeTree>)
    requires
        a.len() == b.len(),
        forall|i: int| 0 <= i < a.len() ==> twin_nodes(#[trigger] a[i], b[i]),
    ensures
        roots_text(style, a) == roots_text(style, b),
{
    lemma_twin_root_texts(style, a, b, a.len());
}

/// What is written for trees depends on the options of a style only.
pub proof fn lemma_style_options(a: Style, b: Style, ts: Seq<NodeTree>)
    requires
        a.options == b.options,
    ensures
        roots_text(a, ts) == roots_text(b, ts),
{
    lemma_style_roots(a, b, ts, ts.len());
}

proof fn lemma_style_roots(a: Style, b: Style, ts: Seq<NodeTree>, n: nat)
    requires
        a.options == b.options,
        n <= ts.len(),
    ensures
        roots_texts(a, ts, n) == roots_texts(b, ts, n),
    decreases n,
{
    if n > 0 {
        lemma_style_roots(a, b, ts, (n - 1) as nat);
        lemma_style_entity(a, b, ts[n - 1], 0);
    }
}

proof fn lemma_style_entity(a: Style, b: Style, t: NodeTree, level: nat)
    requires
        a.options == b.options,
    ensures
        entity_text(a, t, level) == entity_text(b, t, level),
    decreases t, t.children.len() + 1,
{
    lemma_style_entries(a, b, t, t.children.len(), level);
}

proof fn lemma_style_entries(a: Style, b: Style, t: NodeTree, n: nat, level: nat)
    requires
        a.options == b.options,
        n <= t.children.len(),
    ensures
        entries_text(a, t, n, level) == entries_text(b, t, n, level),
    decreases t, n,
{
    if n > 0 {
        lemma_style_entries(a, b, t, (n - 1) as nat, level);
        lemma_style_entry(a, b, t.children[n - 1], level);
    }
}

proof fn lemma_style_entry(a: Style, b: Style, t: NodeTree, level: nat)
    requires
        a.options == b.options,
    ensures
        entry_text(a, t, level) == entry_text(b, t, level),
    decreases t, t.children.len() + 1,
{
    match t.head {
        NodeHead::Patch { prefix, value, .. } => {
            let start = a.indent(level) + prefix.spec_sigil();
            lemma_style_text(a, b, value, level, last_line(start).len() as int);
        },
        NodeHead::Relation { .. } => {
            lemma_style_entities(a, b, t.children, t.children.len(), level);
        },
        _ => {},
    }
}

proof fn lemma_style_entities(a: Style, b: Style, ts: Seq<NodeTree>, n: nat, level: nat)
    requires
        a.options == b.options,
        n <= ts.len(),
    ensures
        entities_text(a, ts, n, level) == entities_text(b, ts, n, level),
    decreases ts, n,
{
    if n > 0 {
        lemma_style_entities(a, b, ts, (n - 1) as nat, level);
        lemma_style_entity(a, b, ts[n - 1], level + 1);
    }
}

proof fn lemma_style_text(a: Style, b: Style, t: Tree, level: nat, column: int)
    requires
        a.options == b.options,
    ensures
        tree_text(a, t, level, column) == tree_text(b, t, level, column),
    decreases t, t.children.len() + 1,
{
    lemma_style_lines(a, b, t, t.children.len(), level);
}

proof fn lemma_style_lines(a: Style, b: Style, t: Tree, n: nat, level: nat)
    requires
        a.options == b.options,
        n <= t.children.len(),
    ensures
        tree_lines(a, t, n, level) == tree_lines(b, t, n, level),
    decreases t, n,
{
    if n > 0 {
        let i = n - 1;
        let start = a.indent(level + 1) + item_prefix(value_of(t), i);
        lemma_style_lines(a, b, t, i as nat, level);
        lemma_style_text(a, b, t.children[i], level + 1, last_line(start).len() as int);
    }
}

// -- structural equality ----------------------------------------------------------------------

pub proof fn lemma_twin_values(
    d: Document,
    x: int,
    e: Document,
    y: int,
    a: Tree,
    b: Tree,
    floats: Floats,
    n: nat,
    depth: nat,
)
    requires
        unfolds(d, x, a),
        unfolds(e, y, b),
        twins(a, b),
        tree_fits(floats, a, n),
        depth + n <= MAX_WALK_DEPTH + 1,
    ensures
        same_value(d, x, e, y, depth),
    decreases a, a.children.len() + 1,
{
    lemma_twin_value_lists(d, x, e, y, a, b, floats, n, depth, a.children.len());
    assert(same_head(a.head, b.head));
}

proof fn lemma_twin_value_lists(
    d: Document,
    x: int,
    e: Document,
    y: int,
    a: Tree,
    b: Tree,
    floats: Floats,
    n: nat,
    depth: nat,
    k: nat,
)
    requires
        unfolds(d, x, a),
        unfolds(e, y, b),
        twins(a, b),
        tree_fits(floats, a, n),
        depth + n <= MAX_WALK_DEPTH + 1,
        k <= a.children.len(),
    ensures
        same_values(d, d.value(x)->0.children, e, e.value(y)->0.children, k, depth),
    decreases a, k,
{
    if k > 0 {
        let xs = d.value(x)->0.children;
        let ys = e.value(y)->0.children;
        let i = k - 1;
        lemma_twin_value_lists(d, x, e, y, a, b, floats, n, depth, i as nat);
        assert(unfolds(d, xs[i], a.children[i]));
        assert(unfolds(e, ys[i], b.children[i]));
        assert(twins(a.children[i], b.children[i]));
        assert(item_fits(floats, a.children[i], (n - 1) as nat));
        lemma_twin_values(
            d,
            xs[i],
            e,
            ys[i],
            a.children[i],
            b.children[i],
            floats,
            (n - 1) as nat,
            depth + 1,
        );
    }
}

/// Lists of equal nodes stay equal when a pair of equal nodes is added.
proof fn lemma_same_nodes_push(
    d: Document,
    xs: Seq<int>,
    e: Document,
    ys: Seq<int>,
    x: int,
    y: int,
    n: nat,
    depth: nat,
)
    requires
        depth <= MAX_WALK_DEPTH,
        n <= xs.len(),
        n <= ys.len(),
        same_nodes(d, xs, e, ys, n, depth),
    ensures
        same_nodes(d, xs.push(x), e, ys.push(y), n, depth),
    decreases n,
{
    if n > 0 {
        lemma_same_nodes_push(d, xs, e, ys, x, y, (n - 1) as nat, depth);
    }
}

/// The patches (or the relations) among the first `k` of two lists of twin entries are equal.
proof fn lemma_twin_picks(
    d: Document,
    xs: Seq<int>,
    e: Document,
    ys: Seq<int>,
    a: Seq<NodeTree>,
    b: Seq<NodeTree>,
    floats: Floats,
    n: nat,
    depth: nat,
    patches: bool,
    k: nat,
)
    requires
        xs.len() == a.len(),
        ys.len() == b.len(),
        a.len() == b.len(),
        forall|i: int| 0 <= i < a.len() ==> unfolds_node(d, xs[i], #[trigger] a[i]),
        forall|i: int| 0 <= i < b.len() ==> unfolds_node(e, ys[i], #[trigger] b[i]),
        forall|i: int| 0 <= i < a.len() ==> twin_nodes(#[trigger] a[i], b[i]),
        forall|i: int| 0 <= i < a.len() ==> entry_fits(floats, #[trigger] a[i], n),
        depth + 2 * n < MAX_WALK_DEPTH,
        k <= a.len(),
    ensures
        ({
            let p = picks(xs, a, patches, k);
            let q = picks(ys, b, patches, k);
            p.len() == q.len() && same_nodes(d, p, e, q, p.len(), depth)
        }),
    decreases a, k, 0nat,
{
    if k > 0 {
        let i = k - 1;
        lemma_twin_picks(d, xs, e, ys, a, b, floats, n, depth, patches, i as nat);
        assert(twin_nodes(a[i], b[i]));
        if a[i].head is Patch == patches {
            let p = picks(xs, a, patches, i as nat);
            let q = picks(ys, b, patches, i as nat);
            assert(unfolds_node(d, xs[i], a[i]));
            assert(unfolds_node(e, ys[i], b[i]));
            assert(entry_fits(floats, a[i], n));
            lemma_twin_entry_nodes(d, xs[i], e, ys[i], a[i], b[i], floats, n, depth + 1);
            lemma_same_nodes_push(d, p, e, q, xs[i], ys[i], p.len(), depth);
        }
    }
}

proof fn lemma_twin_entry_nodes(
    d: Document,
    x: int,
    e: Document,
    y: int,
    a: NodeTree,
    b: NodeTree,
    floats: Floats,
    n: nat,
    depth: nat,
)
    requires
        unfolds_node(d, x, a),
        unfolds_node(e, y, b),
        twin_nodes(a, b),
        entry_fits(floats, a, n),
        depth + 2 * n <= MAX_WALK_DEPTH,
    ensures
        same_node(d, x, e, y, depth),
    decreases a, 0nat, 0nat,
{
    match a.head {
        NodeHead::Patch { value, .. } => {
            lemma_twin_values(
                d,
                d.node(x)->0.kind->value,
                e,
                e.node(y)->0.kind->value,
                value,
                b.head->value,
                floats,
                n + 1,
                depth + 1,
            );
        },
        NodeHead::Relation { target } => {
            lemma_twin_lists(
                d,
                d.node(x)->0.kind->entities,
                e,
                e.node(y)->0.kind->entities,
                a.children,
                b.children,
                floats,
                n,
                depth,
                a.children.len(),
            );
        },
        _ => {},
    }
}

proof fn lemma_twin_lists(
    d: Document,
    xs: Seq<int>,
    e: Document,
    ys: Seq<int>,
    a: Seq<NodeTree>,
    b: Seq<NodeTree>,
    floats: Floats,
    n: nat,
    depth: nat,
    k: nat,
)
    requires
        xs.len() == a.len(),
        ys.len() == b.len(),
        a.len() == b.len(),
        forall|i: int| 0 <= i < a.len() ==> unfolds_node(d, xs[i], #[trigger] a[i]),
        forall|i: int| 0 <= i < b.len() ==> unfolds_node(e, ys[i], #[trigger] b[i]),
        forall|i: int| 0 <= i < a.len() ==> twin_nodes(#[trigger] a[i], b[i]),
        forall|i: int| 0 <= i < a.len() ==> entity_fits(floats, #[trigger] a[i], n),
        depth + 2 * n <= MAX_WALK_DEPTH,
        k <= a.len(),
    ensures
        same_nodes(d, xs, e, ys, k, depth),
    decreases a, k, 0nat,
{
    if k > 0 {
        let i = k - 1;
        lemma_twin_lists(d, xs, e, ys, a, b, floats, n, depth, i as nat);
        assert(unfolds_node(d, xs[i], a[i]));
        assert(unfolds_node(e, ys[i], b[i]));
        assert(twin_nodes(a[i], b[i]));
        assert(entity_fits(floats, a[i], n));
        lemma_twin_entity_nodes(d, xs[i], e, ys[i], a[i], b[i], floats, n, depth + 1);
    }
}

proof fn lemma_twin_entity_nodes(
    d: Document,
    x: int,
    e: Document,
    y: int,
    a: NodeTree,
    b: NodeTree,
    floats: Floats,
    n: nat,
    depth: nat,
)
    requires
        unfolds_node(d, x, a),
        unfolds_node(e, y, b),
        twin_nodes(a, b),
        entity_fits(floats, a, n),
        depth + 2 * n <= MAX_WALK_DEPTH + 1,
    ensures
        same_node(d, x, e, y, depth),
    decreases a, 0nat, 0nat,
{
    let p = d.node(x)->0.kind;
    let q = e.node(y)->0.kind;
    let xs = merged(d, p->patches, p->relations);
    let ys = merged(e, q->patches, q->relations);
    let k = a.children.len();
    lemma_twin_picks(
        d,
        xs,
        e,
        ys,
        a.children,
        b.children,
        floats,
        (n - 1) as nat,
        depth,
        true,
        k,
    );
    lemma_twin_picks(
        d,
        xs,
        e,
        ys,
        a.children,
        b.children,
        floats,
        (n - 1) as nat,
        depth,
        false,
        k,
    );
}

proof fn lemma_twin_root_nodes(
    d: Document,
    e: Document,
    a: Seq<NodeTree>,
    b: Seq<NodeTree>,
    floats: Floats,
    n: nat,
    k: nat,
)
    requires
        unfolds_to(d, a),
        unfolds_to(e, b),
        a.len() == b.len(),
        forall|i: int| 0 <= i < a.len() ==> twin_nodes(#[trigger] a[i], b[i]),
        forall|i: int| 0 <= i < a.len() ==> entity_fits(floats, #[trigger] a[i], n),
        2 * n <= MAX_WALK_DEPTH,
        k <= a.len(),
    ensures
        same_roots(d, e, k),
    decreases k,
{
    if k > 0 {
        let i = k - 1;
        lemma_twin_root_nodes(d, e, a, b, floats, n, i as nat);
        assert(unfolds_node(d, d.roots[i], a[i]));
        assert(unfolds_node(e, e.roots[i], b[i]));
        assert(twin_nodes(a[i], b[i]));
        assert(entity_fits(floats, a[i], n));
        lemma_twin_entity_nodes(d, d.roots[i], e, e.roots[i], a[i], b[i], floats, n, 0);
    }
}

/// Documents that unfold to trees that differ in spans only are structurally equal.
pub proof fn lemma_twin_documents(
    d: Document,
    e: Document,
    a: Seq<NodeTree>,
    b: Seq<NodeTree>,
    floats: Floats,
    n: nat,
)
    requires
        unfolds_to(d, a),
        unfolds_to(e, b),
        a.len() == b.len(),
        forall|i: int| 0 <= i < a.len() ==> twin_nodes(#[trigger] a[i], b[i]),
        forall|i: int| 0 <= i < a.len() ==> entity_fits(floats, #[trigger] a[i], n),
        2 * n <= MAX_WALK_DEPTH,
    ensures
        same_document(d, e),
{
    lemma_twin_root_nodes(d, e, a, b, floats, n, a.len());
}

// -- sizes ------------------------------------------------------------------------------------

proof fn lemma_twin_size(a: Tree, b: Tree)
    requires
        twins(a, b),
    ensures
        size(a) == size(b),
    decreases a,
{
    lemma_twin_sizes(a.children, b.children);
}

proof fn lemma_twin_sizes(a: Seq<Tree>, b: Seq<Tree>)
    requires
        a.len() == b.len(),
        forall|i: int| 0 <= i < a.len() ==> twins(#[trigger] a[i], b[i]),
    ensures
        sizes(a) == sizes(b),
    decreases a,
{
    if a.len() > 0 {
        let init = a.drop_last();
        assert forall|i: int| 0 <= i < init.len() implies twins(
            #[trigger] init[i],
            b.drop_last()[i],
        ) by {
            assert(twins(a[i], b[i]));
        }
        lemma_twin_sizes(init, b.drop_last());
        assert(twins(a[a.len() - 1], b[a.len() - 1]));
        lemma_twin_size(a.last(), b.last());
    }
}

proof fn lemma_twin_value_size(a: NodeTree, b: NodeTree)
    requires
        twin_nodes(a, b),
    ensures
        value_size(a) == value_size(b),
    decreases a,
{
    if let NodeHead::Patch { value, .. } = a.head {
        lemma_twin_size(value, b.head->value);
    }
    lemma_twin_value_sizes(a.children, b.children);
}

/// Trees that differ in spans only hold the same number of values.
pub proof fn lemma_twin_value_sizes(a: Seq<NodeTree>, b: Seq<NodeTree>)
    requires
        a.len() == b.len(),
        forall|i: int| 0 <= i < a.len() ==> twin_nodes(#[trigger] a[i], b[i]),
    ensures
        value_sizes(a) == value_sizes(b),
    decreases a,
{
    if a.len() > 0 {
        let init = a.drop_last();
        assert forall|i: int| 0 <= i < init.len() implies twin_nodes(
            #[trigger] init[i],
            b.drop_last()[i],
        ) by {
            assert(twin_nodes(a[i], b[i]));
        }
        lemma_twin_value_sizes(init, b.drop_last());
        assert(twin_nodes(a[a.len() - 1], b[a.len() - 1]));
        lemma_twin_value_size(a.last(), b.last());
    }
}

/// A tree is a twin of itself.
proof fn lemma_twin_refl(t: Tree)
    ensures
        twins(t, t),
    decreases t,
{
    match t.head {
        Head::Path(x) => {
            lemma_same_path_refl(x);
        },
        Head::Struct(x) => {
            lemma_same_path_refl(x);
        },
        Head::NamedTuple(x) => {
            lemma_same_path_refl(x);
        },
        _ => {},
    }
    assert forall|i: int| 0 <= i < t.children.len() implies twins(
        #[trigger] t.children[i],
        t.children[i],
    ) by {
        lemma_twin_refl(t.children[i]);
    }
}

/// A node tree is a twin of itself.
pub proof fn lemma_twin_node_refl(t: NodeTree)
    ensures
        twin_nodes(t, t),
    decreases t,
{
    match t.head {
        NodeHead::Patch { symbol, value, .. } => {
            lemma_same_path_refl(symbol);
            lemma_twin_refl(value);
        },
        NodeHead::Relation { target } => {
            lemma_same_path_refl(target);
        },
        _ => {},
    }
    assert forall|i: int| 0 <= i < t.children.len() implies twin_nodes(
        #[trigger] t.children[i],
        t.children[i],
    ) by {
        lemma_twin_node_refl(t.children[i]);
    }
}

} // verus!
