//! Which documents equal themselves, and what structural equality looks at.

use vstd::prelude::*;

use crate::compare::{
    same_document, same_head, same_node, same_nodes, same_roots, same_value, same_values,
};
use crate::equality::{lemma_head_sym, lemma_head_trans, lemma_same_path_sym};
use crate::float::Float;
use crate::model::{same_path, Document, Head, NodeKind, Value};
use crate::render::MAX_WALK_DEPTH;
use crate::reparse_entities::lemma_same_path_trans;
use crate::twin::lemma_same_path_refl;

verus! {

// -- reflexivity --------------------------------------------------------------------------------

/// Whether every id that is reachable from the value `id` is valid, and no walk from it goes
/// deeper than 256. There are no cycles then.
pub open spec fn value_walkable(d: Document, id: int, depth: nat) -> bool
    decreases MAX_WALK_DEPTH + 1 - depth,
{
    depth <= MAX_WALK_DEPTH && (d.value(id) matches Some(value) && forall|i: int|
        0 <= i < value.children.len() ==> value_walkable(
            d,
            #[trigger] value.children[i],
            depth + 1,
        ))
}

/// Whether every id that is reachable from the node `id` is valid, and no walk from it goes
/// deeper than 256.
pub open spec fn node_walkable(d: Document, id: int, depth: nat) -> bool
    decreases MAX_WALK_DEPTH + 1 - depth,
{
    depth <= MAX_WALK_DEPTH && (d.node(id) matches Some(node) && match node.kind {
        NodeKind::Entity { patches, relations, .. } => {
            &&& forall|i: int|
                0 <= i < patches.len() ==> node_walkable(d, #[trigger] patches[i], depth + 1)
            &&& forall|i: int|
                0 <= i < relations.len() ==> node_walkable(d, #[trigger] relations[i], depth + 1)
        },
        NodeKind::Patch { value, .. } => value_walkable(d, value, depth + 1),
        NodeKind::Relation { entities, .. } => forall|i: int|
            0 <= i < entities.len() ==> node_walkable(d, #[trigger] entities[i], depth + 1),
    })
}

/// Whether every id that is reachable from a root is valid, and no walk from a root goes deeper
/// than 256.
pub open spec fn walkable(d: Document) -> bool {
    forall|i: int| 0 <= i < d.roots.len() ==> node_walkable(d, #[trigger] d.roots[i], 0)
}

proof fn lemma_head_refl(head: Head)
    ensures
        same_head(head, head),
{
    match head {
        Head::Path(path) => {
            lemma_same_path_refl(path);
        },
        Head::Struct(path) => {
            lemma_same_path_refl(path);
        },
        Head::NamedTuple(path) => {
            lemma_same_path_refl(path);
        },
        _ => {},
    }
}

proof fn lemma_value_refl(d: Document, id: int, depth: nat)
    ensures
        same_value(d, id, d, id, depth) <==> value_walkable(d, id, depth),
    decreases MAX_WALK_DEPTH + 1 - depth, 0nat,
{
    if depth <= MAX_WALK_DEPTH {
        if let Some(value) = d.value(id) {
            lemma_head_refl(value.head);
            lemma_values_refl(d, value.children, value.children.len(), depth);
        }
    }
}

proof fn lemma_values_refl(d: Document, ids: Seq<int>, n: nat, depth: nat)
    requires
        depth <= MAX_WALK_DEPTH,
        n <= ids.len(),
    ensures
        same_values(d, ids, d, ids, n, depth) <==> forall|i: int|
            0 <= i < n ==> value_walkable(d, #[trigger] ids[i], depth + 1),
    decreases MAX_WALK_DEPTH - depth, n + 1,
{
    if n > 0 {
        lemma_values_refl(d, ids, (n - 1) as nat, depth);
        lemma_value_refl(d, ids[n - 1], depth + 1);
    }
}

proof fn lemma_node_refl(d: Document, id: int, depth: nat)
    ensures
        same_node(d, id, d, id, depth) <==> node_walkable(d, id, depth),
    decreases MAX_WALK_DEPTH + 1 - depth, 0nat,
{
    if depth <= MAX_WALK_DEPTH {
        if let Some(node) = d.node(id) {
            match node.kind {
                NodeKind::Entity { patches, relations, .. } => {
                    lemma_nodes_refl(d, patches, patches.len(), depth);
                    lemma_nodes_refl(d, relations, relations.len(), depth);
                },
                NodeKind::Patch { symbol, value, .. } => {
                    lemma_same_path_refl(symbol);
                    lemma_value_refl(d, value, depth + 1);
                },
                NodeKind::Relation { target, entities } => {
                    lemma_same_path_refl(target);
                    lemma_nodes_refl(d, entities, entities.len(), depth);
                },
            }
        }
    }
}

proof fn lemma_nodes_refl(d: Document, ids: Seq<int>, n: nat, depth: nat)
    requires
        depth <= MAX_WALK_DEPTH,
        n <= ids.len(),
    ensures
        same_nodes(d, ids, d, ids, n, depth) <==> forall|i: int|
            0 <= i < n ==> node_walkable(d, #[trigger] ids[i], depth + 1),
    decreases MAX_WALK_DEPTH - depth, n + 1,
{
    if n > 0 {
        lemma_nodes_refl(d, ids, (n - 1) as nat, depth);
        lemma_node_refl(d, ids[n - 1], depth + 1);
    }
}

proof fn lemma_roots_refl(d: Document, n: nat)
    requires
        n <= d.roots.len(),
    ensures
        same_roots(d, d, n) <==> forall|i: int|
            0 <= i < n ==> node_walkable(d, #[trigger] d.roots[i], 0),
    decreases n,
{
    if n > 0 {
        lemma_roots_refl(d, (n - 1) as nat);
        lemma_node_refl(d, d.roots[n - 1], 0);
    }
}

/// A document equals itself exactly when every reachable id is valid and no walk goes deeper
/// than 256: so does every document without cycles and dangling ids that is not nested deeper.
pub proof fn law_equality_reflexive(d: Document)
    ensures
        same_document(d, d) <==> walkable(d),
{
    lemma_roots_refl(d, d.roots.len());
}

// -- spans and ids ------------------------------------------------------------------------------

/// Whether two heads differ in spans at most.
pub open spec fn respanned(a: Head, b: Head) -> bool {
    match a {
        Head::Path(x) => b matches Head::Path(y) && same_path(x, y),
        Head::Struct(x) => b matches Head::Struct(y) && same_path(x, y),
        Head::NamedTuple(x) => b matches Head::NamedTuple(y) && same_path(x, y),
        _ => a == b,
    }
}

/// The ids of a list, renumbered.
pub open spec fn renumbered(ids: Seq<int>, number: spec_fn(int) -> int) -> Seq<int> {
    ids.map_values(number)
}

/// Whether `b` is the kind of node `a`, with the ids in it renumbered and any spans.
pub open spec fn renumbered_kind(
    a: NodeKind,
    b: NodeKind,
    nodes: spec_fn(int) -> int,
    values: spec_fn(int) -> int,
) -> bool {
    match a {
        NodeKind::Entity { name, base, patches, relations, .. } => b matches NodeKind::Entity {
            name: other_name,
            base: other_base,
            patches: other_patches,
            relations: other_relations,
            ..
        } && name == other_name && base == other_base && other_patches == renumbered(
            patches,
            nodes,
        ) && other_relations == renumbered(relations, nodes),
        NodeKind::Patch { symbol, prefix, value } => b matches NodeKind::Patch {
            symbol: other_symbol,
            prefix: other_prefix,
            value: other_value,
        } && same_path(symbol, other_symbol) && prefix == other_prefix && other_value == values(
            value,
        ),
        NodeKind::Relation { target, entities } => b matches NodeKind::Relation {
            target: other_target,
            entities: other_entities,
        } && same_path(target, other_target) && other_entities == renumbered(entities, nodes),
    }
}

/// Whether `e` is `d` with its arenas renumbered, together with all ids into them, and with any
/// spans. An id that is not valid in `d` is renumbered to one that is not valid in `e`.
pub open spec fn is_renumbering(
    d: Document,
    e: Document,
    nodes: spec_fn(int) -> int,
    values: spec_fn(int) -> int,
) -> bool {
    &&& e.roots == renumbered(d.roots, nodes)
    &&& forall|id: int|
        match #[trigger] d.node(id) {
            Some(x) => e.node(nodes(id)) matches Some(y) && renumbered_kind(
                x.kind,
                y.kind,
                nodes,
                values,
            ),
            None => e.node(nodes(id)) is None,
        }
    &&& forall|id: int|
        match #[trigger] d.value(id) {
            Some(x) => e.value(values(id)) matches Some(y) && respanned(x.head, y.head) && y.names
                == x.names && y.children == renumbered(x.children, values),
            None => e.value(values(id)) is None,
        }
}

proof fn lemma_respanned(a: Head, b: Head, c: Head)
    requires
        respanned(a, b),
    ensures
        same_head(a, c) <==> same_head(b, c),
{
    lemma_head_refl(a);
    assert(same_head(a, b));
    lemma_head_sym(a, b);
    if same_head(a, c) {
        lemma_head_trans(b, a, c);
    }
    if same_head(b, c) {
        lemma_head_trans(a, b, c);
    }
}

spec fn paths_agree(a: crate::model::Path, b: crate::model::Path) -> bool {
    forall|c: crate::model::Path| #[trigger] same_path(a, c) <==> same_path(b, c)
}

proof fn lemma_paths_agree(a: crate::model::Path, b: crate::model::Path)
    requires
        same_path(a, b),
    ensures
        paths_agree(a, b),
{
    lemma_same_path_sym(a, b);
    assert forall|c: crate::model::Path| #[trigger] same_path(a, c) <==> same_path(b, c) by {
        if same_path(a, c) {
            lemma_same_path_trans(b, a, c);
        }
        if same_path(b, c) {
            lemma_same_path_trans(a, b, c);
        }
    }
}

proof fn lemma_value_renumbered(
    d: Document,
    e: Document,
    nodes: spec_fn(int) -> int,
    values: spec_fn(int) -> int,
    id: int,
    x: Document,
    b: int,
    depth: nat,
)
    requires
        is_renumbering(d, e, nodes, values),
    ensures
        same_value(d, id, x, b, depth) <==> same_value(e, values(id), x, b, depth),
    decreases MAX_WALK_DEPTH + 1 - depth, 0nat,
{
    if depth <= MAX_WALK_DEPTH {
        match (d.value(id), x.value(b)) {
            (Some(p), Some(q)) => {
                let r = e.value(values(id))->0;
                lemma_respanned(p.head, r.head, q.head);
                if p.children.len() == q.children.len() {
                    lemma_values_renumbered(
                        d,
                        e,
                        nodes,
                        values,
                        p.children,
                        x,
                        q.children,
                        p.children.len(),
                        depth,
                    );
                }
            },
            _ => {},
        }
    }
}

proof fn lemma_values_renumbered(
    d: Document,
    e: Document,
    nodes: spec_fn(int) -> int,
    values: spec_fn(int) -> int,
    ids: Seq<int>,
    x: Document,
    others: Seq<int>,
    n: nat,
    depth: nat,
)
    requires
        is_renumbering(d, e, nodes, values),
        depth <= MAX_WALK_DEPTH,
        n <= ids.len(),
    ensures
        same_values(d, ids, x, others, n, depth) <==> same_values(
            e,
            renumbered(ids, values),
            x,
            others,
            n,
            depth,
        ),
    decreases MAX_WALK_DEPTH - depth, n + 1,
{
    if n > 0 {
        lemma_values_renumbered(d, e, nodes, values, ids, x, others, (n - 1) as nat, depth);
        lemma_value_renumbered(d, e, nodes, values, ids[n - 1], x, others[n - 1], depth + 1);
    }
}

proof fn lemma_node_renumbered(
    d: Document,
    e: Document,
    nodes: spec_fn(int) -> int,
    values: spec_fn(int) -> int,
    id: int,
    x: Document,
    b: int,
    depth: nat,
)
    requires
        is_renumbering(d, e, nodes, values),
    ensures
        same_node(d, id, x, b, depth) <==> same_node(e, nodes(id), x, b, depth),
    decreases MAX_WALK_DEPTH + 1 - depth, 0nat,
{
    if depth <= MAX_WALK_DEPTH {
        match (d.node(id), x.node(b)) {
            (Some(p), Some(q)) => {
                let r = e.node(nodes(id))->0;
                match (p.kind, q.kind) {
                    (
                        NodeKind::Entity { patches, relations, .. },
                        NodeKind::Entity { patches: ps, relations: rs, .. },
                    ) => {
                        lemma_nodes_renumbered(
                            d,
                            e,
                            nodes,
                            values,
                            patches,
                            x,
                            ps,
                            patches.len(),
                            depth,
                        );
                        lemma_nodes_renumbered(
                            d,
                            e,
                            nodes,
                            values,
                            relations,
                            x,
                            rs,
                            relations.len(),
                            depth,
                        );
                    },
                    (
                        NodeKind::Patch { symbol, value, .. },
                        NodeKind::Patch { value: other, .. },
                    ) => {
                        lemma_paths_agree(symbol, r.kind->symbol);
                        lemma_value_renumbered(d, e, nodes, values, value, x, other, depth + 1);
                    },
                    (
                        NodeKind::Relation { target, entities },
                        NodeKind::Relation { entities: others, .. },
                    ) => {
                        lemma_paths_agree(target, r.kind->target);
                        lemma_nodes_renumbered(
                            d,
                            e,
                            nodes,
                            values,
                            entities,
                            x,
                            others,
                            entities.len(),
                            depth,
                        );
                    },
                    _ => {},
                }
            },
            _ => {},
        }
    }
}

proof fn lemma_nodes_renumbered(
    d: Document,
    e: Document,
    nodes: spec_fn(int) -> int,
    values: spec_fn(int) -> int,
    ids: Seq<int>,
    x: Document,
    others: Seq<int>,
    n: nat,
    depth: nat,
)
    requires
        is_renumbering(d, e, nodes, values),
        depth <= MAX_WALK_DEPTH,
        n <= ids.len(),
    ensures
        same_nodes(d, ids, x, others, n, depth) <==> same_nodes(
            e,
            renumbered(ids, nodes),
            x,
            others,
            n,
            depth,
        ),
    decreases MAX_WALK_DEPTH - depth, n + 1,
{
    if n > 0 {
        lemma_nodes_renumbered(d, e, nodes, values, ids, x, others, (n - 1) as nat, depth);
        lemma_node_renumbered(d, e, nodes, values, ids[n - 1], x, others[n - 1], depth + 1);
    }
}

proof fn lemma_roots_renumbered(
    d: Document,
    e: Document,
    nodes: spec_fn(int) -> int,
    values: spec_fn(int) -> int,
    x: Document,
    n: nat,
)
    requires
        is_renumbering(d, e, nodes, values),
        n <= d.roots.len(),
    ensures
        same_roots(d, x, n) <==> same_roots(e, x, n),
    decreases n,
{
    if n > 0 {
        lemma_roots_renumbered(d, e, nodes, values, x, (n - 1) as nat);
        lemma_node_renumbered(d, e, nodes, values, d.roots[n - 1], x, x.roots[n - 1], 0);
    }
}

/// Changing spans, or renumbering the arenas together with all ids into them, never changes what
/// a document equals.
pub proof fn law_equality_ignores_spans_and_ids(
    d: Document,
    e: Document,
    nodes: spec_fn(int) -> int,
    values: spec_fn(int) -> int,
    x: Document,
)
    requires
        is_renumbering(d, e, nodes, values),
    ensures
        same_document(d, x) <==> same_document(e, x),
{
    lemma_roots_renumbered(d, e, nodes, values, x, d.roots.len());
}

// -- floats -------------------------------------------------------------------------------------

/// Whether a walk from the value `a` meets the value `id`.
pub open spec fn value_reaches(d: Document, a: int, id: int, depth: nat) -> bool
    decreases MAX_WALK_DEPTH + 1 - depth,
{
    depth <= MAX_WALK_DEPTH && (a == id || (d.value(a) matches Some(value) && exists|i: int|
        0 <= i < value.children.len() && value_reaches(
            d,
            #[trigger] value.children[i],
            id,
            depth + 1,
        )))
}

/// Whether a walk from the node `a` meets the value `id`.
pub open spec fn node_reaches(d: Document, a: int, id: int, depth: nat) -> bool
    decreases MAX_WALK_DEPTH + 1 - depth,
{
    depth <= MAX_WALK_DEPTH && (d.node(a) matches Some(node) && match node.kind {
        NodeKind::Entity { patches, relations, .. } => {
            ||| exists|i: int|
                0 <= i < patches.len() && node_reaches(d, #[trigger] patches[i], id, depth + 1)
            ||| exists|i: int|
                0 <= i < relations.len() && node_reaches(d, #[trigger] relations[i], id, depth + 1)
        },
        NodeKind::Patch { value, .. } => value_reaches(d, value, id, depth + 1),
        NodeKind::Relation { entities, .. } => exists|i: int|
            0 <= i < entities.len() && node_reaches(d, #[trigger] entities[i], id, depth + 1),
    })
}

/// Whether a walk from a root meets the value `id`.
pub open spec fn reaches(d: Document, id: int) -> bool {
    exists|i: int| 0 <= i < d.roots.len() && node_reaches(d, #[trigger] d.roots[i], id, 0)
}

/// The document with the float `float` in place of the value `id`.
pub open spec fn with_float(d: Document, id: int, float: Float) -> Document {
    Document {
        values: d.values.update(id, Value { head: Head::Float(float), ..d.values[id] }),
        ..d
    }
}

proof fn lemma_value_differs(d: Document, a: int, id: int, old_float: Float, float: Float, depth: nat)
    requires
        0 <= id < d.values.len(),
        d.values[id].head == Head::Float(old_float),
        !old_float.same(float),
        value_reaches(d, a, id, depth),
    ensures
        !same_value(d, a, with_float(d, id, float), a, depth),
    decreases MAX_WALK_DEPTH + 1 - depth,
{
    let e = with_float(d, id, float);
    if a != id {
        let value = d.value(a)->0;
        let i = choose|i: int|
            0 <= i < value.children.len() && value_reaches(
                d,
                #[trigger] value.children[i],
                id,
                depth + 1,
            );
        lemma_value_differs(d, value.children[i], id, old_float, float, depth + 1);
        assert(e.value(a) == d.value(a));
        lemma_values_differ(d, e, value.children, value.children.len(), i, depth);
    }
}

proof fn lemma_values_differ(d: Document, e: Document, ids: Seq<int>, n: nat, i: int, depth: nat)
    requires
        depth <= MAX_WALK_DEPTH,
        0 <= i < n <= ids.len(),
        !same_value(d, ids[i], e, ids[i], depth + 1),
    ensures
        !same_values(d, ids, e, ids, n, depth),
    decreases n,
{
    if i < n - 1 {
        lemma_values_differ(d, e, ids, (n - 1) as nat, i, depth);
    }
}

proof fn lemma_nodes_differ(d: Document, e: Document, ids: Seq<int>, n: nat, i: int, depth: nat)
    requires
        depth <= MAX_WALK_DEPTH,
        0 <= i < n <= ids.len(),
        !same_node(d, ids[i], e, ids[i], depth + 1),
    ensures
        !same_nodes(d, ids, e, ids, n, depth),
    decreases n,
{
    if i < n - 1 {
        lemma_nodes_differ(d, e, ids, (n - 1) as nat, i, depth);
    }
}

proof fn lemma_some_node_differs(
    d: Document,
    ids: Seq<int>,
    id: int,
    old_float: Float,
    float: Float,
    depth: nat,
    i: int,
)
    requires
        depth <= MAX_WALK_DEPTH,
        0 <= id < d.values.len(),
        d.values[id].head == Head::Float(old_float),
        !old_float.same(float),
        0 <= i < ids.len(),
        node_reaches(d, ids[i], id, depth + 1),
    ensures
        !same_nodes(d, ids, with_float(d, id, float), ids, ids.len(), depth),
    decreases MAX_WALK_DEPTH + 1 - depth, 0nat,
{
    lemma_node_differs(d, ids[i], id, old_float, float, depth + 1);
    lemma_nodes_differ(d, with_float(d, id, float), ids, ids.len(), i, depth);
}

proof fn lemma_node_differs(d: Document, a: int, id: int, old_float: Float, float: Float, depth: nat)
    requires
        0 <= id < d.values.len(),
        d.values[id].head == Head::Float(old_float),
        !old_float.same(float),
        node_reaches(d, a, id, depth),
    ensures
        !same_node(d, a, with_float(d, id, float), a, depth),
    decreases MAX_WALK_DEPTH + 1 - depth, 1nat,
{
    let node = d.node(a)->0;
    match node.kind {
        NodeKind::Entity { patches, relations, .. } => {
            if exists|i: int|
                0 <= i < patches.len() && node_reaches(d, #[trigger] patches[i], id, depth + 1) {
                let i = choose|i: int|
                    0 <= i < patches.len() && node_reaches(d, #[trigger] patches[i], id, depth + 1);
                lemma_some_node_differs(d, patches, id, old_float, float, depth, i);
            } else {
                let i = choose|i: int|
                    0 <= i < relations.len() && node_reaches(
                        d,
                        #[trigger] relations[i],
                        id,
                        depth + 1,
                    );
                lemma_some_node_differs(d, relations, id, old_float, float, depth, i);
            }
        },
        NodeKind::Patch { value, .. } => {
            lemma_value_differs(d, value, id, old_float, float, depth + 1);
        },
        NodeKind::Relation { entities, .. } => {
            let i = choose|i: int|
                0 <= i < entities.len() && node_reaches(d, #[trigger] entities[i], id, depth + 1);
            lemma_some_node_differs(d, entities, id, old_float, float, depth, i);
        },
    }
}

proof fn lemma_roots_differ(d: Document, e: Document, n: nat, i: int)
    requires
        0 <= i < n <= d.roots.len(),
        e.roots == d.roots,
        !same_node(d, d.roots[i], e, e.roots[i], 0),
    ensures
        !same_roots(d, e, n),
    decreases n,
{
    if i < n - 1 {
        lemma_roots_differ(d, e, (n - 1) as nat, i);
    }
}

/// A document with a reachable float replaced by one of other bits, such as `0.0` by `-0.0`, no
/// longer equals what it was, unless both are a `NaN` of one sign.
pub proof fn law_equality_sees_floats(d: Document, id: int, old_float: Float, float: Float)
    requires
        0 <= id < d.values.len(),
        d.values[id].head == Head::Float(old_float),
        !old_float.same(float),
        reaches(d, id),
    ensures
        !same_document(d, with_float(d, id, float)),
{
    let i = choose|i: int| 0 <= i < d.roots.len() && node_reaches(d, #[trigger] d.roots[i], id, 0);
    lemma_node_differs(d, d.roots[i], id, old_float, float, 0);
    lemma_roots_differ(d, with_float(d, id, float), d.roots.len(), i);
}

} // verus!
