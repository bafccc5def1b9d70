//! Structurally equal documents agree wherever one looks: at every address there is the same
//! thing in both, or nothing in both.

use vstd::prelude::*;

use crate::compare::{
    same_document, same_node, same_nodes, same_roots, same_value, same_values,
};
use crate::equality::law_equality_symmetric;
use crate::model::{path_text, Document, Head, Node, NodeKind, Value};
use crate::render::MAX_WALK_DEPTH;
use crate::twin::lemma_same_path_text;

verus! {

// -- addresses ----------------------------------------------------------------------------------

/// The value at an address below the value `id`: each number of the address is the position of
/// a value inside the value before.
pub open spec fn value_at(d: Document, id: int, address: Seq<int>) -> Option<Value>
    decreases address.len(),
{
    match d.value(id) {
        None => None,
        Some(value) => if address.len() == 0 {
            Some(value)
        } else if 0 <= address[0] < value.children.len() {
            value_at(d, value.children[address[0]], address.drop_first())
        } else {
            None
        },
    }
}

/// What a node lists: the patches and then the relations of an entity, or the entities of a
/// relation.
pub open spec fn listed(node: Node) -> Seq<int> {
    match node.kind {
        NodeKind::Entity { patches, relations, .. } => patches + relations,
        NodeKind::Patch { .. } => Seq::empty(),
        NodeKind::Relation { entities, .. } => entities,
    }
}

/// The node at an address below the node `id`: each number of the address is the position of a
/// node in what the node before lists.
pub open spec fn node_at(d: Document, id: int, address: Seq<int>) -> Option<Node>
    decreases address.len(),
{
    match d.node(id) {
        None => None,
        Some(node) => if address.len() == 0 {
            Some(node)
        } else if 0 <= address[0] < listed(node).len() {
            node_at(d, listed(node)[address[0]], address.drop_first())
        } else {
            None
        },
    }
}

// -- values -------------------------------------------------------------------------------------

/// Where equal values have another value at an address, the other has an equal one there.
proof fn lemma_value_at(
    d: Document,
    a: int,
    e: Document,
    b: int,
    depth: nat,
    address: Seq<int>,
)
    requires
        same_value(d, a, e, b, depth),
    ensures
        value_at(d, a, address) is Some <==> value_at(e, b, address) is Some,
        value_at(d, a, address) matches Some(x) ==> alike_values(
            x,
            value_at(e, b, address)->0,
        ),
    decreases address.len(),
{
    let x = d.value(a)->0;
    let y = e.value(b)->0;
    lemma_alike(d, a, e, b, depth);
    if address.len() > 0 && 0 <= address[0] < x.children.len() {
        lemma_nth_value(d, x.children, e, y.children, x.children.len(), depth, address[0]);
        lemma_value_at(
            d,
            x.children[address[0]],
            e,
            y.children[address[0]],
            depth + 1,
            address.drop_first(),
        );
    }
}

proof fn lemma_nth_value(
    d: Document,
    xs: Seq<int>,
    e: Document,
    ys: Seq<int>,
    n: nat,
    depth: nat,
    i: int,
)
    requires
        depth <= MAX_WALK_DEPTH,
        0 <= i < n,
        same_values(d, xs, e, ys, n, depth),
    ensures
        same_value(d, xs[i], e, ys[i], depth + 1),
    decreases n,
{
    if i < n - 1 {
        lemma_nth_value(d, xs, e, ys, (n - 1) as nat, depth, i);
    }
}

/// Whether two values hold the same, apart from the values inside them: the same boolean, integer,
/// float, string, name or path, the same field names, and as many values. A unit is an empty
/// tuple, and every `NaN` of a sign is one.
pub open spec fn alike_values(x: Value, y: Value) -> bool {
    &&& x.names == y.names
    &&& x.children.len() == y.children.len()
    &&& x.head is Bool <==> y.head is Bool
    &&& x.head is Bool ==> x.head->Bool_0 == y.head->Bool_0
    &&& x.head is Int <==> y.head is Int
    &&& x.head is Int ==> x.head->Int_0 == y.head->Int_0
    &&& x.head is Str <==> y.head is Str
    &&& x.head is Str ==> x.head->Str_0 == y.head->Str_0
    &&& x.head is EntityRef <==> y.head is EntityRef
    &&& x.head is EntityRef ==> x.head->EntityRef_0 == y.head->EntityRef_0
    &&& x.head is Float <==> y.head is Float
    &&& x.head is Float ==> {
        let (v, w) = (x.head->Float_0, y.head->Float_0);
        v.bits == w.bits || (v.is_nan() && w.is_nan() && v.is_negative() == w.is_negative())
    }
    &&& x.head is List <==> y.head is List
    &&& x.head is Unit || x.head is Tuple <==> y.head is Unit || y.head is Tuple
    &&& x.head is Path <==> y.head is Path
    &&& x.head is Path ==> path_text(x.head->Path_0) == path_text(y.head->Path_0)
    &&& x.head is Struct <==> y.head is Struct
    &&& x.head is Struct ==> path_text(x.head->Struct_0) == path_text(y.head->Struct_0)
    &&& x.head is NamedTuple <==> y.head is NamedTuple
    &&& x.head is NamedTuple ==> path_text(x.head->NamedTuple_0) == path_text(
        y.head->NamedTuple_0,
    )
}

proof fn lemma_alike(d: Document, a: int, e: Document, b: int, depth: nat)
    requires
        same_value(d, a, e, b, depth),
    ensures
        d.value(a) is Some,
        e.value(b) is Some,
        alike_values(d.value(a)->0, e.value(b)->0),
{
    let x = d.value(a)->0;
    let y = e.value(b)->0;
    match (x.head, y.head) {
        (Head::Path(p), Head::Path(q)) => {
            lemma_same_path_text(p, q);
        },
        (Head::Struct(p), Head::Struct(q)) => {
            lemma_same_path_text(p, q);
        },
        (Head::NamedTuple(p), Head::NamedTuple(q)) => {
            lemma_same_path_text(p, q);
        },
        _ => {},
    }
}

// -- nodes --------------------------------------------------------------------------------------

/// Whether two nodes hold the same, apart from the nodes inside them: the same name and base and
/// as many patches and relations, the same prefix and path, or the same target and as many
/// entities.
pub open spec fn alike_nodes(x: Node, y: Node) -> bool {
    match (x.kind, y.kind) {
        (
            NodeKind::Entity { name: n, base: b, patches: p, relations: r, .. },
            NodeKind::Entity { name, base, patches, relations, .. },
        ) => n == name && b == base && p.len() == patches.len() && r.len() == relations.len(),
        (
            NodeKind::Patch { symbol: s, prefix: p, .. },
            NodeKind::Patch { symbol, prefix, .. },
        ) => p == prefix && path_text(s) == path_text(symbol),
        (
            NodeKind::Relation { target: t, entities: i },
            NodeKind::Relation { target, entities },
        ) => path_text(t) == path_text(target) && i.len() == entities.len(),
        _ => false,
    }
}

proof fn lemma_nth_node(
    d: Document,
    xs: Seq<int>,
    e: Document,
    ys: Seq<int>,
    n: nat,
    depth: nat,
    i: int,
)
    requires
        depth <= MAX_WALK_DEPTH,
        0 <= i < n,
        same_nodes(d, xs, e, ys, n, depth),
    ensures
        same_node(d, xs[i], e, ys[i], depth + 1),
    decreases n,
{
    if i < n - 1 {
        lemma_nth_node(d, xs, e, ys, (n - 1) as nat, depth, i);
    }
}

proof fn lemma_alike_nodes(d: Document, a: int, e: Document, b: int, depth: nat)
    requires
        same_node(d, a, e, b, depth),
    ensures
        d.node(a) is Some,
        e.node(b) is Some,
        alike_nodes(d.node(a)->0, e.node(b)->0),
{
    let x = d.node(a)->0;
    let y = e.node(b)->0;
    match (x.kind, y.kind) {
        (NodeKind::Patch { symbol: p, .. }, NodeKind::Patch { symbol: q, .. }) => {
            lemma_same_path_text(p, q);
        },
        (NodeKind::Relation { target: p, .. }, NodeKind::Relation { target: q, .. }) => {
            lemma_same_path_text(p, q);
        },
        _ => {},
    }
}

/// Equal nodes list equal nodes.
proof fn lemma_listed(d: Document, a: int, e: Document, b: int, depth: nat, i: int)
    requires
        same_node(d, a, e, b, depth),
        0 <= i < listed(d.node(a)->0).len(),
    ensures
        listed(e.node(b)->0).len() == listed(d.node(a)->0).len(),
        same_node(d, listed(d.node(a)->0)[i], e, listed(e.node(b)->0)[i], depth + 1),
{
    let x = d.node(a)->0;
    let y = e.node(b)->0;
    match (x.kind, y.kind) {
        (
            NodeKind::Entity { patches: p, relations: r, .. },
            NodeKind::Entity { patches, relations, .. },
        ) => {
            if i < p.len() {
                lemma_nth_node(d, p, e, patches, p.len(), depth, i);
                assert(listed(x)[i] == p[i] && listed(y)[i] == patches[i]);
            } else {
                lemma_nth_node(d, r, e, relations, r.len(), depth, i - p.len());
                assert(listed(x)[i] == r[i - p.len()]);
                assert(listed(y)[i] == relations[i - p.len()]);
            }
        },
        (NodeKind::Relation { entities: p, .. }, NodeKind::Relation { entities, .. }) => {
            lemma_nth_node(d, p, e, entities, p.len(), depth, i);
        },
        _ => {},
    }
}

/// The value of a patch.
pub open spec fn patch_value(node: Node) -> int {
    node.kind->Patch_value
}

proof fn lemma_node_at(
    d: Document,
    a: int,
    e: Document,
    b: int,
    depth: nat,
    address: Seq<int>,
    inner: Seq<int>,
)
    requires
        same_node(d, a, e, b, depth),
    ensures
        node_at(d, a, address) is Some <==> node_at(e, b, address) is Some,
        node_at(d, a, address) matches Some(x) ==> {
            let y = node_at(e, b, address)->0;
            &&& alike_nodes(x, y)
            &&& x.kind is Patch ==> alike_below(d, patch_value(x), e, patch_value(y), inner)
        },
    decreases address.len(),
{
    let x = d.node(a)->0;
    let y = e.node(b)->0;
    lemma_alike_nodes(d, a, e, b, depth);
    if address.len() == 0 {
        if x.kind is Patch {
            lemma_value_at(d, patch_value(x), e, patch_value(y), depth + 1, inner);
        }
    } else if 0 <= address[0] < listed(x).len() {
        lemma_listed(d, a, e, b, depth, address[0]);
        lemma_node_at(
            d,
            listed(x)[address[0]],
            e,
            listed(y)[address[0]],
            depth + 1,
            address.drop_first(),
            inner,
        );
    } else {
        assert(listed(x).len() == listed(y).len());
    }
}

/// Whether there are values that hold the same at an address below two values, or none below
/// both.
pub open spec fn alike_below(d: Document, a: int, e: Document, b: int, address: Seq<int>) -> bool {
    match (value_at(d, a, address), value_at(e, b, address)) {
        (Some(x), Some(y)) => alike_values(x, y),
        (None, None) => true,
        _ => false,
    }
}

proof fn lemma_nth_root(d: Document, e: Document, n: nat, i: int)
    requires
        0 <= i < n,
        same_roots(d, e, n),
    ensures
        same_node(d, d.roots[i], e, e.roots[i], 0),
    decreases n,
{
    if i < n - 1 {
        lemma_nth_root(d, e, (n - 1) as nat, i);
    }
}

/// Equality sees everything: structurally equal documents have as many roots, and below each
/// root, whatever the address, the same name, base, patches and relations, the same prefix, path
/// and target, and in each patch, whatever the address, the same boolean, integer, float, string,
/// entity reference, path and field names. So documents that differ anywhere are not equal.
pub proof fn law_equality_sees_everything(
    d: Document,
    e: Document,
    root: int,
    address: Seq<int>,
    inner: Seq<int>,
)
    requires
        same_document(d, e),
        0 <= root < d.roots.len(),
    ensures
        d.roots.len() == e.roots.len(),
        match (node_at(d, d.roots[root], address), node_at(e, e.roots[root], address)) {
            (Some(x), Some(y)) => {
                &&& alike_nodes(x, y)
                &&& x.kind is Patch ==> alike_below(d, patch_value(x), e, patch_value(y), inner)
            },
            (None, None) => true,
            _ => false,
        },
{
    lemma_nth_root(d, e, d.roots.len(), root);
    lemma_node_at(d, d.roots[root], e, e.roots[root], 0, address, inner);
}

/// Two documents that hold different integers, booleans, strings or names of entities at one
/// address are not equal.
pub proof fn law_equality_sees_leaves(
    d: Document,
    e: Document,
    root: int,
    address: Seq<int>,
    inner: Seq<int>,
)
    requires
        0 <= root < d.roots.len(),
        0 <= root < e.roots.len(),
        node_at(d, d.roots[root], address) matches Some(x) && x.kind is Patch,
        node_at(e, e.roots[root], address) matches Some(y) && y.kind is Patch,
        ({
            let x = patch_value(node_at(d, d.roots[root], address)->0);
            let y = patch_value(node_at(e, e.roots[root], address)->0);
            match (value_at(d, x, inner), value_at(e, y, inner)) {
                (Some(v), Some(w)) => match (v.head, w.head) {
                    (Head::Int(i), Head::Int(j)) => i != j,
                    (Head::Bool(i), Head::Bool(j)) => i != j,
                    (Head::Str(i), Head::Str(j)) => i != j,
                    (Head::EntityRef(i), Head::EntityRef(j)) => i != j,
                    _ => v.names != w.names || v.children.len() != w.children.len(),
                },
                _ => false,
            }
        }),
    ensures
        !same_document(d, e),
{
    if same_document(d, e) {
        law_equality_sees_everything(d, e, root, address, inner);
    }
}

// -- what equality overlooks --------------------------------------------------------------------

/// Whether one head may stand for another: the same, a unit for an empty tuple, or one `NaN` for
/// another of its sign.
pub open spec fn stands_for(a: Head, b: Head) -> bool {
    ||| a == b
    ||| (a is Unit || a is Tuple) && (b is Unit || b is Tuple)
    ||| a is Float && b is Float && a->Float_0.is_nan() && b->Float_0.is_nan()
        && a->Float_0.is_negative() == b->Float_0.is_negative()
}

/// Whether `e` is `d` with some units written as empty tuples or the other way round, and some
/// `NaN`s replaced.
pub open spec fn reworded(d: Document, e: Document) -> bool {
    &&& e.roots == d.roots
    &&& e.nodes == d.nodes
    &&& e.values.len() == d.values.len()
    &&& forall|i: int|
        0 <= i < d.values.len() ==> {
            let (x, y) = (#[trigger] d.values[i], e.values[i]);
            stands_for(x.head, y.head) && x.names == y.names && x.children == y.children
        }
}

proof fn lemma_value_reworded(d: Document, e: Document, a: int, depth: nat)
    requires
        reworded(d, e),
        same_value(d, a, d, a, depth),
    ensures
        same_value(d, a, e, a, depth),
    decreases MAX_WALK_DEPTH + 1 - depth, 0nat,
{
    let x = d.values[a];
    assert(stands_for(x.head, e.values[a].head));
    lemma_values_reworded(d, e, x.children, x.children.len(), depth);
}

proof fn lemma_values_reworded(d: Document, e: Document, xs: Seq<int>, n: nat, depth: nat)
    requires
        depth <= MAX_WALK_DEPTH,
        reworded(d, e),
        same_values(d, xs, d, xs, n, depth),
    ensures
        same_values(d, xs, e, xs, n, depth),
    decreases MAX_WALK_DEPTH - depth, n + 1,
{
    if n > 0 {
        lemma_values_reworded(d, e, xs, (n - 1) as nat, depth);
        lemma_value_reworded(d, e, xs[n - 1], depth + 1);
    }
}

proof fn lemma_node_reworded(d: Document, e: Document, a: int, depth: nat)
    requires
        reworded(d, e),
        same_node(d, a, d, a, depth),
    ensures
        same_node(d, a, e, a, depth),
    decreases MAX_WALK_DEPTH + 1 - depth, 0nat,
{
    match d.nodes[a].kind {
        NodeKind::Entity { patches, relations, .. } => {
            lemma_nodes_reworded(d, e, patches, patches.len(), depth);
            lemma_nodes_reworded(d, e, relations, relations.len(), depth);
        },
        NodeKind::Patch { value, .. } => {
            lemma_value_reworded(d, e, value, depth + 1);
        },
        NodeKind::Relation { entities, .. } => {
            lemma_nodes_reworded(d, e, entities, entities.len(), depth);
        },
    }
}

proof fn lemma_nodes_reworded(d: Document, e: Document, xs: Seq<int>, n: nat, depth: nat)
    requires
        depth <= MAX_WALK_DEPTH,
        reworded(d, e),
        same_nodes(d, xs, d, xs, n, depth),
    ensures
        same_nodes(d, xs, e, xs, n, depth),
    decreases MAX_WALK_DEPTH - depth, n + 1,
{
    if n > 0 {
        lemma_nodes_reworded(d, e, xs, (n - 1) as nat, depth);
        lemma_node_reworded(d, e, xs[n - 1], depth + 1);
    }
}

proof fn lemma_roots_reworded(d: Document, e: Document, n: nat)
    requires
        reworded(d, e),
        same_roots(d, d, n),
    ensures
        same_roots(d, e, n),
    decreases n,
{
    if n > 0 {
        lemma_roots_reworded(d, e, (n - 1) as nat);
        lemma_node_reworded(d, e, d.roots[n - 1], 0);
    }
}

/// A document that equals itself also equals what it becomes when any of its units are written as
/// empty tuples, or the other way round, and any `NaN` is replaced by another of its sign.
pub proof fn law_equality_overlooks_wording(d: Document, e: Document)
    requires
        reworded(d, e),
        same_document(d, d),
    ensures
        same_document(d, e),
        same_document(e, d),
{
    lemma_roots_reworded(d, e, d.roots.len());
    law_equality_symmetric(d, e);
}

} // verus!
