//! A document in which trees are laid out unfolds to these trees.

use vstd::prelude::*;

use crate::error::MAX_NESTING_DEPTH;
use crate::float::Floats;
use crate::grammar::{Input, NodeHead, NodeTree, Tree};
use crate::layout::{
    document_of, ids_from, layout, layouts, lemma_layouts_len, lemma_node_layouts_len,
    lemma_value_layouts_len, node_ids_from, node_layout, node_layouts, node_sizes, patch_ids_from,
    relation_ids_from, size, sizes, value_layout, value_layouts, value_size, value_sizes,
};
use crate::model::{Document, Node, Value};
use crate::order::{entry_leq, lemma_merged_unique, merged};
use crate::parsed_spans::{in_order, lemma_not_empty, node_spans};
use crate::shape::{entity_fits, entry_fits};
use crate::unfolding::{
    lemma_cost_bound, node_cost, node_costs, picks, unfolds, unfolds_node, unfolds_to,
};

verus! {

// -- values -----------------------------------------------------------------------------------

/// The values `block` stand in a document from `base` on.
pub open spec fn values_at(d: Document, base: int, block: Seq<Value>) -> bool {
    &&& 0 <= base
    &&& base + block.len() <= d.values.len()
    &&& forall|k: int| 0 <= k < block.len() ==> d.values[base + k] == #[trigger] block[k]
}

pub proof fn lemma_values_split(d: Document, base: int, a: Seq<Value>, b: Seq<Value>)
    requires
        values_at(d, base, a + b),
    ensures
        values_at(d, base, a),
        values_at(d, base + a.len(), b),
{
    assert forall|k: int| 0 <= k < a.len() implies d.values[base + k] == #[trigger] a[k] by {
        assert((a + b)[k] == a[k]);
    }
    assert forall|k: int| 0 <= k < b.len() implies d.values[base + a.len() + k]
        == #[trigger] b[k] by {
        assert((a + b)[a.len() + k] == b[k]);
    }
}

pub proof fn lemma_layout_unfolds(d: Document, t: Tree, base: int)
    requires
        values_at(d, base, layout(t, base)),
    ensures
        unfolds(d, base, t),
    decreases t,
{
    let first = seq![layout(t, base)[0]];
    let rest = layouts(t.children, base + 1);
    assert(layout(t, base) =~= first + rest);
    lemma_values_split(d, base, first, rest);
    assert(d.values[base + 0] == first[0]);
    lemma_layouts_unfold(d, t.children, base + 1);
    lemma_layouts_len(t.children, base + 1);
    let value = d.value(base)->0;
    assert forall|i: int| 0 <= i < t.children.len() implies unfolds(
        d,
        value.children[i],
        #[trigger] t.children[i],
    ) by {
        assert(unfolds(d, ids_from(t.children, base + 1)[i], t.children[i]));
    }
}

proof fn lemma_layouts_unfold(d: Document, ts: Seq<Tree>, base: int)
    requires
        values_at(d, base, layouts(ts, base)),
    ensures
        forall|i: int|
            0 <= i < ts.len() ==> unfolds(d, ids_from(ts, base)[i], #[trigger] ts[i]),
    decreases ts,
{
    if ts.len() > 0 {
        let init = ts.drop_last();
        let at = base + sizes(init);
        lemma_layouts_len(init, base);
        lemma_layouts_len(ts, base);
        lemma_values_split(d, base, layouts(init, base), layout(ts.last(), at));
        lemma_layouts_unfold(d, init, base);
        lemma_layout_unfolds(d, ts.last(), at);
        assert forall|i: int| 0 <= i < ts.len() implies unfolds(
            d,
            ids_from(ts, base)[i],
            #[trigger] ts[i],
        ) by {
            if i < init.len() {
                assert(init[i] == ts[i]);
                assert(ids_from(ts, base)[i] == ids_from(init, base)[i]);
            }
        }
    }
}

// -- nodes ------------------------------------------------------------------------------------

/// The nodes `block` stand in a document from `base` on.
pub open spec fn nodes_at(d: Document, base: int, block: Seq<Node>) -> bool {
    &&& 0 <= base
    &&& base + block.len() <= d.nodes.len()
    &&& forall|k: int| 0 <= k < block.len() ==> d.nodes[base + k] == #[trigger] block[k]
}

pub proof fn lemma_nodes_split(d: Document, base: int, a: Seq<Node>, b: Seq<Node>)
    requires
        nodes_at(d, base, a + b),
    ensures
        nodes_at(d, base, a),
        nodes_at(d, base + a.len(), b),
{
    assert forall|k: int| 0 <= k < a.len() implies d.nodes[base + k] == #[trigger] a[k] by {
        assert((a + b)[k] == a[k]);
    }
    assert forall|k: int| 0 <= k < b.len() implies d.nodes[base + a.len() + k]
        == #[trigger] b[k] by {
        assert((a + b)[a.len() + k] == b[k]);
    }
}

/// The entries of an entity are patches and relations.
pub open spec fn are_entries(ts: Seq<NodeTree>) -> bool {
    forall|i: int|
        0 <= i < ts.len() ==> (#[trigger] ts[i]).head is Patch || ts[i].head is Relation
}

/// The ids of the patches and of the relations are the ids of the entries.
proof fn lemma_entry_ids(ts: Seq<NodeTree>, base: int)
    requires
        are_entries(ts),
    ensures
        (patch_ids_from(ts, base) + relation_ids_from(ts, base)).to_multiset() == node_ids_from(
            ts,
            base,
        ).to_multiset(),
        picks(node_ids_from(ts, base), ts, true, ts.len()) == patch_ids_from(ts, base),
        picks(node_ids_from(ts, base), ts, false, ts.len()) == relation_ids_from(ts, base),
    decreases ts.len(),
{
    broadcast use vstd::seq_lib::group_to_multiset_ensures;

    let p = patch_ids_from(ts, base);
    let r = relation_ids_from(ts, base);
    let ids = node_ids_from(ts, base);
    if ts.len() > 0 {
        let init = ts.drop_last();
        let last = base + node_sizes(init);
        assert forall|i: int| 0 <= i < init.len() implies (#[trigger] init[i]).head is Patch
            || init[i].head is Relation by {
            assert(init[i] == ts[i]);
        }
        lemma_entry_ids(init, base);
        let p0 = patch_ids_from(init, base);
        let r0 = relation_ids_from(init, base);
        let ids0 = node_ids_from(init, base);
        lemma_node_layouts_len(init, base, 0);
        assert(ts[ts.len() - 1].head is Patch || ts[ts.len() - 1].head is Relation);
        lemma_picks_push(ids0, init, last, ts.last(), true, init.len());
        lemma_picks_push(ids0, init, last, ts.last(), false, init.len());
        assert(init.push(ts.last()) =~= ts);
        if ts.last().head is Patch {
            assert(p == p0.push(last) && r == r0);
            assert((p + r).to_multiset() =~= (p0 + r0).to_multiset().insert(last)) by {
                vstd::seq_lib::lemma_multiset_commutative(p0.push(last), r0);
                vstd::seq_lib::lemma_multiset_commutative(p0, r0);
            }
        } else {
            assert(p == p0 && r == r0.push(last));
            assert(p + r =~= (p0 + r0).push(last));
        }
    } else {
        assert(p + r =~= ids);
    }
}

/// Picking from lists that grow at the end.
proof fn lemma_picks_push(
    ids: Seq<int>,
    ts: Seq<NodeTree>,
    id: int,
    t: NodeTree,
    patches: bool,
    n: nat,
)
    requires
        n <= ts.len(),
        ids.len() == ts.len(),
    ensures
        picks(ids.push(id), ts.push(t), patches, n) == picks(ids, ts, patches, n),
    decreases n,
{
    if n > 0 {
        lemma_picks_push(ids, ts, id, t, patches, (n - 1) as nat);
    }
}

/// The entries of an entity are written in the order in which they are laid out.
pub proof fn lemma_merged_ids(input: Input, d: Document, t: NodeTree, base: int)
    requires
        in_order(input),
        node_spans(input, t),
        are_entries(t.children),
        forall|i: int|
            0 <= i < t.children.len() ==> (d.node(
                node_ids_from(t.children, base)[i],
            ) matches Some(node) && node.span == (#[trigger] t.children[i]).span),
    ensures
        merged(
            d,
            patch_ids_from(t.children, base),
            relation_ids_from(t.children, base),
        ) == node_ids_from(t.children, base),
{
    let ids = node_ids_from(t.children, base);
    lemma_entry_ids(t.children, base);
    lemma_node_layouts_len(t.children, base, 0);
    assert forall|i: int, j: int| 0 <= i < j < ids.len() implies entry_leq(
        d,
        #[trigger] ids[i],
        #[trigger] ids[j],
    ) by {
        let a = t.children[i];
        let b = t.children[j];
        assert(node_spans(input, a) && node_spans(input, b));
        lemma_not_empty(input, a.span);
        lemma_not_empty(input, b.span);
        assert(a.span.end <= b.span.start);
    }
    lemma_merged_unique(
        d,
        patch_ids_from(t.children, base),
        relation_ids_from(t.children, base),
        ids,
    );
}

proof fn lemma_node_layout_unfolds(
    input: Input,
    d: Document,
    floats: Floats,
    t: NodeTree,
    n: nat,
    base: int,
    values: int,
)
    requires
        in_order(input),
        node_spans(input, t),
        entity_fits(floats, t, n) || entry_fits(floats, t, n),
        nodes_at(d, base, node_layout(t, base, values)),
        values_at(d, values, value_layout(t, values)),
    ensures
        unfolds_node(d, base, t),
        d.node(base) matches Some(node) && node.span == t.span,
    decreases t,
{
    let first = seq![node_layout(t, base, values)[0]];
    let rest = node_layouts(t.children, base + 1, values);
    assert(node_layout(t, base, values) =~= first + rest);
    lemma_nodes_split(d, base, first, rest);
    assert(d.nodes[base + 0] == first[0]);
    let ids = node_ids_from(t.children, base + 1);
    match t.head {
        NodeHead::Patch { value, .. } => {
            assert(value_layouts(t.children, values + size(value)) =~= Seq::empty());
            assert(value_layout(t, values) =~= layout(value, values));
            lemma_layout_unfolds(d, value, values);
        },
        NodeHead::Entity { .. } => {
            assert forall|i: int| 0 <= i < t.children.len() implies node_spans(
                input,
                #[trigger] t.children[i],
            ) && (entity_fits(floats, t.children[i], (n - 1) as nat) || entry_fits(
                floats,
                t.children[i],
                (n - 1) as nat,
            )) by {
                assert(entry_fits(floats, t.children[i], (n - 1) as nat));
            }
            lemma_node_layouts_unfold(
                input,
                d,
                floats,
                t.children,
                (n - 1) as nat,
                base + 1,
                values,
            );
            assert(are_entries(t.children)) by {
                assert forall|i: int| 0 <= i < t.children.len() implies (
                #[trigger] t.children[i]).head is Patch || t.children[i].head is Relation by {
                    assert(entry_fits(floats, t.children[i], (n - 1) as nat));
                }
            }
            lemma_merged_ids(input, d, t, base + 1);
            lemma_entry_ids(t.children, base + 1);
            lemma_node_layouts_len(t.children, base + 1, values);
            assert forall|i: int| 0 <= i < t.children.len() implies unfolds_node(
                d,
                ids[i],
                #[trigger] t.children[i],
            ) by {}
        },
        NodeHead::Relation { .. } => {
            assert forall|i: int| 0 <= i < t.children.len() implies node_spans(
                input,
                #[trigger] t.children[i],
            ) && (entity_fits(floats, t.children[i], n) || entry_fits(floats, t.children[i], n)) by {
                assert(entity_fits(floats, t.children[i], n));
            }
            lemma_node_layouts_unfold(input, d, floats, t.children, n, base + 1, values);
            lemma_node_layouts_len(t.children, base + 1, values);
        },
    }
}

proof fn lemma_node_layouts_unfold(
    input: Input,
    d: Document,
    floats: Floats,
    ts: Seq<NodeTree>,
    n: nat,
    base: int,
    values: int,
)
    requires
        in_order(input),
        forall|i: int|
            0 <= i < ts.len() ==> node_spans(input, #[trigger] ts[i]) && (entity_fits(
                floats,
                ts[i],
                n,
            ) || entry_fits(floats, ts[i], n)),
        nodes_at(d, base, node_layouts(ts, base, values)),
        values_at(d, values, value_layouts(ts, values)),
    ensures
        forall|i: int|
            0 <= i < ts.len() ==> unfolds_node(d, node_ids_from(ts, base)[i], #[trigger] ts[i])
                && (d.node(node_ids_from(ts, base)[i]) matches Some(node) && node.span
                == ts[i].span),
    decreases ts,
{
    if ts.len() > 0 {
        let init = ts.drop_last();
        let at = base + node_sizes(init);
        let from = values + value_sizes(init);
        lemma_node_layouts_len(init, base, values);
        lemma_node_layouts_len(ts, base, values);
        lemma_value_layouts_len(init, values);
        lemma_nodes_split(d, base, node_layouts(init, base, values), node_layout(ts.last(), at, from));
        lemma_values_split(d, values, value_layouts(init, values), value_layout(ts.last(), from));
        assert forall|i: int| 0 <= i < init.len() implies node_spans(input, #[trigger] init[i]) && (
        entity_fits(floats, init[i], n) || entry_fits(floats, init[i], n)) by {
            assert(init[i] == ts[i]);
        }
        lemma_node_layouts_unfold(input, d, floats, init, n, base, values);
        assert(node_spans(input, ts[ts.len() - 1]));
        lemma_node_layout_unfolds(input, d, floats, ts.last(), n, at, from);
        assert forall|i: int| 0 <= i < ts.len() implies unfolds_node(
            d,
            node_ids_from(ts, base)[i],
            #[trigger] ts[i],
        ) && (d.node(node_ids_from(ts, base)[i]) matches Some(node) && node.span
            == ts[i].span) by {
            if i < init.len() {
                assert(init[i] == ts[i]);
                assert(node_ids_from(ts, base)[i] == node_ids_from(init, base)[i]);
            }
        }
    }
}

/// A document of well-formed trees, laid out, unfolds to these trees.
pub proof fn lemma_document_unfolds(
    input: Input,
    floats: Floats,
    roots: Seq<NodeTree>,
    n: nat,
)
    requires
        in_order(input),
        forall|i: int| 0 <= i < roots.len() ==> node_spans(input, #[trigger] roots[i]),
        forall|i: int| 0 <= i < roots.len() ==> entity_fits(floats, #[trigger] roots[i], n),
    ensures
        unfolds_to(document_of(roots), roots),
{
    let d = document_of(roots);
    assert forall|i: int| 0 <= i < roots.len() implies node_spans(input, #[trigger] roots[i]) && (
    entity_fits(floats, roots[i], n) || entry_fits(floats, roots[i], n)) by {
        assert(entity_fits(floats, roots[i], n));
    }
    lemma_node_layouts_unfold(input, d, floats, roots, n, 0, 0);
    lemma_node_layouts_len(roots, 0, 0);
}

// -- the visits of the printer ----------------------------------------------------------------

proof fn lemma_node_cost(floats: Floats, t: NodeTree, n: nat, limit: nat)
    requires
        entity_fits(floats, t, n) || entry_fits(floats, t, n),
        n < limit,
    ensures
        node_cost(t) <= value_size(t) * (limit + 1),
    decreases t,
{
    match t.head {
        NodeHead::Patch { value, .. } => {
            lemma_cost_bound(floats, value, n + 1);
            let s = size(value);
            assert(s * (n + 1 + 1) <= s * (limit + 1)) by (nonlinear_arith)
                requires
                    n < limit,
            ;
            assert(node_costs(t.children) == 0);
            assert(value_sizes(t.children) == 0);
        },
        NodeHead::Entity { .. } => {
            assert forall|i: int| 0 <= i < t.children.len() implies entity_fits(
                floats,
                #[trigger] t.children[i],
                (n - 1) as nat,
            ) || entry_fits(floats, t.children[i], (n - 1) as nat) by {
                assert(entry_fits(floats, t.children[i], (n - 1) as nat));
            }
            lemma_node_costs(floats, t.children, (n - 1) as nat, limit);
        },
        NodeHead::Relation { .. } => {
            assert forall|i: int| 0 <= i < t.children.len() implies entity_fits(
                floats,
                #[trigger] t.children[i],
                n,
            ) || entry_fits(floats, t.children[i], n) by {
                assert(entity_fits(floats, t.children[i], n));
            }
            lemma_node_costs(floats, t.children, n, limit);
        },
    }
}

proof fn lemma_node_costs(floats: Floats, ts: Seq<NodeTree>, n: nat, limit: nat)
    requires
        forall|i: int|
            0 <= i < ts.len() ==> entity_fits(floats, #[trigger] ts[i], n) || entry_fits(
                floats,
                ts[i],
                n,
            ),
        n < limit,
    ensures
        node_costs(ts) <= value_sizes(ts) * (limit + 1),
    decreases ts,
{
    if ts.len() > 0 {
        let init = ts.drop_last();
        assert forall|i: int| 0 <= i < init.len() implies entity_fits(floats, #[trigger] init[i], n)
            || entry_fits(floats, init[i], n) by {
            assert(init[i] == ts[i]);
        }
        lemma_node_costs(floats, init, n, limit);
        assert(entity_fits(floats, ts[ts.len() - 1], n) || entry_fits(
            floats,
            ts[ts.len() - 1],
            n,
        ));
        lemma_node_cost(floats, ts.last(), n, limit);
        let a = value_sizes(init);
        let b = value_size(ts.last());
        assert((a + b) * (limit + 1) == a * (limit + 1) + b * (limit + 1)) by (nonlinear_arith);
    } else {
        assert(0 * (limit + 1) == 0) by (nonlinear_arith);
    }
}

/// Printing a document of well-formed trees takes less than the visits per value that the
/// printer may spend.
pub proof fn lemma_document_cost(floats: Floats, roots: Seq<NodeTree>)
    requires
        forall|i: int|
            0 <= i < roots.len() ==> entity_fits(
                floats,
                #[trigger] roots[i],
                MAX_NESTING_DEPTH as nat,
            ),
    ensures
        node_costs(roots) <= document_of(roots).values.len() * 256,
{
    assert forall|i: int| 0 <= i < roots.len() implies entity_fits(
        floats,
        #[trigger] roots[i],
        MAX_NESTING_DEPTH as nat,
    ) || entry_fits(floats, roots[i], MAX_NESTING_DEPTH as nat) by {}
    lemma_node_costs(floats, roots, MAX_NESTING_DEPTH as nat, 255);
    lemma_value_layouts_len(roots, 0);
}

} // verus!
