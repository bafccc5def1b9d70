//! The pre-order walk over a document.

use vstd::prelude::*;

use crate::entities::{input_of, parse_model};
use crate::error::MAX_NESTING_DEPTH;
use crate::float::Floats;
use crate::grammar::{Input, NodeHead, NodeTree, Tree};
use crate::laid_out::{
    are_entries, lemma_merged_ids, lemma_nodes_split, lemma_values_split, nodes_at, values_at,
};
use crate::layout::{
    ids_from, layout, layouts, lemma_layout_len, lemma_layouts_len, lemma_node_layout_len,
    lemma_node_layouts_len, lemma_value_layouts_len, node_ids_from, node_layout, node_layouts,
    node_size, node_sizes, size, sizes, value_layout, value_layouts, value_size, value_sizes,
};
use crate::model::{Document, NodeKind};
use crate::order::merged;
use crate::parsed_spans::{in_order, node_spans};
use crate::roundtrip::{lemma_in_order, lemma_parsed_roots, parsed_roots};
use crate::shape::{entity_fits, entry_fits};
use crate::text::byte_len;

verus! {

/// The integers from `a` up to `b`.
pub open spec fn range(a: int, b: int) -> Seq<int> {
    Seq::new((b - a) as nat, |i: int| a + i)
}

/// The value `id` and the values inside it, each before those inside it. Only values that come
/// after the one that lists them are followed.
pub open spec fn value_walk(d: Document, id: int) -> Seq<int>
    decreases d.values.len() - id, 1nat, 0nat,
{
    if 0 <= id < d.values.len() {
        let children = d.values[id].children;
        seq![id] + value_walks(d, id, children, children.len())
    } else {
        Seq::empty()
    }
}

/// The walks over the first `n` of the values `ids`, as far as they come after `above`.
pub open spec fn value_walks(d: Document, above: int, ids: Seq<int>, n: nat) -> Seq<int>
    decreases d.values.len() - above, 0nat, n,
{
    if n == 0 {
        Seq::empty()
    } else {
        value_walks(d, above, ids, (n - 1) as nat) + (if above < ids[n - 1] < d.values.len() {
            value_walk(d, ids[n - 1])
        } else {
            Seq::empty()
        })
    }
}

/// The nodes that a node lists: the entries of an entity, as they are ordered in the source, and
/// the entities of a relation.
pub open spec fn listed(d: Document, id: int) -> Seq<int> {
    match d.nodes[id].kind {
        NodeKind::Entity { patches, relations, .. } => merged(d, patches, relations),
        NodeKind::Patch { .. } => Seq::empty(),
        NodeKind::Relation { entities, .. } => entities,
    }
}

/// The node `id` and the nodes inside it, each before those inside it. Only nodes that come
/// after the one that lists them are followed.
pub open spec fn node_walk(d: Document, id: int) -> Seq<int>
    decreases d.nodes.len() - id, 1nat, 0nat,
{
    if 0 <= id < d.nodes.len() {
        seq![id] + node_walks(d, id, listed(d, id), listed(d, id).len())
    } else {
        Seq::empty()
    }
}

/// The walks over the first `n` of the nodes `ids`, as far as they come after `above`.
pub open spec fn node_walks(d: Document, above: int, ids: Seq<int>, n: nat) -> Seq<int>
    decreases d.nodes.len() - above, 0nat, n,
{
    if n == 0 {
        Seq::empty()
    } else {
        node_walks(d, above, ids, (n - 1) as nat) + (if above < ids[n - 1] < d.nodes.len() {
            node_walk(d, ids[n - 1])
        } else {
            Seq::empty()
        })
    }
}

/// The walks over the values of the patches among some nodes.
pub open spec fn values_met(d: Document, nodes: Seq<int>) -> Seq<int>
    decreases nodes.len(),
{
    if nodes.len() == 0 {
        Seq::empty()
    } else {
        values_met(d, nodes.drop_last()) + (match d.nodes[nodes.last()].kind {
            NodeKind::Patch { value, .. } => value_walk(d, value),
            _ => Seq::empty(),
        })
    }
}

/// The nodes that a walk over the roots of a document meets.
pub open spec fn document_walk(d: Document) -> Seq<int> {
    node_walks(d, -1, d.roots, d.roots.len())
}

// -- values -----------------------------------------------------------------------------------

proof fn lemma_value_walks_prefix(d: Document, above: int, a: Seq<int>, b: Seq<int>, n: nat)
    requires
        n <= a.len(),
        n <= b.len(),
        forall|i: int| 0 <= i < n ==> #[trigger] a[i] == b[i],
    ensures
        value_walks(d, above, a, n) == value_walks(d, above, b, n),
    decreases n,
{
    if n > 0 {
        lemma_value_walks_prefix(d, above, a, b, (n - 1) as nat);
        assert(a[n - 1] == b[n - 1]);
    }
}

proof fn lemma_value_walk(d: Document, t: Tree, base: int)
    requires
        values_at(d, base, layout(t, base)),
    ensures
        value_walk(d, base) == range(base, base + size(t)),
    decreases t,
{
    let first = seq![layout(t, base)[0]];
    let rest = layouts(t.children, base + 1);
    lemma_layout_len(t, base);
    lemma_layouts_len(t.children, base + 1);
    assert(layout(t, base) =~= first + rest);
    lemma_values_split(d, base, first, rest);
    assert(d.values[base + 0] == first[0]);
    lemma_value_walks(d, t.children, base, base + 1);
    assert(value_walk(d, base) =~= range(base, base + size(t)));
}

proof fn lemma_value_walks(d: Document, ts: Seq<Tree>, above: int, base: int)
    requires
        values_at(d, base, layouts(ts, base)),
        above < base,
    ensures
        value_walks(d, above, ids_from(ts, base), ts.len()) == range(base, base + sizes(ts)),
    decreases ts,
{
    let ids = ids_from(ts, base);
    lemma_layouts_len(ts, base);
    if ts.len() > 0 {
        let init = ts.drop_last();
        let at = base + sizes(init);
        lemma_layouts_len(init, base);
        lemma_layout_len(ts.last(), at);
        lemma_values_split(d, base, layouts(init, base), layout(ts.last(), at));
        lemma_value_walks(d, init, above, base);
        lemma_value_walk(d, ts.last(), at);
        lemma_value_walks_prefix(d, above, ids, ids_from(init, base), init.len());
        assert(ids[ts.len() - 1] == at);
    }
    assert(value_walks(d, above, ids, ts.len()) =~= range(base, base + sizes(ts)));
}

// -- nodes ------------------------------------------------------------------------------------

proof fn lemma_node_walks_prefix(d: Document, above: int, a: Seq<int>, b: Seq<int>, n: nat)
    requires
        n <= a.len(),
        n <= b.len(),
        forall|i: int| 0 <= i < n ==> #[trigger] a[i] == b[i],
    ensures
        node_walks(d, above, a, n) == node_walks(d, above, b, n),
    decreases n,
{
    if n > 0 {
        lemma_node_walks_prefix(d, above, a, b, (n - 1) as nat);
        assert(a[n - 1] == b[n - 1]);
    }
}

proof fn lemma_values_met_concat(d: Document, a: Seq<int>, b: Seq<int>)
    ensures
        values_met(d, a + b) == values_met(d, a) + values_met(d, b),
    decreases b.len(),
{
    if b.len() == 0 {
        assert(a + b =~= a);
        assert(values_met(d, a) + values_met(d, b) =~= values_met(d, a));
    } else {
        lemma_values_met_concat(d, a, b.drop_last());
        assert((a + b).drop_last() =~= a + b.drop_last());
        assert((a + b).last() == b.last());
        assert(values_met(d, a + b) =~= values_met(d, a) + values_met(d, b));
    }
}

/// A node and what it lists were laid out from `base` on, and the values from `values` on.
spec fn walked(d: Document, base: int, values: int, nodes: nat, count: nat) -> bool {
    values_met(d, range(base, base + nodes)) == range(values, values + count)
}

proof fn lemma_walked_first(d: Document, base: int, values: int, nodes: nat, count: nat)
    requires
        walked(d, base + 1, values, nodes, count),
        !(d.nodes[base].kind is Patch),
    ensures
        walked(d, base, values, nodes + 1, count),
{
    let one = seq![base];
    let rest = range(base + 1, base + 1 + nodes);
    assert(range(base, base + (nodes + 1)) =~= one + rest);
    lemma_values_met_concat(d, one, rest);
    assert(values_met(d, one) =~= Seq::empty()) by {
        reveal_with_fuel(values_met, 2);
        assert(one.drop_last() =~= Seq::empty());
    }
    assert(Seq::<int>::empty() + values_met(d, rest) =~= values_met(d, rest));
}

#[verifier::rlimit(50)]
proof fn lemma_node_walk(
    input: Input,
    d: Document,
    floats: Floats,
    t: NodeTree,
    n: nat,
    base: int,
    values: int,
)
    requires
        in_order(input),
        node_spans(input, t),
        entity_fits(floats, t, n) || entry_fits(floats, t, n),
        nodes_at(d, base, node_layout(t, base, values)),
        values_at(d, values, value_layout(t, values)),
    ensures
        d.node(base) matches Some(node) && node.span == t.span,
        node_walk(d, base) == range(base, base + node_size(t)),
        walked(d, base, values, node_size(t), value_size(t)),
    decreases t,
{
    let first = seq![node_layout(t, base, values)[0]];
    let rest = node_layouts(t.children, base + 1, values);
    lemma_node_layout_len(t, base, values);
    lemma_node_layouts_len(t.children, base + 1, values);
    assert(node_layout(t, base, values) =~= first + rest);
    lemma_nodes_split(d, base, first, rest);
    assert(d.nodes[base + 0] == first[0]);
    let ids = node_ids_from(t.children, base + 1);
    match t.head {
        NodeHead::Patch { value, .. } => {
            assert(value_layouts(t.children, values + size(value)) =~= Seq::empty());
            assert(value_layout(t, values) =~= layout(value, values));
            lemma_value_walk(d, value, values);
            assert(node_sizes(t.children) == 0);
            assert(value_sizes(t.children) == 0);
            assert(node_walk(d, base) =~= range(base, base + 1));
            let one = range(base, base + 1);
            assert(one.drop_last() =~= Seq::empty());
            assert(values_met(d, one) =~= value_walk(d, values)) by {
                reveal_with_fuel(values_met, 2);
            }
        },
        NodeHead::Entity { .. } => {
            let m = (n - 1) as nat;
            assert forall|i: int| 0 <= i < t.children.len() implies node_spans(
                input,
                #[trigger] t.children[i],
            ) && (entity_fits(floats, t.children[i], m) || entry_fits(floats, t.children[i], m)) by {
                assert(entry_fits(floats, t.children[i], m));
            }
            lemma_node_walks(input, d, floats, t.children, m, base, base + 1, values);
            assert(are_entries(t.children)) by {
                assert forall|i: int| 0 <= i < t.children.len() implies (
                #[trigger] t.children[i]).head is Patch || t.children[i].head is Relation by {
                    assert(entry_fits(floats, t.children[i], m));
                }
            }
            lemma_merged_ids(input, d, t, base + 1);
            assert(listed(d, base) == ids);
            assert(node_walk(d, base) =~= range(base, base + node_size(t)));
            lemma_walked_first(d, base, values, node_sizes(t.children), value_sizes(t.children));
        },
        NodeHead::Relation { .. } => {
            assert forall|i: int| 0 <= i < t.children.len() implies node_spans(
                input,
                #[trigger] t.children[i],
            ) && (entity_fits(floats, t.children[i], n) || entry_fits(floats, t.children[i], n)) by {
                assert(entity_fits(floats, t.children[i], n));
            }
            lemma_node_walks(input, d, floats, t.children, n, base, base + 1, values);
            assert(listed(d, base) == ids);
            assert(node_walk(d, base) =~= range(base, base + node_size(t)));
            lemma_walked_first(d, base, values, node_sizes(t.children), value_sizes(t.children));
        },
    }
}

proof fn lemma_node_walks(
    input: Input,
    d: Document,
    floats: Floats,
    ts: Seq<NodeTree>,
    n: nat,
    above: int,
    base: int,
    values: int,
)
    requires
        in_order(input),
        above < base,
        forall|i: int|
            0 <= i < ts.len() ==> node_spans(input, #[trigger] ts[i]) && (entity_fits(
                floats,
                ts[i],
                n,
            ) || entry_fits(floats, ts[i], n)),
        nodes_at(d, base, node_layouts(ts, base, values)),
        values_at(d, values, value_layouts(ts, values)),
    ensures
        forall|i: int|
            0 <= i < ts.len() ==> (d.node(node_ids_from(ts, base)[i]) matches Some(node)
                && node.span == (#[trigger] ts[i]).span),
        node_walks(d, above, node_ids_from(ts, base), ts.len()) == range(
            base,
            base + node_sizes(ts),
        ),
        walked(d, base, values, node_sizes(ts), value_sizes(ts)),
    decreases ts,
{
    let ids = node_ids_from(ts, base);
    lemma_node_layouts_len(ts, base, values);
    lemma_value_layouts_len(ts, values);
    if ts.len() > 0 {
        let init = ts.drop_last();
        let at = base + node_sizes(init);
        let from = values + value_sizes(init);
        lemma_node_layouts_len(init, base, values);
        lemma_value_layouts_len(init, values);
        lemma_node_layout_len(ts.last(), at, from);
        lemma_nodes_split(d, base, node_layouts(init, base, values), node_layout(ts.last(), at, from));
        lemma_values_split(d, values, value_layouts(init, values), value_layout(ts.last(), from));
        assert forall|i: int| 0 <= i < init.len() implies node_spans(input, #[trigger] init[i]) && (
        entity_fits(floats, init[i], n) || entry_fits(floats, init[i], n)) by {
            assert(init[i] == ts[i]);
        }
        lemma_node_walks(input, d, floats, init, n, above, base, values);
        assert(node_spans(input, ts[ts.len() - 1]));
        lemma_node_walk(input, d, floats, ts.last(), n, at, from);
        lemma_node_walks_prefix(d, above, ids, node_ids_from(init, base), init.len());
        assert(ids[ts.len() - 1] == at);
        assert forall|i: int| 0 <= i < ts.len() implies (d.node(ids[i]) matches Some(node)
            && node.span == (#[trigger] ts[i]).span) by {
            if i < init.len() {
                assert(init[i] == ts[i]);
                assert(ids[i] == node_ids_from(init, base)[i]);
            }
        }
        let a = range(base, at);
        let b = range(at, at + node_size(ts.last()));
        assert(range(base, base + node_sizes(ts)) =~= a + b);
        lemma_values_met_concat(d, a, b);
        assert(range(values, values + value_sizes(ts)) =~= range(values, from) + range(
            from,
            from + value_size(ts.last()),
        ));
    } else {
        assert(range(base, base) =~= Seq::empty());
        assert(range(values, values) =~= Seq::empty());
    }
    assert(node_walks(d, above, ids, ts.len()) =~= range(base, base + node_sizes(ts)));
}

/// A pre-order walk over the roots of a parsed document meets every node exactly once, in the
/// order of the ids, and a walk over the values of the patches met on the way meets every value
/// exactly once, in the order of the ids: nothing is unreachable, and nothing is shared.
pub proof fn law_walk_meets_everything_once(source: Seq<char>, floats: Floats)
    requires
        byte_len(source) <= u32::MAX,
        parse_model(source, floats) is Ok,
    ensures
        ({
            let d = parse_model(source, floats)->Ok_0;
            &&& document_walk(d) == range(0, d.nodes.len() as int)
            &&& values_met(d, document_walk(d)) == range(0, d.values.len() as int)
        }),
{
    let input = input_of(source, floats);
    let d = parse_model(source, floats)->Ok_0;
    let roots = parsed_roots(source, floats);
    let n = MAX_NESTING_DEPTH as nat;
    lemma_in_order(source, floats);
    lemma_parsed_roots(source, floats);
    assert forall|i: int| 0 <= i < roots.len() implies node_spans(input, #[trigger] roots[i]) && (
    entity_fits(floats, roots[i], n) || entry_fits(floats, roots[i], n)) by {
        assert(entity_fits(floats, roots[i], n));
    }
    lemma_node_layouts_len(roots, 0, 0);
    lemma_value_layouts_len(roots, 0);
    lemma_node_walks(input, d, floats, roots, n, -1, 0, 0);
}

} // verus!
