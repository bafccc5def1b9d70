//! The arenas of a parsed document: ids, links and spans.

use vstd::prelude::*;

use crate::entities::{input_of, parse_model};
use crate::error::MAX_NESTING_DEPTH;
use crate::float::Floats;
use crate::grammar::{first_repeat_from, Input, NodeHead, NodeTree, Tree};
use crate::laid_out::{nodes_at, values_at};
use crate::layout::{
    ids_from, layout, layouts, lemma_layout_len, lemma_layouts_len, lemma_node_layout_len,
    lemma_node_layouts_len, lemma_value_layouts_len, node_ids_from, node_layout, node_layouts,
    node_size, node_sizes, patch_ids_from, relation_ids_from, size, sizes, value_layout,
    value_layouts, value_size, value_sizes,
};
use crate::lexical::lex;
use crate::model::{same_path, Document, NodeKind};
use crate::parsed_spans::{
    from_to, in_order, inside, labels_placed, lemma_not_empty, node_spans, of_tokens, tree_spans,
};
use crate::roundtrip::{lemma_in_order, lemma_parsed_roots, lemma_token_span, parsed_roots};
use crate::shape::{entity_fits, entry_fits, head_path, item_fits, tree_fits};
use crate::span::Span;
use crate::text::{byte_at, byte_len, is_boundary, lemma_byte_at_mono};

verus! {

/// A non-empty span of whole characters of a text.
pub open spec fn span_fits(source: Seq<char>, span: Span) -> bool {
    &&& span.start < span.end <= byte_len(source)
    &&& is_boundary(source, span.start as nat)
    &&& is_boundary(source, span.end as nat)
}

/// A value carries its own id, and the values inside it come after it, in order and inside its
/// span. A struct has as many field names as values, and no name twice.
pub open spec fn value_linked(d: Document, id: int) -> bool {
    let value = d.values[id];
    &&& value.id == id
    &&& forall|i: int|
        0 <= i < value.children.len() ==> id < #[trigger] value.children[i] < d.values.len()
            && inside(d.values[value.children[i]].span, value.span)
    &&& forall|i: int, j: int|
        0 <= i < j < value.children.len() ==> #[trigger] value.children[i]
            < #[trigger] value.children[j]
    &&& value.head is Struct ==> value.names.len() == value.children.len()
        && value.names.no_duplicates()
}

/// The spans of the name and of the base of an entity, as far as there are any, are non-empty
/// spans of whole characters.
pub open spec fn labels_fit(source: Seq<char>, kind: NodeKind) -> bool {
    kind matches NodeKind::Entity { name_span, base_span, .. } ==> {
        &&& name_span matches Some(span) ==> span_fits(source, span)
        &&& base_span matches Some(span) ==> span_fits(source, span)
    }
}

spec fn labels_of_tokens(input: Input, kind: NodeKind) -> bool {
    kind matches NodeKind::Entity { name_span, base_span, .. } ==> labels_placed(
        input,
        name_span,
        base_span,
    )
}

/// A list of nodes that come after `id`, in order and inside its span.
pub open spec fn nodes_linked(d: Document, id: int, ids: Seq<int>) -> bool {
    &&& forall|i: int|
        0 <= i < ids.len() ==> id < #[trigger] ids[i] < d.nodes.len() && inside(
            d.nodes[ids[i]].span,
            d.nodes[id].span,
        )
    &&& forall|i: int, j: int| 0 <= i < j < ids.len() ==> #[trigger] ids[i] < #[trigger] ids[j]
}

/// A node carries its own id. The patches, relations and entities that it lists are such nodes,
/// come after it and lie inside its span; a patch has a value that is named by its symbol.
pub open spec fn node_linked(d: Document, id: int) -> bool {
    let node = d.nodes[id];
    &&& node.id == id
    &&& match node.kind {
        NodeKind::Entity { patches, relations, .. } => {
            &&& nodes_linked(d, id, patches)
            &&& nodes_linked(d, id, relations)
            &&& forall|i: int|
                0 <= i < patches.len() ==> d.nodes[#[trigger] patches[i]].kind is Patch
            &&& forall|i: int|
                0 <= i < relations.len() ==> d.nodes[#[trigger] relations[i]].kind is Relation
        },
        NodeKind::Patch { symbol, value, .. } => {
            &&& 0 <= value < d.values.len()
            &&& inside(d.values[value].span, node.span)
            &&& head_path(d.values[value].head) matches Some(path) && same_path(symbol, path)
        },
        NodeKind::Relation { entities, .. } => {
            &&& nodes_linked(d, id, entities)
            &&& forall|i: int|
                0 <= i < entities.len() ==> d.nodes[#[trigger] entities[i]].kind is Entity
        },
    }
}

// -- values -----------------------------------------------------------------------------------

proof fn lemma_ids_from(ts: Seq<Tree>, base: int, i: int)
    requires
        0 <= i < ts.len(),
    ensures
        ids_from(ts, base).len() == ts.len(),
        base <= ids_from(ts, base)[i] < base + sizes(ts),
        forall|j: int| 0 <= j < i ==> ids_from(ts, base)[j] < ids_from(ts, base)[i],
    decreases ts.len(),
{
    let init = ts.drop_last();
    lemma_layouts_len(ts, base);
    lemma_layouts_len(init, base);
    assert(size(ts.last()) > 0);
    if i < init.len() {
        lemma_ids_from(init, base, i);
    } else {
        assert forall|j: int| 0 <= j < i implies ids_from(ts, base)[j] < ids_from(ts, base)[i] by {
            lemma_ids_from(init, base, j);
        }
    }
}

/// The values of a tree that is laid out are linked, and the first of them has its span.
proof fn lemma_layout_linked(
    input: Input,
    d: Document,
    floats: Floats,
    t: Tree,
    n: nat,
    base: int,
)
    requires
        in_order(input),
        tree_fits(floats, t, n),
        tree_spans(input, t),
        values_at(d, base, layout(t, base)),
    ensures
        d.values[base].span == t.span,
        d.values[base].head == t.head,
        base < d.values.len(),
        forall|id: int|
            base <= id < base + size(t) ==> value_linked(d, id) && of_tokens(
                input,
                (#[trigger] d.values[id]).span,
            ),
    decreases t,
{
    let block = layout(t, base);
    let rest = layouts(t.children, base + 1);
    lemma_layout_len(t, base);
    lemma_layouts_len(t.children, base + 1);
    assert(d.values[base + 0] == block[0]);
    assert(values_at(d, base + 1, rest)) by {
        assert forall|k: int| 0 <= k < rest.len() implies d.values[base + 1 + k]
            == #[trigger] rest[k] by {
            assert(block[k + 1] == rest[k]);
            assert(d.values[base + (k + 1)] == block[k + 1]);
        }
    }
    assert forall|i: int| 0 <= i < t.children.len() implies tree_fits(
        floats,
        #[trigger] t.children[i],
        (n - 1) as nat,
    ) by {
        assert(item_fits(floats, t.children[i], (n - 1) as nat));
    }
    lemma_layouts_linked(input, d, floats, t.children, (n - 1) as nat, base + 1);
    let value = d.values[base];
    if value.head is Struct {
        lemma_distinct(t.names, 0);
    }
    assert forall|i: int| 0 <= i < value.children.len() implies base
        < #[trigger] value.children[i] < d.values.len() && inside(
        d.values[value.children[i]].span,
        value.span,
    ) by {
        lemma_ids_from(t.children, base + 1, i);
        assert(inside(t.children[i].span, t.span));
    }
    assert forall|i: int, j: int| 0 <= i < j < value.children.len() implies #[trigger] value.children[i]
        < #[trigger] value.children[j] by {
        lemma_ids_from(t.children, base + 1, j);
    }
}

/// Names without a repeat are distinct.
proof fn lemma_distinct(names: Seq<Seq<char>>, i: int)
    requires
        0 <= i <= names.len(),
        first_repeat_from(names, i) is None,
    ensures
        forall|j: int, k: int| 0 <= j < k && i <= k < names.len() ==> names[j] != names[k],
        i == 0 ==> names.no_duplicates(),
    decreases names.len() - i,
{
    if i < names.len() {
        lemma_distinct(names, i + 1);
    }
}

proof fn lemma_layouts_linked(
    input: Input,
    d: Document,
    floats: Floats,
    ts: Seq<Tree>,
    n: nat,
    base: int,
)
    requires
        in_order(input),
        forall|i: int| 0 <= i < ts.len() ==> tree_fits(floats, #[trigger] ts[i], n),
        forall|i: int| 0 <= i < ts.len() ==> tree_spans(input, #[trigger] ts[i]),
        values_at(d, base, layouts(ts, base)),
    ensures
        forall|id: int|
            base <= id < base + sizes(ts) ==> value_linked(d, id) && of_tokens(
                input,
                (#[trigger] d.values[id]).span,
            ),
        forall|i: int|
            0 <= i < ts.len() ==> d.values[ids_from(ts, base)[i]].span == (#[trigger] ts[i]).span,
    decreases ts,
{
    if ts.len() > 0 {
        let init = ts.drop_last();
        let at = base + sizes(init);
        let a = layouts(init, base);
        let b = layout(ts.last(), at);
        lemma_layouts_len(init, base);
        lemma_layout_len(ts.last(), at);
        assert(values_at(d, base, a)) by {
            assert forall|k: int| 0 <= k < a.len() implies d.values[base + k]
                == #[trigger] a[k] by {
                assert((a + b)[k] == a[k]);
            }
        }
        assert(values_at(d, at, b)) by {
            assert forall|k: int| 0 <= k < b.len() implies d.values[at + k] == #[trigger] b[k] by {
                assert((a + b)[a.len() + k] == b[k]);
                assert(d.values[base + (a.len() + k)] == b[k]);
            }
        }
        assert forall|i: int| 0 <= i < init.len() implies tree_spans(input, #[trigger] init[i]) by {
            assert(init[i] == ts[i]);
        }
        assert forall|i: int| 0 <= i < init.len() implies tree_fits(
            floats,
            #[trigger] init[i],
            n,
        ) by {
            assert(init[i] == ts[i]);
        }
        lemma_layouts_linked(input, d, floats, init, n, base);
        assert(tree_spans(input, ts[ts.len() - 1]));
        assert(tree_fits(floats, ts[ts.len() - 1], n));
        lemma_layout_linked(input, d, floats, ts.last(), n, at);
        assert forall|i: int| 0 <= i < ts.len() implies d.values[ids_from(ts, base)[i]].span == (
        #[trigger] ts[i]).span by {
            if i < init.len() {
                assert(init[i] == ts[i]);
                assert(ids_from(ts, base)[i] == ids_from(init, base)[i]);
            }
        }
    }
}

// -- nodes ------------------------------------------------------------------------------------

/// Where a node is laid out, and the node there.
spec fn stands(d: Document, id: int, t: NodeTree) -> bool {
    &&& 0 <= id < d.nodes.len()
    &&& d.nodes[id].span == t.span
    &&& d.nodes[id].kind is Patch == t.head is Patch
    &&& d.nodes[id].kind is Relation == t.head is Relation
    &&& d.nodes[id].kind is Entity == t.head is Entity
}

/// The ids of nodes that are laid out, of patches, of relations or of all of them.
proof fn lemma_node_ids(d: Document, ts: Seq<NodeTree>, base: int)
    requires
        forall|i: int|
            0 <= i < ts.len() ==> stands(d, node_ids_from(ts, base)[i], #[trigger] ts[i]),
    ensures
        node_ids_from(ts, base).len() == ts.len(),
        forall|i: int|
            0 <= i < ts.len() ==> base <= #[trigger] node_ids_from(ts, base)[i] < base
                + node_sizes(ts),
        forall|i: int, j: int|
            0 <= i < j < ts.len() ==> #[trigger] node_ids_from(ts, base)[i]
                < #[trigger] node_ids_from(ts, base)[j],
        picked(d, ts, base, patch_ids_from(ts, base)),
        picked(d, ts, base, relation_ids_from(ts, base)),
        forall|i: int|
            0 <= i < patch_ids_from(ts, base).len() ==> d.nodes[#[trigger] patch_ids_from(
                ts,
                base,
            )[i]].kind is Patch,
        forall|i: int|
            0 <= i < relation_ids_from(ts, base).len() ==> d.nodes[#[trigger] relation_ids_from(
                ts,
                base,
            )[i]].kind is Relation,
    decreases ts.len(),
{
    lemma_node_layouts_len(ts, base, 0);
    if ts.len() > 0 {
        let init = ts.drop_last();
        let last = ts.len() - 1;
        assert(node_size(ts.last()) > 0);
        lemma_node_layouts_len(init, base, 0);
        assert forall|i: int| 0 <= i < init.len() implies stands(
            d,
            node_ids_from(init, base)[i],
            #[trigger] init[i],
        ) by {
            assert(stands(d, node_ids_from(ts, base)[i], ts[i]));
            assert(node_ids_from(ts, base)[i] == node_ids_from(init, base)[i]);
        }
        lemma_node_ids(d, init, base);
        assert(stands(d, node_ids_from(ts, base)[last], ts[last]));
        assert forall|id: int| picked_id(init, base, id) implies #[trigger] picked_id(
            ts,
            base,
            id,
        ) by {
            let i = choose|i: int| 0 <= i < init.len() && node_ids_from(init, base)[i] == id;
            assert(node_ids_from(ts, base)[i] == id);
        }
        assert(picked_id(ts, base, node_ids_from(ts, base)[last]));
        lemma_picked_more(d, init, ts, base, patch_ids_from(init, base));
        lemma_picked_more(d, init, ts, base, relation_ids_from(init, base));
    }
}

/// `id` is the id of one of the nodes that are laid out.
spec fn picked_id(ts: Seq<NodeTree>, base: int, id: int) -> bool {
    exists|i: int| 0 <= i < ts.len() && #[trigger] node_ids_from(ts, base)[i] == id
}

/// Some of the ids of nodes that are laid out, in order.
spec fn picked(d: Document, ts: Seq<NodeTree>, base: int, ids: Seq<int>) -> bool {
    &&& forall|i: int|
        0 <= i < ids.len() ==> picked_id(ts, base, #[trigger] ids[i]) && ids[i] < base + node_sizes(
            ts,
        )
    &&& forall|i: int, j: int| 0 <= i < j < ids.len() ==> #[trigger] ids[i] < #[trigger] ids[j]
}

proof fn lemma_picked_more(
    d: Document,
    init: Seq<NodeTree>,
    ts: Seq<NodeTree>,
    base: int,
    ids: Seq<int>,
)
    requires
        ts.len() > 0,
        init == ts.drop_last(),
        picked(d, init, base, ids),
        forall|id: int| picked_id(init, base, id) ==> #[trigger] picked_id(ts, base, id),
        picked_id(ts, base, base + node_sizes(init)),
    ensures
        picked(d, ts, base, ids),
        picked(d, ts, base, ids.push(base + node_sizes(init))),
{
    let more = ids.push(base + node_sizes(init));
    assert(node_size(ts.last()) > 0);
    assert forall|i: int| 0 <= i < ids.len() implies picked_id(ts, base, #[trigger] ids[i])
        && ids[i] < base + node_sizes(ts) by {
        assert(picked_id(init, base, ids[i]));
    }
    assert forall|i: int| 0 <= i < more.len() implies picked_id(ts, base, #[trigger] more[i])
        && more[i] < base + node_sizes(ts) by {
        if i < ids.len() {
            assert(picked_id(ts, base, ids[i]));
        }
    }
    assert forall|i: int, j: int| 0 <= i < j < more.len() implies #[trigger] more[i]
        < #[trigger] more[j] by {
        if j < ids.len() {
            assert(ids[i] < ids[j]);
        } else {
            assert(picked_id(init, base, ids[i]));
        }
    }
}

proof fn lemma_node_linked(
    input: Input,
    d: Document,
    floats: Floats,
    t: NodeTree,
    n: nat,
    base: int,
    values: int,
)
    requires
        in_order(input),
        node_spans(input, t),
        entity_fits(floats, t, n) || entry_fits(floats, t, n),
        nodes_at(d, base, node_layout(t, base, values)),
        values_at(d, values, value_layout(t, values)),
    ensures
        stands(d, base, t),
        forall|id: int|
            base <= id < base + node_size(t) ==> node_linked(d, id) && of_tokens(
                input,
                (#[trigger] d.nodes[id]).span,
            ) && labels_of_tokens(input, d.nodes[id].kind),
        forall|id: int|
            values <= id < values + value_size(t) ==> value_linked(d, id) && of_tokens(
                input,
                (#[trigger] d.values[id]).span,
            ),
    decreases t,
{
    let block = node_layout(t, base, values);
    let rest = node_layouts(t.children, base + 1, values);
    lemma_node_layout_len(t, base, values);
    lemma_node_layouts_len(t.children, base + 1, values);
    assert(d.nodes[base + 0] == block[0]);
    assert(nodes_at(d, base + 1, rest)) by {
        assert forall|k: int| 0 <= k < rest.len() implies d.nodes[base + 1 + k]
            == #[trigger] rest[k] by {
            assert(block[k + 1] == rest[k]);
            assert(d.nodes[base + (k + 1)] == block[k + 1]);
        }
    }
    match t.head {
        NodeHead::Patch { symbol, value, .. } => {
            assert(value_layouts(t.children, values + size(value)) =~= Seq::empty());
            assert(value_layout(t, values) =~= layout(value, values));
            lemma_layout_linked(input, d, floats, value, n + 1, values);
            assert(node_sizes(t.children) == 0);
            assert(value_sizes(t.children) == 0);
        },
        NodeHead::Entity { .. } => {
            assert forall|i: int| 0 <= i < t.children.len() implies node_spans(
                input,
                #[trigger] t.children[i],
            ) && (entity_fits(floats, t.children[i], (n - 1) as nat) || entry_fits(
                floats,
                t.children[i],
                (n - 1) as nat,
            )) by {
                assert(entry_fits(floats, t.children[i], (n - 1) as nat));
            }
            lemma_nodes_linked(
                input,
                d,
                floats,
                t.children,
                (n - 1) as nat,
                base + 1,
                values,
            );
            lemma_node_ids(d, t.children, base + 1);
            lemma_picked_linked(d, t, base, patch_ids_from(t.children, base + 1));
            lemma_picked_linked(d, t, base, relation_ids_from(t.children, base + 1));
        },
        NodeHead::Relation { .. } => {
            assert forall|i: int| 0 <= i < t.children.len() implies node_spans(
                input,
                #[trigger] t.children[i],
            ) && (entity_fits(floats, t.children[i], n) || entry_fits(floats, t.children[i], n)) by {
                assert(entity_fits(floats, t.children[i], n));
            }
            lemma_nodes_linked(input, d, floats, t.children, n, base + 1, values);
            lemma_node_ids(d, t.children, base + 1);
            let ids = node_ids_from(t.children, base + 1);
            assert forall|i: int| 0 <= i < ids.len() implies base < #[trigger] ids[i]
                < d.nodes.len() && inside(d.nodes[ids[i]].span, d.nodes[base].span) by {
                assert(stands(d, ids[i], t.children[i]));
                assert(inside(t.children[i].span, t.span));
            }
            assert forall|i: int| 0 <= i < ids.len() implies d.nodes[#[trigger] ids[i]].kind
                is Entity by {
                assert(stands(d, ids[i], t.children[i]));
                assert(entity_fits(floats, t.children[i], n));
            }
        },
    }
}

/// Some of the children of a node are linked to it.
proof fn lemma_picked_linked(d: Document, t: NodeTree, base: int, ids: Seq<int>)
    requires
        0 <= base < d.nodes.len(),
        d.nodes[base].span == t.span,
        forall|i: int| 0 <= i < t.children.len() ==> inside((#[trigger] t.children[i]).span, t.span),
        forall|i: int|
            0 <= i < t.children.len() ==> stands(
                d,
                node_ids_from(t.children, base + 1)[i],
                #[trigger] t.children[i],
            ),
        picked(d, t.children, base + 1, ids),
    ensures
        nodes_linked(d, base, ids),
{
    lemma_node_ids(d, t.children, base + 1);
    assert forall|i: int| 0 <= i < ids.len() implies base < #[trigger] ids[i] < d.nodes.len()
        && inside(d.nodes[ids[i]].span, d.nodes[base].span) by {
        assert(picked_id(t.children, base + 1, ids[i]));
        let k = choose|k: int|
            0 <= k < t.children.len() && #[trigger] node_ids_from(t.children, base + 1)[k]
                == ids[i];
        assert(stands(d, node_ids_from(t.children, base + 1)[k], t.children[k]));
        assert(inside(t.children[k].span, t.span));
    }
}

proof fn lemma_nodes_linked(
    input: Input,
    d: Document,
    floats: Floats,
    ts: Seq<NodeTree>,
    n: nat,
    base: int,
    values: int,
)
    requires
        in_order(input),
        forall|i: int|
            0 <= i < ts.len() ==> node_spans(input, #[trigger] ts[i]) && (entity_fits(
                floats,
                ts[i],
                n,
            ) || entry_fits(floats, ts[i], n)),
        nodes_at(d, base, node_layouts(ts, base, values)),
        values_at(d, values, value_layouts(ts, values)),
    ensures
        forall|i: int|
            0 <= i < ts.len() ==> stands(d, node_ids_from(ts, base)[i], #[trigger] ts[i]),
        forall|id: int|
            base <= id < base + node_sizes(ts) ==> node_linked(d, id) && of_tokens(
                input,
                (#[trigger] d.nodes[id]).span,
            ) && labels_of_tokens(input, d.nodes[id].kind),
        forall|id: int|
            values <= id < values + value_sizes(ts) ==> value_linked(d, id) && of_tokens(
                input,
                (#[trigger] d.values[id]).span,
            ),
    decreases ts,
{
    if ts.len() > 0 {
        let init = ts.drop_last();
        let at = base + node_sizes(init);
        let from = values + value_sizes(init);
        let a = node_layouts(init, base, values);
        let b = node_layout(ts.last(), at, from);
        let x = value_layouts(init, values);
        let y = value_layout(ts.last(), from);
        lemma_node_layouts_len(init, base, values);
        lemma_node_layouts_len(ts, base, values);
        lemma_value_layouts_len(init, values);
        assert(nodes_at(d, base, a)) by {
            assert forall|k: int| 0 <= k < a.len() implies d.nodes[base + k] == #[trigger] a[k] by {
                assert((a + b)[k] == a[k]);
            }
        }
        assert(nodes_at(d, at, b)) by {
            assert forall|k: int| 0 <= k < b.len() implies d.nodes[at + k] == #[trigger] b[k] by {
                assert((a + b)[a.len() + k] == b[k]);
                assert(d.nodes[base + (a.len() + k)] == b[k]);
            }
        }
        assert(values_at(d, values, x)) by {
            assert forall|k: int| 0 <= k < x.len() implies d.values[values + k]
                == #[trigger] x[k] by {
                assert((x + y)[k] == x[k]);
            }
        }
        assert(values_at(d, from, y)) by {
            assert forall|k: int| 0 <= k < y.len() implies d.values[from + k]
                == #[trigger] y[k] by {
                assert((x + y)[x.len() + k] == y[k]);
                assert(d.values[values + (x.len() + k)] == y[k]);
            }
        }
        assert forall|i: int| 0 <= i < init.len() implies node_spans(input, #[trigger] init[i]) && (
        entity_fits(floats, init[i], n) || entry_fits(floats, init[i], n)) by {
            assert(init[i] == ts[i]);
        }
        lemma_nodes_linked(input, d, floats, init, n, base, values);
        assert(node_spans(input, ts[ts.len() - 1]));
        lemma_node_linked(input, d, floats, ts.last(), n, at, from);
        assert forall|i: int| 0 <= i < ts.len() implies stands(
            d,
            node_ids_from(ts, base)[i],
            #[trigger] ts[i],
        ) by {
            if i < init.len() {
                assert(init[i] == ts[i]);
                assert(node_ids_from(ts, base)[i] == node_ids_from(init, base)[i]);
            }
        }
    }
}

/// A span of whole tokens is a non-empty span of whole characters.
proof fn lemma_span_fits(source: Seq<char>, floats: Floats, span: Span)
    requires
        byte_len(source) <= u32::MAX,
        of_tokens(input_of(source, floats), span),
    ensures
        span_fits(source, span),
{
    let input = input_of(source, floats);
    lemma_in_order(source, floats);
    lemma_not_empty(input, span);
    let (i, j) = choose|i: int, j: int|
        0 <= i <= j < input.toks.len() - 1 && #[trigger] from_to(input, i, j) == span;
    lemma_token_span(source, floats, i);
    lemma_token_span(source, floats, j);
    let a = lex(source)[i];
    let b = lex(source)[j];
    lemma_byte_at_mono(source, b.end, source.len() as int);
    assert(byte_at(source, a.start) == span.start);
    assert(byte_at(source, b.end) == span.end);
}

/// In a parsed document every node and value carries its own index as its id, every id that
/// it mentions is present and larger than its own, so that there are no dangling ids and no
/// cycles, patches and relations are listed as such, and the value of a patch is named by its
/// symbol. The field names of a struct are distinct. Every span, those of names and bases
/// included, is a non-empty range of whole characters of the source, and the span of a node or
/// value lies inside the span of what it is part of.
pub proof fn law_parsed_arenas(source: Seq<char>, floats: Floats)
    requires
        byte_len(source) <= u32::MAX,
        parse_model(source, floats) is Ok,
    ensures
        ({
            let d = parse_model(source, floats)->Ok_0;
            &&& d.ids_match()
            &&& forall|id: int|
                0 <= id < d.nodes.len() ==> node_linked(d, id) && span_fits(
                    source,
                    (#[trigger] d.nodes[id]).span,
                ) && labels_fit(source, d.nodes[id].kind)
            &&& forall|id: int|
                0 <= id < d.values.len() ==> value_linked(d, id) && span_fits(
                    source,
                    (#[trigger] d.values[id]).span,
                )
            &&& forall|i: int|
                0 <= i < d.roots.len() ==> 0 <= #[trigger] d.roots[i] < d.nodes.len()
                    && d.nodes[d.roots[i]].kind is Entity
        }),
{
    let input = input_of(source, floats);
    let d = parse_model(source, floats)->Ok_0;
    let roots = parsed_roots(source, floats);
    let n = MAX_NESTING_DEPTH as nat;
    lemma_in_order(source, floats);
    lemma_parsed_roots(source, floats);
    assert forall|i: int| 0 <= i < roots.len() implies node_spans(input, #[trigger] roots[i]) && (
    entity_fits(floats, roots[i], n) || entry_fits(floats, roots[i], n)) by {
        assert(entity_fits(floats, roots[i], n));
    }
    lemma_nodes_linked(input, d, floats, roots, n, 0, 0);
    lemma_node_layouts_len(roots, 0, 0);
    lemma_value_layouts_len(roots, 0);
    assert forall|id: int| 0 <= id < d.nodes.len() implies node_linked(d, id) && span_fits(
        source,
        (#[trigger] d.nodes[id]).span,
    ) && labels_fit(source, d.nodes[id].kind) by {
        lemma_span_fits(source, floats, d.nodes[id].span);
        if let NodeKind::Entity { name_span, base_span, .. } = d.nodes[id].kind {
            reveal(labels_placed);
            if let Some(span) = name_span {
                lemma_span_fits(source, floats, span);
            }
            if let Some(span) = base_span {
                lemma_span_fits(source, floats, span);
            }
        }
    }
    assert forall|id: int| 0 <= id < d.values.len() implies value_linked(d, id) && span_fits(
        source,
        (#[trigger] d.values[id]).span,
    ) by {
        lemma_span_fits(source, floats, d.values[id].span);
    }
    assert forall|i: int| 0 <= i < d.roots.len() implies 0 <= #[trigger] d.roots[i] < d.nodes.len()
        && d.nodes[d.roots[i]].kind is Entity by {
        assert(stands(d, node_ids_from(roots, 0)[i], roots[i]));
        assert(entity_fits(floats, roots[i], n));
    }
    assert forall|i: int| 0 <= i < d.nodes.len() implies (#[trigger] d.nodes[i]).id == i by {
        assert(node_linked(d, i));
    }
    assert forall|i: int| 0 <= i < d.values.len() implies (#[trigger] d.values[i]).id == i by {
        assert(value_linked(d, i));
    }
}

} // verus!
