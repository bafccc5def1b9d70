//! The ids of a parsed document follow the source.

use vstd::prelude::*;

use crate::entities::{input_of, parse_model};
use crate::error::MAX_NESTING_DEPTH;
use crate::float::Floats;
use crate::grammar::{Input, NodeHead, NodeTree, Tree};
use crate::layout::{
    layout, layouts, node_layout, node_layouts, node_sizes, size, sizes, value_layout,
    value_layouts, value_sizes,
};
use crate::model::{Node, Value};
use crate::parsed_spans::{
    in_order, inside, lemma_list_spans, lemma_not_empty, node_spans, nodes_placed, tree_spans,
};
use crate::roundtrip::{lemma_in_order, lemma_parsed_roots, parsed_roots};
use crate::shape::{entity_fits, entry_fits};
use crate::span::Span;
use crate::text::byte_len;
use crate::token::TokenKind;

verus! {

pub open spec fn value_spans(values: Seq<Value>) -> Seq<Span> {
    values.map_values(|value: Value| value.span)
}

pub open spec fn all_node_spans(nodes: Seq<Node>) -> Seq<Span> {
    nodes.map_values(|node: Node| node.span)
}

/// Spans in pre-order: of any two, the later one lies inside the earlier one or behind it.
pub open spec fn in_preorder(spans: Seq<Span>) -> bool {
    forall|i: int, j: int|
        0 <= i < j < spans.len() ==> inside(#[trigger] spans[j], #[trigger] spans[i])
            || spans[i].end <= spans[j].start
}

/// Whether all spans lie between two offsets.
spec fn between(spans: Seq<Span>, low: int, high: int) -> bool {
    forall|i: int|
        0 <= i < spans.len() ==> low <= (#[trigger] spans[i]).start <= spans[i].end <= high
}

proof fn lemma_behind(a: Seq<Span>, b: Seq<Span>, low: int, mid: int, next: int, high: int)
    requires
        in_preorder(a),
        in_preorder(b),
        between(a, low, mid),
        between(b, next, high),
        mid <= next,
        low <= next,
        mid <= high,
    ensures
        in_preorder(a + b),
        between(a + b, low, high),
{
    let all = a + b;
    assert forall|i: int, j: int| 0 <= i < j < all.len() implies inside(
        #[trigger] all[j],
        #[trigger] all[i],
    ) || all[i].end <= all[j].start by {
        if j < a.len() {
            assert(all[i] == a[i] && all[j] == a[j]);
        } else if i >= a.len() {
            assert(all[i] == b[i - a.len()] && all[j] == b[j - a.len()]);
        } else {
            assert(all[i] == a[i] && all[j] == b[j - a.len()]);
        }
    }
    assert forall|i: int| 0 <= i < all.len() implies low <= (#[trigger] all[i]).start
        <= all[i].end <= high by {
        if i < a.len() {
            assert(all[i] == a[i]);
        } else {
            assert(all[i] == b[i - a.len()]);
        }
    }
}

proof fn lemma_first(first: Span, rest: Seq<Span>)
    requires
        first.start <= first.end,
        in_preorder(rest),
        between(rest, first.start as int, first.end as int),
    ensures
        in_preorder(seq![first] + rest),
        between(seq![first] + rest, first.start as int, first.end as int),
{
    let all = seq![first] + rest;
    assert forall|i: int, j: int| 0 <= i < j < all.len() implies inside(
        #[trigger] all[j],
        #[trigger] all[i],
    ) || all[i].end <= all[j].start by {
        assert(all[j] == rest[j - 1]);
        if i > 0 {
            assert(all[i] == rest[i - 1]);
        }
    }
    assert forall|i: int| 0 <= i < all.len() implies first.start <= (#[trigger] all[i]).start
        <= all[i].end <= first.end by {
        if i > 0 {
            assert(all[i] == rest[i - 1]);
        }
    }
}

// -- values -------------------------------------------------------------------------------------

proof fn lemma_value_order(input: Input, t: Tree, base: int)
    requires
        in_order(input),
        tree_spans(input, t),
    ensures
        in_preorder(value_spans(layout(t, base))),
        between(value_spans(layout(t, base)), t.span.start as int, t.span.end as int),
        t.span.start < t.span.end,
    decreases t,
{
    lemma_not_empty(input, t.span);
    let rest = value_spans(layouts(t.children, base + 1));
    assert forall|i: int| 0 <= i < t.children.len() implies tree_spans(
        input,
        #[trigger] t.children[i],
    ) && t.span.start <= t.children[i].span.start && t.children[i].span.end <= t.span.end by {
        assert(inside(t.children[i].span, t.span));
    }
    lemma_values_order(
        input,
        t.children,
        base + 1,
        t.span.start as int,
        t.span.end as int,
    );
    lemma_first(t.span, rest);
    assert(value_spans(layout(t, base)) =~= seq![t.span] + rest);
}

proof fn lemma_values_order(input: Input, ts: Seq<Tree>, base: int, low: int, high: int)
    requires
        in_order(input),
        low <= high,
        forall|i: int|
            0 <= i < ts.len() ==> tree_spans(input, #[trigger] ts[i]) && low <= ts[i].span.start
                && ts[i].span.end <= high,
        forall|i: int, j: int|
            0 <= i < j < ts.len() ==> (#[trigger] ts[i]).span.end <= (
            #[trigger] ts[j]).span.start,
    ensures
        in_preorder(value_spans(layouts(ts, base))),
        between(value_spans(layouts(ts, base)), low, high),
    decreases ts,
{
    if ts.len() > 0 {
        let init = ts.drop_last();
        let last = ts.last();
        let at = base + sizes(init);
        assert(tree_spans(input, ts[ts.len() - 1]));
        lemma_value_order(input, last, at);
        assert forall|i: int| 0 <= i < init.len() implies tree_spans(input, #[trigger] init[i])
            && low <= init[i].span.start && init[i].span.end <= last.span.start by {
            assert(init[i] == ts[i]);
            assert(ts[i].span.end <= ts[ts.len() - 1].span.start);
        }
        assert forall|i: int, j: int| 0 <= i < j < init.len() implies (
        #[trigger] init[i]).span.end <= (#[trigger] init[j]).span.start by {
            assert(init[i] == ts[i] && init[j] == ts[j]);
        }
        lemma_values_order(input, init, base, low, last.span.start as int);
        let a = value_spans(layouts(init, base));
        let b = value_spans(layout(last, at));
        let start = last.span.start as int;
        assert(between(b, start, high));
        lemma_behind(a, b, low, start, start, high);
        assert(value_spans(layouts(ts, base)) =~= a + b);
    }
}

// -- nodes --------------------------------------------------------------------------------------

/// Whether patches have no nodes inside them.
spec fn well_made(floats: Floats, t: NodeTree, n: nat) -> bool {
    entity_fits(floats, t, n) || entry_fits(floats, t, n)
}

proof fn lemma_node_order(
    input: Input,
    floats: Floats,
    t: NodeTree,
    n: nat,
    base: int,
    values: int,
)
    requires
        in_order(input),
        node_spans(input, t),
        well_made(floats, t, n),
    ensures
        in_preorder(all_node_spans(node_layout(t, base, values))),
        between(
            all_node_spans(node_layout(t, base, values)),
            t.span.start as int,
            t.span.end as int,
        ),
        in_preorder(value_spans(value_layout(t, values))),
        between(value_spans(value_layout(t, values)), t.span.start as int, t.span.end as int),
        t.span.start < t.span.end,
    decreases t,
{
    let low = t.span.start as int;
    let high = t.span.end as int;
    lemma_not_empty(input, t.span);
    let m = if t.head is Entity {
        (n - 1) as nat
    } else {
        n
    };
    assert forall|i: int| 0 <= i < t.children.len() implies node_spans(
        input,
        #[trigger] t.children[i],
    ) && well_made(floats, t.children[i], m) && low <= t.children[i].span.start
        && t.children[i].span.end <= high by {
        assert(inside(t.children[i].span, t.span));
        if t.head is Entity {
            assert(entry_fits(floats, t.children[i], m));
        } else {
            assert(entity_fits(floats, t.children[i], m));
        }
    }
    lemma_nodes_order(input, floats, t.children, m, base + 1, values, low, high);
    let rest = all_node_spans(node_layouts(t.children, base + 1, values));
    lemma_first(t.span, rest);
    assert(all_node_spans(node_layout(t, base, values)) =~= seq![t.span] + rest);
    if let NodeHead::Patch { value, .. } = t.head {
        lemma_value_order(input, value, values);
        assert(value_layouts(t.children, values + size(value)) =~= Seq::<Value>::empty());
        assert(value_layout(t, values) =~= layout(value, values));
        assert(inside(value.span, t.span));
    }
}

proof fn lemma_nodes_order(
    input: Input,
    floats: Floats,
    ts: Seq<NodeTree>,
    n: nat,
    base: int,
    values: int,
    low: int,
    high: int,
)
    requires
        in_order(input),
        low <= high,
        forall|i: int|
            0 <= i < ts.len() ==> node_spans(input, #[trigger] ts[i]) && well_made(
                floats,
                ts[i],
                n,
            ) && low <= ts[i].span.start && ts[i].span.end <= high,
        forall|i: int, j: int|
            0 <= i < j < ts.len() ==> (#[trigger] ts[i]).span.end <= (
            #[trigger] ts[j]).span.start,
    ensures
        in_preorder(all_node_spans(node_layouts(ts, base, values))),
        between(all_node_spans(node_layouts(ts, base, values)), low, high),
        in_preorder(value_spans(value_layouts(ts, values))),
        between(value_spans(value_layouts(ts, values)), low, high),
    decreases ts,
{
    if ts.len() > 0 {
        let init = ts.drop_last();
        let last = ts.last();
        let at = base + node_sizes(init);
        let from = values + value_sizes(init);
        let start = last.span.start as int;
        assert(node_spans(input, ts[ts.len() - 1]));
        lemma_node_order(input, floats, last, n, at, from);
        assert forall|i: int| 0 <= i < init.len() implies node_spans(input, #[trigger] init[i])
            && well_made(floats, init[i], n) && low <= init[i].span.start && init[i].span.end
            <= start by {
            assert(init[i] == ts[i]);
            assert(ts[i].span.end <= ts[ts.len() - 1].span.start);
        }
        assert forall|i: int, j: int| 0 <= i < j < init.len() implies (
        #[trigger] init[i]).span.end <= (#[trigger] init[j]).span.start by {
            assert(init[i] == ts[i] && init[j] == ts[j]);
        }
        lemma_nodes_order(input, floats, init, n, base, values, low, start);
        let a = all_node_spans(node_layouts(init, base, values));
        let b = all_node_spans(node_layout(last, at, from));
        assert(between(b, start, high));
        lemma_behind(a, b, low, start, start, high);
        assert(all_node_spans(node_layouts(ts, base, values)) =~= a + b);
        let x = value_spans(value_layouts(init, values));
        let y = value_spans(value_layout(last, from));
        assert(between(y, start, high));
        lemma_behind(x, y, low, start, start, high);
        assert(value_spans(value_layouts(ts, values)) =~= x + y);
    }
}

/// Ids are assigned in pre-order of the source: of any two nodes, and of any two values, the one
/// with the larger id lies inside the other, or behind it in the text.
pub proof fn law_ids_follow_the_source(source: Seq<char>, floats: Floats)
    requires
        byte_len(source) <= u32::MAX,
        parse_model(source, floats) is Ok,
    ensures
        in_preorder(all_node_spans(parse_model(source, floats)->Ok_0.nodes)),
        in_preorder(value_spans(parse_model(source, floats)->Ok_0.values)),
{
    let input = input_of(source, floats);
    let roots = parsed_roots(source, floats);
    let n = MAX_NESTING_DEPTH as nat;
    lemma_in_order(source, floats);
    lemma_parsed_roots(source, floats);
    assert(nodes_placed(input, 0, Seq::<NodeTree>::empty(), 0));
    lemma_list_spans(input, 0, 0, 0, TokenKind::Eof, Seq::empty());
    let (all, q) = input.entity_list(0, 0, TokenKind::Eof, Seq::empty())->Ok_0;
    assert(all == roots);
    let low = input.toks[0].span.start as int;
    let high = input.toks[q].span.start as int;
    assert(low <= high) by {
        if q > 0 {
            assert(input.toks[0].span.end <= input.toks[q].span.start);
            assert(input.toks[0].span.start < input.toks[0].span.end);
        }
    }
    assert forall|i: int| 0 <= i < roots.len() implies node_spans(input, #[trigger] roots[i])
        && well_made(floats, roots[i], n) && low <= roots[i].span.start && roots[i].span.end
        <= high by {
        assert(entity_fits(floats, roots[i], n));
    }
    lemma_nodes_order(input, floats, roots, n, 0, 0, low, high);
}

} // verus!
