//! Where no node is listed twice, printing meets each node at most once, however the values are
//! shared.

use vstd::arithmetic::mul::lemma_mul_inequality;
use vstd::prelude::*;
use vstd::set_lib::{lemma_int_range, lemma_len_subset, lemma_set_disjoint_lens, set_int_range};

use crate::ast::BsnDocument;
use crate::bounds::law_output_is_bounded;
use crate::model::{Document, Node, NodeKind};
use crate::order::{entry_leq, lemma_entry_order, merged};
use crate::render::{print_model, PrintOptions, Style, MAX_WALK_DEPTH};

verus! {

/// Whether node `y` lists node `x`.
pub open spec fn lists(document: Document, y: int, x: int) -> bool {
    &&& 0 <= y < document.nodes.len()
    &&& match document.nodes[y].kind {
        NodeKind::Entity { patches, relations, .. } => patches.contains(x) || relations.contains(x),
        NodeKind::Patch { .. } => false,
        NodeKind::Relation { entities, .. } => entities.contains(x),
    }
}

/// Whether a node lists nothing twice.
pub open spec fn lists_apart(node: Node) -> bool {
    match node.kind {
        NodeKind::Entity { patches, relations, .. } => (patches + relations).no_duplicates(),
        NodeKind::Patch { .. } => true,
        NodeKind::Relation { entities, .. } => entities.no_duplicates(),
    }
}

/// Whether the nodes form trees: every id that is listed has a node, and none is listed twice.
/// Nothing is asked of the values.
pub open spec fn nodes_form_trees(document: Document) -> bool {
    &&& document.roots.no_duplicates()
    &&& forall|x: int| #[trigger]
        document.roots.contains(x) ==> 0 <= x < document.nodes.len() && forall|y: int|
            !lists(document, y, x)
    &&& forall|y: int|
        0 <= y < document.nodes.len() ==> lists_apart(#[trigger] document.nodes[y])
    &&& forall|y: int, x: int| #[trigger] lists(document, y, x) ==> 0 <= x < document.nodes.len()
    &&& forall|y: int, z: int, x: int| #[trigger]
        lists(document, y, x) && #[trigger] lists(document, z, x) ==> y == z
}

impl Style {
    /// The nodes that are met in an entity.
    pub open spec fn entity_nodes(self, id: int, level: nat, path: Seq<int>) -> Set<int>
        decreases 2 * (MAX_WALK_DEPTH + 1 - level), 0nat,
    {
        if level > MAX_WALK_DEPTH || path.contains(id) {
            set![id]
        } else {
            match self.document.node(id) {
                None => set![id],
                Some(node) => match node.kind {
                    NodeKind::Entity { patches, relations, .. } => {
                        let order = merged(self.document, patches, relations);
                        set![id] + self.entries_nodes(order, order.len(), level, path.push(id))
                    },
                    _ => set![id],
                },
            }
        }
    }

    /// The nodes that are met in the first `n` entries.
    pub open spec fn entries_nodes(self, order: Seq<int>, n: nat, level: nat, path: Seq<int>) -> Set<
        int,
    >
        decreases 2 * (MAX_WALK_DEPTH - level) + 1, n + 1,
        when level <= MAX_WALK_DEPTH
    {
        if n == 0 {
            Set::empty()
        } else {
            self.entries_nodes(order, (n - 1) as nat, level, path) + self.entry_nodes(
                order[n - 1],
                level,
                path,
            )
        }
    }

    /// The nodes that are met in a patch or a relation.
    pub open spec fn entry_nodes(self, id: int, level: nat, path: Seq<int>) -> Set<int>
        decreases 2 * (MAX_WALK_DEPTH - level) + 1, 1nat,
        when level <= MAX_WALK_DEPTH
    {
        match self.document.node(id) {
            Some(node) => match node.kind {
                NodeKind::Relation { entities, .. } => set![id] + self.entities_nodes(
                    entities,
                    entities.len(),
                    level,
                    path,
                ),
                _ => set![id],
            },
            None => set![id],
        }
    }

    /// The nodes that are met in the first `n` entities of a relation.
    pub open spec fn entities_nodes(self, ids: Seq<int>, n: nat, level: nat, path: Seq<int>) -> Set<
        int,
    >
        decreases 2 * (MAX_WALK_DEPTH - level), n + 1,
        when level <= MAX_WALK_DEPTH
    {
        if n == 0 {
            Set::empty()
        } else {
            self.entities_nodes(ids, (n - 1) as nat, level, path) + self.entity_nodes(
                ids[n - 1],
                level + 1,
                path,
            )
        }
    }

    /// The nodes that are met in the first `n` roots.
    pub open spec fn roots_nodes(self, n: nat) -> Set<int>
        decreases n,
    {
        if n == 0 {
            Set::empty()
        } else {
            self.roots_nodes((n - 1) as nat) + self.entity_nodes(
                self.document.roots[n - 1],
                0,
                Seq::empty(),
            )
        }
    }
}

// -- sets of nodes ------------------------------------------------------------------------------

/// Whether what lists a member is a member.
spec fn closed_above(d: Document, above: Set<int>) -> bool {
    forall|x: int, y: int| #[trigger] above.contains(x) && #[trigger] lists(d, y, x)
        ==> above.contains(y)
}

/// Whether a node can be met next, where the nodes `above` were met before: it was not, and what
/// lists it was.
spec fn is_next(d: Document, above: Set<int>, id: int) -> bool {
    &&& 0 <= id < d.nodes.len()
    &&& !above.contains(id)
    &&& forall|y: int| #[trigger] lists(d, y, id) ==> above.contains(y)
}

/// Whether a member of `nodes` lists `x`.
spec fn is_under(d: Document, nodes: Set<int>, x: int) -> bool {
    exists|y: int| #[trigger] lists(d, y, x) && nodes.contains(y)
}

/// Whether `nodes` are `met` nodes that were not met before.
spec fn is_new(d: Document, above: Set<int>, nodes: Set<int>, met: nat) -> bool {
    &&& nodes.finite()
    &&& nodes.len() == met
    &&& forall|x: int| #[trigger]
        nodes.contains(x) ==> 0 <= x < d.nodes.len() && !above.contains(x)
}

/// Whether `nodes` are new, and each of them but `id` is listed by another.
spec fn is_tree(d: Document, above: Set<int>, id: int, nodes: Set<int>, met: nat) -> bool {
    &&& is_new(d, above, nodes, met)
    &&& nodes.contains(id)
    &&& forall|x: int| #[trigger] nodes.contains(x) && x != id ==> is_under(d, nodes, x)
}

/// Whether `nodes` are new, and each of them but the first `n` of `heads` is listed by another.
spec fn is_forest(
    d: Document,
    above: Set<int>,
    heads: Seq<int>,
    n: nat,
    nodes: Set<int>,
    met: nat,
) -> bool {
    &&& is_new(d, above, nodes, met)
    &&& forall|x: int| #[trigger]
        nodes.contains(x) ==> heads.take(n as int).contains(x) || is_under(d, nodes, x)
}

/// Whether each of `heads` can be met next.
spec fn are_next(d: Document, above: Set<int>, heads: Seq<int>) -> bool {
    &&& closed_above(d, above)
    &&& heads.no_duplicates()
    &&& forall|k: int| 0 <= k < heads.len() ==> is_next(d, above, #[trigger] heads[k])
}

/// What a node that can be met next lists can be met after it.
proof fn lemma_listed_next(d: Document, above: Set<int>, id: int, heads: Seq<int>)
    requires
        nodes_form_trees(d),
        closed_above(d, above),
        is_next(d, above, id),
        heads.no_duplicates(),
        forall|k: int| 0 <= k < heads.len() ==> lists(d, id, #[trigger] heads[k]),
    ensures
        are_next(d, above.insert(id), heads),
{
    assert forall|k: int| 0 <= k < heads.len() implies is_next(
        d,
        above.insert(id),
        #[trigger] heads[k],
    ) by {
        let x = heads[k];
        assert(lists(d, id, x));
        if above.contains(x) {
            assert(above.contains(id));
        }
        if x == id {
            assert(lists(d, id, id));
        }
    }
}

/// After the trees of the first heads, the next head can be met.
proof fn lemma_next_head(
    d: Document,
    above: Set<int>,
    heads: Seq<int>,
    n: nat,
    nodes: Set<int>,
    met: nat,
)
    requires
        nodes_form_trees(d),
        are_next(d, above, heads),
        n < heads.len(),
        is_forest(d, above, heads, n, nodes, met),
    ensures
        closed_above(d, above + nodes),
        is_next(d, above + nodes, heads[n as int]),
{
    assert forall|x: int, y: int| #[trigger]
        (above + nodes).contains(x) && #[trigger] lists(d, y, x) implies (above + nodes).contains(
        y,
    ) by {
        if nodes.contains(x) {
            if heads.take(n as int).contains(x) {
                let k = choose|k: int| 0 <= k < n && heads.take(n as int)[k] == x;
                assert(is_next(d, above, heads[k]));
            } else {
                let z = choose|z: int| #[trigger] lists(d, z, x) && nodes.contains(z);
                assert(y == z);
            }
        }
    }
    let head = heads[n as int];
    assert(is_next(d, above, head));
    if nodes.contains(head) {
        if heads.take(n as int).contains(head) {
            let k = choose|k: int| 0 <= k < n && heads.take(n as int)[k] == head;
            assert(heads[k] == heads[n as int]);
        } else {
            let z = choose|z: int| #[trigger] lists(d, z, head) && nodes.contains(z);
            assert(above.contains(z));
        }
    }
}

/// The tree of the next head joins the trees of the heads before it.
proof fn lemma_grow(
    d: Document,
    above: Set<int>,
    heads: Seq<int>,
    n: nat,
    nodes: Set<int>,
    met: nat,
    tree: Set<int>,
    more: nat,
)
    requires
        n < heads.len(),
        is_forest(d, above, heads, n, nodes, met),
        is_tree(d, above + nodes, heads[n as int], tree, more),
    ensures
        is_forest(d, above, heads, n + 1, nodes + tree, met + more),
{
    let all = nodes + tree;
    assert(nodes.disjoint(tree)) by {
        assert forall|x: int| !(nodes.contains(x) && tree.contains(x)) by {
            if tree.contains(x) {
                assert(!(above + nodes).contains(x));
            }
        }
    }
    lemma_set_disjoint_lens(nodes, tree);
    assert forall|x: int| #[trigger] all.contains(x) implies 0 <= x < d.nodes.len()
        && !above.contains(x) by {
        if tree.contains(x) {
            assert(!(above + nodes).contains(x));
        }
    }
    assert forall|x: int| #[trigger] all.contains(x) implies heads.take((n + 1) as int).contains(x)
        || is_under(d, all, x) by {
        let longer = heads.take((n + 1) as int);
        if nodes.contains(x) {
            if heads.take(n as int).contains(x) {
                let k = choose|k: int| 0 <= k < n && heads.take(n as int)[k] == x;
                assert(longer[k] == x);
            } else {
                let z = choose|z: int| #[trigger] lists(d, z, x) && nodes.contains(z);
                assert(all.contains(z));
            }
        } else if x == heads[n as int] {
            assert(longer[n as int] == x);
        } else {
            assert(tree.contains(x));
            let z = choose|z: int| #[trigger] lists(d, z, x) && tree.contains(z);
            assert(all.contains(z));
        }
    }
}

/// A node and the trees of what it lists are a tree.
proof fn lemma_join(
    d: Document,
    above: Set<int>,
    id: int,
    heads: Seq<int>,
    nodes: Set<int>,
    met: nat,
)
    requires
        is_next(d, above, id),
        forall|k: int| 0 <= k < heads.len() ==> lists(d, id, #[trigger] heads[k]),
        is_forest(d, above.insert(id), heads, heads.len(), nodes, met),
    ensures
        is_tree(d, above, id, set![id] + nodes, 1 + met),
{
    let all = set![id] + nodes;
    assert(set![id].disjoint(nodes)) by {
        assert forall|x: int| !(set![id].contains(x) && nodes.contains(x)) by {
            if nodes.contains(x) {
                assert(!above.insert(id).contains(x));
            }
        }
    }
    lemma_set_disjoint_lens(set![id], nodes);
    assert(set![id].len() == 1);
    assert forall|x: int| #[trigger] all.contains(x) implies 0 <= x < d.nodes.len()
        && !above.contains(x) by {
        if nodes.contains(x) {
            assert(!above.insert(id).contains(x));
        }
    }
    assert forall|x: int| #[trigger] all.contains(x) && x != id implies is_under(d, all, x) by {
        assert(nodes.contains(x));
        if heads.take(heads.len() as int).contains(x) {
            let k = choose|k: int|
                0 <= k < heads.len() && heads.take(heads.len() as int)[k] == x;
            assert(lists(d, id, heads[k]));
            assert(all.contains(id));
        } else {
            let z = choose|z: int| #[trigger] lists(d, z, x) && nodes.contains(z);
            assert(all.contains(z));
        }
    }
}

/// A node alone is a tree.
proof fn lemma_alone(d: Document, above: Set<int>, id: int)
    requires
        is_next(d, above, id),
    ensures
        is_tree(d, above, id, set![id], 1),
{
    assert(set![id].len() == 1);
}

/// No tree is a forest without heads.
proof fn lemma_none(d: Document, above: Set<int>, heads: Seq<int>)
    ensures
        is_forest(d, above, heads, 0, Set::empty(), 0),
{
}

/// The entries of an entity are what it lists, each once.
proof fn lemma_order(d: Document, id: int)
    requires
        nodes_form_trees(d),
        0 <= id < d.nodes.len(),
        d.nodes[id].kind is Entity,
    ensures
        ({
            let order = merged(
                d,
                d.nodes[id].kind->Entity_patches,
                d.nodes[id].kind->Entity_relations,
            );
            &&& order.no_duplicates()
            &&& forall|k: int| 0 <= k < order.len() ==> lists(d, id, #[trigger] order[k])
        }),
{
    broadcast use vstd::seq_lib::group_to_multiset_ensures;

    let patches = d.nodes[id].kind->Entity_patches;
    let relations = d.nodes[id].kind->Entity_relations;
    let all = patches + relations;
    let order = merged(d, patches, relations);
    lemma_entry_order(d);
    all.lemma_sort_by_ensures(|a: int, b: int| entry_leq(d, a, b));
    assert(order.to_multiset() == all.to_multiset());
    assert(lists_apart(d.nodes[id]));
    all.lemma_multiset_has_no_duplicates();
    order.lemma_multiset_has_no_duplicates_conv();
    assert forall|k: int| 0 <= k < order.len() implies lists(d, id, #[trigger] order[k]) by {
        order.to_multiset_ensures();
        all.to_multiset_ensures();
        assert(order.contains(order[k]));
        assert(order.to_multiset().count(order[k]) > 0);
        assert(all.contains(order[k]));
        let j = choose|j: int| 0 <= j < all.len() && all[j] == order[k];
        if j < patches.len() {
            assert(patches[j] == order[k]);
        } else {
            assert(relations[j - patches.len()] == order[k]);
        }
    }
}

// -- printing -----------------------------------------------------------------------------------

/// Whether every node on the path was met.
spec fn was_met(above: Set<int>, path: Seq<int>) -> bool {
    forall|k: int| 0 <= k < path.len() ==> above.contains(#[trigger] path[k])
}

proof fn lemma_entity_tree(style: Style, id: int, level: nat, path: Seq<int>, above: Set<int>)
    requires
        nodes_form_trees(style.document),
        closed_above(style.document, above),
        is_next(style.document, above, id),
        was_met(above, path),
    ensures
        is_tree(
            style.document,
            above,
            id,
            style.entity_nodes(id, level, path),
            style.entity_met(id, level, path),
        ),
    decreases 2 * (MAX_WALK_DEPTH + 1 - level), 0nat,
{
    let d = style.document;
    lemma_alone(d, above, id);
    if level > MAX_WALK_DEPTH || path.contains(id) {
    } else {
        match d.nodes[id].kind {
            NodeKind::Entity { patches, relations, .. } => {
                let order = merged(d, patches, relations);
                lemma_order(d, id);
                lemma_listed_next(d, above, id, order);
                lemma_entries_forest(
                    style,
                    order,
                    order.len(),
                    level,
                    path.push(id),
                    above.insert(id),
                );
                lemma_join(
                    d,
                    above,
                    id,
                    order,
                    style.entries_nodes(order, order.len(), level, path.push(id)),
                    style.entries_met(order, order.len(), level, path.push(id)),
                );
            },
            _ => {},
        }
    }
}

proof fn lemma_entries_forest(
    style: Style,
    order: Seq<int>,
    n: nat,
    level: nat,
    path: Seq<int>,
    above: Set<int>,
)
    requires
        nodes_form_trees(style.document),
        are_next(style.document, above, order),
        was_met(above, path),
        n <= order.len(),
        level <= MAX_WALK_DEPTH,
    ensures
        is_forest(
            style.document,
            above,
            order,
            n,
            style.entries_nodes(order, n, level, path),
            style.entries_met(order, n, level, path),
        ),
    decreases 2 * (MAX_WALK_DEPTH - level) + 1, n + 1,
{
    let d = style.document;
    if n == 0 {
        lemma_none(d, above, order);
    } else {
        let m = (n - 1) as nat;
        let nodes = style.entries_nodes(order, m, level, path);
        let met = style.entries_met(order, m, level, path);
        lemma_entries_forest(style, order, m, level, path, above);
        lemma_next_head(d, above, order, m, nodes, met);
        lemma_entry_tree(style, order[m as int], level, path, above + nodes);
        lemma_grow(
            d,
            above,
            order,
            m,
            nodes,
            met,
            style.entry_nodes(order[m as int], level, path),
            style.entry_met(order[m as int], level, path),
        );
    }
}

proof fn lemma_entry_tree(style: Style, id: int, level: nat, path: Seq<int>, above: Set<int>)
    requires
        nodes_form_trees(style.document),
        closed_above(style.document, above),
        is_next(style.document, above, id),
        was_met(above, path),
        level <= MAX_WALK_DEPTH,
    ensures
        is_tree(
            style.document,
            above,
            id,
            style.entry_nodes(id, level, path),
            style.entry_met(id, level, path),
        ),
    decreases 2 * (MAX_WALK_DEPTH - level) + 1, 1nat,
{
    let d = style.document;
    lemma_alone(d, above, id);
    match d.nodes[id].kind {
        NodeKind::Relation { entities, .. } => {
            assert(lists_apart(d.nodes[id]));
            assert forall|k: int| 0 <= k < entities.len() implies lists(
                d,
                id,
                #[trigger] entities[k],
            ) by {}
            lemma_listed_next(d, above, id, entities);
            lemma_entities_forest(style, entities, entities.len(), level, path, above.insert(id));
            lemma_join(
                d,
                above,
                id,
                entities,
                style.entities_nodes(entities, entities.len(), level, path),
                style.entities_met(entities, entities.len(), level, path),
            );
        },
        _ => {},
    }
}

proof fn lemma_entities_forest(
    style: Style,
    ids: Seq<int>,
    n: nat,
    level: nat,
    path: Seq<int>,
    above: Set<int>,
)
    requires
        nodes_form_trees(style.document),
        are_next(style.document, above, ids),
        was_met(above, path),
        n <= ids.len(),
        level <= MAX_WALK_DEPTH,
    ensures
        is_forest(
            style.document,
            above,
            ids,
            n,
            style.entities_nodes(ids, n, level, path),
            style.entities_met(ids, n, level, path),
        ),
    decreases 2 * (MAX_WALK_DEPTH - level), n + 1,
{
    let d = style.document;
    if n == 0 {
        lemma_none(d, above, ids);
    } else {
        let m = (n - 1) as nat;
        let nodes = style.entities_nodes(ids, m, level, path);
        let met = style.entities_met(ids, m, level, path);
        lemma_entities_forest(style, ids, m, level, path, above);
        lemma_next_head(d, above, ids, m, nodes, met);
        lemma_entity_tree(style, ids[m as int], level + 1, path, above + nodes);
        lemma_grow(
            d,
            above,
            ids,
            m,
            nodes,
            met,
            style.entity_nodes(ids[m as int], level + 1, path),
            style.entity_met(ids[m as int], level + 1, path),
        );
    }
}

proof fn lemma_roots_forest(style: Style, n: nat)
    requires
        nodes_form_trees(style.document),
        n <= style.document.roots.len(),
    ensures
        is_forest(
            style.document,
            Set::empty(),
            style.document.roots,
            n,
            style.roots_nodes(n),
            style.roots_met(n),
        ),
    decreases n,
{
    let d = style.document;
    let above = Set::<int>::empty();
    if n == 0 {
        lemma_none(d, above, d.roots);
    } else {
        let m = (n - 1) as nat;
        let nodes = style.roots_nodes(m);
        let met = style.roots_met(m);
        let id = d.roots[m as int];
        lemma_roots_forest(style, m);
        assert forall|k: int| 0 <= k < d.roots.len() implies is_next(
            d,
            above,
            #[trigger] d.roots[k],
        ) by {
            assert(d.roots.contains(d.roots[k]));
        }
        lemma_next_head(d, above, d.roots, m, nodes, met);
        lemma_entity_tree(style, id, 0, Seq::empty(), above + nodes);
        lemma_grow(
            d,
            above,
            d.roots,
            m,
            nodes,
            met,
            style.entity_nodes(id, 0, Seq::empty()),
            style.entity_met(id, 0, Seq::empty()),
        );
    }
}

/// Where the nodes of a document form trees, printing meets no node twice, so that the length of
/// the text is at most what its nodes and its budget of visits add, however its values are
/// shared.
pub proof fn law_output_of_trees_is_bounded(document: BsnDocument, options: PrintOptions)
    requires
        nodes_form_trees(document@),
    ensures
        ({
            let style = Style { document: document@, options };
            let n = document@.roots.len();
            &&& style.roots_met(n) <= document@.nodes.len()
            &&& print_model(document@, options).len() <= document@.nodes.len() * style.node_len()
                + style.budget() * style.visit_len() + 3 * n + 1
        }),
{
    let style = Style { document: document@, options };
    let n = document@.roots.len();
    let count = document@.nodes.len() as int;
    lemma_roots_forest(style, n);
    lemma_int_range(0, count);
    assert(style.roots_nodes(n).subset_of(set_int_range(0, count)));
    lemma_len_subset(style.roots_nodes(n), set_int_range(0, count));
    law_output_is_bounded(document, options);
    lemma_mul_inequality(style.roots_met(n) as int, count, style.node_len() as int);
}

} // verus!
