//! Retained snapshots of accessibility subtrees.

use std::collections::BTreeMap;

use vstd::prelude::*;

use crate::entity::{NodeId, TreeId};
use crate::subtree_graph::{
    child_problem, edge_problem, first_repeated, first_unreachable, is_edge, is_reachable,
    is_repeated, is_repeated_child, least_misplaced, lemma_child_problem, lemma_edge_problem,
    lemma_reachable_child, lemma_reaches_closed, parent_count, present, reaches, snapshot_problem,
    AccessibilitySubtreeSnapshotError, GraphNode,
};
use crate::text::copy_str;

verus! {

/// A node of an accessibility subtree, as its toolkit publishes it.
///
/// The fields are what the shape of the tree and the routing of actions depend on; `node` is
/// whatever else the toolkit says about the node.
#[derive(Clone, Debug, PartialEq)]
pub struct SubtreeNode<N> {
    pub id: NodeId,
    pub children: Vec<NodeId>,
    /// The independent tree that the node grafts, if any.
    pub tree_id: Option<TreeId>,
    /// The numbers of the actions that the node advertises.
    pub actions: Vec<u8>,
    pub node: N,
}

/// Metadata of a tree.
#[derive(Clone, Debug, PartialEq)]
pub struct SubtreeInfo {
    pub root: NodeId,
    pub toolkit_name: Option<String>,
    pub toolkit_version: Option<String>,
}

/// An update of an accessibility tree.
#[derive(Clone, Debug, PartialEq)]
pub struct SubtreeUpdate<N> {
    pub nodes: Vec<SubtreeNode<N>>,
    /// The metadata, which a complete update has.
    pub tree: Option<SubtreeInfo>,
    pub tree_id: TreeId,
    pub focus: NodeId,
}

pub open spec fn node_numbers(ids: Seq<NodeId>) -> Seq<u64> {
    ids.map_values(|id: NodeId| id.0)
}

/// What the shape of a tree depends on, of a list of nodes.
pub open spec fn graph<N>(nodes: Seq<SubtreeNode<N>>) -> Seq<GraphNode> {
    nodes.map_values(
        |n: SubtreeNode<N>|
            GraphNode {
                id: n.id.0,
                children: node_numbers(n.children@),
                graft: n.tree_id is Some,
            },
    )
}

/// What is wrong with an update as a complete snapshot.
pub open spec fn update_problem<N>(update: SubtreeUpdate<N>) -> Option<
    AccessibilitySubtreeSnapshotError,
> {
    snapshot_problem(
        graph(update.nodes@),
        match update.tree {
            Some(tree) => Some(tree.root.0),
            None => None,
        },
        update.focus.0,
    )
}

/// Whether `map` gives the index of every node among the first `n`.
spec fn indexes(g: Seq<GraphNode>, map: Map<u64, usize>, n: int) -> bool {
    &&& forall|k: int| 0 <= k < n ==> map.contains_key(#[trigger] g[k].id) && map[g[k].id] == k
    &&& forall|id: u64| #[trigger]
        map.contains_key(id) ==> 0 <= map[id] < n && g[map[id] as int].id == id
}

/// A complete, retained snapshot of a provider-owned accessibility tree.
///
/// Snapshots are not incremental. Keeping the latest complete snapshot lets the native owner
/// replay it after accessibility activation or adapter recreation. `sequence` must increase
/// within one provider attachment; this allows late asynchronous publications to be rejected
/// without rolling the native tree backwards.
#[derive(Clone, Debug, PartialEq)]
pub struct AccessibilitySubtreeSnapshot<N> {
    sequence: u64,
    tree: SubtreeInfo,
    nodes: Vec<SubtreeNode<N>>,
    node_indices: BTreeMap<u64, usize>,
    focus: NodeId,
}

fn find(map: &BTreeMap<u64, usize>, id: NodeId) -> (r: Option<usize>)
    ensures
        match r {
            Some(i) => map@.contains_key(id.0) && map@[id.0] == i,
            None => !map@.contains_key(id.0),
        },
{
    broadcast use vstd::std_specs::btree::group_btree_axioms;
    broadcast use vstd::laws_cmp::group_laws_cmp;

    match map.get(&id.0) {
        Some(i) => Some(*i),
        None => None,
    }
}

/// Adds an index, and gives whether there was one before.
fn put(map: &mut BTreeMap<u64, usize>, id: NodeId, index: usize) -> (r: bool)
    ensures
        final(map)@ == old(map)@.insert(id.0, index),
        r == old(map)@.contains_key(id.0),
{
    broadcast use vstd::std_specs::btree::group_btree_axioms;
    broadcast use vstd::laws_cmp::group_laws_cmp;

    map.insert(id.0, index).is_some()
}

/// The index of every node, or the first id that occurs twice.
fn index_nodes<N>(nodes: &Vec<SubtreeNode<N>>) -> (r: Result<BTreeMap<u64, usize>, NodeId>)
    ensures
        match r {
            Ok(map) => first_repeated(graph(nodes@), 0) is None && indexes(
                graph(nodes@),
                map@,
                nodes@.len() as int,
            ),
            Err(id) => first_repeated(graph(nodes@), 0) == Some(id.0),
        },
{
    let ghost g = graph(nodes@);
    let mut map: BTreeMap<u64, usize> = BTreeMap::new();
    let mut i: usize = 0;
    while i < nodes.len()
        invariant
            g == graph(nodes@),
            0 <= i <= nodes.len(),
            indexes(g, map@, i as int),
            first_repeated(g, 0) == first_repeated(g, i as int),
        decreases nodes.len() - i,
    {
        let id = nodes[i].id;
        assert(g[i as int].id == id.0);
        let ghost before = map@;
        if put(&mut map, id, i) {
            assert(g[before[id.0] as int].id == g[i as int].id);
            assert(is_repeated(g, i as int));
            return Err(id);
        }
        assert(!is_repeated(g, i as int)) by {
            if is_repeated(g, i as int) {
                let k = choose|k: int| 0 <= k < i && #[trigger] g[k].id == g[i as int].id;
                assert(before.contains_key(g[k].id));
            }
        }
        i = i + 1;
    }
    Ok(map)
}

proof fn lemma_present(g: Seq<GraphNode>, map: Map<u64, usize>, id: u64)
    requires
        indexes(g, map, g.len() as int),
    ensures
        map.contains_key(id) <==> present(g, id),
{
    if present(g, id) {
        let k = choose|k: int| 0 <= k < g.len() && #[trigger] g[k].id == id;
        assert(map.contains_key(g[k].id));
    }
}

/// The parents of each node counted so far: among the first `i` nodes and the first `j`
/// children of node `i`.
spec fn counted(g: Seq<GraphNode>, counts: Seq<usize>, i: int, j: int) -> bool {
    &&& counts.len() == g.len()
    &&& forall|k: int|
        0 <= k < g.len() ==> #[trigger] counts[k] == parent_count(g, g[k].id, i as nat) + (if i
            < g.len() && g[i].children.take(j).contains(g[k].id) {
            1int
        } else {
            0int
        })
}

/// Node `k` was last listed by the node before `stamps[k]`; the stamps of node `i` mark its
/// first `j` children.
spec fn stamped(g: Seq<GraphNode>, stamps: Seq<usize>, i: int, j: int) -> bool {
    &&& stamps.len() == g.len()
    &&& forall|k: int|
        0 <= k < g.len() ==> #[trigger] stamps[k] <= i + 1 && (stamps[k] == i + 1 <==> i < g.len()
            && g[i].children.take(j).contains(g[k].id))
}

proof fn lemma_count_bound(g: Seq<GraphNode>, id: u64, n: nat)
    ensures
        parent_count(g, id, n) <= n,
    decreases n,
{
    if n > 0 {
        lemma_count_bound(g, id, (n - 1) as nat);
    }
}

/// The children of node `i`, all counted, make up the count of the first `i + 1` nodes.
proof fn lemma_node_counted(g: Seq<GraphNode>, counts: Seq<usize>, stamps: Seq<usize>, i: int)
    requires
        0 <= i < g.len(),
        counted(g, counts, i, g[i].children.len() as int),
        stamped(g, stamps, i, g[i].children.len() as int),
    ensures
        counted(g, counts, i + 1, 0),
        stamped(g, stamps, i + 1, 0),
{
    let children = g[i].children;
    assert(children.take(children.len() as int) =~= children);
    if i + 1 < g.len() {
        assert(g[i + 1].children.take(0) =~= Seq::empty());
    }
    assert forall|k: int| 0 <= k < g.len() implies #[trigger] counts[k] == parent_count(
        g,
        g[k].id,
        (i + 1) as nat,
    ) + (if i + 1 < g.len() && g[i + 1].children.take(0).contains(g[k].id) {
        1int
    } else {
        0int
    }) by {}
    assert forall|k: int| 0 <= k < g.len() implies #[trigger] stamps[k] <= i + 2 && (stamps[k] == i
        + 2 <==> i + 1 < g.len() && g[i + 1].children.take(0).contains(g[k].id)) by {}
}

/// One more child of node `i`, at index `at`.
proof fn lemma_child_counted(
    g: Seq<GraphNode>,
    counts: Seq<usize>,
    stamps: Seq<usize>,
    i: int,
    j: int,
    at: int,
)
    requires
        0 <= i < g.len(),
        0 <= j < g[i].children.len(),
        0 <= at < g.len(),
        g[at].id == g[i].children[j],
        forall|k: int| 0 <= k < g.len() && k != at ==> #[trigger] g[k].id != g[at].id,
        counted(g, counts, i, j),
        stamped(g, stamps, i, j),
        stamps[at] != i + 1,
        i + 1 <= usize::MAX,
    ensures
        counts[at] < usize::MAX,
        counted(g, counts.update(at, (counts[at] + 1) as usize), i, j + 1),
        stamped(g, stamps.update(at, (i + 1) as usize), i, j + 1),
{
    let children = g[i].children;
    let id = g[at].id;
    lemma_count_bound(g, id, i as nat);
    assert(children.take(j + 1) =~= children.take(j).push(id));
    assert(!children.take(j).contains(id));
    assert forall|k: int| 0 <= k < g.len() implies (children.take(j + 1).contains(g[k].id) <==> k
        == at || #[trigger] children.take(j).contains(g[k].id)) by {
        if k == at {
            assert(children.take(j + 1)[j] == id);
        } else if children.take(j).contains(g[k].id) {
            let m = choose|m: int| 0 <= m < j && children.take(j)[m] == g[k].id;
            assert(children.take(j + 1)[m] == g[k].id);
        } else if children.take(j + 1).contains(g[k].id) {
            let longer = children.take(j + 1);
            let m = choose|m: int| 0 <= m < longer.len() && longer[m] == g[k].id;
            assert(m < j ==> children.take(j)[m] == g[k].id);
        }
    }
    let c = counts.update(at, (counts[at] + 1) as usize);
    let s = stamps.update(at, (i + 1) as usize);
    assert forall|k: int| 0 <= k < g.len() implies #[trigger] c[k] == parent_count(
        g,
        g[k].id,
        i as nat,
    ) + (if i < g.len() && children.take(j + 1).contains(g[k].id) {
        1int
    } else {
        0int
    }) by {
        assert(counts[k] == parent_count(g, g[k].id, i as nat) + (if children.take(j).contains(
            g[k].id,
        ) {
            1int
        } else {
            0int
        }));
    }
    assert forall|k: int| 0 <= k < g.len() implies #[trigger] s[k] <= i + 1 && (s[k] == i + 1 <==> i
        < g.len() && children.take(j + 1).contains(g[k].id)) by {
        assert(stamps[k] <= i + 1);
    }
}

fn zeros(n: usize) -> (r: Vec<usize>)
    ensures
        r@ == Seq::new(n as nat, |i: int| 0usize),
{
    let mut r: Vec<usize> = Vec::new();
    let mut i: usize = 0;
    while i < n
        invariant
            0 <= i <= n,
            r@ == Seq::new(i as nat, |k: int| 0usize),
        decreases n - i,
    {
        r.push(0);
        i = i + 1;
        assert(r@ =~= Seq::new(i as nat, |k: int| 0usize));
    }
    r
}

/// Distinct ids have distinct indices.
proof fn lemma_unique(g: Seq<GraphNode>, map: Map<u64, usize>, at: int)
    requires
        indexes(g, map, g.len() as int),
        0 <= at < g.len(),
    ensures
        forall|k: int| 0 <= k < g.len() && k != at ==> #[trigger] g[k].id != g[at].id,
{
    assert forall|k: int| 0 <= k < g.len() && k != at implies #[trigger] g[k].id != g[at].id by {
        assert(map[g[k].id] == k);
        assert(map[g[at].id] == at);
    }
}

/// Counts the parents of the nodes, or gives the first problem with an edge.
#[verifier::loop_isolation(false)]
fn count_parents<N>(nodes: &Vec<SubtreeNode<N>>, map: &BTreeMap<u64, usize>, root: NodeId) -> (r:
    Result<Vec<usize>, AccessibilitySubtreeSnapshotError>)
    requires
        indexes(graph(nodes@), map@, nodes@.len() as int),
    ensures
        match r {
            Ok(counts) => edge_problem(graph(nodes@), root.0, 0) is None && counts@.len()
                == nodes@.len() && (forall|k: int|
                0 <= k < nodes@.len() ==> #[trigger] counts@[k] == parent_count(
                    graph(nodes@),
                    nodes@[k].id.0,
                    nodes@.len(),
                )),
            Err(e) => edge_problem(graph(nodes@), root.0, 0) == Some(e),
        },
{
    let ghost g = graph(nodes@);
    let mut counts = zeros(nodes.len());
    let mut stamps = zeros(nodes.len());
    proof {
        if g.len() > 0 {
            assert(g[0].children.take(0) =~= Seq::empty());
        }
    }
    let mut i: usize = 0;
    while i < nodes.len()
        invariant
            0 <= i <= nodes.len(),
            counted(g, counts@, i as int, 0),
            stamped(g, stamps@, i as int, 0),
            edge_problem(g, root.0, 0) == edge_problem(g, root.0, i as int),
        decreases nodes.len() - i,
    {
        let node = &nodes[i];
        let parent = node.id;
        let ghost model = g[i as int];
        assert(model.children == node_numbers(node.children@));
        if node.tree_id.is_some() {
            return Err(AccessibilitySubtreeSnapshotError::NestedGraft(parent));
        }
        let mut j: usize = 0;
        while j < node.children.len()
            invariant
                0 <= j <= node.children.len(),
                counted(g, counts@, i as int, j as int),
                stamped(g, stamps@, i as int, j as int),
                child_problem(g, root.0, model, 0) == child_problem(g, root.0, model, j as int),
                forall|k: int| 0 <= k < j ==> present(g, #[trigger] model.children[k]),
            decreases node.children.len() - j,
        {
            let child = node.children[j];
            assert(model.children[j as int] == child.0);
            proof {
                lemma_present(g, map@, child.0);
            }
            let at = match find(map, child) {
                Some(at) => at,
                None => {
                    assert(!is_repeated_child(model, j as int));
                    return Err(AccessibilitySubtreeSnapshotError::MissingChild { parent, child });
                },
            };
            assert(stamps@[at as int] == i + 1 <==> is_repeated_child(model, j as int)) by {
                lemma_taken(model, j as int);
                assert(g[at as int].id == child.0);
            }
            if stamps[at] == i + 1 {
                return Err(AccessibilitySubtreeSnapshotError::DuplicateChild { parent, child });
            }
            if child == root {
                return Err(AccessibilitySubtreeSnapshotError::RootHasParent(parent));
            }
            proof {
                lemma_unique(g, map@, at as int);
                lemma_child_counted(g, counts@, stamps@, i as int, j as int, at as int);
            }
            let count = counts[at];
            counts.set(at, count + 1);
            stamps.set(at, i + 1);
            j = j + 1;
        }
        proof {
            lemma_node_counted(g, counts@, stamps@, i as int);
        }
        i = i + 1;
    }
    Ok(counts)
}

/// A child is repeated when it is among those before it.
proof fn lemma_taken(node: GraphNode, j: int)
    requires
        0 <= j < node.children.len(),
    ensures
        is_repeated_child(node, j) <==> node.children.take(j).contains(node.children[j]),
{
    if is_repeated_child(node, j) {
        let k = choose|k: int| 0 <= k < j && #[trigger] node.children[k] == node.children[j];
        assert(node.children.take(j)[k] == node.children[j]);
    }
    if node.children.take(j).contains(node.children[j]) {
        let k = choose|k: int| 0 <= k < j && node.children.take(j)[k] == node.children[j];
        assert(node.children[k] == node.children[j]);
    }
}

/// The smallest id of a misplaced node, and the number of its parents.
fn find_misplaced<N>(nodes: &Vec<SubtreeNode<N>>, counts: &Vec<usize>, root: NodeId) -> (r: Option<
    (NodeId, usize),
>)
    requires
        counts@.len() == nodes@.len(),
        forall|k: int|
            0 <= k < nodes@.len() ==> #[trigger] counts@[k] == parent_count(
                graph(nodes@),
                nodes@[k].id.0,
                nodes@.len(),
            ),
    ensures
        match r {
            Some((id, count)) => least_misplaced(graph(nodes@), root.0, nodes@.len()) == Some(id.0)
                && count == parent_count(graph(nodes@), id.0, nodes@.len()),
            None => least_misplaced(graph(nodes@), root.0, nodes@.len()) is None,
        },
{
    let ghost g = graph(nodes@);
    let mut least: Option<(NodeId, usize)> = None;
    let mut i: usize = 0;
    while i < nodes.len()
        invariant
            g == graph(nodes@),
            0 <= i <= nodes.len(),
            counts@.len() == nodes@.len(),
            forall|k: int|
                0 <= k < nodes@.len() ==> #[trigger] counts@[k] == parent_count(
                    g,
                    nodes@[k].id.0,
                    nodes@.len(),
                ),
            match least {
                Some((id, count)) => least_misplaced(g, root.0, i as nat) == Some(id.0) && count
                    == parent_count(g, id.0, nodes@.len()),
                None => least_misplaced(g, root.0, i as nat) is None,
            },
        decreases nodes.len() - i,
    {
        let id = nodes[i].id;
        let count = counts[i];
        assert(g[i as int].id == id.0);
        if id != root && count != 1 {
            let smaller = match least {
                Some((other, _)) => id.0 < other.0,
                None => true,
            };
            if smaller {
                least = Some((id, count));
            }
        }
        i = i + 1;
    }
    least
}

/// The nodes seen so far, by index, as a set of ids.
spec fn seen_ids(g: Seq<GraphNode>, seen: Seq<bool>) -> Set<u64> {
    Set::new(|id: u64| exists|k: int| 0 <= k < g.len() && #[trigger] g[k].id == id && seen[k])
}

/// The number of nodes among the first `n` that have not been seen.
spec fn unseen(seen: Seq<bool>, n: nat) -> nat
    decreases n,
{
    if n == 0 {
        0
    } else {
        unseen(seen, (n - 1) as nat) + if seen[n - 1] {
            0nat
        } else {
            1nat
        }
    }
}

proof fn lemma_unseen_update(seen: Seq<bool>, at: int, n: nat)
    requires
        0 <= at < seen.len(),
        n <= seen.len(),
        !seen[at],
    ensures
        unseen(seen.update(at, true), n) == unseen(seen, n) - (if at < n {
            1int
        } else {
            0int
        }),
    decreases n,
{
    if n > 0 {
        lemma_unseen_update(seen, at, (n - 1) as nat);
    }
}

/// What the search knows: every id that was seen or is pending can be reached, and the children
/// of what was seen were seen or are pending.
spec fn searching(g: Seq<GraphNode>, root: u64, seen: Seq<bool>, pending: Seq<u64>) -> bool {
    &&& seen.len() == g.len()
    &&& seen_ids(g, seen).contains(root) || pending.contains(root)
    &&& forall|k: int| 0 <= k < g.len() && #[trigger] seen[k] ==> is_reachable(g, root, g[k].id)
    &&& forall|k: int|
        0 <= k < pending.len() ==> is_reachable(g, root, #[trigger] pending[k]) && present(
            g,
            pending[k],
        )
    &&& forall|k: int, c: u64|
        0 <= k < g.len() && seen[k] && #[trigger] g[k].children.contains(c) ==> seen_ids(
            g,
            seen,
        ).contains(c) || pending.contains(c)
}

/// Taking a node that was seen before off the pending nodes.
proof fn lemma_search_skip(g: Seq<GraphNode>, root: u64, seen: Seq<bool>, pending: Seq<u64>)
    requires
        searching(g, root, seen, pending),
        pending.len() > 0,
        seen_ids(g, seen).contains(pending.last()),
    ensures
        searching(g, root, seen, pending.drop_last()),
{
    let rest = pending.drop_last();
    assert forall|c: u64| pending.contains(c) implies seen_ids(g, seen).contains(c)
        || #[trigger] rest.contains(c) by {
        let k = choose|k: int| 0 <= k < pending.len() && pending[k] == c;
        if k < rest.len() {
            assert(rest[k] == c);
        }
    }
    assert forall|k: int| 0 <= k < rest.len() implies is_reachable(g, root, #[trigger] rest[k])
        && present(g, rest[k]) by {
        assert(rest[k] == pending[k]);
    }
}

/// Visiting the pending node at index `at`.
proof fn lemma_search_visit(
    g: Seq<GraphNode>,
    root: u64,
    seen: Seq<bool>,
    pending: Seq<u64>,
    at: int,
)
    requires
        searching(g, root, seen, pending),
        pending.len() > 0,
        0 <= at < g.len(),
        g[at].id == pending.last(),
        forall|k: int| 0 <= k < g[at].children.len() ==> present(g, #[trigger] g[at].children[k]),
        forall|k: int| 0 <= k < g.len() && k != at ==> #[trigger] g[k].id != g[at].id,
    ensures
        searching(g, root, seen.update(at, true), pending.drop_last() + g[at].children),
{
    let rest = pending.drop_last();
    let children = g[at].children;
    let more = rest + children;
    let next = seen.update(at, true);
    assert(is_reachable(g, root, pending[pending.len() - 1]));
    assert(next[at]);
    assert forall|c: u64| seen_ids(g, seen).contains(c) implies #[trigger] seen_ids(
        g,
        next,
    ).contains(c) by {
        let k = choose|k: int| 0 <= k < g.len() && #[trigger] g[k].id == c && seen[k];
        assert(next[k]);
    }
    assert(seen_ids(g, next).contains(g[at].id));
    assert forall|c: u64| pending.contains(c) implies seen_ids(g, next).contains(c)
        || #[trigger] more.contains(c) by {
        let k = choose|k: int| 0 <= k < pending.len() && pending[k] == c;
        if k < rest.len() {
            assert(more[k] == c);
        }
    }
    assert forall|c: u64| children.contains(c) implies #[trigger] more.contains(c) by {
        let k = choose|k: int| 0 <= k < children.len() && children[k] == c;
        assert(more[rest.len() + k] == c);
    }
    assert forall|k: int| 0 <= k < more.len() implies is_reachable(g, root, #[trigger] more[k])
        && present(g, more[k]) by {
        if k < rest.len() {
            assert(more[k] == pending[k]);
        } else {
            let m = k - rest.len();
            assert(more[k] == children[m]);
            assert(children.contains(children[m]));
            assert(is_edge(g, g[at].id, children[m]));
            lemma_reachable_child(g, root, g[at].id, children[m]);
            assert(present(g, g[at].children[m]));
        }
    }
    assert forall|k: int| 0 <= k < g.len() && #[trigger] next[k] implies is_reachable(
        g,
        root,
        g[k].id,
    ) by {
        if k != at {
            assert(seen[k]);
        }
    }
    assert forall|k: int, c: u64|
        0 <= k < g.len() && next[k] && #[trigger] g[k].children.contains(c) implies seen_ids(
        g,
        next,
    ).contains(c) || more.contains(c) by {
        if k != at {
            assert(seen[k]);
            assert(seen_ids(g, seen).contains(c) || pending.contains(c));
        }
    }
}

/// When nothing is pending, what was seen is what can be reached.
proof fn lemma_search_done(g: Seq<GraphNode>, map: Map<u64, usize>, root: u64, seen: Seq<bool>)
    requires
        indexes(g, map, g.len() as int),
        searching(g, root, seen, Seq::empty()),
    ensures
        forall|k: int|
            0 <= k < g.len() ==> (#[trigger] seen[k] <==> is_reachable(g, root, g[k].id)),
{
    let ids = seen_ids(g, seen);
    assert forall|p: u64, c: u64| ids.contains(p) && #[trigger] is_edge(
        g,
        p,
        c,
    ) implies ids.contains(c) by {
        let i = choose|i: int|
            0 <= i < g.len() && #[trigger] g[i].id == p && g[i].children.contains(c);
        let k = choose|k: int| 0 <= k < g.len() && #[trigger] g[k].id == p && seen[k];
        lemma_unique(g, map, i);
        assert(i == k);
        assert(ids.contains(c) || Seq::<u64>::empty().contains(c));
    }
    assert forall|k: int| 0 <= k < g.len() implies (#[trigger] seen[k] <==> is_reachable(
        g,
        root,
        g[k].id,
    )) by {
        if is_reachable(g, root, g[k].id) {
            let n = choose|n: nat| #[trigger] reaches(g, root, g[k].id, n);
            lemma_reaches_closed(g, root, g[k].id, n, ids);
            let m = choose|m: int| 0 <= m < g.len() && #[trigger] g[m].id == g[k].id && seen[m];
            lemma_unique(g, map, k);
            assert(m == k);
        }
    }
}

/// The first node that cannot be reached from the root.
#[verifier::loop_isolation(false)]
fn find_unreachable<N>(
    nodes: &Vec<SubtreeNode<N>>,
    map: &BTreeMap<u64, usize>,
    root: NodeId,
) -> (r: Option<NodeId>)
    requires
        indexes(graph(nodes@), map@, nodes@.len() as int),
        present(graph(nodes@), root.0),
        edge_problem(graph(nodes@), root.0, 0) is None,
    ensures
        match r {
            Some(id) => first_unreachable(graph(nodes@), root.0, 0) == Some(id.0),
            None => first_unreachable(graph(nodes@), root.0, 0) is None,
        },
{
    let ghost g = graph(nodes@);
    let mut seen: Vec<bool> = Vec::new();
    let mut i: usize = 0;
    while i < nodes.len()
        invariant
            0 <= i <= nodes.len(),
            seen@ == Seq::new(i as nat, |k: int| false),
        decreases nodes.len() - i,
    {
        seen.push(false);
        i = i + 1;
        assert(seen@ =~= Seq::new(i as nat, |k: int| false));
    }
    let mut pending: Vec<NodeId> = Vec::new();
    pending.push(root);
    proof {
        assert(node_numbers(pending@) =~= seq![root.0]);
        assert(reaches(g, root.0, root.0, 0));
        assert(seq![root.0][0] == root.0);
        assert(searching(g, root.0, seen@, node_numbers(pending@)));
        lemma_edge_problem(g, root.0, 0);
    }
    while pending.len() > 0
        invariant
            searching(g, root.0, seen@, node_numbers(pending@)),
        decreases unseen(seen@, g.len()), pending.len(),
    {
        let ghost before = node_numbers(pending@);
        let id = match pending.pop() {
            Some(id) => id,
            None => {
                break;
            },
        };
        assert(node_numbers(pending@) =~= before.drop_last());
        assert(before.last() == id.0);
        proof {
            assert(present(g, before[before.len() - 1]));
            lemma_present(g, map@, id.0);
        }
        if let Some(at) = find(map, id) {
            proof {
                lemma_unique(g, map@, at as int);
            }
            if seen[at] {
                proof {
                    assert(g[at as int].id == id.0);
                    lemma_search_skip(g, root.0, seen@, before);
                }
            } else {
                let ghost old_seen = seen@;
                let ghost children = g[at as int].children;
                proof {
                    lemma_child_problem(g, root.0, g[at as int], 0);
                    lemma_unseen_update(seen@, at as int, g.len());
                    lemma_search_visit(g, root.0, seen@, before, at as int);
                }
                seen.set(at, true);
                let node = &nodes[at];
                assert(children == node_numbers(node.children@));
                let mut j: usize = 0;
                assert(before.drop_last() + children.take(0) =~= before.drop_last());
                while j < node.children.len()
                    invariant
                        0 <= j <= node.children.len(),
                        node_numbers(pending@) == before.drop_last() + children.take(j as int),
                    decreases node.children.len() - j,
                {
                    let ghost shorter = node_numbers(pending@);
                    pending.push(node.children[j]);
                    assert(node_numbers(pending@) =~= shorter.push(children[j as int]));
                    j = j + 1;
                    assert(node_numbers(pending@) =~= before.drop_last() + children.take(j as int));
                }
                assert(children.take(j as int) =~= children);
            }
        }
    }
    proof {
        assert(node_numbers(pending@) =~= Seq::empty());
        lemma_search_done(g, map@, root.0, seen@);
    }
    let mut k: usize = 0;
    while k < nodes.len()
        invariant
            0 <= k <= nodes.len(),
            first_unreachable(g, root.0, 0) == first_unreachable(g, root.0, k as int),
        decreases nodes.len() - k,
    {
        assert(g[k as int].id == nodes@[k as int].id.0);
        if !seen[k] {
            return Some(nodes[k].id);
        }
        k = k + 1;
    }
    None
}

impl<N> AccessibilitySubtreeSnapshot<N> {
    /// The nodes of the snapshot, in the order in which they were published.
    pub closed spec fn spec_nodes(&self) -> Seq<SubtreeNode<N>> {
        self.nodes@
    }

    pub closed spec fn spec_sequence(&self) -> u64 {
        self.sequence
    }

    pub closed spec fn spec_tree(&self) -> SubtreeInfo {
        self.tree
    }

    pub closed spec fn spec_focus(&self) -> NodeId {
        self.focus
    }

    /// The nodes form a tree, and every node can be found by its id.
    pub closed spec fn wf(&self) -> bool {
        &&& indexes(graph(self.nodes@), self.node_indices@, self.nodes@.len() as int)
        &&& snapshot_problem(graph(self.nodes@), Some(self.tree.root.0), self.focus.0) is None
    }

    /// In a snapshot the nodes form a tree with the root and the focus among them.
    pub proof fn law_is_tree(&self)
        requires
            self.wf(),
        ensures
            snapshot_problem(
                graph(self.spec_nodes()),
                Some(self.spec_tree().root.0),
                self.spec_focus().0,
            ) is None,
    {
    }

    /// Converts a complete update into a retained subtree snapshot.
    ///
    /// The update's `tree_id` is intentionally ignored: the registered provider supplies the
    /// external namespace. This allows an embedded toolkit to publish its local root tree
    /// without rewriting any node IDs or cross-node relations.
    pub fn try_from_full_update(sequence: u64, update: SubtreeUpdate<N>) -> (r: Result<
        Self,
        AccessibilitySubtreeSnapshotError,
    >)
        ensures
            match r {
                Ok(snapshot) => update_problem(update) is None && snapshot.wf()
                    && snapshot.spec_sequence() == sequence && snapshot.spec_nodes()
                    == update.nodes@ && Some(snapshot.spec_tree()) == update.tree
                    && snapshot.spec_focus() == update.focus,
                Err(e) => update_problem(update) == Some(e),
            },
    {
        let SubtreeUpdate { nodes, tree, tree_id, focus } = update;
        let tree = match tree {
            Some(tree) => tree,
            None => {
                return Err(AccessibilitySubtreeSnapshotError::MissingTree);
            },
        };
        let node_indices = match index_nodes(&nodes) {
            Ok(node_indices) => node_indices,
            Err(id) => {
                return Err(AccessibilitySubtreeSnapshotError::DuplicateNode(id));
            },
        };
        let ghost g = graph(nodes@);
        proof {
            lemma_present(g, node_indices@, tree.root.0);
            lemma_present(g, node_indices@, focus.0);
        }
        if find(&node_indices, tree.root).is_none() {
            return Err(AccessibilitySubtreeSnapshotError::MissingRoot(tree.root));
        }
        if find(&node_indices, focus).is_none() {
            return Err(AccessibilitySubtreeSnapshotError::MissingFocus(focus));
        }
        let counts = match count_parents(&nodes, &node_indices, tree.root) {
            Ok(counts) => counts,
            Err(e) => {
                return Err(e);
            },
        };
        if let Some((id, count)) = find_misplaced(&nodes, &counts, tree.root) {
            return Err(
                if count == 0 {
                    AccessibilitySubtreeSnapshotError::Disconnected(id)
                } else {
                    AccessibilitySubtreeSnapshotError::MultipleParents(id)
                },
            );
        }
        if let Some(id) = find_unreachable(&nodes, &node_indices, tree.root) {
            return Err(AccessibilitySubtreeSnapshotError::DisconnectedOrCyclic(id));
        }
        Ok(AccessibilitySubtreeSnapshot { sequence, tree, nodes, node_indices, focus })
    }

    /// Returns the provider-assigned publication sequence.
    pub fn sequence(&self) -> (r: u64)
        ensures
            r == self.spec_sequence(),
    {
        self.sequence
    }

    /// Returns the root node ID within the provider's namespace.
    pub fn root(&self) -> (r: NodeId)
        ensures
            r == self.spec_tree().root,
    {
        self.tree.root
    }

    /// Returns the node focused within the provider's namespace.
    pub fn focus(&self) -> (r: NodeId)
        ensures
            r == self.spec_focus(),
    {
        self.focus
    }

    /// Returns the retained node for `id`, if it belongs to this snapshot.
    pub fn node(&self, id: NodeId) -> (r: Option<&SubtreeNode<N>>)
        requires
            self.wf(),
        ensures
            match r {
                Some(node) => self.spec_nodes().contains(*node) && node.id == id,
                None => forall|k: int|
                    0 <= k < self.spec_nodes().len() ==> (#[trigger] self.spec_nodes()[k]).id != id,
            },
    {
        let ghost g = graph(self.nodes@);
        proof {
            lemma_present(g, self.node_indices@, id.0);
        }
        match find(&self.node_indices, id) {
            Some(index) => {
                assert(g[index as int].id == id.0);
                let node = &self.nodes[index];
                assert(self.spec_nodes()[index as int] == *node);
                Some(node)
            },
            None => {
                proof {
                    assert forall|k: int| 0 <= k < self.spec_nodes().len() implies (
                    #[trigger] self.spec_nodes()[k]).id != id by {
                        assert(g[k].id == self.spec_nodes()[k].id.0);
                    }
                }
                None
            },
        }
    }

    /// Returns whether `id` belongs to this snapshot and advertises `action`.
    pub fn node_supports_action(&self, id: NodeId, action: u8) -> (r: bool)
        requires
            self.wf(),
        ensures
            r == exists|k: int|
                0 <= k < self.spec_nodes().len() && (#[trigger] self.spec_nodes()[k]).id == id
                    && self.spec_nodes()[k].actions@.contains(action),
    {
        match self.node(id) {
            Some(node) => {
                let mut i: usize = 0;
                let ghost at = choose|k: int|
                    0 <= k < self.spec_nodes().len() && self.spec_nodes()[k] == *node;
                while i < node.actions.len()
                    invariant
                        0 <= i <= node.actions.len(),
                        0 <= at < self.spec_nodes().len(),
                        self.spec_nodes()[at] == *node,
                        node.id == id,
                        forall|j: int| 0 <= j < i ==> #[trigger] node.actions@[j] != action,
                    decreases node.actions.len() - i,
                {
                    if node.actions[i] == action {
                        assert(node.actions@.contains(action));
                        return true;
                    }
                    i = i + 1;
                }
                proof {
                    let g = graph(self.nodes@);
                    lemma_unique(g, self.node_indices@, at);
                    assert forall|k: int|
                        0 <= k < self.spec_nodes().len() && (#[trigger] self.spec_nodes()[k]).id
                            == id implies !self.spec_nodes()[k].actions@.contains(action) by {
                        assert(g[k].id == self.spec_nodes()[k].id.0);
                        assert(g[at].id == self.spec_nodes()[at].id.0);
                    }
                }
                false
            },
            None => false,
        }
    }
}

fn copy_option(text: &Option<String>) -> (r: Option<String>)
    ensures
        same_option(*text, r),
{
    match text {
        Some(text) => Some(copy_str(text.as_str())),
        None => None,
    }
}

/// Whether two texts, or their absence, are the same.
pub open spec fn same_option(a: Option<String>, b: Option<String>) -> bool {
    match (a, b) {
        (Some(a), Some(b)) => a@ == b@,
        (None, None) => true,
        _ => false,
    }
}

/// Whether `b` is a copy of the node `a`.
pub open spec fn copied<N: Clone>(a: SubtreeNode<N>, b: SubtreeNode<N>) -> bool {
    &&& a.id == b.id
    &&& a.children@ == b.children@
    &&& a.tree_id == b.tree_id
    &&& a.actions@ == b.actions@
    &&& cloned(a.node, b.node)
}

fn copy_ids(ids: &Vec<NodeId>) -> (r: Vec<NodeId>)
    ensures
        r@ == ids@,
{
    let mut r: Vec<NodeId> = Vec::new();
    let mut i: usize = 0;
    while i < ids.len()
        invariant
            0 <= i <= ids.len(),
            r@ == ids@.take(i as int),
        decreases ids.len() - i,
    {
        r.push(ids[i]);
        i = i + 1;
        assert(r@ =~= ids@.take(i as int));
    }
    assert(ids@.take(i as int) =~= ids@);
    r
}

fn copy_bytes(bytes: &Vec<u8>) -> (r: Vec<u8>)
    ensures
        r@ == bytes@,
{
    let mut r: Vec<u8> = Vec::new();
    let mut i: usize = 0;
    while i < bytes.len()
        invariant
            0 <= i <= bytes.len(),
            r@ == bytes@.take(i as int),
        decreases bytes.len() - i,
    {
        r.push(bytes[i]);
        i = i + 1;
        assert(r@ =~= bytes@.take(i as int));
    }
    assert(bytes@.take(i as int) =~= bytes@);
    r
}

impl<N: Clone> AccessibilitySubtreeSnapshot<N> {
    /// Builds the complete update for `tree_id`.
    pub fn tree_update(&self, tree_id: TreeId) -> (r: SubtreeUpdate<N>)
        ensures
            r.tree_id == tree_id,
            r.focus == self.spec_focus(),
            r.tree matches Some(tree) && tree.root == self.spec_tree().root && same_option(
                tree.toolkit_name,
                self.spec_tree().toolkit_name,
            ) && same_option(tree.toolkit_version, self.spec_tree().toolkit_version),
            r.nodes@.len() == self.spec_nodes().len(),
            forall|k: int|
                0 <= k < r.nodes@.len() ==> copied(self.spec_nodes()[k], #[trigger] r.nodes@[k]),
    {
        let mut nodes: Vec<SubtreeNode<N>> = Vec::new();
        let mut i: usize = 0;
        while i < self.nodes.len()
            invariant
                0 <= i <= self.nodes.len(),
                nodes@.len() == i,
                forall|k: int| 0 <= k < i ==> copied(self.nodes@[k], #[trigger] nodes@[k]),
            decreases self.nodes.len() - i,
        {
            let node = &self.nodes[i];
            nodes.push(
                SubtreeNode {
                    id: node.id,
                    children: copy_ids(&node.children),
                    tree_id: node.tree_id,
                    actions: copy_bytes(&node.actions),
                    node: node.node.clone(),
                },
            );
            i = i + 1;
        }
        let tree = SubtreeInfo {
            root: self.tree.root,
            toolkit_name: copy_option(&self.tree.toolkit_name),
            toolkit_version: copy_option(&self.tree.toolkit_version),
        };
        SubtreeUpdate { nodes, tree: Some(tree), tree_id, focus: self.focus }
    }
}

/// A snapshot accepts what it was made from: publishing the update of a snapshot again is
/// accepted, whatever tree it is published for.
pub proof fn law_snapshot_update_is_complete<N: Clone>(
    snapshot: AccessibilitySubtreeSnapshot<N>,
    update: SubtreeUpdate<N>,
)
    requires
        snapshot.wf(),
        update.focus == snapshot.spec_focus(),
        update.tree matches Some(tree) && tree.root == snapshot.spec_tree().root,
        update.nodes@.len() == snapshot.spec_nodes().len(),
        forall|k: int|
            0 <= k < update.nodes@.len() ==> copied(
                snapshot.spec_nodes()[k],
                #[trigger] update.nodes@[k],
            ),
    ensures
        graph(update.nodes@) == graph(snapshot.spec_nodes()),
        update_problem(update) is None,
{
    let a = graph(snapshot.spec_nodes());
    let b = graph(update.nodes@);
    assert forall|k: int| 0 <= k < a.len() implies a[k] == #[trigger] b[k] by {
        assert(copied(snapshot.spec_nodes()[k], update.nodes@[k]));
    }
    assert(a =~= b);
}

} // verus!
