//! What makes a list of nodes an accessibility tree, and what is wrong with one that is not.

use vstd::prelude::*;

use crate::entity::NodeId;

verus! {

/// Validation error for a retained accessibility subtree snapshot.
#[derive(Clone, Copy, Debug, PartialEq, Eq, Structural)]
pub enum AccessibilitySubtreeSnapshotError {
    /// A full snapshot must have tree metadata.
    MissingTree,
    /// The declared root is absent from the node list.
    MissingRoot(NodeId),
    /// The declared focus is absent from the node list.
    MissingFocus(NodeId),
    /// A node ID occurs more than once.
    DuplicateNode(NodeId),
    /// A node attempts to graft another independent subtree.
    NestedGraft(NodeId),
    /// A parent contains the same child more than once.
    DuplicateChild {
        /// Parent containing the repeated entry.
        parent: NodeId,
        /// Repeated child.
        child: NodeId,
    },
    /// Some node lists the declared root as its child.
    RootHasParent(NodeId),
    /// A non-root node has no parent.
    Disconnected(NodeId),
    /// A node has more than one structural parent.
    MultipleParents(NodeId),
    /// A component cannot be reached from the declared root, including a disconnected cycle.
    DisconnectedOrCyclic(NodeId),
    /// A parent references a child absent from the complete snapshot.
    MissingChild {
        /// The node containing the invalid child reference.
        parent: NodeId,
        /// The missing child node.
        child: NodeId,
    },
}

/// What the shape of a tree depends on, of one node.
pub ghost struct GraphNode {
    pub id: u64,
    pub children: Seq<u64>,
    pub graft: bool,
}

/// Whether a node with this id is present.
pub open spec fn present(g: Seq<GraphNode>, id: u64) -> bool {
    exists|k: int| 0 <= k < g.len() && #[trigger] g[k].id == id
}

/// Whether the id of node `i` occurs before `i`.
pub open spec fn is_repeated(g: Seq<GraphNode>, i: int) -> bool {
    exists|k: int| 0 <= k < i && #[trigger] g[k].id == g[i].id
}

/// The first id, from node `i` on, that occurs for the second time.
pub open spec fn first_repeated(g: Seq<GraphNode>, i: int) -> Option<u64>
    decreases g.len() - i,
{
    if i < 0 || i >= g.len() {
        None
    } else if is_repeated(g, i) {
        Some(g[i].id)
    } else {
        first_repeated(g, i + 1)
    }
}

/// Whether child `j` of a node occurs among its children before `j`.
pub open spec fn is_repeated_child(node: GraphNode, j: int) -> bool {
    exists|k: int| 0 <= k < j && #[trigger] node.children[k] == node.children[j]
}

/// The first problem with the children of a node from child `j` on.
pub open spec fn child_problem(g: Seq<GraphNode>, root: u64, node: GraphNode, j: int) -> Option<
    AccessibilitySubtreeSnapshotError,
>
    decreases node.children.len() - j,
{
    if j < 0 || j >= node.children.len() {
        None
    } else {
        let parent = NodeId(node.id);
        let child = NodeId(node.children[j]);
        if is_repeated_child(node, j) {
            Some(AccessibilitySubtreeSnapshotError::DuplicateChild { parent, child })
        } else if !present(g, child.0) {
            Some(AccessibilitySubtreeSnapshotError::MissingChild { parent, child })
        } else if child.0 == root {
            Some(AccessibilitySubtreeSnapshotError::RootHasParent(parent))
        } else {
            child_problem(g, root, node, j + 1)
        }
    }
}

/// The first problem of a node on its own or with its children, from node `i` on.
pub open spec fn edge_problem(g: Seq<GraphNode>, root: u64, i: int) -> Option<
    AccessibilitySubtreeSnapshotError,
>
    decreases g.len() - i,
{
    if i < 0 || i >= g.len() {
        None
    } else if g[i].graft {
        Some(AccessibilitySubtreeSnapshotError::NestedGraft(NodeId(g[i].id)))
    } else {
        match child_problem(g, root, g[i], 0) {
            Some(e) => Some(e),
            None => edge_problem(g, root, i + 1),
        }
    }
}

/// The number of parents of a node among the first `n` nodes.
pub open spec fn parent_count(g: Seq<GraphNode>, id: u64, n: nat) -> nat
    decreases n,
{
    if n == 0 {
        0
    } else {
        parent_count(g, id, (n - 1) as nat) + if g[n - 1].children.contains(id) {
            1nat
        } else {
            0nat
        }
    }
}

/// A node other than the root that does not have exactly one parent.
pub open spec fn is_misplaced(g: Seq<GraphNode>, root: u64, id: u64) -> bool {
    id != root && parent_count(g, id, g.len()) != 1
}

/// The smallest id of a misplaced node among the first `n` nodes.
pub open spec fn least_misplaced(g: Seq<GraphNode>, root: u64, n: nat) -> Option<u64>
    decreases n,
{
    if n == 0 {
        None
    } else {
        let before = least_misplaced(g, root, (n - 1) as nat);
        let id = g[n - 1].id;
        if is_misplaced(g, root, id) && (before matches Some(b) ==> id < b) {
            Some(id)
        } else {
            before
        }
    }
}

/// The problem with the parents of the nodes.
pub open spec fn parent_problem(g: Seq<GraphNode>, root: u64) -> Option<
    AccessibilitySubtreeSnapshotError,
> {
    match least_misplaced(g, root, g.len()) {
        Some(id) => Some(
            if parent_count(g, id, g.len()) == 0 {
                AccessibilitySubtreeSnapshotError::Disconnected(NodeId(id))
            } else {
                AccessibilitySubtreeSnapshotError::MultipleParents(NodeId(id))
            },
        ),
        None => None,
    }
}

/// Whether `child` is a child of a node with id `parent`.
pub open spec fn is_edge(g: Seq<GraphNode>, parent: u64, child: u64) -> bool {
    exists|k: int| 0 <= k < g.len() && #[trigger] g[k].id == parent && g[k].children.contains(child)
}

/// Whether `id` can be reached from the root over at most `n` edges.
pub open spec fn reaches(g: Seq<GraphNode>, root: u64, id: u64, n: nat) -> bool
    decreases n,
{
    if n == 0 {
        id == root
    } else {
        reaches(g, root, id, (n - 1) as nat) || exists|p: u64|
            reaches(g, root, p, (n - 1) as nat) && #[trigger] is_edge(g, p, id)
    }
}

/// Whether `id` can be reached from the root.
pub open spec fn is_reachable(g: Seq<GraphNode>, root: u64, id: u64) -> bool {
    exists|n: nat| #[trigger] reaches(g, root, id, n)
}

/// The first node, from node `i` on, that cannot be reached from the root.
pub open spec fn first_unreachable(g: Seq<GraphNode>, root: u64, i: int) -> Option<u64>
    decreases g.len() - i,
{
    if i < 0 || i >= g.len() {
        None
    } else if !is_reachable(g, root, g[i].id) {
        Some(g[i].id)
    } else {
        first_unreachable(g, root, i + 1)
    }
}

/// What is wrong with a complete update: the first of the checks, in this order, that fails.
pub open spec fn snapshot_problem(g: Seq<GraphNode>, root: Option<u64>, focus: u64) -> Option<
    AccessibilitySubtreeSnapshotError,
> {
    match root {
        None => Some(AccessibilitySubtreeSnapshotError::MissingTree),
        Some(root) => if first_repeated(g, 0) is Some {
            Some(AccessibilitySubtreeSnapshotError::DuplicateNode(NodeId(first_repeated(g, 0)->0)))
        } else if !present(g, root) {
            Some(AccessibilitySubtreeSnapshotError::MissingRoot(NodeId(root)))
        } else if !present(g, focus) {
            Some(AccessibilitySubtreeSnapshotError::MissingFocus(NodeId(focus)))
        } else if edge_problem(g, root, 0) is Some {
            edge_problem(g, root, 0)
        } else if parent_problem(g, root) is Some {
            parent_problem(g, root)
        } else if first_unreachable(g, root, 0) is Some {
            Some(
                AccessibilitySubtreeSnapshotError::DisconnectedOrCyclic(
                    NodeId(first_unreachable(g, root, 0)->0),
                ),
            )
        } else {
            None
        },
    }
}

// -- facts about the checks -------------------------------------------------------------------

pub proof fn lemma_first_repeated(g: Seq<GraphNode>, i: int)
    requires
        0 <= i <= g.len(),
        first_repeated(g, i) is None,
    ensures
        forall|k: int| i <= k < g.len() ==> !is_repeated(g, k),
    decreases g.len() - i,
{
    if i < g.len() {
        lemma_first_repeated(g, i + 1);
    }
}

pub proof fn lemma_child_problem(g: Seq<GraphNode>, root: u64, node: GraphNode, j: int)
    requires
        0 <= j <= node.children.len(),
        child_problem(g, root, node, j) is None,
    ensures
        forall|k: int|
            j <= k < node.children.len() ==> !is_repeated_child(node, k) && present(
                g,
                #[trigger] node.children[k],
            ) && node.children[k] != root,
    decreases node.children.len() - j,
{
    if j < node.children.len() {
        lemma_child_problem(g, root, node, j + 1);
    }
}

pub proof fn lemma_edge_problem(g: Seq<GraphNode>, root: u64, i: int)
    requires
        0 <= i <= g.len(),
        edge_problem(g, root, i) is None,
    ensures
        forall|k: int|
            i <= k < g.len() ==> !(#[trigger] g[k]).graft && child_problem(g, root, g[k], 0) is None,
    decreases g.len() - i,
{
    if i < g.len() {
        lemma_edge_problem(g, root, i + 1);
    }
}

pub proof fn lemma_least_misplaced(g: Seq<GraphNode>, root: u64, n: nat)
    requires
        n <= g.len(),
    ensures
        least_misplaced(g, root, n) is None ==> (forall|k: int|
            0 <= k < n ==> !is_misplaced(g, root, #[trigger] g[k].id)),
    decreases n,
{
    if n > 0 {
        lemma_least_misplaced(g, root, (n - 1) as nat);
    }
}

pub proof fn lemma_first_unreachable(g: Seq<GraphNode>, root: u64, i: int)
    requires
        0 <= i <= g.len(),
        first_unreachable(g, root, i) is None,
    ensures
        forall|k: int| i <= k < g.len() ==> is_reachable(g, root, #[trigger] g[k].id),
    decreases g.len() - i,
{
    if i < g.len() {
        lemma_first_unreachable(g, root, i + 1);
    }
}

/// What can be reached over few edges can be reached over more.
pub proof fn lemma_reaches_more(g: Seq<GraphNode>, root: u64, id: u64, n: nat, m: nat)
    requires
        n <= m,
        reaches(g, root, id, n),
    ensures
        reaches(g, root, id, m),
    decreases m,
{
    if n < m {
        lemma_reaches_more(g, root, id, n, (m - 1) as nat);
    }
}

/// The children of what can be reached can be reached.
pub proof fn lemma_reachable_child(g: Seq<GraphNode>, root: u64, parent: u64, child: u64)
    requires
        is_reachable(g, root, parent),
        is_edge(g, parent, child),
    ensures
        is_reachable(g, root, child),
{
    let n = choose|n: nat| #[trigger] reaches(g, root, parent, n);
    assert(reaches(g, root, child, n + 1));
}

/// What can be reached lies in every set of ids that holds the root and, with each id, its
/// children.
pub proof fn lemma_reaches_closed(
    g: Seq<GraphNode>,
    root: u64,
    id: u64,
    n: nat,
    seen: Set<u64>,
)
    requires
        reaches(g, root, id, n),
        seen.contains(root),
        forall|p: u64, c: u64| seen.contains(p) && #[trigger] is_edge(g, p, c) ==> seen.contains(c),
    ensures
        seen.contains(id),
    decreases n,
{
    if n > 0 {
        if reaches(g, root, id, (n - 1) as nat) {
            lemma_reaches_closed(g, root, id, (n - 1) as nat, seen);
        } else {
            let p = choose|p: u64|
                reaches(g, root, p, (n - 1) as nat) && #[trigger] is_edge(g, p, id);
            lemma_reaches_closed(g, root, p, (n - 1) as nat, seen);
        }
    }
}

// -- what an accepted update is ---------------------------------------------------------------

/// The number of edges from the root to `id`.
pub open spec fn distance(g: Seq<GraphNode>, root: u64, id: u64, n: nat) -> nat
    decreases n,
{
    if n > 0 && reaches(g, root, id, (n - 1) as nat) {
        distance(g, root, id, (n - 1) as nat)
    } else {
        n
    }
}

proof fn lemma_distance(g: Seq<GraphNode>, root: u64, id: u64, n: nat)
    requires
        reaches(g, root, id, n),
    ensures
        distance(g, root, id, n) <= n,
        reaches(g, root, id, distance(g, root, id, n)),
        forall|m: nat| m < distance(g, root, id, n) ==> !reaches(g, root, id, m),
    decreases n,
{
    if n > 0 && reaches(g, root, id, (n - 1) as nat) {
        lemma_distance(g, root, id, (n - 1) as nat);
    } else {
        assert forall|m: nat| m < n implies !reaches(g, root, id, m) by {
            if reaches(g, root, id, m) {
                lemma_reaches_more(g, root, id, m, (n - 1) as nat);
            }
        }
    }
}

/// The least number of edges over which `id` can be reached.
pub open spec fn level(g: Seq<GraphNode>, root: u64, id: u64) -> nat {
    distance(g, root, id, choose|n: nat| #[trigger] reaches(g, root, id, n))
}

proof fn lemma_level(g: Seq<GraphNode>, root: u64, id: u64)
    requires
        is_reachable(g, root, id),
    ensures
        reaches(g, root, id, level(g, root, id)),
        forall|m: nat| m < level(g, root, id) ==> !reaches(g, root, id, m),
{
    let n = choose|n: nat| #[trigger] reaches(g, root, id, n);
    lemma_distance(g, root, id, n);
}

/// Counting parents: a node with a parent has a positive count, and a count of one leaves room
/// for one parent only.
proof fn lemma_parents(g: Seq<GraphNode>, id: u64, n: nat)
    requires
        n <= g.len(),
    ensures
        parent_count(g, id, n) == 0 <==> (forall|k: int|
            0 <= k < n ==> !(#[trigger] g[k]).children.contains(id)),
        parent_count(g, id, n) <= 1 ==> (forall|i: int, j: int|
            0 <= i < j < n && (#[trigger] g[i]).children.contains(id) ==> !(
            #[trigger] g[j]).children.contains(id)),
    decreases n,
{
    if n > 0 {
        lemma_parents(g, id, (n - 1) as nat);
    }
}

/// An accepted update is a tree. Its ids are distinct and contain the root and the focus; no
/// node grafts another tree; every child is present; the root has no parent, and every other
/// node has exactly one, at which it is listed once; and every node is one edge further from
/// the root than its parent, so that there is no cycle.
pub proof fn law_accepted_is_tree(g: Seq<GraphNode>, root: u64, focus: u64)
    requires
        snapshot_problem(g, Some(root), focus) is None,
    ensures
        present(g, root),
        present(g, focus),
        forall|i: int, j: int| 0 <= i < j < g.len() ==> #[trigger] g[i].id != #[trigger] g[j].id,
        forall|k: int| 0 <= k < g.len() ==> !(#[trigger] g[k]).graft,
        forall|k: int, c: u64|
            0 <= k < g.len() && #[trigger] g[k].children.contains(c) ==> present(g, c) && c != root,
        forall|k: int| 0 <= k < g.len() ==> (#[trigger] g[k]).children.no_duplicates(),
        forall|id: u64|
            present(g, id) && id != root ==> exists|k: int|
                0 <= k < g.len() && (#[trigger] g[k]).children.contains(id),
        forall|i: int, j: int, c: u64|
            0 <= i < g.len() && 0 <= j < g.len() && #[trigger] g[i].children.contains(c)
                && #[trigger] g[j].children.contains(c) ==> i == j,
        forall|id: u64| present(g, id) ==> is_reachable(g, root, id),
        forall|k: int, c: u64|
            0 <= k < g.len() && #[trigger] g[k].children.contains(c) ==> level(g, root, c) == level(
                g,
                root,
                g[k].id,
            ) + 1,
{
    lemma_first_repeated(g, 0);
    lemma_edge_problem(g, root, 0);
    lemma_least_misplaced(g, root, g.len());
    lemma_first_unreachable(g, root, 0);
    assert forall|i: int, j: int| 0 <= i < j < g.len() implies #[trigger] g[i].id
        != #[trigger] g[j].id by {
        assert(!is_repeated(g, j));
    }
    assert forall|k: int, c: u64| 0 <= k < g.len() && #[trigger] g[k].children.contains(
        c,
    ) implies present(g, c) && c != root by {
        lemma_child_problem(g, root, g[k], 0);
        let j = choose|j: int| 0 <= j < g[k].children.len() && g[k].children[j] == c;
        assert(present(g, g[k].children[j]));
    }
    assert forall|k: int| 0 <= k < g.len() implies (#[trigger] g[k]).children.no_duplicates() by {
        lemma_child_problem(g, root, g[k], 0);
        let children = g[k].children;
        assert forall|i: int, j: int| 0 <= i < j < children.len() implies children[i]
            != children[j] by {
            assert(present(g, children[j]));
            assert(!is_repeated_child(g[k], j));
        }
    }
    assert forall|id: u64| present(g, id) && id != root implies exists|k: int|
        0 <= k < g.len() && (#[trigger] g[k]).children.contains(id) by {
        let i = choose|i: int| 0 <= i < g.len() && #[trigger] g[i].id == id;
        assert(!is_misplaced(g, root, g[i].id));
        lemma_parents(g, id, g.len());
    }
    assert forall|i: int, j: int, c: u64|
        0 <= i < g.len() && 0 <= j < g.len() && #[trigger] g[i].children.contains(c)
            && #[trigger] g[j].children.contains(c) implies i == j by {
        assert(present(g, c) && c != root);
        let k = choose|k: int| 0 <= k < g.len() && #[trigger] g[k].id == c;
        assert(!is_misplaced(g, root, g[k].id));
        lemma_parents(g, c, g.len());
        if i < j {
            assert(!g[j].children.contains(c));
        } else if j < i {
            assert(!g[i].children.contains(c));
        }
    }
    assert forall|id: u64| present(g, id) implies is_reachable(g, root, id) by {
        let k = choose|k: int| 0 <= k < g.len() && #[trigger] g[k].id == id;
        assert(is_reachable(g, root, g[k].id));
    }
    assert forall|k: int, c: u64| 0 <= k < g.len() && #[trigger] g[k].children.contains(
        c,
    ) implies level(g, root, c) == level(g, root, g[k].id) + 1 by {
        lemma_level_child(g, root, k, c);
    }
}

/// A child is one edge further from the root than its only parent.
proof fn lemma_level_child(g: Seq<GraphNode>, root: u64, k: int, c: u64)
    requires
        0 <= k < g.len(),
        g[k].children.contains(c),
        c != root,
        is_reachable(g, root, g[k].id),
        is_reachable(g, root, c),
        forall|i: int| 0 <= i < g.len() && (#[trigger] g[i]).children.contains(c) ==> i == k,
    ensures
        level(g, root, c) == level(g, root, g[k].id) + 1,
{
    let p = g[k].id;
    let a = level(g, root, p);
    let b = level(g, root, c);
    lemma_level(g, root, p);
    lemma_level(g, root, c);
    assert(is_edge(g, p, c));
    assert(reaches(g, root, c, a + 1));
    assert(b <= a + 1);
    assert(b > 0);
    assert(!reaches(g, root, c, (b - 1) as nat));
    let q = choose|q: u64|
        reaches(g, root, q, (b - 1) as nat) && #[trigger] is_edge(g, q, c);
    let i = choose|i: int|
        0 <= i < g.len() && #[trigger] g[i].id == q && g[i].children.contains(c);
    assert(i == k);
    assert(a <= b - 1);
}

} // verus!
