//! Which updates are refused as accessibility trees, and why.

use vstd::prelude::*;

use crate::subtree_graph::{
    child_problem, edge_problem, first_repeated, first_unreachable, is_misplaced, is_reachable,
    is_repeated, is_repeated_child, least_misplaced, parent_count, present, snapshot_problem,
    AccessibilitySubtreeSnapshotError, GraphNode,
};

verus! {

/// Whether the node `k` has the id and lists the child.
pub open spec fn lists(g: Seq<GraphNode>, k: int, id: u64, child: u64) -> bool {
    0 <= k < g.len() && g[k].id == id && g[k].children.contains(child)
}

/// Whether the node `k` has the id and lists the child at two places.
pub open spec fn lists_twice(
    g: Seq<GraphNode>,
    k: int,
    i: int,
    j: int,
    id: u64,
    child: u64,
) -> bool {
    0 <= k < g.len() && 0 <= i < j < g[k].children.len() && g[k].id == id && g[k].children[i]
        == child && g[k].children[j] == child
}

/// Whether what an error says is true of the nodes.
pub open spec fn is_true(
    g: Seq<GraphNode>,
    root: Option<u64>,
    focus: u64,
    error: AccessibilitySubtreeSnapshotError,
) -> bool {
    match error {
        AccessibilitySubtreeSnapshotError::MissingTree => root is None,
        AccessibilitySubtreeSnapshotError::MissingRoot(id) => root == Some(id.0) && forall|k: int|
            0 <= k < g.len() ==> #[trigger] g[k].id != id.0,
        AccessibilitySubtreeSnapshotError::MissingFocus(id) => focus == id.0 && forall|k: int|
            0 <= k < g.len() ==> #[trigger] g[k].id != id.0,
        AccessibilitySubtreeSnapshotError::DuplicateNode(id) => exists|i: int, j: int|
            0 <= i < j < g.len() && #[trigger] g[i].id == id.0 && #[trigger] g[j].id == id.0,
        AccessibilitySubtreeSnapshotError::NestedGraft(id) => exists|k: int|
            0 <= k < g.len() && #[trigger] g[k].id == id.0 && g[k].graft,
        AccessibilitySubtreeSnapshotError::DuplicateChild { parent, child } => exists|
            k: int,
            i: int,
            j: int,
        |
            #[trigger] lists_twice(g, k, i, j, parent.0, child.0),
        AccessibilitySubtreeSnapshotError::RootHasParent(parent) => root is Some && exists|k: int|
            #[trigger] lists(g, k, parent.0, root->0),
        AccessibilitySubtreeSnapshotError::MissingChild { parent, child } => (exists|k: int|
            #[trigger] lists(g, k, parent.0, child.0)) && forall|k: int|
            0 <= k < g.len() ==> #[trigger] g[k].id != child.0,
        AccessibilitySubtreeSnapshotError::Disconnected(id) => root != Some(id.0) && present(
            g,
            id.0,
        ) && forall|k: int| 0 <= k < g.len() ==> !(#[trigger] g[k]).children.contains(id.0),
        AccessibilitySubtreeSnapshotError::MultipleParents(id) => root != Some(id.0) && exists|
            i: int,
            j: int,
        |
            0 <= i < j < g.len() && (#[trigger] g[i]).children.contains(id.0) && (
            #[trigger] g[j]).children.contains(id.0),
        AccessibilitySubtreeSnapshotError::DisconnectedOrCyclic(id) => root is Some && present(
            g,
            id.0,
        ) && !is_reachable(g, root->0, id.0),
    }
}

proof fn lemma_repeated(g: Seq<GraphNode>, i: int)
    requires
        0 <= i,
        first_repeated(g, i) is Some,
    ensures
        exists|k: int, j: int|
            0 <= k < j < g.len() && #[trigger] g[k].id == first_repeated(g, i)->0
                && #[trigger] g[j].id == first_repeated(g, i)->0,
    decreases g.len() - i,
{
    if i < g.len() {
        if is_repeated(g, i) {
            let k = choose|k: int| 0 <= k < i && #[trigger] g[k].id == g[i].id;
            assert(0 <= k < i < g.len() && g[k].id == g[i].id);
        } else {
            lemma_repeated(g, i + 1);
        }
    }
}

proof fn lemma_child(g: Seq<GraphNode>, root: u64, focus: u64, k: int, j: int)
    requires
        0 <= k < g.len(),
        0 <= j,
        child_problem(g, root, g[k], j) is Some,
    ensures
        is_true(g, Some(root), focus, child_problem(g, root, g[k], j)->0),
    decreases g[k].children.len() - j,
{
    let node = g[k];
    let child = node.children[j];
    let error = child_problem(g, root, node, j)->0;
    assert(node.children.contains(child));
    assert(lists(g, k, node.id, child));
    if is_repeated_child(node, j) {
        let i = choose|i: int| 0 <= i < j && #[trigger] node.children[i] == node.children[j];
        if let AccessibilitySubtreeSnapshotError::DuplicateChild { parent, child: c } = error {
            assert(lists_twice(g, k, i, j, parent.0, c.0));
        }
    } else if !present(g, child) {
        if let AccessibilitySubtreeSnapshotError::MissingChild { parent, child: c } = error {
            assert(lists(g, k, parent.0, c.0));
            assert forall|i: int| 0 <= i < g.len() implies #[trigger] g[i].id != c.0 by {}
        }
    } else if child == root {
        if let AccessibilitySubtreeSnapshotError::RootHasParent(parent) = error {
            assert(lists(g, k, parent.0, root));
            assert(Some(root)->0 == root);
        }
    } else {
        lemma_child(g, root, focus, k, j + 1);
    }
}

proof fn lemma_edge(g: Seq<GraphNode>, root: u64, focus: u64, i: int)
    requires
        0 <= i,
        edge_problem(g, root, i) is Some,
    ensures
        is_true(g, Some(root), focus, edge_problem(g, root, i)->0),
    decreases g.len() - i,
{
    if i < g.len() && !g[i].graft {
        if child_problem(g, root, g[i], 0) is Some {
            lemma_child(g, root, focus, i, 0);
        } else {
            lemma_edge(g, root, focus, i + 1);
        }
    }
}

proof fn lemma_misplaced(g: Seq<GraphNode>, root: u64, n: nat)
    requires
        n <= g.len(),
        least_misplaced(g, root, n) is Some,
    ensures
        present(g, least_misplaced(g, root, n)->0),
        is_misplaced(g, root, least_misplaced(g, root, n)->0),
    decreases n,
{
    if n > 0 {
        if least_misplaced(g, root, n) == least_misplaced(g, root, (n - 1) as nat) {
            lemma_misplaced(g, root, (n - 1) as nat);
        } else {
            assert(g[n - 1].id == least_misplaced(g, root, n)->0);
        }
    }
}

proof fn lemma_count(g: Seq<GraphNode>, id: u64, n: nat)
    requires
        n <= g.len(),
    ensures
        parent_count(g, id, n) == 0 ==> (forall|k: int|
            0 <= k < n ==> !(#[trigger] g[k]).children.contains(id)),
        parent_count(g, id, n) >= 1 ==> (exists|k: int|
            0 <= k < n && (#[trigger] g[k]).children.contains(id)),
        parent_count(g, id, n) >= 2 ==> (exists|i: int, j: int|
            0 <= i < j < n && (#[trigger] g[i]).children.contains(id) && (
            #[trigger] g[j]).children.contains(id)),
    decreases n,
{
    if n > 0 {
        let m = (n - 1) as nat;
        lemma_count(g, id, m);
        if g[n - 1].children.contains(id) && parent_count(g, id, m) >= 1 {
            let k = choose|k: int| 0 <= k < m && (#[trigger] g[k]).children.contains(id);
            assert(0 <= k < n - 1 < n && g[k].children.contains(id) && g[n
                - 1].children.contains(id));
        }
    }
}

proof fn lemma_unreachable(g: Seq<GraphNode>, root: u64, i: int)
    requires
        0 <= i,
        first_unreachable(g, root, i) is Some,
    ensures
        present(g, first_unreachable(g, root, i)->0),
        !is_reachable(g, root, first_unreachable(g, root, i)->0),
    decreases g.len() - i,
{
    if i < g.len() {
        if !is_reachable(g, root, g[i].id) {
            assert(g[i].id == first_unreachable(g, root, i)->0);
        } else {
            lemma_unreachable(g, root, i + 1);
        }
    }
}

/// What an update is refused for is true of it.
pub proof fn law_refusals_are_true(g: Seq<GraphNode>, root: Option<u64>, focus: u64)
    ensures
        snapshot_problem(g, root, focus) matches Some(error) ==> is_true(g, root, focus, error),
{
    if let Some(root) = root {
        if first_repeated(g, 0) is Some {
            lemma_repeated(g, 0);
        } else if present(g, root) && present(g, focus) {
            if edge_problem(g, root, 0) is Some {
                lemma_edge(g, root, focus, 0);
            } else if least_misplaced(g, root, g.len()) is Some {
                lemma_misplaced(g, root, g.len());
                lemma_count(g, least_misplaced(g, root, g.len())->0, g.len());
            } else if first_unreachable(g, root, 0) is Some {
                lemma_unreachable(g, root, 0);
            }
        }
    }
}

/// An update that is a tree is accepted: its ids are distinct and contain the root and the focus,
/// no node grafts another tree, every child is present, is not the root and is listed once, every
/// node but the root has one parent, and every node can be reached from the root.
pub proof fn law_trees_are_accepted(g: Seq<GraphNode>, root: u64, focus: u64)
    requires
        present(g, root),
        present(g, focus),
        forall|i: int, j: int| 0 <= i < j < g.len() ==> #[trigger] g[i].id != #[trigger] g[j].id,
        forall|k: int| 0 <= k < g.len() ==> !(#[trigger] g[k]).graft,
        forall|k: int| 0 <= k < g.len() ==> (#[trigger] g[k]).children.no_duplicates(),
        forall|k: int, c: u64|
            0 <= k < g.len() && #[trigger] g[k].children.contains(c) ==> present(g, c) && c != root,
        forall|id: u64|
            present(g, id) && id != root ==> exists|k: int|
                0 <= k < g.len() && (#[trigger] g[k]).children.contains(id),
        forall|i: int, j: int, c: u64|
            0 <= i < j < g.len() && #[trigger] g[i].children.contains(c) ==> !(
            #[trigger] g[j].children.contains(c)),
        forall|k: int| 0 <= k < g.len() ==> is_reachable(g, root, #[trigger] g[k].id),
    ensures
        snapshot_problem(g, Some(root), focus) is None,
{
    law_refusals_are_true(g, Some(root), focus);
    if let Some(error) = snapshot_problem(g, Some(root), focus) {
        match error {
            AccessibilitySubtreeSnapshotError::DuplicateChild { parent, child } => {
                let (k, i, j) = choose|k: int, i: int, j: int| #[trigger]
                    lists_twice(g, k, i, j, parent.0, child.0);
                assert(g[k].children.no_duplicates());
            },
            AccessibilitySubtreeSnapshotError::MissingChild { parent, child } => {
                let k = choose|k: int| #[trigger] lists(g, k, parent.0, child.0);
                assert(g[k].children.contains(child.0));
            },
            AccessibilitySubtreeSnapshotError::RootHasParent(parent) => {
                let k = choose|k: int| #[trigger] lists(g, k, parent.0, root);
                assert(g[k].children.contains(root));
            },
            AccessibilitySubtreeSnapshotError::MultipleParents(id) => {
                let (i, j) = choose|i: int, j: int|
                    0 <= i < j < g.len() && (#[trigger] g[i]).children.contains(id.0) && (
                    #[trigger] g[j]).children.contains(id.0);
                assert(g[i].children.contains(id.0));
            },
            AccessibilitySubtreeSnapshotError::DisconnectedOrCyclic(id) => {
                let k = choose|k: int| 0 <= k < g.len() && #[trigger] g[k].id == id.0;
                assert(is_reachable(g, root, g[k].id));
            },
            _ => {},
        }
    }
}

} // verus!
