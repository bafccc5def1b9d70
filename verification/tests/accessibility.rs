//! Accessibility subtrees, with the nodes of AccessKit.

use accesskit::{Action, Node, NodeId, Role, TreeId, TreeInfo, TreeUpdate};
use bevy_bsn::{
    AccessibilityPlugin, AccessibilityRequested, AccessibilitySubtreeProvider,
    AccessibilitySubtreeProviderError, AccessibilitySubtreeSnapshot,
    AccessibilitySubtreeSnapshotError, Entity, ManageAccessibilityUpdates, SubtreeInfo,
    SubtreeNode, SubtreeUpdate, WindowAccessibilityState,
};

const ACTIONS: [Action; 22] = [
    Action::Click,
    Action::Focus,
    Action::Blur,
    Action::Collapse,
    Action::Expand,
    Action::CustomAction,
    Action::Decrement,
    Action::Increment,
    Action::HideTooltip,
    Action::ShowTooltip,
    Action::ReplaceSelectedText,
    Action::ScrollDown,
    Action::ScrollLeft,
    Action::ScrollRight,
    Action::ScrollUp,
    Action::ScrollIntoView,
    Action::ScrollToPoint,
    Action::SetScrollOffset,
    Action::SetTextSelection,
    Action::SetSequentialFocusNavigationStartingPoint,
    Action::SetValue,
    Action::ShowContextMenu,
];

fn plain_id(id: NodeId) -> bevy_bsn::NodeId {
    bevy_bsn::NodeId(id.0)
}

fn plain_node(id: NodeId, node: Node) -> SubtreeNode<Node> {
    SubtreeNode {
        id: plain_id(id),
        children: node.children().iter().map(|child| plain_id(*child)).collect(),
        tree_id: node.tree_id().map(|tree| bevy_bsn::TreeId(tree.0.as_u128())),
        actions: ACTIONS
            .iter()
            .filter(|action| node.supports_action(**action))
            .map(|action| *action as u8)
            .collect(),
        node,
    }
}

fn plain_update(update: TreeUpdate) -> SubtreeUpdate<Node> {
    SubtreeUpdate {
        nodes: update.nodes.into_iter().map(|(id, node)| plain_node(id, node)).collect(),
        tree: update.tree.map(|tree| SubtreeInfo {
            root: plain_id(tree.root),
            toolkit_name: tree.toolkit_name,
            toolkit_version: tree.toolkit_version,
        }),
        tree_id: bevy_bsn::TreeId(update.tree_id.0.as_u128()),
        focus: plain_id(update.focus),
    }
}

fn snapshot(
    sequence: u64,
    update: TreeUpdate,
) -> Result<AccessibilitySubtreeSnapshot<Node>, AccessibilitySubtreeSnapshotError> {
    AccessibilitySubtreeSnapshot::try_from_full_update(sequence, plain_update(update))
}

fn tree_update(snapshot: &AccessibilitySubtreeSnapshot<Node>, tree_id: TreeId) -> TreeUpdate {
    let update = snapshot.tree_update(bevy_bsn::TreeId(tree_id.0.as_u128()));
    TreeUpdate {
        nodes: update.nodes.into_iter().map(|node| (NodeId(node.id.0), node.node)).collect(),
        tree: update.tree.map(|tree| TreeInfo {
            root: NodeId(tree.root.0),
            toolkit_name: tree.toolkit_name,
            toolkit_version: tree.toolkit_version,
        }),
        tree_id: TreeId(accesskit::Uuid::from_u128(update.tree_id.0)),
        focus: NodeId(update.focus.0),
    }
}

fn full_update(tree_id: TreeId, root: NodeId, focus: NodeId) -> TreeUpdate {
    let mut root_node = Node::new(Role::Group);
    if focus != root {
        root_node.push_child(focus);
    }
    let mut nodes = vec![(root, root_node)];
    if focus != root {
        nodes.push((focus, Node::new(Role::Button)));
    }
    TreeUpdate {
        nodes,
        tree: Some(TreeInfo::new(root)),
        tree_id,
        focus,
    }
}

#[test]
fn provider_rejects_root_tree_id() {
    assert_eq!(
        AccessibilitySubtreeProvider::new(Entity(u64::MAX), bevy_bsn::TreeId::root()),
        Err(AccessibilitySubtreeProviderError::RootTreeId)
    );
}

#[test]
fn snapshot_retargets_complete_local_tree_without_rewriting_node_ids() {
    let local_root = NodeId(10);
    let local_focus = NodeId(11);
    let snapshot = snapshot(
        7,
        full_update(TreeId::ROOT, local_root, local_focus),
    )
    .unwrap();
    let external_tree = TreeId(accesskit::Uuid::from_u128(1));
    let update = tree_update(&snapshot, external_tree);
    assert_eq!(update.tree_id, external_tree);
    assert_eq!(update.tree.unwrap().root, local_root);
    assert_eq!(update.focus, local_focus);
    assert_eq!(update.nodes[1].0, local_focus);
}

#[test]
fn retained_snapshot_node_lookup_rejects_missing_and_unadvertised_actions() {
    let root = NodeId(10);
    let button = NodeId(11);
    let mut root_node = Node::new(Role::Group);
    root_node.push_child(button);
    let mut button_node = Node::new(Role::Button);
    button_node.add_action(accesskit::Action::Click);
    let snapshot = snapshot(
        1,
        TreeUpdate {
            nodes: vec![(root, root_node), (button, button_node)],
            tree: Some(TreeInfo::new(root)),
            tree_id: TreeId::ROOT,
            focus: button,
        },
    )
    .unwrap();

    assert_eq!(snapshot.node(plain_id(button)).map(|node| node.node.role()), Some(Role::Button));
    assert!(snapshot.node_supports_action(plain_id(button), Action::Click as u8));
    assert!(!snapshot.node_supports_action(plain_id(button), Action::Focus as u8));
    assert!(snapshot.node(plain_id(NodeId(99))).is_none());
    assert!(!snapshot.node_supports_action(plain_id(NodeId(99)), Action::Click as u8));
}

#[test]
fn snapshot_rejects_incremental_or_incomplete_updates() {
    let incremental = TreeUpdate {
        nodes: vec![(NodeId(1), Node::new(Role::Group))],
        tree: None,
        tree_id: TreeId::ROOT,
        focus: NodeId(1),
    };
    assert_eq!(
        snapshot(0, incremental).err(),
        Some(AccessibilitySubtreeSnapshotError::MissingTree)
    );

    let mut root = Node::new(Role::Group);
    root.push_child(NodeId(2));
    let dangling = TreeUpdate {
        nodes: vec![(NodeId(1), root)],
        tree: Some(TreeInfo::new(NodeId(1))),
        tree_id: TreeId::ROOT,
        focus: NodeId(1),
    };
    assert_eq!(
        snapshot(0, dangling).err(),
        Some(AccessibilitySubtreeSnapshotError::MissingChild {
            parent: bevy_bsn::NodeId(1),
            child: bevy_bsn::NodeId(2),
        })
    );
}

#[test]
fn full_snapshot_validator_rejects_every_non_tree_graph_shape_and_nested_graft() {
    let update = |nodes: Vec<(NodeId, Node)>| TreeUpdate {
        nodes,
        tree: Some(TreeInfo::new(NodeId(1))),
        tree_id: TreeId::ROOT,
        focus: NodeId(1),
    };

    let disconnected = update(vec![
        (NodeId(1), Node::new(Role::Group)),
        (NodeId(2), Node::new(Role::Button)),
    ]);
    assert_eq!(
        snapshot(0, disconnected).err(),
        Some(AccessibilitySubtreeSnapshotError::Disconnected(bevy_bsn::NodeId(2)))
    );

    let mut cycle_a = Node::new(Role::Group);
    cycle_a.push_child(NodeId(3));
    let mut cycle_b = Node::new(Role::Group);
    cycle_b.push_child(NodeId(2));
    let cycle = update(vec![
        (NodeId(1), Node::new(Role::Group)),
        (NodeId(2), cycle_a),
        (NodeId(3), cycle_b),
    ]);
    assert!(matches!(
        snapshot(0, cycle).err(),
        Some(AccessibilitySubtreeSnapshotError::DisconnectedOrCyclic(_))
    ));

    let mut root = Node::new(Role::Group);
    root.set_children(vec![NodeId(2), NodeId(3)]);
    let mut first_parent = Node::new(Role::Group);
    first_parent.push_child(NodeId(4));
    let mut second_parent = Node::new(Role::Group);
    second_parent.push_child(NodeId(4));
    let multiple_parent = update(vec![
        (NodeId(1), root),
        (NodeId(2), first_parent),
        (NodeId(3), second_parent),
        (NodeId(4), Node::new(Role::Button)),
    ]);
    assert_eq!(
        snapshot(0, multiple_parent).err(),
        Some(AccessibilitySubtreeSnapshotError::MultipleParents(bevy_bsn::NodeId(
            4
        )))
    );

    let mut duplicate_root = Node::new(Role::Group);
    duplicate_root.set_children(vec![NodeId(2), NodeId(2)]);
    let duplicate_child = update(vec![
        (NodeId(1), duplicate_root),
        (NodeId(2), Node::new(Role::Button)),
    ]);
    assert!(matches!(
        snapshot(0, duplicate_child).err(),
        Some(AccessibilitySubtreeSnapshotError::DuplicateChild { .. })
    ));

    let mut child = Node::new(Role::Group);
    child.push_child(NodeId(1));
    let root_has_parent = update(vec![
        (NodeId(1), Node::new(Role::Group)),
        (NodeId(2), child),
    ]);
    assert_eq!(
        snapshot(0, root_has_parent).err(),
        Some(AccessibilitySubtreeSnapshotError::RootHasParent(bevy_bsn::NodeId(2)))
    );

    let mut nested = Node::new(Role::Group);
    nested.set_tree_id(TreeId(accesskit::Uuid::from_u128(2)));
    let nested_graft = update(vec![(NodeId(1), nested)]);
    assert_eq!(
        snapshot(0, nested_graft).err(),
        Some(AccessibilitySubtreeSnapshotError::NestedGraft(bevy_bsn::NodeId(1)))
    );
}

#[test]
fn full_snapshot_validator_handles_large_linear_tree_without_quadratic_scans() {
    const NODE_COUNT: u64 = 8_192;
    let mut nodes = Vec::with_capacity(NODE_COUNT as usize);
    for raw in 1..=NODE_COUNT {
        let mut node = Node::new(Role::Group);
        if raw < NODE_COUNT {
            node.push_child(NodeId(raw + 1));
        }
        nodes.push((NodeId(raw), node));
    }
    let snapshot = snapshot(
        1,
        TreeUpdate {
            nodes,
            tree: Some(TreeInfo::new(NodeId(1))),
            tree_id: TreeId::ROOT,
            focus: NodeId(NODE_COUNT),
        },
    )
    .unwrap();
    assert_eq!(snapshot.root(), bevy_bsn::NodeId(1));
    assert_eq!(snapshot.focus(), bevy_bsn::NodeId(NODE_COUNT));
}

#[test]
fn provider_keeps_its_window_and_tree() {
    let provider =
        AccessibilitySubtreeProvider::new(Entity(3), bevy_bsn::TreeId(7)).expect("not the root tree");
    assert_eq!(provider.window(), Entity(3));
    assert_eq!(provider.tree_id(), bevy_bsn::TreeId(7));
}

#[test]
fn snapshot_rejects_missing_and_repeated_nodes() {
    let group = |id: u64| (NodeId(id), Node::new(Role::Group));
    let update = |nodes: Vec<(NodeId, Node)>, root: u64, focus: u64| TreeUpdate {
        nodes,
        tree: Some(TreeInfo::new(NodeId(root))),
        tree_id: TreeId::ROOT,
        focus: NodeId(focus),
    };
    assert_eq!(
        snapshot(0, update(vec![group(1), group(1)], 1, 1)).err(),
        Some(AccessibilitySubtreeSnapshotError::DuplicateNode(bevy_bsn::NodeId(1)))
    );
    assert_eq!(
        snapshot(0, update(vec![group(1)], 2, 1)).err(),
        Some(AccessibilitySubtreeSnapshotError::MissingRoot(bevy_bsn::NodeId(2)))
    );
    assert_eq!(
        snapshot(0, update(vec![group(1)], 1, 2)).err(),
        Some(AccessibilitySubtreeSnapshotError::MissingFocus(bevy_bsn::NodeId(2)))
    );
}

#[test]
fn the_update_of_a_snapshot_is_accepted_again() {
    let mut update = full_update(TreeId::ROOT, NodeId(1), NodeId(2));
    update.tree = Some(TreeInfo {
        root: NodeId(1),
        toolkit_name: Some("kit".to_string()),
        toolkit_version: Some("2".to_string()),
    });
    let first = snapshot(4, update.clone()).unwrap();
    assert_eq!(first.sequence(), 4);
    let tree = TreeId(accesskit::Uuid::from_u128(9));
    let republished = tree_update(&first, tree);
    assert_eq!(republished.nodes, update.nodes);
    assert_eq!(republished.tree, update.tree);
    assert!(snapshot(5, republished).is_ok());
}

#[test]
fn flags_start_at_their_defaults_and_keep_what_is_set() {
    let (requested, mut managed) = AccessibilityPlugin.build();
    assert!(!requested.get());
    assert!(managed.get());
    requested.set(true);
    managed.set(false);
    assert!(requested.get());
    assert!(!managed.get());
    assert!(!AccessibilityRequested::default().get());
    assert!(ManageAccessibilityUpdates::default().get());
    let window = WindowAccessibilityState::default();
    assert!(!window.is_active());
    window.set_platform_active(true);
    assert!(window.is_active());
}

#[test]
fn clones_of_a_flag_share_its_cell() {
    for active in [true, false] {
        let first = WindowAccessibilityState::default();
        let second = first.clone();
        let other = WindowAccessibilityState::default();
        assert!(!first.is_active() && !second.is_active() && !other.is_active());
        second.set_platform_active(active);
        assert_eq!(first.is_active(), active);
        assert_eq!(second.is_active(), active);
        assert!(!other.is_active());
    }
    let first = AccessibilityRequested::default();
    let second = first.clone();
    let other = AccessibilityRequested::default();
    first.set(true);
    assert!(second.get());
    assert!(!other.get());
    second.set(false);
    assert!(!first.get());
}

#[test]
fn snapshots_compare_and_clone_by_their_contents() {
    let root = NodeId(10);
    let focus = NodeId(11);
    let first = snapshot(7, full_update(TreeId::ROOT, root, focus)).unwrap();
    let copy = first.clone();
    assert_eq!(copy, first);
    assert_ne!(first, snapshot(8, full_update(TreeId::ROOT, root, focus)).unwrap());
    assert_ne!(first, snapshot(7, full_update(TreeId::ROOT, root, root)).unwrap());
    let update = first.tree_update(bevy_bsn::TreeId(1));
    assert_eq!(update.clone(), copy.tree_update(bevy_bsn::TreeId(1)));
    assert_ne!(update, copy.tree_update(bevy_bsn::TreeId(2)));
}
