//! Reusable accessibility primitives.
//!
//! These types help other interfaces coordinate their approach to accessibility: whether
//! assistive technology asked for information, who maintains the tree, and which independently
//! produced subtrees are attached to a window.

use std::sync::atomic::{AtomicBool, Ordering};
use std::sync::Arc;

use vstd::prelude::*;

use crate::entity::{Entity, TreeId};

verus! {

/// Registers an entity as the stable graft for an independently produced accessibility subtree.
///
/// The entity carrying this component is the provider identity and supplies the graft node's ID
/// in the window's root tree. `tree_id` identifies the independent namespace and must remain
/// stable for the lifetime of the attachment. Replacing this component starts a new attachment
/// generation, even when its values are unchanged. Tree IDs must be unique among providers
/// attached to the same window; independent native window adapters may reuse the same
/// toolkit-local tree ID.
#[derive(Clone, Copy, Debug, PartialEq, Eq, Structural)]
pub struct AccessibilitySubtreeProvider {
    window: Entity,
    tree_id: TreeId,
}

impl AccessibilitySubtreeProvider {
    pub closed spec fn spec_window(self) -> Entity {
        self.window
    }

    pub closed spec fn spec_tree_id(self) -> TreeId {
        self.tree_id
    }

    /// Creates a provider targeting `window` with a non-root tree ID.
    pub fn new(window: Entity, tree_id: TreeId) -> (r: Result<
        Self,
        AccessibilitySubtreeProviderError,
    >)
        ensures
            match r {
                Ok(provider) => tree_id != TreeId::spec_root() && provider.spec_window() == window
                    && provider.spec_tree_id() == tree_id,
                Err(e) => tree_id == TreeId::spec_root() && e
                    == AccessibilitySubtreeProviderError::RootTreeId,
            },
    {
        if tree_id == TreeId::root() {
            return Err(AccessibilitySubtreeProviderError::RootTreeId);
        }
        Ok(AccessibilitySubtreeProvider { window, tree_id })
    }

    /// Returns the window that owns the native accessibility adapter.
    pub fn window(&self) -> (r: Entity)
        ensures
            r == self.spec_window(),
    {
        self.window
    }

    /// Returns the stable namespace assigned to this provider.
    pub fn tree_id(&self) -> (r: TreeId)
        ensures
            r == self.spec_tree_id(),
    {
        self.tree_id
    }
}

/// Error returned while registering an accessibility subtree provider.
#[derive(Clone, Copy, Debug, PartialEq, Eq, Structural)]
pub enum AccessibilitySubtreeProviderError {
    /// The root tree ID is reserved for the tree of the window itself.
    RootTreeId,
}

/// Total ordering key for sibling accessibility subtree grafts.
///
/// Equal values are ordered by the provider entity, making the final order deterministic.
#[derive(Clone, Copy, Debug, Default, PartialEq, Eq, PartialOrd, Ord, Structural)]
pub struct AccessibilitySubtreeOrder(pub i64);

/// Claims parent-tree keyboard focus for an accessibility subtree.
///
/// The subtree snapshot always has an internal fallback focus. This marker is separate: it
/// tells the owner of the window tree to focus the provider's graft. At most one provider may
/// carry this marker for a given window.
#[derive(Clone, Copy, Debug, Default, PartialEq, Eq, Structural)]
pub struct AccessibilitySubtreeParentFocus;

// -- shared flags -------------------------------------------------------------------------------

/// `Arc::clone`, of std: another handle of the same cell.
#[verifier::external_body]
fn share(cell: &Arc<AtomicBool>) -> (r: Arc<AtomicBool>)
    ensures
        r == *cell,
{
    Arc::clone(cell)
}

/// Per-window native accessibility activation state.
///
/// It starts inactive. Clones share one atomic cell, so that activation callbacks can update it
/// before the next pass: a read sees the last store of any holder of the cell.
#[derive(Debug)]
pub struct WindowAccessibilityState(Arc<AtomicBool>);

impl Default for WindowAccessibilityState {
    fn default() -> (r: Self) {
        WindowAccessibilityState(Arc::new(AtomicBool::new(false)))
    }
}

impl Clone for WindowAccessibilityState {
    fn clone(&self) -> (r: Self)
        ensures
            r.cell() == self.cell(),
    {
        WindowAccessibilityState(share(&self.0))
    }
}

impl WindowAccessibilityState {
    /// The cell that this handle reads and sets. What the cell holds depends on all its holders,
    /// so no contract speaks of it.
    pub closed spec fn cell(&self) -> Arc<AtomicBool> {
        self.0
    }

    /// Returns whether the platform adapter is currently active.
    pub fn is_active(&self) -> (r: bool) {
        self.0.load(Ordering::SeqCst)
    }

    /// Updates the state from the platform accessibility owner.
    ///
    /// This is for platform integrations; applications should treat the state as read-only.
    pub fn set_platform_active(&self, active: bool) {
        self.0.store(active, Ordering::SeqCst);
    }
}

/// Identifies one native adapter lifetime.
#[derive(Clone, Copy, Debug, PartialEq, Eq, PartialOrd, Ord, Hash, Structural)]
pub struct AccessibilityAdapterGeneration(pub u64);

/// Identifies one activation request within a native adapter lifetime.
#[derive(Clone, Copy, Debug, PartialEq, Eq, PartialOrd, Ord, Hash, Structural)]
pub struct AccessibilityActivationGeneration(pub u64);

/// Identifies one provider attachment to a window.
#[derive(Clone, Copy, Debug, PartialEq, Eq, PartialOrd, Ord, Hash, Structural)]
pub struct AccessibilityAttachmentGeneration(pub u64);

/// Identifies one provider attachment within a native accessibility lifetime.
#[derive(Clone, Copy, Debug, PartialEq, Eq, Structural)]
pub struct AccessibilitySubtreeLifecycleToken {
    /// Source window.
    pub window: Entity,
    /// Stable graft/provider entity.
    pub provider: Entity,
    /// Provider tree namespace.
    pub tree_id: TreeId,
    /// Native adapter lifetime.
    pub adapter_generation: AccessibilityAdapterGeneration,
    /// Activation request represented by this lifecycle edge.
    pub activation_generation: AccessibilityActivationGeneration,
    /// Attachment lifetime represented by this lifecycle edge.
    pub attachment_generation: AccessibilityAttachmentGeneration,
}

/// Ordered lifecycle edge for an accessibility subtree attachment.
///
/// Activation and deactivation share one message stream so rapid native lifecycle transitions
/// cannot be reordered by independent message cursors.
#[derive(Clone, Copy, Debug, PartialEq, Eq, Structural)]
pub enum AccessibilitySubtreeLifecycle {
    /// The attachment may build or publish its retained subtree.
    Activated(AccessibilitySubtreeLifecycleToken),
    /// The represented attachment lifetime is no longer native-live.
    Deactivated(AccessibilitySubtreeLifecycleToken),
}

/// Tracks whether an assistive technology has requested accessibility information.
///
/// By default, it is set to `false`, indicating that nothing has requested accessibility
/// information yet. Clones share one atomic cell: a read sees the last store of any holder of
/// the cell.
#[derive(Debug)]
pub struct AccessibilityRequested(Arc<AtomicBool>);

impl Default for AccessibilityRequested {
    fn default() -> (r: Self) {
        AccessibilityRequested(Arc::new(AtomicBool::new(false)))
    }
}

impl Clone for AccessibilityRequested {
    fn clone(&self) -> (r: Self)
        ensures
            r.cell() == self.cell(),
    {
        AccessibilityRequested(share(&self.0))
    }
}

impl AccessibilityRequested {
    /// The cell that this handle reads and sets. What the cell holds depends on all its holders,
    /// so no contract speaks of it.
    pub closed spec fn cell(&self) -> Arc<AtomicBool> {
        self.0
    }

    /// Checks if any assistive technology has requested accessibility information.
    ///
    /// If so, this method returns `true`, indicating that accessibility tree updates should be
    /// sent.
    pub fn get(&self) -> (r: bool) {
        self.0.load(Ordering::SeqCst)
    }

    /// Sets the app's preference for sending accessibility updates.
    ///
    /// Setting `true` requests that the app provides updates to accessibility information;
    /// setting `false` requests that the entire app stops providing these updates.
    pub fn set(&self, value: bool) {
        self.0.store(value, Ordering::SeqCst);
    }
}

/// Determines whether the engine updates the accessibility tree.
///
/// It defaults to `true`. Set it to `false` in cases where an external GUI library is sending
/// accessibility updates instead; otherwise the two would generate conflicting updates.
#[derive(Clone, Debug)]
pub struct ManageAccessibilityUpdates(bool);

impl Default for ManageAccessibilityUpdates {
    fn default() -> (r: Self)
        ensures
            r.spec_get(),
    {
        ManageAccessibilityUpdates(true)
    }
}

impl ManageAccessibilityUpdates {
    pub closed spec fn spec_get(&self) -> bool {
        self.0
    }

    /// Returns `true` if the engine should update the accessibility tree.
    pub fn get(&self) -> (r: bool)
        ensures
            r == self.spec_get(),
    {
        self.0
    }

    /// Sets whether the engine should update the accessibility tree.
    pub fn set(&mut self, value: bool)
        ensures
            final(self).spec_get() == value,
    {
        self.0 = value;
    }
}

/// A system set relating to accessibility.
///
/// Helps run accessibility updates all at once.
#[derive(Clone, Copy, Debug, Hash, PartialEq, Eq, Structural)]
pub enum AccessibilitySystems {
    /// Update the accessibility tree.
    Update,
    /// Route native actions after attachment changes have been committed.
    Actions,
    /// Request another update for late provider changes and native lifecycle edges that ordinary
    /// application systems have not yet observed.
    RequestUpdate,
}

/// Plugin managing integration with accessibility APIs.
///
/// Its main role is to initialize the [`AccessibilityRequested`] and
/// [`ManageAccessibilityUpdates`] resources: no assistive technologies have requested
/// accessibility information yet, and the engine manages updates to the accessibility tree.
#[derive(Clone, Copy, Debug, Default)]
pub struct AccessibilityPlugin;

impl AccessibilityPlugin {
    /// The resources that the plugin adds to an app.
    pub fn build(&self) -> (r: (AccessibilityRequested, ManageAccessibilityUpdates))
        ensures
            r.1.spec_get(),
    {
        (AccessibilityRequested::default(), ManageAccessibilityUpdates::default())
    }
}

} // verus!
