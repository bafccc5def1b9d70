//! Identifiers of the things that scenes and accessibility trees speak of.

use vstd::prelude::*;

verus! {

/// An entity of a world, by its bits.
#[derive(Clone, Copy, Debug, PartialEq, Eq, PartialOrd, Ord, Hash, Structural)]
pub struct Entity(pub u64);

/// A node of an accessibility tree.
#[derive(Clone, Copy, Debug, PartialEq, Eq, PartialOrd, Ord, Hash, Structural)]
pub struct NodeId(pub u64);

/// The namespace of an accessibility tree, by the number of its UUID.
#[derive(Clone, Copy, Debug, PartialEq, Eq, PartialOrd, Ord, Hash, Structural)]
pub struct TreeId(pub u128);

impl TreeId {
    pub open spec fn spec_root() -> TreeId {
        TreeId(0)
    }

    /// The tree of the window itself, which has the nil UUID.
    pub fn root() -> (r: Self)
        ensures
            r == Self::spec_root(),
    {
        TreeId(0)
    }
}

} // verus!
