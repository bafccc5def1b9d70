//! Sets of names.

use bevy_platform::collections::HashSet;
use bevy_platform::hash::FixedHasher;

use vstd::prelude::*;

verus! {

/// `bevy_platform::collections::HashSet`.
#[verifier::external_type_specification]
#[verifier::external_body]
#[verifier::reject_recursive_types(T)]
#[verifier::reject_recursive_types(S)]
pub struct ExHashSet<T, S>(HashSet<T, S>);

/// A hash set of texts.
pub type NameSet = HashSet<String, FixedHasher>;

/// The texts that a hash set holds.
pub uninterp spec fn set_names(names: HashSet<String, FixedHasher>) -> Set<Seq<char>>;

/// `HashSet::with_hasher`, of `bevy_platform`: a set without items.
#[verifier::external_body]
pub(crate) fn new_set() -> (r: NameSet)
    ensures
        set_names(r) == Set::<Seq<char>>::empty(),
{
    HashSet::with_hasher(FixedHasher)
}

/// `HashSet::insert`, of `bevy_platform`: adds a text, and tells whether it was not there.
#[verifier::external_body]
pub(crate) fn set_insert(names: &mut NameSet, name: &str) -> (r: bool)
    ensures
        set_names(*final(names)) == set_names(*old(names)).insert(name@),
        r == !set_names(*old(names)).contains(name@),
{
    names.insert(String::from(name))
}

} // verus!
