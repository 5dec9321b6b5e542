use vstd::prelude::*;

use bevy::platform::collections::HashSet;
use bevy::platform::hash::FixedHasher;

verus! {

#[verifier::external_type_specification]
#[verifier::external_body]
#[verifier::reject_recursive_types(T)]
#[verifier::reject_recursive_types(S)]
pub struct ExHashSet<T, S>(HashSet<T, S>);

#[verifier::external_type_specification]
#[verifier::external_body]
pub struct ExFixedHasher(FixedHasher);

/// The members of a hash set of entities (by their `Entity::to_bits` value).
pub uninterp spec fn entity_hash_set_contents(set: HashSet<u64>) -> Set<u64>;

/// Calls `HashSet::default` of `bevy::platform::collections`: claims the new
/// set has no members.
#[verifier::external_body]
pub(crate) fn entity_hash_set_new() -> (r: HashSet<u64>)
    ensures
        entity_hash_set_contents(r) == Set::<u64>::empty(),
{
    HashSet::default()
}

/// Calls `Extend::extend` of `bevy::platform::collections::HashSet` with the
/// given entities: claims the members afterwards are the members before plus
/// those entities.
#[verifier::external_body]
pub(crate) fn entity_hash_set_extend(set: &mut HashSet<u64>, entities: &Vec<u64>)
    ensures
        entity_hash_set_contents(*final(set)) == entity_hash_set_contents(*old(set)).union(
            entities@.to_set(),
        ),
{
    set.extend(entities.iter().copied())
}

/// Calls `IntoIterator::into_iter` of `bevy::platform::collections::HashSet` and
/// collects the members into a `Vec`: claims each member comes out exactly
/// once. Their order is left unsaid: it follows the set's hashing.
#[verifier::external_body]
pub(crate) fn entity_hash_set_into_vec(set: HashSet<u64>) -> (r: Vec<u64>)
    ensures
        r@.no_duplicates(),
        r@.to_set() == entity_hash_set_contents(set),
{
    set.into_iter().collect()
}

} // verus!
