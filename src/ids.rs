use vstd::prelude::*;

verus! {

/// Persistent identity of a prefab document.
pub type PrefabUuid = u128;

/// Persistent identity of an entity, the only entity name that survives serialization.
pub type EntityUuid = u128;

/// Persistent identity of a component type, fixed when the type is registered.
pub type ComponentTypeUuid = u128;

/// Runtime key of a component type inside the entity store.
pub type ComponentTypeId = u64;

/// Ephemeral handle of an entity inside one world.
pub type Entity = u64;

} // verus!

verus! {

/// Relies on uuid::Uuid::new_v4 (random version-4 identifier) and Uuid::as_u128 (its
/// sixteen bytes read big-endian). Nothing is promised of the value.
#[verifier::external_body]
pub(crate) fn new_uuid() -> (r: u128) {
    uuid::Uuid::new_v4().as_u128()
}

} // verus!
