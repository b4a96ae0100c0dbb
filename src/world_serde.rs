use vstd::prelude::*;

use crate::ids::{new_uuid, ComponentTypeId, ComponentTypeUuid, Entity, EntityUuid};
use crate::pairs::{find_key, keys_unique, pairs_view, set_key};
use crate::registration::ComponentRegistry;

verus! {

/// The identity an association list of entities gives `e`, the last entry winning.
pub open spec fn id_of(s: Seq<(Entity, EntityUuid)>, e: Entity) -> Option<EntityUuid>
    decreases s.len(),
{
    if s.len() == 0 {
        None
    } else if s.last().0 == e {
        Some(s.last().1)
    } else {
        id_of(s.drop_last(), e)
    }
}

fn find_entity(s: &Vec<(Entity, EntityUuid)>, e: Entity) -> (r: Option<EntityUuid>)
    ensures
        r == id_of(s@, e),
{
    let mut i: usize = s.len();
    assert(s@.take(i as int) =~= s@);
    while i > 0
        invariant
            i <= s@.len(),
            id_of(s@, e) == id_of(s@.take(i as int), e),
        decreases i,
    {
        proof {
            assert(s@.take(i as int).drop_last() =~= s@.take(i - 1));
            assert(s@.take(i as int).last() == s@[i - 1]);
        }
        if s[i - 1].0 == e {
            return Some(s[i - 1].1);
        }
        i = i - 1;
    }
    None
}

/// The per-emission naming of entities met while writing component values: an entity the
/// prefab names keeps its identity; any other gets a fresh one, kept for the rest of the
/// emission so that repeated references agree.
pub struct CustomSerializer {
    entity_map: Vec<(Entity, EntityUuid)>,
}

impl CustomSerializer {
    pub closed spec fn view(&self) -> Seq<(Entity, EntityUuid)> {
        self.entity_map@
    }

    /// Starts from the prefab's naming, given as (entity, identity) pairs.
    pub fn new(entity_map: Vec<(Entity, EntityUuid)>) -> (r: Self)
        ensures
            r@ == entity_map@,
    {
        CustomSerializer { entity_map }
    }

    /// The identity written for an entity: its recorded one, else `fresh`, which is
    /// recorded.
    pub fn serialize_entity_with_id(&mut self, entity: Entity, fresh: EntityUuid) -> (r: EntityUuid)
        ensures
            id_of(old(self)@, entity) matches Some(u) ==> r == u && final(self)@ == old(self)@,
            id_of(old(self)@, entity) is None ==> r == fresh && final(self)@ == old(self)@.push((entity, fresh)),
            id_of(final(self)@, entity) == Some(r),
    {
        match find_entity(&self.entity_map, entity) {
            Some(u) => u,
            None => {
                self.entity_map.push((entity, fresh));
                proof {
                    assert(self.entity_map@.last() == (entity, fresh));
                }
                fresh
            },
        }
    }

    /// The identity written for an entity, drawing a fresh one where none is recorded.
    pub fn serialize_entity(&mut self, entity: Entity) -> (r: EntityUuid)
        ensures
            id_of(old(self)@, entity) matches Some(u) ==> r == u && final(self)@ == old(self)@,
            id_of(old(self)@, entity) is None ==> final(self)@ == old(self)@.push((entity, r)),
            id_of(final(self)@, entity) == Some(r),
    {
        let fresh = new_uuid();
        self.serialize_entity_with_id(entity, fresh)
    }

    /// The stable identity of a component type, given its runtime key; none for a type the
    /// registry does not know.
    pub fn map_id(&self, registry: &ComponentRegistry, type_id: ComponentTypeId) -> (r: Option<ComponentTypeUuid>)
        ensures
            r.is_none() <==> !registry.has_type_id(type_id),
            r matches Some(u) ==> exists|i: int| 0 <= i < registry@.len() && registry@[i].spec_component_type_id() == type_id
                && #[trigger] registry@[i].spec_uuid() == u,
    {
        match registry.by_type_id(type_id) {
            Some(reg) => Some(*reg.uuid()),
            None => None,
        }
    }
}

/// The per-read naming of entities met while reading component values: an identity seen
/// before gives the same entity; a new one gets the next entity handle.
pub struct CustomDeserializer {
    entity_map: Vec<(EntityUuid, Entity)>,
    next: u64,
}

impl CustomDeserializer {
    pub closed spec fn view(&self) -> Map<EntityUuid, Entity> {
        pairs_view(self.entity_map@)
    }

    pub closed spec fn spec_next(&self) -> u64 {
        self.next
    }

    pub closed spec fn wf(&self) -> bool {
        keys_unique(self.entity_map@)
    }

    /// Starts with no identity seen, handing out handles from `first`.
    pub fn new(first: Entity) -> (r: Self)
        ensures
            r.wf(),
            r@ == Map::<EntityUuid, Entity>::empty(),
            r.spec_next() == first,
    {
        CustomDeserializer { entity_map: Vec::new(), next: first }
    }

    /// The entity an identity stands for: the one seen before, else the next handle, which
    /// is recorded.
    pub fn deserialize_entity(&mut self, entity_uuid: EntityUuid) -> (r: Entity)
        requires
            old(self).wf(),
            old(self).spec_next() < u64::MAX,
        ensures
            final(self).wf(),
            old(self)@.contains_key(entity_uuid) ==> r == old(self)@[entity_uuid] && final(self)@ == old(self)@
                && final(self).spec_next() == old(self).spec_next(),
            !old(self)@.contains_key(entity_uuid) ==> r == old(self).spec_next() && final(self)@ == old(self)@.insert(entity_uuid, r)
                && final(self).spec_next() == old(self).spec_next() + 1,
    {
        match find_key(&self.entity_map, entity_uuid) {
            Some(i) => self.entity_map[i].1,
            None => {
                let e = self.next;
                set_key(&mut self.entity_map, entity_uuid, e);
                self.next = e + 1;
                e
            },
        }
    }

    /// The runtime key of a component type, given its stable identity; none for a type the
    /// registry does not know.
    pub fn unmap_id(&self, registry: &ComponentRegistry, type_id: ComponentTypeUuid) -> (r: Option<ComponentTypeId>)
        ensures
            r.is_none() <==> !registry.has_uuid(type_id),
            r matches Some(k) ==> exists|i: int| 0 <= i < registry@.len() && registry@[i].spec_uuid() == type_id
                && #[trigger] registry@[i].spec_component_type_id() == k,
    {
        match registry.by_uuid(type_id) {
            Some(reg) => Some(reg.component_type_id()),
            None => None,
        }
    }
}

} // verus!
