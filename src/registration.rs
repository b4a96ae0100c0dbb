use vstd::prelude::*;

use crate::ids::{ComponentTypeId, ComponentTypeUuid};

verus! {

/// What comparing one component type of an entity across two worlds found.
#[derive(PartialEq, Eq, Structural, Clone, Copy, Debug)]
pub enum DiffSingleResult {
    NoChange,
    Change,
    Add,
    Remove,
}

/// The outcome of a single-component diff, from whether the component is present on the
/// source side, on the destination side, and (when on both) whether the values differ.
pub open spec fn diff_outcome(src_present: bool, dst_present: bool, differs: bool) -> DiffSingleResult {
    if src_present && dst_present {
        if differs { DiffSingleResult::Change } else { DiffSingleResult::NoChange }
    } else if dst_present {
        DiffSingleResult::Add
    } else if src_present {
        DiffSingleResult::Remove
    } else {
        DiffSingleResult::NoChange
    }
}

/// Classifies a single-component diff: a structural change when present on both sides and
/// the values differ, an addition or a removal when present on one side only.
pub fn diff_single_result(src_present: bool, dst_present: bool, differs: bool) -> (r: DiffSingleResult)
    ensures
        r == diff_outcome(src_present, dst_present, differs),
{
    if src_present && dst_present {
        if differs {
            DiffSingleResult::Change
        } else {
            DiffSingleResult::NoChange
        }
    } else if dst_present {
        DiffSingleResult::Add
    } else if src_present {
        DiffSingleResult::Remove
    } else {
        DiffSingleResult::NoChange
    }
}

/// The descriptor of one registered component type: its stable identity, its runtime key
/// and a diagnostic name.
pub struct ComponentRegistration {
    component_type_id: ComponentTypeId,
    uuid: ComponentTypeUuid,
    name: String,
}

impl Clone for ComponentRegistration {
    fn clone(&self) -> (r: Self)
        ensures
            r.spec_component_type_id() == self.spec_component_type_id(),
            r.spec_uuid() == self.spec_uuid(),
            r.spec_name() == self.spec_name(),
    {
        ComponentRegistration {
            component_type_id: self.component_type_id,
            uuid: self.uuid,
            name: self.name.clone(),
        }
    }
}

impl ComponentRegistration {
    pub closed spec fn spec_uuid(&self) -> ComponentTypeUuid {
        self.uuid
    }

    pub closed spec fn spec_component_type_id(&self) -> ComponentTypeId {
        self.component_type_id
    }

    pub closed spec fn spec_name(&self) -> Seq<char> {
        self.name@
    }

    pub fn new(component_type_id: ComponentTypeId, uuid: ComponentTypeUuid, name: String) -> (r: Self)
        ensures
            r.spec_component_type_id() == component_type_id,
            r.spec_uuid() == uuid,
            r.spec_name() == name@,
    {
        ComponentRegistration { component_type_id, uuid, name }
    }

    pub fn component_type_id(&self) -> (r: ComponentTypeId)
        ensures
            r == self.spec_component_type_id(),
    {
        self.component_type_id
    }

    pub fn uuid(&self) -> (r: &ComponentTypeUuid)
        ensures
            *r == self.spec_uuid(),
    {
        &self.uuid
    }

    pub fn name(&self) -> (r: &str)
        ensures
            r@ == self.spec_name(),
    {
        self.name.as_str()
    }
}

/// The catalog of registered component types, addressable by stable identity and by runtime
/// key. No two descriptors share either key.
pub struct ComponentRegistry {
    registrations: Vec<ComponentRegistration>,
}

impl ComponentRegistry {
    pub closed spec fn view(&self) -> Seq<ComponentRegistration> {
        self.registrations@
    }

    pub open spec fn wf(&self) -> bool {
        forall|i: int, j: int|
            0 <= i < self@.len() && 0 <= j < self@.len() && i != j ==> {
                &&& #[trigger] self@[i].spec_uuid() != #[trigger] self@[j].spec_uuid()
                &&& self@[i].spec_component_type_id() != self@[j].spec_component_type_id()
            }
    }

    /// Whether a type with this stable identity is registered.
    pub open spec fn has_uuid(&self, uuid: ComponentTypeUuid) -> bool {
        exists|i: int| 0 <= i < self@.len() && #[trigger] self@[i].spec_uuid() == uuid
    }

    /// Whether a type with this runtime key is registered.
    pub open spec fn has_type_id(&self, id: ComponentTypeId) -> bool {
        exists|i: int| 0 <= i < self@.len() && #[trigger] self@[i].spec_component_type_id() == id
    }

    /// The set of registered stable identities.
    pub open spec fn uuids(&self) -> Set<ComponentTypeUuid> {
        Set::new(|u: ComponentTypeUuid| self.has_uuid(u))
    }

    pub fn new() -> (r: Self)
        ensures
            r.wf(),
            r@.len() == 0,
    {
        ComponentRegistry { registrations: Vec::new() }
    }

    pub fn len(&self) -> (r: usize)
        ensures
            r == self@.len(),
    {
        self.registrations.len()
    }

    /// Position of the descriptor with this stable identity.
    pub fn position_of_uuid(&self, uuid: ComponentTypeUuid) -> (r: Option<usize>)
        ensures
            r.is_none() <==> !self.has_uuid(uuid),
            r matches Some(i) ==> i < self@.len() && self@[i as int].spec_uuid() == uuid,
    {
        let mut i: usize = 0;
        while i < self.registrations.len()
            invariant
                i <= self@.len(),
                forall|k: int| 0 <= k < i ==> #[trigger] self@[k].spec_uuid() != uuid,
            decreases self@.len() - i,
        {
            if self.registrations[i].uuid == uuid {
                assert(self@[i as int].spec_uuid() == uuid);
                return Some(i);
            }
            i = i + 1;
        }
        None
    }

    /// Position of the descriptor with this runtime key.
    pub fn position_of_type_id(&self, id: ComponentTypeId) -> (r: Option<usize>)
        ensures
            r.is_none() <==> !self.has_type_id(id),
            r matches Some(i) ==> i < self@.len() && self@[i as int].spec_component_type_id() == id,
    {
        let mut i: usize = 0;
        while i < self.registrations.len()
            invariant
                i <= self@.len(),
                forall|k: int| 0 <= k < i ==> #[trigger] self@[k].spec_component_type_id() != id,
            decreases self@.len() - i,
        {
            if self.registrations[i].component_type_id == id {
                assert(self@[i as int].spec_component_type_id() == id);
                return Some(i);
            }
            i = i + 1;
        }
        None
    }

    /// Adds a descriptor. Refused, leaving the registry unchanged, when either of its keys
    /// is taken already.
    pub fn register(&mut self, registration: ComponentRegistration) -> (r: bool)
        requires
            old(self).wf(),
        ensures
            final(self).wf(),
            r == (!old(self).has_uuid(registration.spec_uuid()) && !old(self).has_type_id(
                registration.spec_component_type_id(),
            )),
            r ==> final(self)@ == old(self)@.push(registration),
            !r ==> final(self)@ == old(self)@,
    {
        let a = self.position_of_uuid(registration.uuid);
        let b = self.position_of_type_id(registration.component_type_id);
        if a.is_some() || b.is_some() {
            return false;
        }
        self.registrations.push(registration);
        assert forall|i: int, j: int|
            0 <= i < self@.len() && 0 <= j < self@.len() && i != j implies {
                &&& #[trigger] self@[i].spec_uuid() != #[trigger] self@[j].spec_uuid()
                &&& self@[i].spec_component_type_id() != self@[j].spec_component_type_id()
            } by {
            let n = old(self)@.len() as int;
            if i == n {
                assert(self@[j] == old(self)@[j]);
            } else if j == n {
                assert(self@[i] == old(self)@[i]);
            }
        }
        true
    }

    /// The descriptor registered under a stable identity.
    pub fn by_uuid(&self, uuid: ComponentTypeUuid) -> (r: Option<&ComponentRegistration>)
        ensures
            r.is_none() <==> !self.has_uuid(uuid),
            r matches Some(d) ==> d.spec_uuid() == uuid && self@.contains(*d),
    {
        match self.position_of_uuid(uuid) {
            Some(i) => Some(&self.registrations[i]),
            None => None,
        }
    }

    /// The descriptor registered under a runtime key.
    pub fn by_type_id(&self, id: ComponentTypeId) -> (r: Option<&ComponentRegistration>)
        ensures
            r.is_none() <==> !self.has_type_id(id),
            r matches Some(d) ==> d.spec_component_type_id() == id && self@.contains(*d),
    {
        match self.position_of_type_id(id) {
            Some(i) => Some(&self.registrations[i]),
            None => None,
        }
    }

    pub fn contains_uuid(&self, uuid: ComponentTypeUuid) -> (r: bool)
        ensures
            r == self.has_uuid(uuid),
    {
        self.position_of_uuid(uuid).is_some()
    }

    /// All descriptors, in registration order.
    pub fn iter_component_registrations(&self) -> (r: &Vec<ComponentRegistration>)
        ensures
            r@ == self@,
    {
        &self.registrations
    }
}

} // verus!
