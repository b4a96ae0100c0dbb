use vstd::prelude::*;

use crate::ids::{ComponentTypeUuid, Entity};
use crate::pairs::{find_key, keys_unique, pairs_view, set_key};
use crate::registration::ComponentRegistry;

verus! {

/// The layout decision of a plain copy: each source component type is kept as it is;
/// a type the registry does not know cannot be copied.
pub struct CopyClone<'a> {
    registry: &'a ComponentRegistry,
}

impl<'a> CopyClone<'a> {
    pub closed spec fn spec_registry(&self) -> ComponentRegistry {
        *self.registry
    }

    pub fn new(registry: &'a ComponentRegistry) -> (r: Self)
        ensures
            r.spec_registry() == *registry,
    {
        CopyClone { registry }
    }

    /// Copies never ask for a new archetype.
    pub fn prefers_new_archetype() -> (r: bool)
        ensures
            !r,
    {
        false
    }

    /// The target layout for a source layout: the same types. None where a type is not
    /// registered.
    pub fn convert_layout(&self, source_layout: &Vec<ComponentTypeUuid>) -> (r: Option<Vec<ComponentTypeUuid>>)
        ensures
            r.is_some() <==> forall|k: int| 0 <= k < source_layout@.len() ==> self.spec_registry().has_uuid(#[trigger] source_layout@[k]),
            r matches Some(v) ==> v@ == source_layout@,
    {
        let mut out: Vec<ComponentTypeUuid> = Vec::new();
        let mut i: usize = 0;
        while i < source_layout.len()
            invariant
                i <= source_layout@.len(),
                out@ == source_layout@.take(i as int),
                forall|k: int| 0 <= k < i ==> self.registry.has_uuid(#[trigger] source_layout@[k]),
            decreases source_layout@.len() - i,
        {
            if !self.registry.contains_uuid(source_layout[i]) {
                return None;
            }
            out.push(source_layout[i]);
            proof {
                assert(out@ =~= source_layout@.take(i + 1));
            }
            i = i + 1;
        }
        proof {
            assert(source_layout@.take(i as int) =~= source_layout@);
        }
        Some(out)
    }
}

/// Mappings from a source component type to the type it becomes when cloned.
pub struct SpawnCloneHandlerSet {
    handlers: Vec<(ComponentTypeUuid, ComponentTypeUuid)>,
}

impl SpawnCloneHandlerSet {
    /// The target type of each mapped source type.
    pub closed spec fn view(&self) -> Map<ComponentTypeUuid, ComponentTypeUuid> {
        pairs_view(self.handlers@)
    }

    pub closed spec fn wf(&self) -> bool {
        keys_unique(self.handlers@)
    }

    pub fn new() -> (r: Self)
        ensures
            r.wf(),
            r@ == Map::<ComponentTypeUuid, ComponentTypeUuid>::empty(),
    {
        SpawnCloneHandlerSet { handlers: Vec::new() }
    }

    /// Maps a source type to a target type, replacing an earlier mapping of it.
    pub fn add_mapping(&mut self, from_type: ComponentTypeUuid, into_type: ComponentTypeUuid)
        requires
            old(self).wf(),
        ensures
            final(self).wf(),
            final(self)@ == old(self)@.insert(from_type, into_type),
    {
        set_key(&mut self.handlers, from_type, into_type);
    }

    pub fn target_of(&self, from_type: ComponentTypeUuid) -> (r: Option<ComponentTypeUuid>)
        ensures
            r.is_none() <==> !self@.contains_key(from_type),
            r matches Some(t) ==> t == self@[from_type],
    {
        match find_key(&self.handlers, from_type) {
            Some(i) => Some(self.handlers[i].1),
            None => None,
        }
    }
}

/// The decisions of a clone that maps component types and entity handles: a mapped type
/// becomes its target type, an unmapped registered type is kept; an entity with a handle
/// in the entity map takes the mapped handle, any other a fresh one.
pub struct SpawnClone<'a, 'b, 'c> {
    handler_set: &'a SpawnCloneHandlerSet,
    registry: &'b ComponentRegistry,
    entity_map: &'c Vec<(Entity, Entity)>,
}

/// The handle an association list of handles gives `e`, the last entry winning.
pub open spec fn mapped_handle(s: Seq<(Entity, Entity)>, e: Entity) -> Option<Entity>
    decreases s.len(),
{
    if s.len() == 0 {
        None
    } else if s.last().0 == e {
        Some(s.last().1)
    } else {
        mapped_handle(s.drop_last(), e)
    }
}

/// The target type of a source type: its mapping, else itself when registered.
pub open spec fn target_type(handlers: Map<ComponentTypeUuid, ComponentTypeUuid>, reg: ComponentRegistry, t: ComponentTypeUuid) -> Option<ComponentTypeUuid> {
    if handlers.contains_key(t) {
        Some(handlers[t])
    } else if reg.has_uuid(t) {
        Some(t)
    } else {
        None
    }
}

impl<'a, 'b, 'c> SpawnClone<'a, 'b, 'c> {
    pub closed spec fn spec_handlers(&self) -> Map<ComponentTypeUuid, ComponentTypeUuid> {
        self.handler_set@
    }

    pub closed spec fn spec_registry(&self) -> ComponentRegistry {
        *self.registry
    }

    pub closed spec fn spec_entity_map(&self) -> Seq<(Entity, Entity)> {
        self.entity_map@
    }

    pub fn new(
        handler_set: &'a SpawnCloneHandlerSet,
        registry: &'b ComponentRegistry,
        entity_map: &'c Vec<(Entity, Entity)>,
    ) -> (r: Self)
        ensures
            r.spec_handlers() == handler_set@,
            r.spec_registry() == *registry,
            r.spec_entity_map() == entity_map@,
    {
        SpawnClone { handler_set, registry, entity_map }
    }

    pub fn prefers_new_archetype() -> (r: bool)
        ensures
            !r,
    {
        false
    }

    /// The handle a cloned entity takes: the mapped one if the entity map names the
    /// source handle, else `fresh`.
    pub fn assign_id(&self, existing: Entity, fresh: Entity) -> (r: Entity)
        ensures
            r == match mapped_handle(self.spec_entity_map(), existing) {
                Some(m) => m,
                None => fresh,
            },
    {
        let s = self.entity_map;
        let mut i: usize = s.len();
        assert(s@.take(i as int) =~= s@);
        while i > 0
            invariant
                s@ == self.spec_entity_map(),
                i <= s@.len(),
                mapped_handle(s@, existing) == mapped_handle(s@.take(i as int), existing),
            decreases i,
        {
            proof {
                assert(s@.take(i as int).drop_last() =~= s@.take(i - 1));
                assert(s@.take(i as int).last() == s@[i - 1]);
            }
            if s[i - 1].0 == existing {
                return s[i - 1].1;
            }
            i = i - 1;
        }
        fresh
    }

    /// The target layout for a source layout, type by type (see `target_type`). None where
    /// a type is neither mapped nor registered.
    pub fn convert_layout(&self, source_layout: &Vec<ComponentTypeUuid>) -> (r: Option<Vec<ComponentTypeUuid>>)
        ensures
            r.is_some() <==> forall|k: int| 0 <= k < source_layout@.len() ==> target_type(self.spec_handlers(), self.spec_registry(), #[trigger] source_layout@[k]) is Some,
            r matches Some(v) ==> v@.len() == source_layout@.len() && forall|k: int| 0 <= k < v@.len() ==> Some(#[trigger] v@[k])
                == target_type(self.spec_handlers(), self.spec_registry(), source_layout@[k]),
    {
        let mut out: Vec<ComponentTypeUuid> = Vec::new();
        let mut i: usize = 0;
        while i < source_layout.len()
            invariant
                i <= source_layout@.len(),
                out@.len() == i,
                forall|k: int| 0 <= k < i ==> Some(#[trigger] out@[k]) == target_type(self.spec_handlers(), self.spec_registry(), source_layout@[k]),
            decreases source_layout@.len() - i,
        {
            let t = source_layout[i];
            match self.handler_set.target_of(t) {
                Some(into) => {
                    out.push(into);
                },
                None => {
                    if !self.registry.contains_uuid(t) {
                        proof {
                            assert(target_type(self.spec_handlers(), self.spec_registry(), source_layout@[i as int]) is None);
                        }
                        return None;
                    }
                    out.push(t);
                },
            }
            i = i + 1;
        }
        proof {
            assert forall|k: int| 0 <= k < source_layout@.len() implies target_type(self.spec_handlers(), self.spec_registry(), #[trigger] source_layout@[k]) is Some by {
                assert(Some(out@[k]) == target_type(self.spec_handlers(), self.spec_registry(), source_layout@[k]));
            }
        }
        Some(out)
    }
}

} // verus!
