use vstd::prelude::*;

use crate::ids::{new_uuid, ComponentTypeUuid, Entity, EntityUuid, PrefabUuid};
use crate::pairs::{keys_unique, pairs_view};
use crate::world::World;

verus! {

/// Override data for one component of an entity of a referenced prefab: the component
/// type and a structural patch held as text in the native format.
pub struct ComponentOverride {
    pub component_type: ComponentTypeUuid,
    pub data: String,
}

/// A reference from one prefab to another, with the overrides it applies to entities of
/// the referenced one, by entity.
pub struct PrefabRef {
    pub overrides: Vec<(EntityUuid, Vec<ComponentOverride>)>,
}

/// A prefab's identity, the prefabs it embeds and the naming of its own entities.
pub struct PrefabMeta {
    pub id: PrefabUuid,
    pub prefab_refs: Vec<(PrefabUuid, PrefabRef)>,
    pub entities: Vec<(EntityUuid, Entity)>,
}

/// An uncooked prefab: its own entities in a world, and its metadata.
pub struct Prefab {
    pub world: World,
    pub prefab_meta: PrefabMeta,
}

/// No value occurs twice.
pub open spec fn values_unique<K, V>(s: Seq<(K, V)>) -> bool {
    forall|i: int, j: int| 0 <= i < s.len() && 0 <= j < s.len() && i != j ==> #[trigger] s[i].1 != #[trigger] s[j].1
}

impl PrefabRef {
    pub open spec fn wf(&self) -> bool {
        keys_unique(self.overrides@)
    }
}

impl PrefabMeta {
    /// The prefab's entities by persistent identity.
    pub open spec fn entity_map(&self) -> Map<EntityUuid, Entity> {
        pairs_view(self.entities@)
    }

    /// The prefabs this one embeds, with their overrides, by prefab identity.
    pub open spec fn ref_map(&self) -> Map<PrefabUuid, PrefabRef> {
        pairs_view(self.prefab_refs@)
    }

    pub open spec fn refs_wf(&self) -> bool {
        &&& keys_unique(self.prefab_refs@)
        &&& forall|k: PrefabUuid| #[trigger] self.ref_map().contains_key(k) ==> self.ref_map()[k].wf()
    }
}

impl Prefab {
    /// The entity naming is a bijection between the keyed identities and the entities of
    /// the world.
    pub open spec fn entities_bijective(&self) -> bool {
        let s = self.prefab_meta.entities@;
        &&& keys_unique(s)
        &&& values_unique(s)
        &&& forall|i: int| 0 <= i < s.len() ==> self.world@.contains_key(#[trigger] s[i].1)
        &&& forall|e: Entity| #[trigger] self.world@.contains_key(e) ==> exists|i: int| 0 <= i < s.len() && #[trigger] s[i].1 == e
    }

    pub open spec fn wf(&self) -> bool {
        &&& self.world.wf()
        &&& self.entities_bijective()
        &&& self.prefab_meta.refs_wf()
    }

    /// A prefab with no entities and no references.
    pub fn empty(id: PrefabUuid) -> (r: Self)
        ensures
            r.wf(),
            r.prefab_meta.id == id,
            r.world@ == Map::<Entity, Map<ComponentTypeUuid, Seq<u8>>>::empty(),
            r.world.spec_next() == 0,
            r.prefab_meta.entities@.len() == 0,
            r.prefab_meta.prefab_refs@.len() == 0,
    {
        Prefab {
            world: World::new(),
            prefab_meta: PrefabMeta { id, prefab_refs: Vec::new(), entities: Vec::new() },
        }
    }

    /// A prefab over a world whose entities are named, in the world's order, by `ids`.
    /// Fails where the ids are not one per entity or not distinct.
    pub fn from_parts(id: PrefabUuid, world: World, ids: Vec<EntityUuid>) -> (r: Option<Self>)
        requires
            world.wf(),
        ensures
            r.is_some() <==> (ids@.len() == world.spec_len() && ids@.no_duplicates()),
            r matches Some(p) ==> {
                &&& p.wf()
                &&& p.prefab_meta.id == id
                &&& p.world@ == world@
                &&& p.prefab_meta.prefab_refs@.len() == 0
                &&& p.prefab_meta.entities@.len() == ids@.len()
                &&& forall|k: int| 0 <= k < ids@.len() ==> #[trigger] p.prefab_meta.entities@[k] == (ids@[k], world.handle_at(k))
            },
    {
        let handles = world.entities();
        if ids.len() != handles.len() {
            return None;
        }
        let mut entities: Vec<(EntityUuid, Entity)> = Vec::new();
        let mut i: usize = 0;
        while i < ids.len()
            invariant
                i <= ids@.len(),
                ids@.len() == handles@.len(),
                entities@.len() == i,
                forall|k: int| 0 <= k < i ==> #[trigger] entities@[k] == (ids@[k], handles@[k]),
                forall|a: int, b: int| 0 <= a < i && 0 <= b < i && a != b ==> #[trigger] ids@[a] != #[trigger] ids@[b],
            decreases ids@.len() - i,
        {
            let mut j: usize = 0;
            while j < i
                invariant
                    i < ids@.len(),
                    j <= i,
                    forall|k: int| 0 <= k < j ==> ids@[k] != ids@[i as int],
                decreases i - j,
            {
                if ids[j] == ids[i] {
                    proof {
                        assert(!ids@.no_duplicates()) by {
                            assert(ids@[j as int] == ids@[i as int]);
                        }
                    }
                    return None;
                }
                j = j + 1;
            }
            entities.push((ids[i], handles[i]));
            i = i + 1;
        }
        let p = Prefab { world, prefab_meta: PrefabMeta { id, prefab_refs: Vec::new(), entities } };
        proof {
            let s = p.prefab_meta.entities@;
            assert(keys_unique(s)) by {
                assert forall|a: int, b: int| 0 <= a < s.len() && 0 <= b < s.len() && a != b implies #[trigger] s[a].0
                    != #[trigger] s[b].0 by {
                    assert(ids@[a] != ids@[b]);
                }
            }
            assert(values_unique(s)) by {
                assert forall|a: int, b: int| 0 <= a < s.len() && 0 <= b < s.len() && a != b implies #[trigger] s[a].1
                    != #[trigger] s[b].1 by {
                    assert(handles@[a] != handles@[b]);
                }
            }
            assert forall|e: Entity| #[trigger] p.world@.contains_key(e) implies exists|k: int| 0 <= k < s.len() && #[trigger] s[k].1 == e by {
                assert(handles@.contains(e));
                let k = choose|k: int| 0 <= k < handles@.len() && handles@[k] == e;
                assert(s[k].1 == e);
            }
            assert forall|k: int| 0 <= k < s.len() implies p.world@.contains_key(#[trigger] s[k].1) by {
                assert(handles@.contains(handles@[k]));
            }
        }
        Some(p)
    }

    /// A prefab over a world, each of whose entities gets a freshly drawn identity, as
    /// does the prefab. Fails only where two drawn entity identities collide.
    pub fn new(world: World) -> (r: Option<Self>)
        requires
            world.wf(),
        ensures
            world.spec_len() == 0 ==> r.is_some(),
            r matches Some(p) ==> {
                &&& p.wf()
                &&& p.world@ == world@
                &&& p.prefab_meta.prefab_refs@.len() == 0
                &&& p.prefab_meta.entities@.len() == world.spec_len()
                &&& forall|k: int| 0 <= k < world.spec_len() ==> (#[trigger] p.prefab_meta.entities@[k]).1 == world.handle_at(k)
            },
    {
        let n = world.len();
        let mut ids: Vec<EntityUuid> = Vec::new();
        let mut i: usize = 0;
        while i < n
            invariant
                i <= n,
                ids@.len() == i,
            decreases n - i,
        {
            ids.push(new_uuid());
            i = i + 1;
        }
        proof {
            if n == 0 {
                assert(ids@.no_duplicates());
            }
        }
        let id = new_uuid();
        Prefab::from_parts(id, world, ids)
    }

    pub fn prefab_id(&self) -> (r: PrefabUuid)
        ensures
            r == self.prefab_meta.id,
    {
        self.prefab_meta.id
    }
}

} // verus!
