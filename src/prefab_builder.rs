use vstd::prelude::*;

use crate::cooking::{entity_image, name_copies, CookedPrefab};
use crate::ids::{new_uuid, ComponentTypeUuid, Entity, EntityUuid, PrefabUuid};
use crate::pairs::{find_key, keys_unique, pairs_view};
use crate::prefab::{ComponentOverride, Prefab, PrefabMeta, PrefabRef};
use crate::registration::{ComponentRegistry, DiffSingleResult};
use crate::transactions::{
    bytes_eq, outcome_of, pair_diffs, registry_types, type_diffs, value_in, value_of, TransactionEntityInfo,
};
use crate::world::{handles, World};

verus! {

/// Where an entity of a prefab being edited lives in the before world and the after world.
#[derive(Clone, Copy)]
pub struct EntityInfo {
    pub before_entity: Entity,
    pub after_entity: Entity,
}

impl EntityInfo {
    pub fn new(before_entity: Entity, after_entity: Entity) -> (r: Self)
        ensures
            r.before_entity == before_entity,
            r.after_entity == after_entity,
    {
        EntityInfo { before_entity, after_entity }
    }

    pub fn before_entity(&self) -> (r: Entity)
        ensures
            r == self.before_entity,
    {
        self.before_entity
    }

    pub fn after_entity(&self) -> (r: Entity)
        ensures
            r == self.after_entity,
    {
        self.after_entity
    }
}

/// Edits a cooked prefab and turns the edit into a new prefab that embeds it: new entities
/// become the new prefab's own, changed components become overrides.
pub struct PrefabBuilder {
    before_world: World,
    after_world: World,
    uuid_to_entities: Vec<(EntityUuid, EntityInfo)>,
    parent_prefab: PrefabUuid,
}

/// Why an edit cannot be expressed as a prefab over its parent.
#[derive(PartialEq, Eq, Structural, Clone, Copy, Debug)]
pub enum PrefabBuilderError {
    EntityDeleted,
    ComponentRemoved,
    ComponentAdded,
}

/// The builder's entities, seen as transaction entities present on both sides.
pub open spec fn as_tx(s: Seq<(EntityUuid, EntityInfo)>) -> Seq<(EntityUuid, TransactionEntityInfo)> {
    s.map_values(
        |p: (EntityUuid, EntityInfo)|
            (p.0, TransactionEntityInfo { before_entity: Some(p.1.before_entity), after_entity: Some(p.1.after_entity) }),
    )
}

/// The after-world entities that the before world does not hold, in world order.
pub open spec fn added_handles(hs: Seq<Entity>, bw: Map<Entity, Map<ComponentTypeUuid, Seq<u8>>>) -> Seq<Entity>
    decreases hs.len(),
{
    if hs.len() == 0 {
        Seq::empty()
    } else {
        let p = added_handles(hs.drop_last(), bw);
        if bw.contains_key(hs.last()) {
            p
        } else {
            p.push(hs.last())
        }
    }
}

/// The world made of copies of the given after-world entities, numbered from zero.
pub open spec fn added_world(aw: Map<Entity, Map<ComponentTypeUuid, Seq<u8>>>, added: Seq<Entity>) -> Map<Entity, Map<ComponentTypeUuid, Seq<u8>>>
    decreases added.len(),
{
    if added.len() == 0 {
        Map::empty()
    } else {
        added_world(aw, added.drop_last()).insert((added.len() - 1) as u64, aw[added.last()])
    }
}

/// The changed components, grouped by entity, of the entities with at least one.
pub open spec fn grouped(
    infos: Seq<(EntityUuid, TransactionEntityInfo)>,
    types: Seq<ComponentTypeUuid>,
    bw: Map<Entity, Map<ComponentTypeUuid, Seq<u8>>>,
    aw: Map<Entity, Map<ComponentTypeUuid, Seq<u8>>>,
) -> Seq<(EntityUuid, Seq<(EntityUuid, ComponentTypeUuid, Option<Seq<u8>>, Option<Seq<u8>>)>)>
    decreases infos.len(),
{
    if infos.len() == 0 {
        Seq::empty()
    } else {
        let p = grouped(infos.drop_last(), types, bw, aw);
        let td = type_diffs(infos.last().0, infos.last().1, types, bw, aw);
        if td.len() > 0 {
            p.push((infos.last().0, td))
        } else {
            p
        }
    }
}

/// The override text for a change: what `differ` made of the two values.
pub open spec fn text_fits<F: Fn(ComponentTypeUuid, Vec<u8>, Vec<u8>) -> String>(
    differ: F,
    t: ComponentTypeUuid,
    data: String,
    src: Option<Seq<u8>>,
    dst: Option<Seq<u8>>,
) -> bool {
    exists|x: Vec<u8>, y: Vec<u8>| x@ == src->Some_0 && y@ == dst->Some_0 && #[trigger] call_ensures(differ, (t, x, y), data)
}

/// Every change entry is a structural change.
pub open spec fn all_changes(pd: Seq<(EntityUuid, ComponentTypeUuid, Option<Seq<u8>>, Option<Seq<u8>>)>) -> bool {
    forall|k: int| 0 <= k < pd.len() ==> outcome_of((#[trigger] pd[k]).2, pd[k].3) == DiffSingleResult::Change
}

/// Some entry adds or removes a component.
pub open spec fn has_entry(pd: Seq<(EntityUuid, ComponentTypeUuid, Option<Seq<u8>>, Option<Seq<u8>>)>, o: DiffSingleResult) -> bool {
    exists|k: int| 0 <= k < pd.len() && outcome_of((#[trigger] pd[k]).2, pd[k].3) == o
}

proof fn lemma_added_from(hs: Seq<Entity>, bw: Map<Entity, Map<ComponentTypeUuid, Seq<u8>>>)
    ensures
        forall|x: int| 0 <= x < added_handles(hs, bw).len() ==> hs.contains(#[trigger] added_handles(hs, bw)[x]),
    decreases hs.len(),
{
    if hs.len() > 0 {
        lemma_added_from(hs.drop_last(), bw);
        let p = added_handles(hs.drop_last(), bw);
        assert forall|x: int| 0 <= x < added_handles(hs, bw).len() implies hs.contains(#[trigger] added_handles(hs, bw)[x]) by {
            if x < p.len() {
                assert(added_handles(hs, bw)[x] == p[x]);
                assert(hs.drop_last().contains(p[x]));
                let k = choose|k: int| 0 <= k < hs.drop_last().len() && hs.drop_last()[k] == p[x];
                assert(hs[k] == p[x]);
            } else {
                assert(hs[hs.len() - 1] == hs.last());
            }
        }
    }
}

proof fn lemma_type_diffs_prefix(
    u: EntityUuid,
    info: TransactionEntityInfo,
    types: Seq<ComponentTypeUuid>,
    j: int,
    bw: Map<Entity, Map<ComponentTypeUuid, Seq<u8>>>,
    aw: Map<Entity, Map<ComponentTypeUuid, Seq<u8>>>,
)
    requires
        0 <= j <= types.len(),
    ensures
        type_diffs(u, info, types.take(j), bw, aw).len() <= type_diffs(u, info, types, bw, aw).len(),
        forall|k: int| 0 <= k < type_diffs(u, info, types.take(j), bw, aw).len() ==> #[trigger] type_diffs(u, info, types.take(j), bw, aw)[k]
            == type_diffs(u, info, types, bw, aw)[k],
    decreases types.len() - j,
{
    if j < types.len() {
        lemma_type_diffs_prefix(u, info, types, j + 1, bw, aw);
        assert(types.take(j + 1).drop_last() =~= types.take(j));
        let a = type_diffs(u, info, types.take(j), bw, aw);
        let b = type_diffs(u, info, types.take(j + 1), bw, aw);
        assert(a.len() <= b.len() && forall|k: int| 0 <= k < a.len() ==> a[k] == b[k]);
        let full = type_diffs(u, info, types, bw, aw);
        assert forall|k: int| 0 <= k < a.len() implies #[trigger] a[k] == full[k] by {
            assert(a[k] == b[k]);
            assert(b[k] == full[k]);
        }
    } else {
        assert(types.take(j) =~= types);
    }
}

proof fn lemma_pair_diffs_prefix(
    infos: Seq<(EntityUuid, TransactionEntityInfo)>,
    i: int,
    types: Seq<ComponentTypeUuid>,
    bw: Map<Entity, Map<ComponentTypeUuid, Seq<u8>>>,
    aw: Map<Entity, Map<ComponentTypeUuid, Seq<u8>>>,
)
    requires
        0 <= i <= infos.len(),
    ensures
        pair_diffs(infos.take(i), types, bw, aw).len() <= pair_diffs(infos, types, bw, aw).len(),
        forall|k: int| 0 <= k < pair_diffs(infos.take(i), types, bw, aw).len() ==> #[trigger] pair_diffs(infos.take(i), types, bw, aw)[k]
            == pair_diffs(infos, types, bw, aw)[k],
    decreases infos.len() - i,
{
    if i < infos.len() {
        lemma_pair_diffs_prefix(infos, i + 1, types, bw, aw);
        assert(infos.take(i + 1).drop_last() =~= infos.take(i));
        let a = pair_diffs(infos.take(i), types, bw, aw);
        let b = pair_diffs(infos.take(i + 1), types, bw, aw);
        assert(a.len() <= b.len() && forall|k: int| 0 <= k < a.len() ==> a[k] == b[k]);
        let full = pair_diffs(infos, types, bw, aw);
        assert forall|k: int| 0 <= k < a.len() implies #[trigger] a[k] == full[k] by {
            assert(a[k] == b[k]);
            assert(b[k] == full[k]);
        }
    } else {
        assert(infos.take(i) =~= infos);
    }
}

impl PrefabBuilder {
    pub closed spec fn spec_before_world(&self) -> World {
        self.before_world
    }

    pub closed spec fn spec_after_world(&self) -> World {
        self.after_world
    }

    pub closed spec fn spec_entities(&self) -> Seq<(EntityUuid, EntityInfo)> {
        self.uuid_to_entities@
    }

    pub closed spec fn spec_parent(&self) -> PrefabUuid {
        self.parent_prefab
    }

    pub open spec fn wf(&self) -> bool {
        &&& self.spec_before_world().wf()
        &&& self.spec_after_world().wf()
        &&& keys_unique(self.spec_entities())
    }

    /// Starts an edit of a cooked prefab, identified as `prefab_uuid`: its world is copied
    /// into a before world and an after world, and each named entity is recorded with its
    /// two copies.
    pub fn new(prefab_uuid: PrefabUuid, prefab: CookedPrefab) -> (r: Self)
        requires
            prefab.world.wf(),
        ensures
            r.wf(),
            r.spec_parent() == prefab_uuid,
            r.spec_before_world()@ == prefab.world.clone_image(0),
            r.spec_after_world()@ == prefab.world.clone_image(0),
            ({
                let img = entity_image(prefab.entities@, prefab.world, 0);
                let m = pairs_view(r.spec_entities());
                &&& m.dom() == img.dom()
                &&& forall|u: EntityUuid| #[trigger] m.contains_key(u) ==> m[u].before_entity == img[u] && m[u].after_entity == img[u]
            }),
    {
        let n = prefab.world.len();
        let mut before_world = World::new();
        let before_mapping = before_world.clone_from(&prefab.world);
        let mut after_world = World::new();
        let _ = after_world.clone_from(&prefab.world);
        let mut named: Vec<(EntityUuid, Entity)> = Vec::new();
        name_copies(&prefab.entities, &prefab.world, &before_mapping, 0, &mut named);
        let mut uuid_to_entities: Vec<(EntityUuid, EntityInfo)> = Vec::new();
        let mut i: usize = 0;
        while i < named.len()
            invariant
                i <= named@.len(),
                keys_unique(named@),
                uuid_to_entities@.len() == i,
                forall|k: int| 0 <= k < i ==> (#[trigger] uuid_to_entities@[k]).0 == named@[k].0
                    && uuid_to_entities@[k].1.before_entity == named@[k].1 && uuid_to_entities@[k].1.after_entity == named@[k].1,
            decreases named@.len() - i,
        {
            let (u, h) = named[i];
            uuid_to_entities.push((u, EntityInfo::new(h, h)));
            i = i + 1;
        }
        proof {
            let s = uuid_to_entities@;
            let t = named@;
            assert(keys_unique(s)) by {
                assert forall|a: int, b: int| 0 <= a < s.len() && 0 <= b < s.len() && a != b implies #[trigger] s[a].0
                    != #[trigger] s[b].0 by {
                    assert(t[a].0 != t[b].0);
                }
            }
            assert forall|u: EntityUuid| #[trigger] pairs_view(s).contains_key(u) <==> pairs_view(t).contains_key(u) by {
                crate::pairs::lemma_pairs_view_dom(s, u);
                crate::pairs::lemma_pairs_view_dom(t, u);
                if exists|k: int| 0 <= k < s.len() && #[trigger] s[k].0 == u {
                    let k = choose|k: int| 0 <= k < s.len() && #[trigger] s[k].0 == u;
                    assert(t[k].0 == u);
                }
                if exists|k: int| 0 <= k < t.len() && #[trigger] t[k].0 == u {
                    let k = choose|k: int| 0 <= k < t.len() && #[trigger] t[k].0 == u;
                    assert(s[k].0 == u);
                }
            }
            assert(pairs_view(s).dom() =~= pairs_view(t).dom());
            assert forall|u: EntityUuid| #[trigger] pairs_view(s).contains_key(u) implies pairs_view(s)[u].before_entity
                == pairs_view(t)[u] && pairs_view(s)[u].after_entity == pairs_view(t)[u] by {
                crate::pairs::lemma_pairs_view_dom(s, u);
                let k = choose|k: int| 0 <= k < s.len() && #[trigger] s[k].0 == u;
                crate::pairs::lemma_pairs_view_entry(s, k);
                crate::pairs::lemma_pairs_view_entry(t, k);
            }
            assert(pairs_view(t) =~= Map::<EntityUuid, Entity>::empty().union_prefer_right(entity_image(prefab.entities@, prefab.world, 0)));
        }
        PrefabBuilder { before_world, after_world, uuid_to_entities, parent_prefab: prefab_uuid }
    }

    /// The after world, where the caller makes the edit.
    pub fn world(&self) -> (r: &World)
        ensures
            *r == self.spec_after_world(),
    {
        &self.after_world
    }

    pub fn world_mut(&mut self) -> (r: &mut World)
        ensures
            *r == old(self).spec_after_world(),
            final(self).spec_after_world() == *final(r),
            final(self).spec_before_world() == old(self).spec_before_world(),
            final(self).spec_entities() == old(self).spec_entities(),
            final(self).spec_parent() == old(self).spec_parent(),
    {
        &mut self.after_world
    }

    /// Where a named entity is in the after world.
    pub fn uuid_to_entity(&self, uuid: EntityUuid) -> (r: Option<Entity>)
        ensures
            ({
                let m = pairs_view(self.spec_entities());
                &&& !m.contains_key(uuid) ==> r.is_none()
                &&& m.contains_key(uuid) ==> r == Some(m[uuid].after_entity)
            }),
    {
        match find_key(&self.uuid_to_entities, uuid) {
            Some(i) => Some(self.uuid_to_entities[i].1.after_entity),
            None => None,
        }
    }

    /// The after-world entities the before world does not hold, in world order.
    pub fn added_entities(&self) -> (r: Vec<Entity>)
        requires
            self.wf(),
        ensures
            r@ == added_handles(handles(self.spec_after_world()), self.spec_before_world()@),
    {
        let hs = self.after_world.entities();
        assert(hs@ =~= handles(self.after_world));
        let mut out: Vec<Entity> = Vec::new();
        let mut k: usize = 0;
        while k < hs.len()
            invariant
                k <= hs@.len(),
                out@ == added_handles(hs@.take(k as int), self.before_world@),
            decreases hs@.len() - k,
        {
            proof {
                assert(hs@.take(k + 1).drop_last() =~= hs@.take(k as int));
                assert(hs@.take(k + 1).last() == hs@[k as int]);
            }
            if !self.before_world.contains(hs[k]) {
                out.push(hs[k]);
            }
            k = k + 1;
        }
        assert(hs@.take(k as int) =~= hs@);
        out
    }
}

/// Whether an entity of the before world is gone from the after world.
pub open spec fn entity_deleted(bw: Map<Entity, Map<ComponentTypeUuid, Seq<u8>>>, aw: Map<Entity, Map<ComponentTypeUuid, Seq<u8>>>) -> bool {
    exists|e: Entity| #[trigger] bw.contains_key(e) && !aw.contains_key(e)
}

/// The overrides recorded for the changed components, entity by entity.
pub open spec fn overrides_fit<F: Fn(ComponentTypeUuid, Vec<u8>, Vec<u8>) -> String>(
    differ: F,
    ov: Seq<(EntityUuid, Vec<ComponentOverride>)>,
    g: Seq<(EntityUuid, Seq<(EntityUuid, ComponentTypeUuid, Option<Seq<u8>>, Option<Seq<u8>>)>)>,
) -> bool {
    &&& ov.len() == g.len()
    &&& forall|k: int| 0 <= k < g.len() ==> {
        &&& (#[trigger] ov[k]).0 == g[k].0
        &&& ov[k].1@.len() == g[k].1.len()
        &&& forall|m: int| 0 <= m < g[k].1.len() ==> {
            &&& (#[trigger] ov[k].1@[m]).component_type == g[k].1[m].1
            &&& text_fits(differ, g[k].1[m].1, ov[k].1@[m].data, g[k].1[m].2, g[k].1[m].3)
        }
    }
}

/// What an edit turns into: the failure its before and after worlds call for, or the
/// prefab named `prefab_id` whose own entities are the added ones, named by `ids`, and whose
/// one reference, to the edited prefab, overrides the changed components with the text
/// `differ` makes of them.
pub open spec fn prefab_made<F: Fn(ComponentTypeUuid, Vec<u8>, Vec<u8>) -> String>(
    b: PrefabBuilder,
    reg: ComponentRegistry,
    prefab_id: PrefabUuid,
    ids: Seq<EntityUuid>,
    differ: F,
    res: Result<Prefab, PrefabBuilderError>,
) -> bool {
    let bw = b.spec_before_world()@;
    let aw = b.spec_after_world()@;
    let infos = as_tx(b.spec_entities());
    let types = registry_types(reg);
    let pd = pair_diffs(infos, types, bw, aw);
    let added = added_handles(handles(b.spec_after_world()), bw);
    &&& (res == Err::<Prefab, PrefabBuilderError>(PrefabBuilderError::EntityDeleted)) <==> entity_deleted(bw, aw)
    &&& !entity_deleted(bw, aw) ==> (res is Ok <==> all_changes(pd))
    &&& res == Err::<Prefab, PrefabBuilderError>(PrefabBuilderError::ComponentAdded) ==> has_entry(pd, DiffSingleResult::Add)
    &&& res == Err::<Prefab, PrefabBuilderError>(PrefabBuilderError::ComponentRemoved) ==> has_entry(pd, DiffSingleResult::Remove)
    &&& res matches Ok(p) ==> {
        &&& p.prefab_meta.id == prefab_id
        &&& p.world.wf()
        &&& p.world@ == added_world(aw, added)
        &&& p.prefab_meta.entities@ == Seq::new(added.len(), |j: int| (ids[j], j as u64))
        &&& p.prefab_meta.prefab_refs@.len() == 1
        &&& p.prefab_meta.prefab_refs@[0].0 == b.spec_parent()
        &&& overrides_fit(differ, p.prefab_meta.prefab_refs@[0].1.overrides@, grouped(infos, types, bw, aw))
    }
}

impl PrefabBuilder {
    /// Turns the edit into a prefab that embeds the edited one. Fails where an entity of the
    /// before world is gone, or a component was added to or removed from an entity of the
    /// before world. Otherwise the new prefab holds copies of the entities the edit added,
    /// named by `new_ids` in world order, and one reference to the edited prefab whose
    /// overrides are, entity by entity, the components whose bytes changed, each with the
    /// text that `differ` makes from its two values. None, where `new_ids` does not name
    /// each added entity with an identity of its own.
    pub fn create_prefab_with_ids<F: Fn(ComponentTypeUuid, Vec<u8>, Vec<u8>) -> String>(
        &self,
        registry: &ComponentRegistry,
        prefab_id: PrefabUuid,
        new_ids: &Vec<EntityUuid>,
        differ: &F,
    ) -> (r: Option<Result<Prefab, PrefabBuilderError>>)
        requires
            self.wf(),
            forall|a: ComponentTypeUuid, x: Vec<u8>, y: Vec<u8>| call_requires(*differ, (a, x, y)),
        ensures
            r.is_none() <==> !(new_ids@.len() == added_handles(handles(self.spec_after_world()), self.spec_before_world()@).len()
                && new_ids@.no_duplicates()),
            r matches Some(res) ==> prefab_made(*self, *registry, prefab_id, new_ids@, *differ, res),
    {
        let added = self.added_entities();
        if new_ids.len() != added.len() {
            return None;
        }
        let mut j: usize = 0;
        while j < new_ids.len()
            invariant
                j <= new_ids@.len(),
                forall|a: int, b: int| 0 <= a < j && 0 <= b < j && a != b ==> new_ids@[a] != new_ids@[b],
            decreases new_ids@.len() - j,
        {
            let mut k: usize = 0;
            while k < j
                invariant
                    j < new_ids@.len(),
                    k <= j,
                    forall|a: int| 0 <= a < k ==> new_ids@[a] != new_ids@[j as int],
                decreases j - k,
            {
                if new_ids[k] == new_ids[j] {
                    proof {
                        assert(!new_ids@.no_duplicates()) by {
                            assert(new_ids@[k as int] == new_ids@[j as int]);
                        }
                    }
                    return None;
                }
                k = k + 1;
            }
            j = j + 1;
        }
        proof {
            assert(new_ids@.no_duplicates()) by {
                assert forall|a: int, b: int| 0 <= a < new_ids@.len() && 0 <= b < new_ids@.len() && a != b implies new_ids@[a]
                    != new_ids@[b] by {
                }
            }
        }
        let ghost bw = self.before_world@;
        let ghost aw = self.after_world@;
        let before_handles = self.before_world.entities();
        let mut k: usize = 0;
        while k < before_handles.len()
            invariant
                k <= before_handles@.len(),
                forall|e: Entity| before_handles@.contains(e) <==> bw.contains_key(e),
                bw == self.before_world@,
                aw == self.after_world@,
                new_ids@.len() == added@.len(),
                new_ids@.no_duplicates(),
                added@ == added_handles(handles(self.after_world), bw),
                forall|x: int| 0 <= x < k ==> aw.contains_key(#[trigger] before_handles@[x]),
            decreases before_handles@.len() - k,
        {
            if !self.after_world.contains(before_handles[k]) {
                proof {
                    let e = before_handles@[k as int];
                    assert(before_handles@.contains(e));
                    assert(bw.contains_key(e) && !aw.contains_key(e));
                    assert(entity_deleted(bw, aw));
                }
                return Some(Err(PrefabBuilderError::EntityDeleted));
            }
            k = k + 1;
        }
        proof {
            assert forall|e: Entity| #[trigger] bw.contains_key(e) implies aw.contains_key(e) by {
                assert(before_handles@.contains(e));
                let x = choose|x: int| 0 <= x < before_handles@.len() && before_handles@[x] == e;
                assert(aw.contains_key(before_handles@[x]));
            }
            assert(!entity_deleted(bw, aw));
        }
        let ghost infos = as_tx(self.uuid_to_entities@);
        let ghost types = registry_types(*registry);
        let regs = registry.iter_component_registrations();
        let ents = &self.uuid_to_entities;
        let mut overrides: Vec<(EntityUuid, Vec<ComponentOverride>)> = Vec::new();
        let mut i: usize = 0;
        while i < ents.len()
            invariant
                forall|a: ComponentTypeUuid, x: Vec<u8>, y: Vec<u8>| call_requires(*differ, (a, x, y)),
                regs@ == registry@,
                types == registry_types(*registry),
                infos == as_tx(ents@),
                ents@ == self.uuid_to_entities@,
                bw == self.before_world@,
                aw == self.after_world@,
                !entity_deleted(bw, aw),
                new_ids@.len() == added@.len(),
                new_ids@.no_duplicates(),
                added@ == added_handles(handles(self.after_world), bw),
                i <= ents@.len(),
                all_changes(pair_diffs(infos.take(i as int), types, bw, aw)),
                overrides_fit(*differ, overrides@, grouped(infos.take(i as int), types, bw, aw)),
            decreases ents@.len() - i,
        {
            let u = ents[i].0;
            let info = ents[i].1;
            let ghost tinfo = infos[i as int];
            let ghost base = pair_diffs(infos.take(i as int), types, bw, aw);
            proof {
                assert(tinfo.0 == u);
                assert(tinfo.1.before_entity == Some(info.before_entity));
                assert(tinfo.1.after_entity == Some(info.after_entity));
                assert(infos.take(i + 1).drop_last() =~= infos.take(i as int));
                assert(infos.take(i + 1).last() == tinfo);
                lemma_pair_diffs_prefix(infos, i + 1, types, bw, aw);
            }
            let mut list: Vec<ComponentOverride> = Vec::new();
            let mut j: usize = 0;
            while j < regs.len()
                invariant
                    forall|a: ComponentTypeUuid, x: Vec<u8>, y: Vec<u8>| call_requires(*differ, (a, x, y)),
                    regs@ == registry@,
                    types == registry_types(*registry),
                    bw == self.before_world@,
                    aw == self.after_world@,
                    i < ents@.len(),
                    !entity_deleted(bw, aw),
                    new_ids@.len() == added@.len(),
                    new_ids@.no_duplicates(),
                    added@ == added_handles(handles(self.after_world), bw),
                    infos == as_tx(ents@),
                    ents@ == self.uuid_to_entities@,
                ents@ == self.uuid_to_entities@,
                    tinfo == infos[i as int],
                    tinfo.0 == u,
                    tinfo.1.before_entity == Some(info.before_entity),
                    tinfo.1.after_entity == Some(info.after_entity),
                    base == pair_diffs(infos.take(i as int), types, bw, aw),
                    pair_diffs(infos.take(i + 1), types, bw, aw) == base + type_diffs(u, tinfo.1, types, bw, aw),
                    all_changes(base),
                    j <= regs@.len(),
                    all_changes(type_diffs(u, tinfo.1, types.take(j as int), bw, aw)),
                    list@.len() == type_diffs(u, tinfo.1, types.take(j as int), bw, aw).len(),
                    forall|m: int| 0 <= m < list@.len() ==> {
                        let td = type_diffs(u, tinfo.1, types.take(j as int), bw, aw);
                        &&& (#[trigger] list@[m]).component_type == td[m].1
                        &&& text_fits(*differ, td[m].1, list@[m].data, td[m].2, td[m].3)
                    },
                decreases regs@.len() - j,
            {
                let t = *regs[j].uuid();
                let ghost prev_td = type_diffs(u, tinfo.1, types.take(j as int), bw, aw);
                proof {
                    assert(types.take(j + 1).drop_last() =~= types.take(j as int));
                    assert(types.take(j + 1).last() == t);
                    lemma_type_diffs_prefix(u, tinfo.1, types, j + 1, bw, aw);
                }
                let b = value_of(&self.before_world, Some(info.before_entity), t);
                let a = value_of(&self.after_world, Some(info.after_entity), t);
                let ghost gb = value_in(bw, Some(info.before_entity), t);
                let ghost ga = value_in(aw, Some(info.after_entity), t);
                let ghost td1 = type_diffs(u, tinfo.1, types.take(j + 1), bw, aw);
                let ghost pd = pair_diffs(infos, types, bw, aw);
                match (b, a) {
                    (Some(x), Some(y)) => {
                        if !bytes_eq(x, y) {
                            let xc = x.clone();
                            let yc = y.clone();
                            let ghost gx = xc;
                            let ghost gy = yc;
                            let text = differ(t, xc, yc);
                            proof {
                                assert(gx@ == gb->Some_0 && gy@ == ga->Some_0 && call_ensures(*differ, (t, gx, gy), text));
                                assert(text_fits(*differ, t, text, gb, ga));
                            }
                            let ghost old_list = list@;
                            list.push(ComponentOverride { component_type: t, data: text });
                            proof {
                                assert(td1 == prev_td.push((u, t, gb, ga)));
                                assert forall|m: int| 0 <= m < list@.len() implies {
                                    &&& (#[trigger] list@[m]).component_type == td1[m].1
                                    &&& text_fits(*differ, td1[m].1, list@[m].data, td1[m].2, td1[m].3)
                                } by {
                                    if m < old_list.len() {
                                        assert(list@[m] == old_list[m]);
                                    }
                                }
                            }
                        }
                    },
                    (None, Some(_)) => {
                        proof {
                            assert(td1 == prev_td.push((u, t, gb, ga)));
                            let idx = (base.len() + prev_td.len()) as int;
                            lemma_type_diffs_prefix(u, tinfo.1, types, j + 1, bw, aw);
                            assert(td1[prev_td.len() as int] == (u, t, gb, ga));
                            assert(type_diffs(u, tinfo.1, types, bw, aw)[prev_td.len() as int] == (u, t, gb, ga));
                            assert(pair_diffs(infos.take(i + 1), types, bw, aw)[idx] == (u, t, gb, ga));
                            lemma_pair_diffs_prefix(infos, i + 1, types, bw, aw);
                            assert(pair_diffs(infos.take(i + 1), types, bw, aw)[idx] == pd[idx]);
                            assert(pd[idx] == (u, t, gb, ga));
                            assert(outcome_of(pd[idx].2, pd[idx].3) == DiffSingleResult::Add);
                            assert(has_entry(pd, DiffSingleResult::Add));
                            assert(!all_changes(pd));
                        }
                        return Some(Err(PrefabBuilderError::ComponentAdded));
                    },
                    (Some(_), None) => {
                        proof {
                            assert(td1 == prev_td.push((u, t, gb, ga)));
                            let idx = (base.len() + prev_td.len()) as int;
                            lemma_type_diffs_prefix(u, tinfo.1, types, j + 1, bw, aw);
                            assert(td1[prev_td.len() as int] == (u, t, gb, ga));
                            assert(type_diffs(u, tinfo.1, types, bw, aw)[prev_td.len() as int] == (u, t, gb, ga));
                            assert(pair_diffs(infos.take(i + 1), types, bw, aw)[idx] == (u, t, gb, ga));
                            lemma_pair_diffs_prefix(infos, i + 1, types, bw, aw);
                            assert(pair_diffs(infos.take(i + 1), types, bw, aw)[idx] == pd[idx]);
                            assert(pd[idx] == (u, t, gb, ga));
                            assert(outcome_of(pd[idx].2, pd[idx].3) == DiffSingleResult::Remove);
                            assert(has_entry(pd, DiffSingleResult::Remove));
                            assert(!all_changes(pd));
                        }
                        return Some(Err(PrefabBuilderError::ComponentRemoved));
                    },
                    (None, None) => {},
                }
                j = j + 1;
            }
            proof {
                assert(types.take(j as int) =~= types);
            }
            let ghost old_ov = overrides@;
            let ghost td = type_diffs(u, tinfo.1, types, bw, aw);
            if list.len() > 0 {
                overrides.push((u, list));
            }
            proof {
                let g1 = grouped(infos.take(i + 1), types, bw, aw);
                let g0 = grouped(infos.take(i as int), types, bw, aw);
                assert(td.len() > 0 ==> g1 == g0.push((u, td)));
                assert(td.len() == 0 ==> g1 == g0);
                assert forall|k: int| 0 <= k < g1.len() implies {
                    &&& (#[trigger] overrides@[k]).0 == g1[k].0
                    &&& overrides@[k].1@.len() == g1[k].1.len()
                    &&& forall|m: int| 0 <= m < g1[k].1.len() ==> {
                        &&& (#[trigger] overrides@[k].1@[m]).component_type == g1[k].1[m].1
                        &&& text_fits(*differ, g1[k].1[m].1, overrides@[k].1@[m].data, g1[k].1[m].2, g1[k].1[m].3)
                    }
                } by {
                    if k < g0.len() {
                        assert(overrides@[k] == old_ov[k]);
                    }
                }
                let pd1 = pair_diffs(infos.take(i + 1), types, bw, aw);
                assert forall|k: int| 0 <= k < pd1.len() implies outcome_of((#[trigger] pd1[k]).2, pd1[k].3) == DiffSingleResult::Change by {
                    if k >= base.len() {
                        assert(pd1[k] == td[k - base.len()]);
                    }
                }
            }
            i = i + 1;
        }
        proof {
            assert(infos.take(i as int) =~= infos);
        }
        proof {
            lemma_added_from(handles(self.after_world), bw);
            assert forall|x: int| 0 <= x < added@.len() implies aw.contains_key(#[trigger] added@[x]) by {
                let hs = handles(self.after_world);
                assert(hs.contains(added@[x]));
                let k = choose|k: int| 0 <= k < hs.len() && hs[k] == added@[x];
                self.after_world.lemma_positions(added@[x]);
                assert(self.after_world.handle_at(k) == added@[x]);
            }
        }
        let mut world = World::new();
        let mut entities: Vec<(EntityUuid, Entity)> = Vec::new();
        let mut j: usize = 0;
        while j < added.len()
            invariant
                j <= added@.len(),
                added@.len() == new_ids@.len(),
                added@ == added_handles(handles(self.after_world), bw),
                aw == self.after_world@,
                forall|x: int| 0 <= x < added@.len() ==> aw.contains_key(#[trigger] added@[x]),
                world.wf(),
                world.spec_next() == j,
                world@ == added_world(aw, added@.take(j as int)),
                entities@ == Seq::new(j as nat, |x: int| (new_ids@[x], x as u64)),
            decreases added@.len() - j,
        {
            proof {
                assert(added@.take(j + 1).drop_last() =~= added@.take(j as int));
                assert(added@.take(j + 1).last() == added@[j as int]);
            }
            let h = world.clone_from_single(&self.after_world, added[j]).unwrap();
            entities.push((new_ids[j], h));
            proof {
                assert(entities@ =~= Seq::new((j + 1) as nat, |x: int| (new_ids@[x], x as u64)));
            }
            j = j + 1;
        }
        proof {
            assert(added@.take(j as int) =~= added@);
        }
        let mut prefab_refs: Vec<(PrefabUuid, PrefabRef)> = Vec::new();
        prefab_refs.push((self.parent_prefab, PrefabRef { overrides }));
        Some(Ok(Prefab { world, prefab_meta: PrefabMeta { id: prefab_id, prefab_refs, entities } }))
    }
}

impl PrefabBuilder {
    /// Turns the edit into a prefab (see `create_prefab_with_ids`), with a freshly drawn
    /// identity for each added entity, and for the prefab one other than its parent's. None
    /// only where two drawn entity identities collide, so never when nothing was added.
    pub fn create_prefab<F: Fn(ComponentTypeUuid, Vec<u8>, Vec<u8>) -> String>(
        &self,
        registry: &ComponentRegistry,
        differ: &F,
    ) -> (r: Option<Result<Prefab, PrefabBuilderError>>)
        requires
            self.wf(),
            forall|a: ComponentTypeUuid, x: Vec<u8>, y: Vec<u8>| call_requires(*differ, (a, x, y)),
        ensures
            added_handles(handles(self.spec_after_world()), self.spec_before_world()@).len() == 0 ==> r.is_some(),
            r matches Some(res) ==> exists|id: PrefabUuid, ids: Seq<EntityUuid>|
                id != self.spec_parent() && #[trigger] prefab_made(*self, *registry, id, ids, *differ, res),
    {
        let n = self.added_entities().len();
        let mut ids: Vec<EntityUuid> = Vec::new();
        let mut i: usize = 0;
        while i < n
            invariant
                i <= n,
                ids@.len() == i,
            decreases n - i,
        {
            ids.push(new_uuid());
            i = i + 1;
        }
        proof {
            if n == 0 {
                assert(ids@.no_duplicates());
            }
        }
        let drawn = new_uuid();
        let id = if drawn == self.parent_prefab { drawn ^ 1 } else { drawn };
        proof {
            if drawn == self.parent_prefab {
                assert(drawn ^ 1 != drawn) by (bit_vector);
            }
        }
        self.create_prefab_with_ids(registry, id, &ids, differ)
    }
}

} // verus!
