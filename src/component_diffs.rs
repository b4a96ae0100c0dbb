use vstd::prelude::*;

use crate::cooking::{entity_image, name_copies, CookedPrefab};
use crate::ids::{ComponentTypeUuid, Entity, EntityUuid};
use crate::pairs::{find_key, keys_unique, pairs_view, set_key, take_key};
use crate::prefab::{Prefab, PrefabMeta};
use crate::registration::{ComponentRegistry, DiffSingleResult};
use crate::world::World;

verus! {

/// Whether an entity comes into being or goes away.
#[derive(PartialEq, Eq, Structural, Clone, Copy, Debug)]
pub enum EntityDiffOp {
    Add,
    Remove,
}

/// An entity-level change, by entity identity.
#[derive(Clone, Copy, Debug)]
pub struct EntityDiff {
    entity_uuid: EntityUuid,
    op: EntityDiffOp,
}

impl EntityDiff {
    pub closed spec fn spec_entity_uuid(&self) -> EntityUuid {
        self.entity_uuid
    }

    pub closed spec fn spec_op(&self) -> EntityDiffOp {
        self.op
    }

    pub fn new(entity_uuid: EntityUuid, op: EntityDiffOp) -> (r: Self)
        ensures
            r.spec_entity_uuid() == entity_uuid,
            r.spec_op() == op,
    {
        EntityDiff { entity_uuid, op }
    }

    pub fn entity_uuid(&self) -> (r: &EntityUuid)
        ensures
            *r == self.spec_entity_uuid(),
    {
        &self.entity_uuid
    }

    pub fn op(&self) -> (r: &EntityDiffOp)
        ensures
            *r == self.spec_op(),
    {
        &self.op
    }
}

/// A component-level change: a structural patch, a whole new value, or a removal.
pub enum ComponentDiffOp {
    Change(Vec<u8>),
    Add(Vec<u8>),
    Remove,
}

impl ComponentDiffOp {
    /// The change that a single-component diff outcome and its serialized payload stand
    /// for; none where nothing changed.
    pub fn from_diff_single_result(diff_single_result: DiffSingleResult, data: Vec<u8>) -> (r: Option<ComponentDiffOp>)
        ensures
            diff_single_result == DiffSingleResult::NoChange <==> r.is_none(),
            diff_single_result == DiffSingleResult::Change ==> (r matches Some(ComponentDiffOp::Change(d)) && d@ == data@),
            diff_single_result == DiffSingleResult::Add ==> (r matches Some(ComponentDiffOp::Add(d)) && d@ == data@),
            diff_single_result == DiffSingleResult::Remove ==> r matches Some(ComponentDiffOp::Remove),
    {
        match diff_single_result {
            DiffSingleResult::Add => Some(ComponentDiffOp::Add(data)),
            DiffSingleResult::Change => Some(ComponentDiffOp::Change(data)),
            DiffSingleResult::Remove => Some(ComponentDiffOp::Remove),
            DiffSingleResult::NoChange => None,
        }
    }
}

/// A component-level change of one component type of an entity, by entity identity.
pub struct ComponentDiff {
    entity_uuid: EntityUuid,
    component_type: ComponentTypeUuid,
    op: ComponentDiffOp,
}

impl ComponentDiff {
    pub closed spec fn spec_entity_uuid(&self) -> EntityUuid {
        self.entity_uuid
    }

    pub closed spec fn spec_component_type(&self) -> ComponentTypeUuid {
        self.component_type
    }

    pub closed spec fn spec_op(&self) -> ComponentDiffOp {
        self.op
    }

    pub fn new(entity_uuid: EntityUuid, component_type: ComponentTypeUuid, op: ComponentDiffOp) -> (r: Self)
        ensures
            r.spec_entity_uuid() == entity_uuid,
            r.spec_component_type() == component_type,
            r.spec_op() == op,
    {
        ComponentDiff { entity_uuid, component_type, op }
    }

    pub fn new_from_diff_single_result(
        entity_uuid: EntityUuid,
        component_type: ComponentTypeUuid,
        diff_single_result: DiffSingleResult,
        data: Vec<u8>,
    ) -> (r: Option<Self>)
        ensures
            diff_single_result == DiffSingleResult::NoChange <==> r.is_none(),
            r matches Some(d) ==> {
                &&& d.spec_entity_uuid() == entity_uuid
                &&& d.spec_component_type() == component_type
                &&& diff_single_result == DiffSingleResult::Change ==> (d.spec_op() matches ComponentDiffOp::Change(x) && x@ == data@)
                &&& diff_single_result == DiffSingleResult::Add ==> (d.spec_op() matches ComponentDiffOp::Add(x) && x@ == data@)
                &&& diff_single_result == DiffSingleResult::Remove ==> d.spec_op() matches ComponentDiffOp::Remove
            },
    {
        match ComponentDiffOp::from_diff_single_result(diff_single_result, data) {
            Some(op) => Some(ComponentDiff::new(entity_uuid, component_type, op)),
            None => None,
        }
    }

    pub fn entity_uuid(&self) -> (r: &EntityUuid)
        ensures
            *r == self.spec_entity_uuid(),
    {
        &self.entity_uuid
    }

    pub fn component_type(&self) -> (r: &ComponentTypeUuid)
        ensures
            *r == self.spec_component_type(),
    {
        &self.component_type
    }

    pub fn op(&self) -> (r: &ComponentDiffOp)
        ensures
            *r == self.spec_op(),
    {
        &self.op
    }
}

/// A change to a world: entity additions and removals, then component changes, each in
/// order.
pub struct WorldDiff {
    entity_diffs: Vec<EntityDiff>,
    component_diffs: Vec<ComponentDiff>,
}

impl WorldDiff {
    pub closed spec fn spec_entity_diffs(&self) -> Seq<EntityDiff> {
        self.entity_diffs@
    }

    pub closed spec fn spec_component_diffs(&self) -> Seq<ComponentDiff> {
        self.component_diffs@
    }

    pub fn new(entity_diffs: Vec<EntityDiff>, component_diffs: Vec<ComponentDiff>) -> (r: WorldDiff)
        ensures
            r.spec_entity_diffs() == entity_diffs@,
            r.spec_component_diffs() == component_diffs@,
    {
        WorldDiff { entity_diffs, component_diffs }
    }

    pub fn has_changes(&self) -> (r: bool)
        ensures
            r == (self.spec_entity_diffs().len() > 0 || self.spec_component_diffs().len() > 0),
    {
        self.entity_diffs.len() > 0 || self.component_diffs.len() > 0
    }

    pub fn entity_diffs(&self) -> (r: &Vec<EntityDiff>)
        ensures
            r@ == self.spec_entity_diffs(),
    {
        &self.entity_diffs
    }

    pub fn component_diffs(&self) -> (r: &Vec<ComponentDiff>)
        ensures
            r@ == self.spec_component_diffs(),
    {
        &self.component_diffs
    }
}

/// Why a diff could not be applied to a prefab.
#[derive(PartialEq, Eq, Structural, Clone, Copy, Debug)]
pub enum ApplyDiffToPrefabError {
    /// The prefab references other prefabs; it must be cooked first.
    PrefabHasOverrides,
}

/// A structural patch to apply to a component once the rest of a diff is applied.
pub struct PendingChange {
    pub entity: Entity,
    pub component_type: ComponentTypeUuid,
    pub data: Vec<u8>,
}

/// The state a diff is applied to: world contents, next handle, entities by identity, and
/// the structural patches still to apply.
pub type DiffState = (Map<Entity, Map<ComponentTypeUuid, Seq<u8>>>, int, Map<EntityUuid, Entity>, Seq<(Entity, ComponentTypeUuid, Seq<u8>)>);

/// Entity additions and removals, in order: an added entity gets the next handle; removing
/// an identity that names no entity does nothing.
pub open spec fn apply_entity_ops(st: DiffState, ops: Seq<EntityDiff>) -> DiffState
    decreases ops.len(),
{
    if ops.len() == 0 {
        st
    } else {
        let s = apply_entity_ops(st, ops.drop_last());
        let d = ops.last();
        let u = d.spec_entity_uuid();
        match d.spec_op() {
            EntityDiffOp::Add => (s.0.insert(s.1 as u64, Map::empty()), s.1 + 1, s.2.insert(u, s.1 as u64), s.3),
            EntityDiffOp::Remove => if s.2.contains_key(u) {
                (s.0.remove(s.2[u]), s.1, s.2.remove(u), s.3)
            } else {
                s
            },
        }
    }
}

/// The patches set aside, less those of one component.
pub open spec fn without_patches(
    s: Seq<(Entity, ComponentTypeUuid, Seq<u8>)>,
    e: Entity,
    t: ComponentTypeUuid,
) -> Seq<(Entity, ComponentTypeUuid, Seq<u8>)>
    decreases s.len(),
{
    if s.len() == 0 {
        Seq::empty()
    } else {
        let p = without_patches(s.drop_last(), e, t);
        if s.last().0 == e && s.last().1 == t {
            p
        } else {
            p.push(s.last())
        }
    }
}

/// Component changes, in order. A change of an unknown identity or an unregistered type
/// does nothing; an addition replaces the value; a structural patch is set aside, and an
/// addition or removal of the same component afterwards drops the patches set aside for
/// it, whose effect that later change overrides.
pub open spec fn apply_component_ops(st: DiffState, ops: Seq<ComponentDiff>, reg: ComponentRegistry) -> DiffState
    decreases ops.len(),
{
    if ops.len() == 0 {
        st
    } else {
        let s = apply_component_ops(st, ops.drop_last(), reg);
        let d = ops.last();
        let u = d.spec_entity_uuid();
        let t = d.spec_component_type();
        if s.2.contains_key(u) && reg.has_uuid(t) {
            let e = s.2[u];
            match d.spec_op() {
                ComponentDiffOp::Change(bytes) => (s.0, s.1, s.2, s.3.push((e, t, bytes@))),
                ComponentDiffOp::Add(bytes) => if s.0.contains_key(e) {
                    (s.0.insert(e, s.0[e].insert(t, bytes@)), s.1, s.2, without_patches(s.3, e, t))
                } else {
                    s
                },
                ComponentDiffOp::Remove => if s.0.contains_key(e) {
                    (s.0.insert(e, s.0[e].remove(t)), s.1, s.2, without_patches(s.3, e, t))
                } else {
                    s
                },
            }
        } else {
            s
        }
    }
}

/// What applying a diff to a world, with its entities by identity, leads to.
pub open spec fn apply_diff_spec(
    world: World,
    ents: Seq<(EntityUuid, Entity)>,
    diff: WorldDiff,
    reg: ComponentRegistry,
) -> DiffState {
    let st0: DiffState = (world.clone_image(0), world.spec_len() as int, entity_image(ents, world, 0), Seq::empty());
    apply_component_ops(apply_entity_ops(st0, diff.spec_entity_diffs()), diff.spec_component_diffs(), reg)
}

/// The patches set aside, as plain tuples.
pub open spec fn pending_view(s: Seq<PendingChange>) -> Seq<(Entity, ComponentTypeUuid, Seq<u8>)> {
    s.map_values(|p: PendingChange| (p.entity, p.component_type, p.data@))
}

/// The count of entity additions among the first `k` entity changes.
pub open spec fn adds_before(ops: Seq<EntityDiff>, k: int) -> int
    decreases k,
{
    if k <= 0 {
        0
    } else {
        adds_before(ops, k - 1) + if ops[k - 1].spec_op() == EntityDiffOp::Add { 1int } else { 0int }
    }
}

proof fn lemma_adds_before_bound(ops: Seq<EntityDiff>, k: int)
    requires
        0 <= k,
    ensures
        0 <= adds_before(ops, k) <= k,
    decreases k,
{
    if k > 0 {
        lemma_adds_before_bound(ops, k - 1);
    }
}

/// The patches set aside, less those of one component.
fn drop_patches(v: &Vec<PendingChange>, e: Entity, t: ComponentTypeUuid) -> (r: Vec<PendingChange>)
    ensures
        pending_view(r@) == without_patches(pending_view(v@), e, t),
{
    let mut out: Vec<PendingChange> = Vec::new();
    let mut i: usize = 0;
    while i < v.len()
        invariant
            i <= v@.len(),
            pending_view(out@) == without_patches(pending_view(v@.take(i as int)), e, t),
        decreases v@.len() - i,
    {
        proof {
            assert(pending_view(v@.take(i + 1)).drop_last() =~= pending_view(v@.take(i as int)));
            assert(pending_view(v@.take(i + 1)).last() == (v@[i as int].entity, v@[i as int].component_type, v@[i as int].data@));
        }
        if !(v[i].entity == e && v[i].component_type == t) {
            let ghost before = out@;
            out.push(PendingChange { entity: v[i].entity, component_type: v[i].component_type, data: v[i].data.clone() });
            proof {
                assert(pending_view(out@) =~= pending_view(before).push((v@[i as int].entity, v@[i as int].component_type, v@[i as int].data@)));
            }
        }
        i = i + 1;
    }
    proof {
        assert(v@.take(i as int) =~= v@);
    }
    out
}

/// Applies a diff to a copy of a world. The world is copied, its entities keep their
/// identities, then entity changes and component changes are applied in order (see
/// `apply_diff_spec`). Structural patches come back, in order, for the caller to apply
/// with the component type's codec; a patch that a later addition or removal of the same
/// component overrides is dropped, so applying the returned patches afterwards, in order,
/// gives what applying every change in recorded order gives.
pub fn apply_diff(
    world: &World,
    uuid_to_entity: &Vec<(EntityUuid, Entity)>,
    diff: &WorldDiff,
    registry: &ComponentRegistry,
) -> (r: (World, Vec<(EntityUuid, Entity)>, Vec<PendingChange>))
    requires
        world.wf(),
        world.spec_len() + diff.spec_entity_diffs().len() < u64::MAX,
    ensures
        ({
            let st = apply_diff_spec(*world, uuid_to_entity@, *diff, *registry);
            &&& r.0.wf()
            &&& r.0@ == st.0
            &&& r.0.spec_next() == st.1
            &&& keys_unique(r.1@)
            &&& pairs_view(r.1@) == st.2
            &&& pending_view(r.2@) == st.3
        }),
{
    let mut new_world = World::new();
    let mapping = new_world.clone_from(world);
    let mut ents: Vec<(EntityUuid, Entity)> = Vec::new();
    name_copies(uuid_to_entity, world, &mapping, 0, &mut ents);
    let mut pending: Vec<PendingChange> = Vec::new();
    let ghost st0: DiffState = (world.clone_image(0), world.spec_len() as int, entity_image(uuid_to_entity@, *world, 0), Seq::empty());
    proof {
        assert(new_world@ =~= world.clone_image(0));
        assert(pairs_view(ents@) =~= entity_image(uuid_to_entity@, *world, 0));
        assert(pending_view(pending@) =~= Seq::empty());
    }
    let eds = &diff.entity_diffs;
    let mut i: usize = 0;
    while i < eds.len()
        invariant
            eds@ == diff.spec_entity_diffs(),
            world.spec_len() + eds@.len() < u64::MAX,
            i <= eds@.len(),
            new_world.wf(),
            keys_unique(ents@),
            new_world.spec_next() == world.spec_len() + adds_before(eds@, i as int),
            (new_world@, new_world.spec_next() as int, pairs_view(ents@), pending_view(pending@)) == apply_entity_ops(st0, eds@.take(i as int)),
        decreases eds@.len() - i,
    {
        proof {
            assert(eds@.take(i + 1).drop_last() =~= eds@.take(i as int));
            assert(eds@.take(i + 1).last() == eds@[i as int]);
            lemma_adds_before_bound(eds@, i as int);
        }
        let u = eds[i].entity_uuid;
        match eds[i].op {
            EntityDiffOp::Add => {
                let h = new_world.spawn();
                set_key(&mut ents, u, h);
            },
            EntityDiffOp::Remove => {
                match take_key(&mut ents, u) {
                    Some(h) => {
                        new_world.despawn(h);
                    },
                    None => {
                        proof {
                            assert(pairs_view(ents@).remove(u) =~= pairs_view(ents@));
                        }
                    },
                }
            },
        }
        i = i + 1;
    }
    proof {
        assert(eds@.take(i as int) =~= eds@);
    }
    let ghost st1 = apply_entity_ops(st0, eds@);
    let cds = &diff.component_diffs;
    let mut i: usize = 0;
    while i < cds.len()
        invariant
            cds@ == diff.spec_component_diffs(),
            i <= cds@.len(),
            new_world.wf(),
            keys_unique(ents@),
            (new_world@, new_world.spec_next() as int, pairs_view(ents@), pending_view(pending@)) == apply_component_ops(st1, cds@.take(i as int), *registry),
        decreases cds@.len() - i,
    {
        proof {
            assert(cds@.take(i + 1).drop_last() =~= cds@.take(i as int));
            assert(cds@.take(i + 1).last() == cds@[i as int]);
        }
        let d = &cds[i];
        match find_key(&ents, d.entity_uuid) {
            None => {},
            Some(x) => {
                if registry.contains_uuid(d.component_type) {
                    let e = ents[x].1;
                    match &d.op {
                        ComponentDiffOp::Change(bytes) => {
                            let ghost before = pending@;
                            pending.push(PendingChange { entity: e, component_type: d.component_type, data: bytes.clone() });
                            proof {
                                assert(pending_view(pending@) =~= pending_view(before).push((e, d.component_type, bytes@)));
                            }
                        },
                        ComponentDiffOp::Add(bytes) => {
                            if new_world.contains(e) {
                                new_world.add_component(e, d.component_type, bytes.clone());
                                pending = drop_patches(&pending, e, d.component_type);
                            }
                        },
                        ComponentDiffOp::Remove => {
                            if new_world.contains(e) {
                                new_world.remove_component(e, d.component_type);
                                pending = drop_patches(&pending, e, d.component_type);
                            }
                        },
                    }
                }
            },
        }
        i = i + 1;
    }
    proof {
        assert(cds@.take(i as int) =~= cds@);
    }
    (new_world, ents, pending)
}

/// Applies a diff to a prefab that references no other prefab (see `apply_diff`).
pub fn apply_diff_to_prefab(
    prefab: &Prefab,
    diff: &WorldDiff,
    registry: &ComponentRegistry,
) -> (r: Result<(Prefab, Vec<PendingChange>), ApplyDiffToPrefabError>)
    requires
        prefab.world.wf(),
        prefab.world.spec_len() + diff.spec_entity_diffs().len() < u64::MAX,
    ensures
        r.is_err() <==> prefab.prefab_meta.prefab_refs@.len() > 0,
        r.is_err() ==> r == Err::<(Prefab, Vec<PendingChange>), ApplyDiffToPrefabError>(ApplyDiffToPrefabError::PrefabHasOverrides),
        r matches Ok((p, pending)) ==> {
            let st = apply_diff_spec(prefab.world, prefab.prefab_meta.entities@, *diff, *registry);
            &&& p.world.wf()
            &&& p.world@ == st.0
            &&& keys_unique(p.prefab_meta.entities@)
            &&& p.prefab_meta.entity_map() == st.2
            &&& p.prefab_meta.id == prefab.prefab_meta.id
            &&& p.prefab_meta.prefab_refs@.len() == 0
            &&& pending_view(pending@) == st.3
        },
{
    if prefab.prefab_meta.prefab_refs.len() > 0 {
        return Err(ApplyDiffToPrefabError::PrefabHasOverrides);
    }
    let (world, entities, pending) = apply_diff(&prefab.world, &prefab.prefab_meta.entities, diff, registry);
    let prefab_meta = PrefabMeta { id: prefab.prefab_meta.id, prefab_refs: Vec::new(), entities };
    Ok((Prefab { world, prefab_meta }, pending))
}

/// Applies a diff to a cooked prefab (see `apply_diff`).
pub fn apply_diff_to_cooked_prefab(
    cooked_prefab: &CookedPrefab,
    diff: &WorldDiff,
    registry: &ComponentRegistry,
) -> (r: (CookedPrefab, Vec<PendingChange>))
    requires
        cooked_prefab.world.wf(),
        cooked_prefab.world.spec_len() + diff.spec_entity_diffs().len() < u64::MAX,
    ensures
        ({
            let st = apply_diff_spec(cooked_prefab.world, cooked_prefab.entities@, *diff, *registry);
            &&& r.0.world.wf()
            &&& r.0.world@ == st.0
            &&& keys_unique(r.0.entities@)
            &&& pairs_view(r.0.entities@) == st.2
            &&& pending_view(r.1@) == st.3
        }),
{
    let (world, entities, pending) = apply_diff(&cooked_prefab.world, &cooked_prefab.entities, diff, registry);
    (CookedPrefab { world, entities }, pending)
}

} // verus!
