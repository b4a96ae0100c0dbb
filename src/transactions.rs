use vstd::prelude::*;

use crate::component_diffs::{ComponentDiff, ComponentDiffOp, EntityDiff, EntityDiffOp, WorldDiff};
use crate::ids::{new_uuid, ComponentTypeUuid, Entity, EntityUuid};
use crate::pairs::{find_key, keys_unique, lemma_pairs_view_dom, pairs_view, set_key, take_key};
use crate::registration::{diff_outcome, ComponentRegistration, ComponentRegistry, DiffSingleResult};
use crate::world::{handles, World};

verus! {

/// Where an entity of a transaction lives in the before world and in the after world.
#[derive(Clone, Copy)]
pub struct TransactionEntityInfo {
    pub before_entity: Option<Entity>,
    pub after_entity: Option<Entity>,
}

impl TransactionEntityInfo {
    pub open spec fn spec_before(&self) -> Option<Entity> {
        self.before_entity
    }

    pub open spec fn spec_after(&self) -> Option<Entity> {
        self.after_entity
    }

    pub fn new(before_entity: Option<Entity>, after_entity: Option<Entity>) -> (r: Self)
        ensures
            r.spec_before() == before_entity,
            r.spec_after() == after_entity,
    {
        TransactionEntityInfo { before_entity, after_entity }
    }

    pub fn before_entity(&self) -> (r: Option<Entity>)
        ensures
            r == self.spec_before(),
    {
        self.before_entity
    }

    pub fn after_entity(&self) -> (r: Option<Entity>)
        ensures
            r == self.spec_after(),
    {
        self.after_entity
    }
}

/// Collects the entities, with their identities, that a transaction starts from.
pub struct TransactionBuilder {
    entities: Vec<(EntityUuid, Entity)>,
}

/// A pair of snapshots of some entities: the before world is kept as it was, the after
/// world is the caller's to change.
pub struct Transaction {
    before_world: World,
    after_world: World,
    uuid_to_entities: Vec<(EntityUuid, TransactionEntityInfo)>,
}

/// The diff that a transaction made, and the diff that undoes it.
pub struct TransactionDiffs {
    apply_diff: WorldDiff,
    revert_diff: WorldDiff,
}

impl TransactionDiffs {
    pub closed spec fn spec_apply(&self) -> WorldDiff {
        self.apply_diff
    }

    pub closed spec fn spec_revert(&self) -> WorldDiff {
        self.revert_diff
    }

    pub fn new(apply_diff: WorldDiff, revert_diff: WorldDiff) -> (r: Self)
        ensures
            r.spec_apply() == apply_diff,
            r.spec_revert() == revert_diff,
    {
        TransactionDiffs { apply_diff, revert_diff }
    }

    pub fn apply_diff(&self) -> (r: &WorldDiff)
        ensures
            *r == self.spec_apply(),
    {
        &self.apply_diff
    }

    pub fn revert_diff(&self) -> (r: &WorldDiff)
        ensures
            *r == self.spec_revert(),
    {
        &self.revert_diff
    }

    /// Swaps the two diffs: what undid the change now makes it.
    pub fn reverse(&mut self)
        ensures
            final(self).spec_apply() == old(self).spec_revert(),
            final(self).spec_revert() == old(self).spec_apply(),
    {
        core::mem::swap(&mut self.apply_diff, &mut self.revert_diff);
    }
}

/// Entry `i` of the collected entities is the one whose copy identity `u` keeps: the last
/// entry of `u`, among the first `k`, whose entity `src` holds.
pub open spec fn copied_from(entries: Seq<(EntityUuid, Entity)>, src: World, k: int, u: EntityUuid, i: int) -> bool {
    &&& 0 <= i < k
    &&& entries[i].0 == u
    &&& src@.contains_key(entries[i].1)
    &&& forall|j: int| i < j < k && #[trigger] entries[j].0 == u ==> !src@.contains_key(entries[j].1)
}

impl TransactionBuilder {
    pub closed spec fn view(&self) -> Seq<(EntityUuid, Entity)> {
        self.entities@
    }

    pub fn new() -> (r: Self)
        ensures
            r@.len() == 0,
    {
        TransactionBuilder { entities: Vec::new() }
    }

    pub fn add_entity(self, entity: Entity, entity_uuid: EntityUuid) -> (r: Self)
        ensures
            r@ == self@.push((entity_uuid, entity)),
    {
        let mut entities = self.entities;
        entities.push((entity_uuid, entity));
        TransactionBuilder { entities }
    }

    /// Copies each collected entity of `src_world` into a fresh before world and a fresh
    /// after world, and records both copies under the entity's identity. Entities
    /// `src_world` does not hold are passed over; a repeated identity keeps its last entity
    /// that `src_world` holds, the copies of an earlier one being dropped.
    pub fn begin(self, src_world: &World) -> (r: Transaction)
        requires
            self@.len() < u64::MAX,
        ensures
            r.wf(),
            crate::round_trip::begun(r),
            ({
                let m = pairs_view(r.spec_entities());
                let n = self@.len() as int;
                &&& forall|u: EntityUuid| #[trigger] m.contains_key(u) <==> exists|i: int| 0 <= i < n && self@[i].0 == u && src_world@.contains_key(self@[i].1)
                &&& forall|u: EntityUuid| #[trigger] m.contains_key(u) ==> {
                    &&& m[u].spec_before() is Some
                    &&& m[u].spec_after() is Some
                    &&& exists|i: int| #[trigger] copied_from(self@, *src_world, n, u, i)
                        && r.spec_before_world()@[m[u].spec_before()->Some_0] == src_world@[self@[i].1]
                        && r.spec_after_world()@[m[u].spec_after()->Some_0] == src_world@[self@[i].1]
                }
                &&& forall|h: Entity| #[trigger] r.spec_before_world()@.contains_key(h) <==> exists|u: EntityUuid| #[trigger] m.contains_key(u) && m[u].spec_before() == Some(h)
                &&& forall|h: Entity| #[trigger] r.spec_after_world()@.contains_key(h) <==> exists|u: EntityUuid| #[trigger] m.contains_key(u) && m[u].spec_after() == Some(h)
            }),
    {
        let mut before_world = World::new();
        let mut after_world = World::new();
        let mut uuid_to_entities: Vec<(EntityUuid, TransactionEntityInfo)> = Vec::new();
        let mut k: usize = 0;
        while k < self.entities.len()
            invariant
                self@.len() < u64::MAX,
                k <= self@.len(),
                before_world.wf(),
                after_world.wf(),
                before_world.spec_next() <= k,
                after_world.spec_next() <= k,
                keys_unique(uuid_to_entities@),
                ({
                    let m = pairs_view(uuid_to_entities@);
                    &&& forall|u: EntityUuid| #[trigger] m.contains_key(u) <==> exists|i: int| 0 <= i < k && self@[i].0 == u && src_world@.contains_key(self@[i].1)
                    &&& forall|u: EntityUuid| #[trigger] m.contains_key(u) ==> {
                        &&& m[u].spec_before() is Some
                        &&& m[u].spec_after() is Some
                        &&& before_world@.contains_key(m[u].spec_before()->Some_0)
                        &&& after_world@.contains_key(m[u].spec_after()->Some_0)
                        &&& exists|i: int| #[trigger] copied_from(self@, *src_world, k as int, u, i)
                            && before_world@[m[u].spec_before()->Some_0] == src_world@[self@[i].1]
                            && after_world@[m[u].spec_after()->Some_0] == src_world@[self@[i].1]
                    }
                    &&& forall|h: Entity| #[trigger] before_world@.contains_key(h) ==> exists|u: EntityUuid| #[trigger] m.contains_key(u) && m[u].spec_before() == Some(h)
                    &&& forall|h: Entity| #[trigger] after_world@.contains_key(h) ==> exists|u: EntityUuid| #[trigger] m.contains_key(u) && m[u].spec_after() == Some(h)
                    &&& forall|u1: EntityUuid, u2: EntityUuid| #[trigger] m.contains_key(u1) && #[trigger] m.contains_key(u2) && u1 != u2 ==> m[u1].spec_before()
                        != m[u2].spec_before() && m[u1].spec_after() != m[u2].spec_after()
                }),
            decreases self@.len() - k,
        {
            let (u, e) = self.entities[k];
            let ghost m0 = pairs_view(uuid_to_entities@);
            let ghost bw0 = before_world@;
            let ghost aw0 = after_world@;
            let ghost bn0 = before_world.spec_next();
            let ghost an0 = after_world.spec_next();
            let ghost bww = before_world;
            let ghost aww = after_world;
            if src_world.contains(e) {
                match find_key(&uuid_to_entities, u) {
                    Some(x) => {
                        let old_info = uuid_to_entities[x].1;
                        match old_info.before_entity {
                            Some(b0) => before_world.despawn(b0),
                            None => {},
                        }
                        match old_info.after_entity {
                            Some(a0) => after_world.despawn(a0),
                            None => {},
                        }
                    },
                    None => {},
                }
                let ghost bw1 = before_world@;
                let ghost aw1 = after_world@;
                let b = before_world.clone_from_single(src_world, e).unwrap();
                let a = after_world.clone_from_single(src_world, e).unwrap();
                set_key(&mut uuid_to_entities, u, TransactionEntityInfo::new(Some(b), Some(a)));
                proof {
                    let m = pairs_view(uuid_to_entities@);
                    let k1 = (k + 1) as int;
                    assert(self@[k as int] == (u, e));
                    assert(copied_from(self@, *src_world, k1, u, k as int));
                    assert(!bw0.contains_key(b) && !aw0.contains_key(a)) by {
                        if bw0.contains_key(b) {
                            bww.lemma_below_next(b);
                        }
                        if aw0.contains_key(a) {
                            aww.lemma_below_next(a);
                        }
                    }
                    assert forall|v: EntityUuid| #[trigger] m.contains_key(v) <==> exists|i: int| 0 <= i < k1 && self@[i].0 == v
                        && src_world@.contains_key(self@[i].1) by {
                        if v != u && m.contains_key(v) {
                            assert(m0.contains_key(v));
                            let i = choose|i: int| 0 <= i < k && self@[i].0 == v && src_world@.contains_key(self@[i].1);
                        }
                        if v != u && exists|i: int| 0 <= i < k1 && self@[i].0 == v && src_world@.contains_key(self@[i].1) {
                            let i = choose|i: int| 0 <= i < k1 && self@[i].0 == v && src_world@.contains_key(self@[i].1);
                            assert(i < k);
                            assert(m0.contains_key(v));
                        }
                    }
                    assert forall|v: EntityUuid| #[trigger] m.contains_key(v) implies {
                        &&& m[v].spec_before() is Some
                        &&& m[v].spec_after() is Some
                        &&& before_world@.contains_key(m[v].spec_before()->Some_0)
                        &&& after_world@.contains_key(m[v].spec_after()->Some_0)
                        &&& exists|i: int| #[trigger] copied_from(self@, *src_world, k1, v, i)
                            && before_world@[m[v].spec_before()->Some_0] == src_world@[self@[i].1]
                            && after_world@[m[v].spec_after()->Some_0] == src_world@[self@[i].1]
                    } by {
                        if v != u {
                            assert(m0.contains_key(v));
                            let i = choose|i: int| #[trigger] copied_from(self@, *src_world, k as int, v, i)
                                && bw0[m0[v].spec_before()->Some_0] == src_world@[self@[i].1]
                                && aw0[m0[v].spec_after()->Some_0] == src_world@[self@[i].1];
                            assert(copied_from(self@, *src_world, k1, v, i));
                            if m0.contains_key(u) {
                                assert(m0[v].spec_before() != m0[u].spec_before());
                                assert(m0[v].spec_after() != m0[u].spec_after());
                            }
                        }
                    }
                    assert forall|h: Entity| #[trigger] before_world@.contains_key(h) implies exists|w: EntityUuid| #[trigger] m.contains_key(w)
                        && m[w].spec_before() == Some(h) by {
                        if h != b {
                            assert(bw1.contains_key(h));
                            assert(bw0.contains_key(h));
                            let w = choose|w: EntityUuid| #[trigger] m0.contains_key(w) && m0[w].spec_before() == Some(h);
                            if w == u {
                                assert(bw1 == bw0.remove(m0[u].spec_before()->Some_0));
                            }
                            assert(m.contains_key(w));
                        } else {
                            assert(m.contains_key(u));
                        }
                    }
                    assert forall|h: Entity| #[trigger] after_world@.contains_key(h) implies exists|w: EntityUuid| #[trigger] m.contains_key(w)
                        && m[w].spec_after() == Some(h) by {
                        if h != a {
                            assert(aw1.contains_key(h));
                            assert(aw0.contains_key(h));
                            let w = choose|w: EntityUuid| #[trigger] m0.contains_key(w) && m0[w].spec_after() == Some(h);
                            if w == u {
                                assert(aw1 == aw0.remove(m0[u].spec_after()->Some_0));
                            }
                            assert(m.contains_key(w));
                        } else {
                            assert(m.contains_key(u));
                        }
                    }
                    assert forall|u1: EntityUuid, u2: EntityUuid| #[trigger] m.contains_key(u1) && #[trigger] m.contains_key(u2) && u1 != u2 implies m[u1].spec_before()
                        != m[u2].spec_before() && m[u1].spec_after() != m[u2].spec_after() by {
                        if u1 == u {
                            assert(m0.contains_key(u2));
                        } else if u2 == u {
                            assert(m0.contains_key(u1));
                        }
                    }
                }
            } else {
                proof {
                    let k1 = (k + 1) as int;
                    assert(self@[k as int] == (u, e));
                    let m = pairs_view(uuid_to_entities@);
                    assert forall|v: EntityUuid| #[trigger] m.contains_key(v) <==> exists|i: int| 0 <= i < k1 && self@[i].0 == v
                        && src_world@.contains_key(self@[i].1) by {
                        if exists|i: int| 0 <= i < k1 && self@[i].0 == v && src_world@.contains_key(self@[i].1) {
                            let i = choose|i: int| 0 <= i < k1 && self@[i].0 == v && src_world@.contains_key(self@[i].1);
                            assert(i < k);
                        }
                    }
                    assert forall|v: EntityUuid| #[trigger] m.contains_key(v) implies exists|i: int| #[trigger] copied_from(self@, *src_world, k1, v, i)
                        && before_world@[m[v].spec_before()->Some_0] == src_world@[self@[i].1]
                        && after_world@[m[v].spec_after()->Some_0] == src_world@[self@[i].1] by {
                        let i = choose|i: int| #[trigger] copied_from(self@, *src_world, k as int, v, i)
                            && bw0[m0[v].spec_before()->Some_0] == src_world@[self@[i].1]
                            && aw0[m0[v].spec_after()->Some_0] == src_world@[self@[i].1];
                        assert(copied_from(self@, *src_world, k1, v, i));
                    }
                }
            }
            k = k + 1;
        }
        let r = Transaction { before_world, after_world, uuid_to_entities };
        proof {
            let sq = r.spec_entities();
            let m = pairs_view(sq);
            assert forall|i: int| 0 <= i < sq.len() implies m.contains_key((#[trigger] sq[i]).0) && m[sq[i].0] == sq[i].1 by {
                crate::pairs::lemma_pairs_view_entry(sq, i);
            }
            assert forall|i: int| 0 <= i < sq.len() implies (#[trigger] sq[i]).1.spec_before() is Some && r.spec_before_world()@.contains_key(
                sq[i].1.spec_before()->Some_0,
            ) && sq[i].1.spec_after() is Some by {
                assert(m.contains_key(sq[i].0));
            }
            assert forall|i: int, j: int| 0 <= i < sq.len() && 0 <= j < sq.len() && i != j implies (#[trigger] sq[i]).1.spec_before()
                != (#[trigger] sq[j]).1.spec_before() && sq[i].1.spec_after() != sq[j].1.spec_after() by {
                assert(m.contains_key(sq[i].0) && m.contains_key(sq[j].0));
                assert(sq[i].0 != sq[j].0);
            }
            assert forall|h: Entity| #[trigger] r.spec_before_world()@.contains_key(h) <== exists|u: EntityUuid| #[trigger] m.contains_key(u) && m[u].spec_before() == Some(h) by {
            }
            assert forall|h: Entity| #[trigger] r.spec_after_world()@.contains_key(h) <== exists|u: EntityUuid| #[trigger] m.contains_key(u) && m[u].spec_after() == Some(h) by {
            }
        }
        r
    }
}

impl Transaction {
    pub closed spec fn spec_before_world(&self) -> World {
        self.before_world
    }

    pub closed spec fn spec_after_world(&self) -> World {
        self.after_world
    }

    /// The entities of the transaction, by identity, in recorded order.
    pub closed spec fn spec_entities(&self) -> Seq<(EntityUuid, TransactionEntityInfo)> {
        self.uuid_to_entities@
    }

    pub open spec fn wf(&self) -> bool {
        &&& self.spec_before_world().wf()
        &&& self.spec_after_world().wf()
        &&& keys_unique(self.spec_entities())
    }

    /// The after world, where the caller makes the transaction's changes.
    pub fn world(&self) -> (r: &World)
        ensures
            *r == self.spec_after_world(),
    {
        &self.after_world
    }

    pub fn world_mut(&mut self) -> (r: &mut World)
        ensures
            *r == old(self).spec_after_world(),
            final(self).spec_after_world() == *final(r),
            final(self).spec_before_world() == old(self).spec_before_world(),
            final(self).spec_entities() == old(self).spec_entities(),
    {
        &mut self.after_world
    }

    /// Where an entity of the transaction now is in the after world.
    pub fn uuid_to_entity(&self, uuid: EntityUuid) -> (r: Option<Entity>)
        ensures
            ({
                let m = pairs_view(self.spec_entities());
                &&& !m.contains_key(uuid) ==> r.is_none()
                &&& m.contains_key(uuid) ==> r == m[uuid].spec_after()
            }),
    {
        match find_key(&self.uuid_to_entities, uuid) {
            Some(i) => self.uuid_to_entities[i].1.after_entity,
            None => None,
        }
    }
}

/// The value of a component type on an entity that may be absent.
pub open spec fn value_in(w: Map<Entity, Map<ComponentTypeUuid, Seq<u8>>>, e: Option<Entity>, t: ComponentTypeUuid) -> Option<Seq<u8>> {
    match e {
        Some(h) => if w.contains_key(h) && w[h].contains_key(t) {
            Some(w[h][t])
        } else {
            None
        },
        None => None,
    }
}

/// How a component went from one value (or absence) to another.
pub open spec fn outcome_of(src: Option<Seq<u8>>, dst: Option<Seq<u8>>) -> DiffSingleResult {
    diff_outcome(src is Some, dst is Some, src != dst)
}

/// The component types of the registry, in registration order.
pub open spec fn registry_types(reg: ComponentRegistry) -> Seq<ComponentTypeUuid> {
    reg@.map_values(|r: ComponentRegistration| r.spec_uuid())
}

/// For one entity of the transaction, each component type that changed, with its value
/// before and after.
pub open spec fn type_diffs(
    u: EntityUuid,
    info: TransactionEntityInfo,
    types: Seq<ComponentTypeUuid>,
    bw: Map<Entity, Map<ComponentTypeUuid, Seq<u8>>>,
    aw: Map<Entity, Map<ComponentTypeUuid, Seq<u8>>>,
) -> Seq<(EntityUuid, ComponentTypeUuid, Option<Seq<u8>>, Option<Seq<u8>>)>
    decreases types.len(),
{
    if types.len() == 0 {
        Seq::empty()
    } else {
        let p = type_diffs(u, info, types.drop_last(), bw, aw);
        let t = types.last();
        let b = value_in(bw, info.spec_before(), t);
        let a = value_in(aw, info.spec_after(), t);
        if outcome_of(b, a) != DiffSingleResult::NoChange {
            p.push((u, t, b, a))
        } else {
            p
        }
    }
}

/// Entity by entity, each component type that changed.
pub open spec fn pair_diffs(
    infos: Seq<(EntityUuid, TransactionEntityInfo)>,
    types: Seq<ComponentTypeUuid>,
    bw: Map<Entity, Map<ComponentTypeUuid, Seq<u8>>>,
    aw: Map<Entity, Map<ComponentTypeUuid, Seq<u8>>>,
) -> Seq<(EntityUuid, ComponentTypeUuid, Option<Seq<u8>>, Option<Seq<u8>>)>
    decreases infos.len(),
{
    if infos.len() == 0 {
        Seq::empty()
    } else {
        pair_diffs(infos.drop_last(), types, bw, aw) + type_diffs(infos.last().0, infos.last().1, types, bw, aw)
    }
}

/// The component diff for one changed component, from `src` to `dst`: a structural patch
/// that `differ` produced from the two values, the whole new value, or a removal.
pub open spec fn op_fits<F: Fn(ComponentTypeUuid, Vec<u8>, Vec<u8>) -> Vec<u8>>(
    differ: F,
    t: ComponentTypeUuid,
    op: ComponentDiffOp,
    src: Option<Seq<u8>>,
    dst: Option<Seq<u8>>,
) -> bool {
    match outcome_of(src, dst) {
        DiffSingleResult::Change => op matches ComponentDiffOp::Change(p) && exists|x: Vec<u8>, y: Vec<u8>|
            x@ == src->Some_0 && y@ == dst->Some_0 && #[trigger] call_ensures(differ, (t, x, y), p),
        DiffSingleResult::Add => op matches ComponentDiffOp::Add(v) && v@ == dst->Some_0,
        DiffSingleResult::Remove => op matches ComponentDiffOp::Remove,
        DiffSingleResult::NoChange => false,
    }
}

/// The identities of known entities that the after world no longer holds.
pub open spec fn removed_uuids(s: Seq<(EntityUuid, TransactionEntityInfo)>, aw: Map<Entity, Map<ComponentTypeUuid, Seq<u8>>>) -> Seq<EntityUuid>
    decreases s.len(),
{
    if s.len() == 0 {
        Seq::empty()
    } else {
        let p = removed_uuids(s.drop_last(), aw);
        let (u, info) = s.last();
        if info.spec_after() is Some && !aw.contains_key(info.spec_after()->Some_0) {
            p.push(u)
        } else {
            p
        }
    }
}

/// Whether some known entity is this after-world entity.
pub open spec fn tracked_after(s: Seq<(EntityUuid, TransactionEntityInfo)>, a: Entity) -> bool {
    exists|i: int| 0 <= i < s.len() && (#[trigger] s[i]).1.spec_after() == Some(a)
}

/// The after-world entities that no known entity is, in world order.
pub open spec fn fresh_handles(hs: Seq<Entity>, s: Seq<(EntityUuid, TransactionEntityInfo)>) -> Seq<Entity>
    decreases hs.len(),
{
    if hs.len() == 0 {
        Seq::empty()
    } else {
        let p = fresh_handles(hs.drop_last(), s);
        if tracked_after(s, hs.last()) {
            p
        } else {
            p.push(hs.last())
        }
    }
}

/// The known entities once the new ones are named by `ids`.
pub open spec fn with_new_entities(
    s: Seq<(EntityUuid, TransactionEntityInfo)>,
    fresh: Seq<Entity>,
    ids: Seq<EntityUuid>,
) -> Seq<(EntityUuid, TransactionEntityInfo)> {
    s + Seq::new(fresh.len(), |j: int| (ids[j], TransactionEntityInfo { before_entity: None, after_entity: Some(fresh[j]) }))
}

/// Whether two byte strings are equal.
pub(crate) fn bytes_eq(x: &Vec<u8>, y: &Vec<u8>) -> (r: bool)
    ensures
        r == (x@ == y@),
{
    if x.len() != y.len() {
        return false;
    }
    let mut i: usize = 0;
    while i < x.len()
        invariant
            x@.len() == y@.len(),
            i <= x@.len(),
            forall|k: int| 0 <= k < i ==> x@[k] == y@[k],
        decreases x@.len() - i,
    {
        if x[i] != y[i] {
            return false;
        }
        i = i + 1;
    }
    assert(x@ =~= y@);
    true
}

pub(crate) fn value_of<'w>(w: &'w World, e: Option<Entity>, t: ComponentTypeUuid) -> (r: Option<&'w Vec<u8>>)
    ensures
        match value_in(w@, e, t) {
            None => r.is_none(),
            Some(v) => r matches Some(x) && x@ == v,
        },
{
    match e {
        None => None,
        Some(h) => w.get_component(h, t),
    }
}

/// The component diff from `src` to `dst`, for a component that changed.
fn make_op<F: Fn(ComponentTypeUuid, Vec<u8>, Vec<u8>) -> Vec<u8>>(
    differ: &F,
    t: ComponentTypeUuid,
    src: Option<&Vec<u8>>,
    dst: Option<&Vec<u8>>,
    ghost_src: Ghost<Option<Seq<u8>>>,
    ghost_dst: Ghost<Option<Seq<u8>>>,
) -> (r: ComponentDiffOp)
    requires
        forall|a: ComponentTypeUuid, x: Vec<u8>, y: Vec<u8>| call_requires(*differ, (a, x, y)),
        src is Some <==> ghost_src@ is Some,
        dst is Some <==> ghost_dst@ is Some,
        src matches Some(x) ==> x@ == ghost_src@->Some_0,
        dst matches Some(y) ==> y@ == ghost_dst@->Some_0,
        outcome_of(ghost_src@, ghost_dst@) != DiffSingleResult::NoChange,
    ensures
        op_fits(*differ, t, r, ghost_src@, ghost_dst@),
{
    match (src, dst) {
        (Some(x), Some(y)) => {
            let xc = x.clone();
            let yc = y.clone();
            let ghost gx = xc;
            let ghost gy = yc;
            let p = differ(t, xc, yc);
            proof {
                assert(gx@ == ghost_src@->Some_0 && gy@ == ghost_dst@->Some_0 && call_ensures(*differ, (t, gx, gy), p));
            }
            let op = ComponentDiffOp::Change(p);
            proof {
                assert(op matches ComponentDiffOp::Change(q) && q == p);
            }
            op
        },
        (None, Some(y)) => {
            let v = y.clone();
            ComponentDiffOp::Add(v)
        },
        (Some(_), None) => ComponentDiffOp::Remove,
        (None, None) => ComponentDiffOp::Remove,
    }
}

impl Transaction {
    /// The after-world entities that the transaction does not track yet, in world order.
    pub fn untracked_entities(&self) -> (r: Vec<Entity>)
        requires
            self.wf(),
        ensures
            r@ == fresh_handles(handles(self.spec_after_world()), self.spec_entities()),
    {
        let hs = self.after_world.entities();
        let ghost hv = handles(self.after_world);
        assert(hs@ =~= hv);
        let s = &self.uuid_to_entities;
        let mut out: Vec<Entity> = Vec::new();
        let mut k: usize = 0;
        while k < hs.len()
            invariant
                hs@ == hv,
                s@ == self.spec_entities(),
                k <= hs@.len(),
                out@ == fresh_handles(hs@.take(k as int), s@),
            decreases hs@.len() - k,
        {
            proof {
                assert(hs@.take(k + 1).drop_last() =~= hs@.take(k as int));
                assert(hs@.take(k + 1).last() == hs@[k as int]);
            }
            let h = hs[k];
            let mut known = false;
            let mut i: usize = 0;
            while i < s.len()
                invariant
                    i <= s@.len(),
                    known == exists|x: int| 0 <= x < i && (#[trigger] s@[x]).1.spec_after() == Some(h),
                decreases s@.len() - i,
            {
                if s[i].1.after_entity == Some(h) {
                    known = true;
                }
                i = i + 1;
            }
            if !known {
                out.push(h);
            }
            k = k + 1;
        }
        proof {
            assert(hs@.take(k as int) =~= hs@);
        }
        out
    }

    /// Whether `ids` can name the untracked entities: one fresh identity each.
    fn ids_fit(&self, ids: &Vec<EntityUuid>, n: usize) -> (r: bool)
        ensures
            r == (ids@.len() == n && ids@.no_duplicates() && forall|j: int| 0 <= j < ids@.len() ==> !pairs_view(self.spec_entities()).contains_key(#[trigger] ids@[j])),
    {
        if ids.len() != n {
            return false;
        }
        let mut j: usize = 0;
        while j < ids.len()
            invariant
                j <= ids@.len(),
                forall|a: int, b: int| 0 <= a < j && 0 <= b < j && a != b ==> ids@[a] != ids@[b],
                forall|a: int| 0 <= a < j ==> !pairs_view(self.spec_entities()).contains_key(#[trigger] ids@[a]),
            decreases ids@.len() - j,
        {
            if find_key(&self.uuid_to_entities, ids[j]).is_some() {
                return false;
            }
            let mut k: usize = 0;
            while k < j
                invariant
                    j < ids@.len(),
                    k <= j,
                    forall|a: int| 0 <= a < k ==> ids@[a] != ids@[j as int],
                decreases j - k,
            {
                if ids[k] == ids[j] {
                    proof {
                        assert(!ids@.no_duplicates()) by {
                            assert(ids@[k as int] == ids@[j as int]);
                        }
                    }
                    return false;
                }
                k = k + 1;
            }
            j = j + 1;
        }
        true
    }
}

/// The component diffs, apply and revert, for the entities `infos[i]` of a transaction
/// and the registry's types, appended in order.
fn component_diffs_for<F: Fn(ComponentTypeUuid, Vec<u8>, Vec<u8>) -> Vec<u8>>(
    infos: &Vec<(EntityUuid, TransactionEntityInfo)>,
    registry: &ComponentRegistry,
    before_world: &World,
    after_world: &World,
    differ: &F,
) -> (r: (Vec<ComponentDiff>, Vec<ComponentDiff>))
    requires
        forall|a: ComponentTypeUuid, x: Vec<u8>, y: Vec<u8>| call_requires(*differ, (a, x, y)),
    ensures
        ({
            let pd = pair_diffs(infos@, registry_types(*registry), before_world@, after_world@);
            &&& r.0@.len() == pd.len()
            &&& r.1@.len() == pd.len()
            &&& forall|k: int| 0 <= k < pd.len() ==> {
                &&& (#[trigger] r.0@[k]).spec_entity_uuid() == pd[k].0
                &&& r.0@[k].spec_component_type() == pd[k].1
                &&& op_fits(*differ, pd[k].1, r.0@[k].spec_op(), pd[k].2, pd[k].3)
                &&& r.1@[k].spec_entity_uuid() == pd[k].0
                &&& r.1@[k].spec_component_type() == pd[k].1
                &&& op_fits(*differ, pd[k].1, r.1@[k].spec_op(), pd[k].3, pd[k].2)
            }
        }),
{
    let regs = registry.iter_component_registrations();
    let ghost types = registry_types(*registry);
    let ghost bw = before_world@;
    let ghost aw = after_world@;
    let mut ac: Vec<ComponentDiff> = Vec::new();
    let mut rc: Vec<ComponentDiff> = Vec::new();
    let mut i: usize = 0;
    while i < infos.len()
        invariant
            forall|a: ComponentTypeUuid, x: Vec<u8>, y: Vec<u8>| call_requires(*differ, (a, x, y)),
            regs@ == registry@,
            types == registry_types(*registry),
            bw == before_world@,
            aw == after_world@,
            i <= infos@.len(),
            ({
                let pd = pair_diffs(infos@.take(i as int), types, bw, aw);
                &&& ac@.len() == pd.len()
                &&& rc@.len() == pd.len()
                &&& forall|k: int| 0 <= k < pd.len() ==> {
                    &&& (#[trigger] ac@[k]).spec_entity_uuid() == pd[k].0
                    &&& ac@[k].spec_component_type() == pd[k].1
                    &&& op_fits(*differ, pd[k].1, ac@[k].spec_op(), pd[k].2, pd[k].3)
                    &&& rc@[k].spec_entity_uuid() == pd[k].0
                    &&& rc@[k].spec_component_type() == pd[k].1
                    &&& op_fits(*differ, pd[k].1, rc@[k].spec_op(), pd[k].3, pd[k].2)
                }
            }),
        decreases infos@.len() - i,
    {
        let u = infos[i].0;
        let info = infos[i].1;
        let ghost base = pair_diffs(infos@.take(i as int), types, bw, aw);
        let ghost base_len = ac@.len();
        let mut j: usize = 0;
        while j < regs.len()
            invariant
                forall|a: ComponentTypeUuid, x: Vec<u8>, y: Vec<u8>| call_requires(*differ, (a, x, y)),
                regs@ == registry@,
                types == registry_types(*registry),
                bw == before_world@,
                aw == after_world@,
                j <= regs@.len(),
                ({
                    let pd = base + type_diffs(u, info, types.take(j as int), bw, aw);
                    &&& ac@.len() == pd.len()
                    &&& rc@.len() == pd.len()
                    &&& forall|k: int| 0 <= k < pd.len() ==> {
                        &&& (#[trigger] ac@[k]).spec_entity_uuid() == pd[k].0
                        &&& ac@[k].spec_component_type() == pd[k].1
                        &&& op_fits(*differ, pd[k].1, ac@[k].spec_op(), pd[k].2, pd[k].3)
                        &&& rc@[k].spec_entity_uuid() == pd[k].0
                        &&& rc@[k].spec_component_type() == pd[k].1
                        &&& op_fits(*differ, pd[k].1, rc@[k].spec_op(), pd[k].3, pd[k].2)
                    }
                }),
            decreases regs@.len() - j,
        {
            let t = *regs[j].uuid();
            proof {
                assert(types.take(j + 1).drop_last() =~= types.take(j as int));
                assert(types.take(j + 1).last() == t);
            }
            let b = value_of(before_world, info.before_entity, t);
            let a = value_of(after_world, info.after_entity, t);
            let ghost gb = value_in(bw, info.before_entity, t);
            let ghost ga = value_in(aw, info.after_entity, t);
            let differs = match (b, a) {
                (Some(x), Some(y)) => !bytes_eq(x, y),
                _ => true,
            };
            let present = b.is_some() || a.is_some();
            if present && differs {
                proof {
                    assert(outcome_of(gb, ga) != DiffSingleResult::NoChange);
                    assert(outcome_of(ga, gb) != DiffSingleResult::NoChange);
                }
                let apply_op = make_op(differ, t, b, a, Ghost(gb), Ghost(ga));
                let revert_op = make_op(differ, t, a, b, Ghost(ga), Ghost(gb));
                let ghost old_ac = ac@;
                let ghost old_rc = rc@;
                ac.push(ComponentDiff::new(u, t, apply_op));
                rc.push(ComponentDiff::new(u, t, revert_op));
                proof {
                    let pd = base + type_diffs(u, info, types.take(j + 1), bw, aw);
                    assert(type_diffs(u, info, types.take(j + 1), bw, aw) == type_diffs(u, info, types.take(j as int), bw, aw).push((u, t, gb, ga)));
                    assert(pd =~= (base + type_diffs(u, info, types.take(j as int), bw, aw)).push((u, t, gb, ga)));
                    assert forall|k: int| 0 <= k < pd.len() implies {
                        &&& (#[trigger] ac@[k]).spec_entity_uuid() == pd[k].0
                        &&& ac@[k].spec_component_type() == pd[k].1
                        &&& op_fits(*differ, pd[k].1, ac@[k].spec_op(), pd[k].2, pd[k].3)
                        &&& rc@[k].spec_entity_uuid() == pd[k].0
                        &&& rc@[k].spec_component_type() == pd[k].1
                        &&& op_fits(*differ, pd[k].1, rc@[k].spec_op(), pd[k].3, pd[k].2)
                    } by {
                        if k < old_ac.len() {
                            assert(ac@[k] == old_ac[k]);
                            assert(rc@[k] == old_rc[k]);
                        }
                    }
                }
            } else {
                proof {
                    assert(outcome_of(gb, ga) == DiffSingleResult::NoChange);
                    assert(type_diffs(u, info, types.take(j + 1), bw, aw) == type_diffs(u, info, types.take(j as int), bw, aw));
                }
            }
            j = j + 1;
        }
        proof {
            assert(types.take(j as int) =~= types);
            assert(infos@.take(i + 1).drop_last() =~= infos@.take(i as int));
            assert(infos@.take(i + 1).last() == (u, info));
        }
        i = i + 1;
    }
    proof {
        assert(infos@.take(i as int) =~= infos@);
    }
    (ac, rc)
}

/// Whether `ids` names each untracked entity of the after world with an identity of its own.
pub open spec fn ids_fit_spec(tx: Transaction, ids: Seq<EntityUuid>) -> bool {
    let s = tx.spec_entities();
    let fresh = fresh_handles(handles(tx.spec_after_world()), s);
    &&& ids.len() == fresh.len()
    &&& ids.no_duplicates()
    &&& forall|j: int| 0 <= j < ids.len() ==> !pairs_view(s).contains_key(#[trigger] ids[j])
}

/// The diffs of a transaction: entity removals of the tracked entities the after world lost
/// and additions of the untracked ones, named by `ids`, with their inverses; then, for each
/// changed component, a diff from before to after and one from after to before.
pub open spec fn diffs_made<F: Fn(ComponentTypeUuid, Vec<u8>, Vec<u8>) -> Vec<u8>>(
    tx: Transaction,
    reg: ComponentRegistry,
    ids: Seq<EntityUuid>,
    differ: F,
    d: TransactionDiffs,
) -> bool {
    let s = tx.spec_entities();
    let bw = tx.spec_before_world()@;
    let aw = tx.spec_after_world()@;
    let fresh = fresh_handles(handles(tx.spec_after_world()), s);
    let all = with_new_entities(s, fresh, ids);
    let rem = removed_uuids(s, aw);
    let pd = pair_diffs(all, registry_types(reg), bw, aw);
    let ae = d.spec_apply().spec_entity_diffs();
    let re = d.spec_revert().spec_entity_diffs();
    let ac = d.spec_apply().spec_component_diffs();
    let rc = d.spec_revert().spec_component_diffs();
    &&& ids_fit_spec(tx, ids)
    &&& ae.len() == rem.len() + fresh.len()
    &&& re.len() == rem.len() + fresh.len()
    &&& forall|k: int| 0 <= k < rem.len() ==> {
        &&& (#[trigger] ae[k]).spec_entity_uuid() == rem[k] && ae[k].spec_op() == EntityDiffOp::Remove
        &&& re[k].spec_entity_uuid() == rem[k] && re[k].spec_op() == EntityDiffOp::Add
    }
    &&& forall|j: int| 0 <= j < fresh.len() ==> {
        &&& (#[trigger] ae[rem.len() + j]).spec_entity_uuid() == ids[j]
        &&& ae[rem.len() + j].spec_op() == EntityDiffOp::Add
        &&& re[rem.len() + j].spec_entity_uuid() == ids[j]
        &&& re[rem.len() + j].spec_op() == EntityDiffOp::Remove
    }
    &&& ac.len() == pd.len()
    &&& rc.len() == pd.len()
    &&& forall|k: int| 0 <= k < pd.len() ==> {
        &&& (#[trigger] ac[k]).spec_entity_uuid() == pd[k].0
        &&& ac[k].spec_component_type() == pd[k].1
        &&& op_fits(differ, pd[k].1, ac[k].spec_op(), pd[k].2, pd[k].3)
        &&& rc[k].spec_entity_uuid() == pd[k].0
        &&& rc[k].spec_component_type() == pd[k].1
        &&& op_fits(differ, pd[k].1, rc[k].spec_op(), pd[k].3, pd[k].2)
    }
}

impl Transaction {
    /// Extracts the diff of the transaction and the diff that undoes it. Tracked entities
    /// the after world no longer holds are removed; entities of the after world that are
    /// not tracked are added, named by `new_ids` in world order, and become tracked. Then
    /// every tracked entity is compared, component type by registered component type,
    /// between the two worlds: a type present on both sides with other bytes gives a
    /// structural patch that `differ` makes from the two values, a type present on one side
    /// gives an addition with the whole value or a removal. Entities removed stop being
    /// tracked. Refused, with nothing changed, where `new_ids` does not name each untracked
    /// entity with an identity of its own.
    pub fn create_transaction_diffs_with_ids<F: Fn(ComponentTypeUuid, Vec<u8>, Vec<u8>) -> Vec<u8>>(
        &mut self,
        registry: &ComponentRegistry,
        new_ids: &Vec<EntityUuid>,
        differ: &F,
    ) -> (r: Option<TransactionDiffs>)
        requires
            old(self).wf(),
            registry.wf(),
            forall|a: ComponentTypeUuid, x: Vec<u8>, y: Vec<u8>| call_requires(*differ, (a, x, y)),
        ensures
            final(self).wf(),
            ({
                let s = old(self).spec_entities();
                let aw = old(self).spec_after_world()@;
                let fresh = fresh_handles(handles(old(self).spec_after_world()), s);
                let all = with_new_entities(s, fresh, new_ids@);
                let rem = removed_uuids(s, aw);
                &&& r.is_some() <==> ids_fit_spec(*old(self), new_ids@)
                &&& r.is_none() ==> *final(self) == *old(self)
                &&& r matches Some(d) ==> {
                    &&& diffs_made(*old(self), *registry, new_ids@, *differ, d)
                    &&& final(self).spec_before_world() == old(self).spec_before_world()
                    &&& final(self).spec_after_world() == old(self).spec_after_world()
                    &&& pairs_view(final(self).spec_entities()) == pairs_view(all).remove_keys(rem.to_set())
                }
            }),
    {
        let fresh = self.untracked_entities();
        if !self.ids_fit(new_ids, fresh.len()) {
            return None;
        }
        let ghost s = self.uuid_to_entities@;
        let ghost aw = self.after_world@;
        let ghost bw_init = self.before_world;
        let ghost aw_init = self.after_world;
        let mut apply_entity_diffs: Vec<EntityDiff> = Vec::new();
        let mut revert_entity_diffs: Vec<EntityDiff> = Vec::new();
        let mut removed: Vec<EntityUuid> = Vec::new();
        let mut i: usize = 0;
        while i < self.uuid_to_entities.len()
            invariant
                self.uuid_to_entities@ == s,
                self.after_world@ == aw,
                self.before_world == bw_init,
                self.after_world == aw_init,
                i <= s.len(),
                removed@ == removed_uuids(s.take(i as int), aw),
                apply_entity_diffs@.len() == removed@.len(),
                revert_entity_diffs@.len() == removed@.len(),
                forall|k: int| 0 <= k < removed@.len() ==> {
                    &&& (#[trigger] apply_entity_diffs@[k]).spec_entity_uuid() == removed@[k]
                    &&& apply_entity_diffs@[k].spec_op() == EntityDiffOp::Remove
                    &&& revert_entity_diffs@[k].spec_entity_uuid() == removed@[k]
                    &&& revert_entity_diffs@[k].spec_op() == EntityDiffOp::Add
                },
            decreases s.len() - i,
        {
            proof {
                assert(s.take(i + 1).drop_last() =~= s.take(i as int));
                assert(s.take(i + 1).last() == s[i as int]);
            }
            let u = self.uuid_to_entities[i].0;
            match self.uuid_to_entities[i].1.after_entity {
                Some(a) => {
                    if !self.after_world.contains(a) {
                        apply_entity_diffs.push(EntityDiff::new(u, EntityDiffOp::Remove));
                        revert_entity_diffs.push(EntityDiff::new(u, EntityDiffOp::Add));
                        removed.push(u);
                    }
                },
                None => {},
            }
            i = i + 1;
        }
        proof {
            assert(s.take(i as int) =~= s);
        }
        let ghost nrem = removed@.len();
        let mut j: usize = 0;
        while j < fresh.len()
            invariant
                self.wf(),
                self.after_world@ == aw,
                self.before_world == bw_init,
                self.after_world == aw_init,
                fresh@ == fresh_handles(handles(self.after_world), s),
                new_ids@.len() == fresh@.len(),
                new_ids@.no_duplicates(),
                forall|x: int| 0 <= x < new_ids@.len() ==> !pairs_view(s).contains_key(#[trigger] new_ids@[x]),
                j <= fresh@.len(),
                removed@.len() == nrem,
                removed@ == removed_uuids(s, aw),
                self.uuid_to_entities@ == with_new_entities(s, fresh@.take(j as int), new_ids@),
                apply_entity_diffs@.len() == nrem + j,
                revert_entity_diffs@.len() == nrem + j,
                forall|k: int| 0 <= k < nrem ==> {
                    &&& (#[trigger] apply_entity_diffs@[k]).spec_entity_uuid() == removed@[k]
                    &&& apply_entity_diffs@[k].spec_op() == EntityDiffOp::Remove
                    &&& revert_entity_diffs@[k].spec_entity_uuid() == removed@[k]
                    &&& revert_entity_diffs@[k].spec_op() == EntityDiffOp::Add
                },
                forall|x: int| 0 <= x < j ==> {
                    &&& (#[trigger] apply_entity_diffs@[nrem + x]).spec_entity_uuid() == new_ids@[x]
                    &&& apply_entity_diffs@[nrem + x].spec_op() == EntityDiffOp::Add
                    &&& revert_entity_diffs@[nrem + x].spec_entity_uuid() == new_ids@[x]
                    &&& revert_entity_diffs@[nrem + x].spec_op() == EntityDiffOp::Remove
                },
            decreases fresh@.len() - j,
        {
            let u = new_ids[j];
            let ghost before = self.uuid_to_entities@;
            let ghost ad = apply_entity_diffs@;
            let ghost rd = revert_entity_diffs@;
            self.uuid_to_entities.push((u, TransactionEntityInfo::new(None, Some(fresh[j]))));
            apply_entity_diffs.push(EntityDiff::new(u, EntityDiffOp::Add));
            revert_entity_diffs.push(EntityDiff::new(u, EntityDiffOp::Remove));
            proof {
                assert(self.uuid_to_entities@ =~= with_new_entities(s, fresh@.take(j + 1), new_ids@));
                let t = self.uuid_to_entities@;
                assert(keys_unique(t)) by {
                    assert forall|a: int, b: int| 0 <= a < t.len() && 0 <= b < t.len() && a != b implies #[trigger] t[a].0
                        != #[trigger] t[b].0 by {
                        let n = s.len() as int;
                        if a >= n && b >= n {
                            assert(t[a].0 == new_ids@[a - n] && t[b].0 == new_ids@[b - n]);
                        } else if a >= n {
                            assert(t[a].0 == new_ids@[a - n]);
                            assert(t[b] == s[b]);
                            lemma_pairs_view_dom(s, t[a].0);
                        } else if b >= n {
                            assert(t[b].0 == new_ids@[b - n]);
                            assert(t[a] == s[a]);
                            lemma_pairs_view_dom(s, t[b].0);
                        } else {
                            assert(t[a] == s[a] && t[b] == s[b]);
                        }
                    }
                }
                assert forall|k: int| 0 <= k < nrem implies {
                    &&& (#[trigger] apply_entity_diffs@[k]).spec_entity_uuid() == removed@[k]
                    &&& apply_entity_diffs@[k].spec_op() == EntityDiffOp::Remove
                    &&& revert_entity_diffs@[k].spec_entity_uuid() == removed@[k]
                    &&& revert_entity_diffs@[k].spec_op() == EntityDiffOp::Add
                } by {
                    assert(apply_entity_diffs@[k] == ad[k]);
                    assert(revert_entity_diffs@[k] == rd[k]);
                }
                assert forall|x: int| 0 <= x < j + 1 implies {
                    &&& (#[trigger] apply_entity_diffs@[nrem + x]).spec_entity_uuid() == new_ids@[x]
                    &&& apply_entity_diffs@[nrem + x].spec_op() == EntityDiffOp::Add
                    &&& revert_entity_diffs@[nrem + x].spec_entity_uuid() == new_ids@[x]
                    &&& revert_entity_diffs@[nrem + x].spec_op() == EntityDiffOp::Remove
                } by {
                    if x < j {
                        assert(apply_entity_diffs@[nrem + x] == ad[nrem + x]);
                        assert(revert_entity_diffs@[nrem + x] == rd[nrem + x]);
                    }
                }
            }
            j = j + 1;
        }
        proof {
            assert(fresh@.take(j as int) =~= fresh@);
        }
        let ghost all = self.uuid_to_entities@;
        let (apply_component_diffs, revert_component_diffs) = component_diffs_for(
            &self.uuid_to_entities,
            registry,
            &self.before_world,
            &self.after_world,
            differ,
        );
        let ghost bw0 = self.before_world;
        let ghost aw0 = self.after_world;
        let mut k: usize = 0;
        while k < removed.len()
            invariant
                self.before_world == bw0,
                self.after_world == aw0,
                bw0.wf(),
                aw0.wf(),
                k <= removed@.len(),
                keys_unique(self.uuid_to_entities@),
                pairs_view(self.uuid_to_entities@) == pairs_view(all).remove_keys(removed@.take(k as int).to_set()),
            decreases removed@.len() - k,
        {
            let _ = take_key(&mut self.uuid_to_entities, removed[k]);
            proof {
                let a = removed@.take(k + 1);
                let b = removed@.take(k as int);
                assert forall|u: EntityUuid| a.to_set().contains(u) <==> b.to_set().insert(removed@[k as int]).contains(u) by {
                    if a.contains(u) {
                        let x = choose|x: int| 0 <= x < a.len() && a[x] == u;
                        if x < k {
                            assert(b[x] == u);
                        }
                    }
                    if b.contains(u) {
                        let x = choose|x: int| 0 <= x < b.len() && b[x] == u;
                        assert(a[x] == u);
                    }
                    if u == removed@[k as int] {
                        assert(a[k as int] == u);
                    }
                }
                assert(a.to_set() =~= b.to_set().insert(removed@[k as int]));
                assert(pairs_view(self.uuid_to_entities@) =~= pairs_view(all).remove_keys(removed@.take(k + 1).to_set()));
            }
            k = k + 1;
        }
        proof {
            assert(removed@.take(k as int) =~= removed@);
        }
        let apply_diff = WorldDiff::new(apply_entity_diffs, apply_component_diffs);
        let revert_diff = WorldDiff::new(revert_entity_diffs, revert_component_diffs);
        let r = TransactionDiffs::new(apply_diff, revert_diff);
        proof {
            let fr = fresh_handles(handles(self.after_world), s);
            assert(fresh@ == fr);
            assert(all == with_new_entities(s, fr, new_ids@));
            assert(removed@ == removed_uuids(s, aw));
            let ae = r.spec_apply().spec_entity_diffs();
            assert(ae.len() == removed@.len() + fr.len());
            assert(pairs_view(self.uuid_to_entities@) == pairs_view(all).remove_keys(removed@.to_set()));
            assert(self.before_world == old(self).before_world);
            assert(self.after_world == old(self).after_world);
        }
        Some(r)
    }

    /// Extracts the transaction's diffs (see `create_transaction_diffs_with_ids`), naming
    /// new entities with freshly drawn identities. None only where two drawn identities
    /// collide with each other or with a tracked one, so never when the after world holds no
    /// untracked entity.
    pub fn create_transaction_diffs<F: Fn(ComponentTypeUuid, Vec<u8>, Vec<u8>) -> Vec<u8>>(
        &mut self,
        registry: &ComponentRegistry,
        differ: &F,
    ) -> (r: Option<TransactionDiffs>)
        requires
            old(self).wf(),
            registry.wf(),
            forall|a: ComponentTypeUuid, x: Vec<u8>, y: Vec<u8>| call_requires(*differ, (a, x, y)),
        ensures
            final(self).wf(),
            fresh_handles(handles(old(self).spec_after_world()), old(self).spec_entities()).len() == 0 ==> r.is_some(),
            r.is_none() ==> *final(self) == *old(self),
            r matches Some(d) ==> exists|ids: Seq<EntityUuid>| #[trigger] diffs_made(*old(self), *registry, ids, *differ, d) && {
                let s = old(self).spec_entities();
                let fresh = fresh_handles(handles(old(self).spec_after_world()), s);
                pairs_view(final(self).spec_entities()) == pairs_view(with_new_entities(s, fresh, ids)).remove_keys(
                    removed_uuids(s, old(self).spec_after_world()@).to_set(),
                )
            },
            r.is_some() ==> final(self).spec_before_world() == old(self).spec_before_world()
                && final(self).spec_after_world() == old(self).spec_after_world(),
    {
        let n = self.untracked_entities().len();
        let mut ids: Vec<EntityUuid> = Vec::new();
        let mut i: usize = 0;
        while i < n
            invariant
                i <= n,
                ids@.len() == i,
            decreases n - i,
        {
            ids.push(new_uuid());
            i = i + 1;
        }
        proof {
            if n == 0 {
                assert(ids@.no_duplicates());
            }
        }
        self.create_transaction_diffs_with_ids(registry, &ids, differ)
    }
}

} // verus!
