use vstd::prelude::*;

use crate::ids::{ComponentTypeUuid, Entity, EntityUuid, PrefabUuid};
use crate::pairs::{find_key, keys_unique, pairs_view, set_key};
use crate::prefab::{ComponentOverride, Prefab, PrefabRef};
use crate::registration::ComponentRegistry;
use crate::world::World;

verus! {

/// A prefab with every reference resolved: one flat world, and its entities by identity.
pub struct CookedPrefab {
    pub world: World,
    pub entities: Vec<(EntityUuid, Entity)>,
}

/// A recorded override to apply to a cooked entity: a structural patch, as text, for one
/// of its components.
pub struct PendingOverride {
    pub entity: Entity,
    pub component_type: ComponentTypeUuid,
    pub data: String,
}

/// Why cooking failed.
#[derive(PartialEq, Eq, Structural, Clone, Copy, Debug)]
pub enum CookError {
    /// The cook order names a prefab that the lookup does not hold.
    MissingPrefab(PrefabUuid),
    /// An override names an entity that no cooked prefab holds.
    MissingEntity(EntityUuid),
}

/// What cooking yields: the cooked world's contents, its entities by identity, and the
/// overrides still to apply; or the first failure.
pub open spec fn cook_outcome(reg: ComponentRegistry, order: Seq<PrefabUuid>, ps: Seq<Prefab>) -> Result<
    (Map<Entity, Map<ComponentTypeUuid, Seq<u8>>>, Map<EntityUuid, Entity>, Seq<PendingOverride>),
    CookError,
> {
    let ents = merged_entities(ps, ps.len() as int);
    match plan_order(ents, order, ps, reg) {
        Ok(p) => Ok((merged_world(ps, ps.len() as int), ents, p)),
        Err(e) => Err(e),
    }
}

/// Cooking is a function of its inputs: the same registry, cook order and prefabs give the
/// same outcome.
pub proof fn lemma_cook_deterministic(
    reg1: ComponentRegistry,
    reg2: ComponentRegistry,
    order1: Seq<PrefabUuid>,
    order2: Seq<PrefabUuid>,
    ps1: Seq<Prefab>,
    ps2: Seq<Prefab>,
)
    requires
        reg1 == reg2,
        order1 == order2,
        ps1 == ps2,
    ensures
        cook_outcome(reg1, order1, ps1) == cook_outcome(reg2, order2, ps2),
{
}

/// Where the entities of the `k`-th prefab start in the cooked world.
pub open spec fn offset(ps: Seq<Prefab>, k: int) -> int
    decreases k,
{
    if k <= 0 {
        0
    } else {
        offset(ps, k - 1) + ps[k - 1].world.spec_len()
    }
}

/// Where a prefab's named entities land once its world is copied from `start` on.
pub open spec fn entity_image(ents: Seq<(EntityUuid, Entity)>, w: World, start: int) -> Map<EntityUuid, Entity>
    decreases ents.len(),
{
    if ents.len() == 0 {
        Map::empty()
    } else {
        let m = entity_image(ents.drop_last(), w, start);
        let (u, pe) = ents.last();
        if w@.contains_key(pe) {
            m.insert(u, (start + w.position_of(pe)) as u64)
        } else {
            m
        }
    }
}

/// The world made of the first `k` prefabs' worlds, copied one after the other.
pub open spec fn merged_world(ps: Seq<Prefab>, k: int) -> Map<Entity, Map<ComponentTypeUuid, Seq<u8>>>
    decreases k,
{
    if k <= 0 {
        Map::empty()
    } else {
        merged_world(ps, k - 1).union_prefer_right(ps[k - 1].world.clone_image(offset(ps, k - 1) as u64))
    }
}

/// The cooked handle of each entity identity of the first `k` prefabs; a later prefab wins
/// an identity that two of them name.
pub open spec fn merged_entities(ps: Seq<Prefab>, k: int) -> Map<EntityUuid, Entity>
    decreases k,
{
    if k <= 0 {
        Map::empty()
    } else {
        merged_entities(ps, k - 1).union_prefer_right(
            entity_image(ps[k - 1].prefab_meta.entities@, ps[k - 1].world, offset(ps, k - 1)),
        )
    }
}

/// The overrides of one entity that apply: those of registered types, in recorded order.
pub open spec fn plan_list(
    ents: Map<EntityUuid, Entity>,
    e: EntityUuid,
    list: Seq<ComponentOverride>,
    reg: ComponentRegistry,
) -> Seq<PendingOverride>
    decreases list.len(),
{
    if list.len() == 0 {
        Seq::empty()
    } else {
        let p = plan_list(ents, e, list.drop_last(), reg);
        let ov = list.last();
        if reg.has_uuid(ov.component_type) {
            p.push(PendingOverride { entity: ents[e], component_type: ov.component_type, data: ov.data })
        } else {
            p
        }
    }
}

/// The overrides of one reference, entity by entity; the first entity that is not
/// cooked stops it.
pub open spec fn plan_entities(
    ents: Map<EntityUuid, Entity>,
    ovs: Seq<(EntityUuid, Vec<ComponentOverride>)>,
    reg: ComponentRegistry,
) -> Result<Seq<PendingOverride>, CookError>
    decreases ovs.len(),
{
    if ovs.len() == 0 {
        Ok(Seq::empty())
    } else {
        match plan_entities(ents, ovs.drop_last(), reg) {
            Err(e) => Err(e),
            Ok(p) => {
                let (u, list) = ovs.last();
                if ents.contains_key(u) {
                    Ok(p + plan_list(ents, u, list@, reg))
                } else {
                    Err(CookError::MissingEntity(u))
                }
            },
        }
    }
}

/// The overrides of a prefab's references, reference by reference.
pub open spec fn plan_refs(
    ents: Map<EntityUuid, Entity>,
    refs: Seq<(PrefabUuid, PrefabRef)>,
    reg: ComponentRegistry,
) -> Result<Seq<PendingOverride>, CookError>
    decreases refs.len(),
{
    if refs.len() == 0 {
        Ok(Seq::empty())
    } else {
        match plan_refs(ents, refs.drop_last(), reg) {
            Err(e) => Err(e),
            Ok(p) => match plan_entities(ents, refs.last().1.overrides@, reg) {
                Err(e) => Err(e),
                Ok(q) => Ok(p + q),
            },
        }
    }
}

/// The position of the prefab with this identity, the last one when repeated.
pub open spec fn lookup_prefab(ps: Seq<Prefab>, id: PrefabUuid) -> Option<int>
    decreases ps.len(),
{
    if ps.len() == 0 {
        None
    } else if ps.last().prefab_meta.id == id {
        Some(ps.len() - 1)
    } else {
        lookup_prefab(ps.drop_last(), id)
    }
}

/// All overrides to apply, prefab by prefab in cook order.
pub open spec fn plan_order(
    ents: Map<EntityUuid, Entity>,
    order: Seq<PrefabUuid>,
    ps: Seq<Prefab>,
    reg: ComponentRegistry,
) -> Result<Seq<PendingOverride>, CookError>
    decreases order.len(),
{
    if order.len() == 0 {
        Ok(Seq::empty())
    } else {
        match plan_order(ents, order.drop_last(), ps, reg) {
            Err(e) => Err(e),
            Ok(p) => match lookup_prefab(ps, order.last()) {
                None => Err(CookError::MissingPrefab(order.last())),
                Some(i) => match plan_refs(ents, ps[i].prefab_meta.prefab_refs@, reg) {
                    Err(e) => Err(e),
                    Ok(q) => Ok(p + q),
                },
            },
        }
    }
}

proof fn lemma_offset_mono(ps: Seq<Prefab>, a: int, b: int)
    requires
        0 <= a <= b <= ps.len(),
    ensures
        offset(ps, a) <= offset(ps, b),
    decreases b - a,
{
    if a < b {
        lemma_offset_mono(ps, a, b - 1);
    }
}

/// Names the copies of a world's entities: each identity of `ents` whose entity was copied
/// is set, in order, to the handle of the copy.
pub(crate) fn name_copies(
    ents: &Vec<(EntityUuid, Entity)>,
    src: &World,
    mapping: &Vec<(Entity, Entity)>,
    start: u64,
    out: &mut Vec<(EntityUuid, Entity)>,
)
    requires
        src.wf(),
        keys_unique(old(out)@),
        start + src.spec_len() <= u64::MAX,
        mapping@.len() == src.spec_len(),
        forall|k: int| 0 <= k < mapping@.len() ==> #[trigger] mapping@[k] == (src.handle_at(k), (start + k) as u64),
    ensures
        keys_unique(final(out)@),
        pairs_view(final(out)@) == pairs_view(old(out)@).union_prefer_right(entity_image(ents@, *src, start as int)),
{
    let ghost base = pairs_view(out@);
    let mut j: usize = 0;
    while j < ents.len()
        invariant
            src.wf(),
            start + src.spec_len() <= u64::MAX,
            mapping@.len() == src.spec_len(),
            forall|k: int| 0 <= k < mapping@.len() ==> #[trigger] mapping@[k] == (src.handle_at(k), (start + k) as u64),
            j <= ents@.len(),
            keys_unique(out@),
            pairs_view(out@) == base.union_prefer_right(entity_image(ents@.take(j as int), *src, start as int)),
        decreases ents@.len() - j,
    {
        let (u, h) = ents[j];
        proof {
            assert(ents@.take(j + 1).drop_last() =~= ents@.take(j as int));
            src.lemma_positions(h);
        }
        let mut k: usize = 0;
        let mut found: Option<Entity> = None;
        while k < mapping.len()
            invariant
                k <= mapping@.len(),
                mapping@.len() == src.spec_len(),
                forall|x: int| 0 <= x < mapping@.len() ==> #[trigger] mapping@[x] == (src.handle_at(x), (start + x) as u64),
                found.is_none() ==> forall|x: int| 0 <= x < k ==> src.handle_at(x) != h,
                found matches Some(c) ==> exists|x: int| 0 <= x < mapping@.len() && #[trigger] src.handle_at(x) == h && c == (start + x) as u64,
            decreases mapping@.len() - k,
        {
            if found.is_none() && mapping[k].0 == h {
                found = Some(mapping[k].1);
            }
            k = k + 1;
        }
        match found {
            Some(c) => {
                proof {
                    let x = choose|x: int| 0 <= x < mapping@.len() && #[trigger] src.handle_at(x) == h && c == (start + x) as u64;
                    assert(x == src.position_of(h));
                }
                set_key(out, u, c);
                proof {
                    assert(pairs_view(out@) =~= base.union_prefer_right(entity_image(ents@.take(j + 1), *src, start as int)));
                }
            },
            None => {
                proof {
                    if src@.contains_key(h) {
                        let x = src.position_of(h);
                        assert(src.handle_at(x) == h);
                    }
                    assert(pairs_view(out@) =~= base.union_prefer_right(entity_image(ents@.take(j + 1), *src, start as int)));
                }
            },
        }
        j = j + 1;
    }
    proof {
        assert(ents@.take(j as int) =~= ents@);
    }
}

/// Copies every prefab's world into one, in lookup order, and names the copies.
fn merge_prefabs(prefab_lookup: &Vec<Prefab>) -> (r: (World, Vec<(EntityUuid, Entity)>))
    requires
        forall|i: int| 0 <= i < prefab_lookup@.len() ==> (#[trigger] prefab_lookup@[i]).wf(),
        offset(prefab_lookup@, prefab_lookup@.len() as int) <= u64::MAX,
    ensures
        r.0.wf(),
        r.0@ == merged_world(prefab_lookup@, prefab_lookup@.len() as int),
        keys_unique(r.1@),
        pairs_view(r.1@) == merged_entities(prefab_lookup@, prefab_lookup@.len() as int),
{
    let ghost ps = prefab_lookup@;
    let mut world = World::new();
    let mut entities: Vec<(EntityUuid, Entity)> = Vec::new();
    let mut i: usize = 0;
    while i < prefab_lookup.len()
        invariant
            ps == prefab_lookup@,
            forall|k: int| 0 <= k < ps.len() ==> (#[trigger] ps[k]).wf(),
            offset(ps, ps.len() as int) <= u64::MAX,
            i <= ps.len(),
            world.wf(),
            world.spec_next() == offset(ps, i as int),
            world@ == merged_world(ps, i as int),
            keys_unique(entities@),
            pairs_view(entities@) == merged_entities(ps, i as int),
        decreases ps.len() - i,
    {
        let p = &prefab_lookup[i];
        proof {
            lemma_offset_mono(ps, i + 1, ps.len() as int);
        }
        let start = world.next_handle();
        let mapping = world.clone_from(&p.world);
        let ghost before = pairs_view(entities@);
        name_copies(&p.prefab_meta.entities, &p.world, &mapping, start, &mut entities);
        proof {
            assert(pairs_view(entities@) == before.union_prefer_right(
                entity_image(ps[i as int].prefab_meta.entities@, ps[i as int].world, offset(ps, i as int)),
            ));
        }
        i = i + 1;
    }
    (world, entities)
}

/// Adds the applicable overrides of one entity to `out`.
fn plan_list_exec(
    ents: &Vec<(EntityUuid, Entity)>,
    c: Entity,
    e: EntityUuid,
    list: &Vec<ComponentOverride>,
    reg: &ComponentRegistry,
    out: &mut Vec<PendingOverride>,
)
    requires
        pairs_view(ents@).contains_key(e),
        pairs_view(ents@)[e] == c,
    ensures
        final(out)@ == old(out)@ + plan_list(pairs_view(ents@), e, list@, *reg),
{
    let mut i: usize = 0;
    let ghost start = out@;
    while i < list.len()
        invariant
            i <= list@.len(),
            pairs_view(ents@)[e] == c,
            out@ == start + plan_list(pairs_view(ents@), e, list@.take(i as int), *reg),
        decreases list@.len() - i,
    {
        proof {
            assert(list@.take(i + 1).drop_last() =~= list@.take(i as int));
        }
        let ov = &list[i];
        if reg.contains_uuid(ov.component_type) {
            out.push(PendingOverride { entity: c, component_type: ov.component_type, data: ov.data.clone() });
            proof {
                assert(out@ =~= start + plan_list(pairs_view(ents@), e, list@.take(i + 1), *reg));
            }
        }
        i = i + 1;
    }
    proof {
        assert(list@.take(i as int) =~= list@);
    }
}

fn plan_entities_exec(
    ents: &Vec<(EntityUuid, Entity)>,
    ovs: &Vec<(EntityUuid, Vec<ComponentOverride>)>,
    reg: &ComponentRegistry,
    out: &mut Vec<PendingOverride>,
) -> (r: Result<(), CookError>)
    ensures
        match plan_entities(pairs_view(ents@), ovs@, *reg) {
            Ok(p) => r.is_ok() && final(out)@ == old(out)@ + p,
            Err(e) => r == Err::<(), CookError>(e),
        },
{
    let mut i: usize = 0;
    let ghost start = out@;
    while i < ovs.len()
        invariant
            i <= ovs@.len(),
            plan_entities(pairs_view(ents@), ovs@.take(i as int), *reg) matches Ok(p) && out@ == start + p,
        decreases ovs@.len() - i,
    {
        proof {
            assert(ovs@.take(i + 1).drop_last() =~= ovs@.take(i as int));
        }
        let u = ovs[i].0;
        match find_key(ents, u) {
            None => {
                proof {
                    lemma_plan_entities_err_stays(pairs_view(ents@), ovs@, i + 1, *reg);
                }
                return Err(CookError::MissingEntity(u));
            },
            Some(x) => {
                let ghost before = out@;
                plan_list_exec(ents, ents[x].1, u, &ovs[i].1, reg, out);
                proof {
                    assert(out@ =~= start + plan_entities(pairs_view(ents@), ovs@.take(i + 1), *reg)->Ok_0);
                }
            },
        }
        i = i + 1;
    }
    proof {
        assert(ovs@.take(i as int) =~= ovs@);
    }
    Ok(())
}

proof fn lemma_plan_entities_err_stays(
    ents: Map<EntityUuid, Entity>,
    ovs: Seq<(EntityUuid, Vec<ComponentOverride>)>,
    k: int,
    reg: ComponentRegistry,
)
    requires
        0 <= k <= ovs.len(),
        plan_entities(ents, ovs.take(k), reg) is Err,
    ensures
        plan_entities(ents, ovs, reg) == plan_entities(ents, ovs.take(k), reg),
    decreases ovs.len() - k,
{
    if k < ovs.len() {
        assert(ovs.take(k + 1).drop_last() =~= ovs.take(k));
        lemma_plan_entities_err_stays(ents, ovs, k + 1, reg);
    } else {
        assert(ovs.take(k) =~= ovs);
    }
}

proof fn lemma_plan_refs_err_stays(
    ents: Map<EntityUuid, Entity>,
    refs: Seq<(PrefabUuid, PrefabRef)>,
    k: int,
    reg: ComponentRegistry,
)
    requires
        0 <= k <= refs.len(),
        plan_refs(ents, refs.take(k), reg) is Err,
    ensures
        plan_refs(ents, refs, reg) == plan_refs(ents, refs.take(k), reg),
    decreases refs.len() - k,
{
    if k < refs.len() {
        assert(refs.take(k + 1).drop_last() =~= refs.take(k));
        lemma_plan_refs_err_stays(ents, refs, k + 1, reg);
    } else {
        assert(refs.take(k) =~= refs);
    }
}

proof fn lemma_plan_order_err_stays(
    ents: Map<EntityUuid, Entity>,
    order: Seq<PrefabUuid>,
    ps: Seq<Prefab>,
    k: int,
    reg: ComponentRegistry,
)
    requires
        0 <= k <= order.len(),
        plan_order(ents, order.take(k), ps, reg) is Err,
    ensures
        plan_order(ents, order, ps, reg) == plan_order(ents, order.take(k), ps, reg),
    decreases order.len() - k,
{
    if k < order.len() {
        assert(order.take(k + 1).drop_last() =~= order.take(k));
        lemma_plan_order_err_stays(ents, order, ps, k + 1, reg);
    } else {
        assert(order.take(k) =~= order);
    }
}

fn plan_refs_exec(
    ents: &Vec<(EntityUuid, Entity)>,
    refs: &Vec<(PrefabUuid, PrefabRef)>,
    reg: &ComponentRegistry,
    out: &mut Vec<PendingOverride>,
) -> (r: Result<(), CookError>)
    ensures
        match plan_refs(pairs_view(ents@), refs@, *reg) {
            Ok(p) => r.is_ok() && final(out)@ == old(out)@ + p,
            Err(e) => r == Err::<(), CookError>(e),
        },
{
    let mut i: usize = 0;
    let ghost start = out@;
    while i < refs.len()
        invariant
            i <= refs@.len(),
            plan_refs(pairs_view(ents@), refs@.take(i as int), *reg) matches Ok(p) && out@ == start + p,
        decreases refs@.len() - i,
    {
        proof {
            assert(refs@.take(i + 1).drop_last() =~= refs@.take(i as int));
        }
        let ghost before = out@;
        match plan_entities_exec(ents, &refs[i].1.overrides, reg, out) {
            Err(e) => {
                proof {
                    lemma_plan_refs_err_stays(pairs_view(ents@), refs@, i + 1, *reg);
                }
                return Err(e);
            },
            Ok(()) => {
                proof {
                    assert(out@ =~= start + plan_refs(pairs_view(ents@), refs@.take(i + 1), *reg)->Ok_0);
                }
            },
        }
        i = i + 1;
    }
    proof {
        assert(refs@.take(i as int) =~= refs@);
    }
    Ok(())
}

proof fn lemma_lookup_bound(ps: Seq<Prefab>, id: PrefabUuid)
    ensures
        lookup_prefab(ps, id) matches Some(i) ==> 0 <= i < ps.len() && ps[i].prefab_meta.id == id,
    decreases ps.len(),
{
    if ps.len() > 0 {
        lemma_lookup_bound(ps.drop_last(), id);
    }
}

fn lookup_prefab_exec(ps: &Vec<Prefab>, id: PrefabUuid) -> (r: Option<usize>)
    ensures
        match lookup_prefab(ps@, id) {
            None => r.is_none(),
            Some(i) => r == Some(i as usize),
        },
        r matches Some(x) ==> x < ps@.len(),
{
    let mut i: usize = ps.len();
    assert(ps@.take(i as int) =~= ps@);
    proof {
        lemma_lookup_bound(ps@, id);
    }
    while i > 0
        invariant
            i <= ps@.len(),
            lookup_prefab(ps@, id) == lookup_prefab(ps@.take(i as int), id),
        decreases i,
    {
        proof {
            assert(ps@.take(i as int).drop_last() =~= ps@.take(i - 1));
        }
        if ps[i - 1].prefab_meta.id == id {
            proof {
                assert(ps@.take(i as int).last() == ps@[i - 1]);
            }
            return Some(i - 1);
        }
        i = i - 1;
    }
    None
}

/// Cooks prefabs into one flat world. Every prefab of the lookup is copied in, in lookup
/// order, and its named entities keep their identities; then, prefab by prefab in cook
/// order, the overrides of its references are resolved to cooked entities. The result
/// holds the cooked prefab and, in order, the overrides still to apply to it; overrides of
/// unregistered component types are passed over. Fails on the first cook-order prefab
/// missing from the lookup or override entity missing from the cooked prefab.
pub fn cook_prefab(
    registry: &ComponentRegistry,
    prefab_cook_order: &Vec<PrefabUuid>,
    prefab_lookup: &Vec<Prefab>,
) -> (r: Result<(CookedPrefab, Vec<PendingOverride>), CookError>)
    requires
        forall|i: int| 0 <= i < prefab_lookup@.len() ==> (#[trigger] prefab_lookup@[i]).wf(),
        offset(prefab_lookup@, prefab_lookup@.len() as int) <= u64::MAX,
    ensures
        match r {
            Ok((c, plan)) => cook_outcome(*registry, prefab_cook_order@, prefab_lookup@) == Ok::<
                (Map<Entity, Map<ComponentTypeUuid, Seq<u8>>>, Map<EntityUuid, Entity>, Seq<PendingOverride>),
                CookError,
            >((c.world@, pairs_view(c.entities@), plan@)),
            Err(e) => cook_outcome(*registry, prefab_cook_order@, prefab_lookup@) == Err::<
                (Map<Entity, Map<ComponentTypeUuid, Seq<u8>>>, Map<EntityUuid, Entity>, Seq<PendingOverride>),
                CookError,
            >(e),
        },
        ({
            let n = prefab_lookup@.len() as int;
            let ents = merged_entities(prefab_lookup@, n);
            match r {
                Ok((c, plan)) => {
                    &&& c.world.wf()
                    &&& c.world@ == merged_world(prefab_lookup@, n)
                    &&& keys_unique(c.entities@)
                    &&& pairs_view(c.entities@) == ents
                    &&& plan_order(ents, prefab_cook_order@, prefab_lookup@, *registry) == Ok::<Seq<PendingOverride>, CookError>(plan@)
                },
                Err(e) => plan_order(ents, prefab_cook_order@, prefab_lookup@, *registry) == Err::<Seq<PendingOverride>, CookError>(e),
            }
        }),
{
    let (world, entities) = merge_prefabs(prefab_lookup);
    let ghost ents = pairs_view(entities@);
    let mut plan: Vec<PendingOverride> = Vec::new();
    let mut i: usize = 0;
    while i < prefab_cook_order.len()
        invariant
            ents == pairs_view(entities@),
            ents == merged_entities(prefab_lookup@, prefab_lookup@.len() as int),
            i <= prefab_cook_order@.len(),
            plan_order(ents, prefab_cook_order@.take(i as int), prefab_lookup@, *registry) matches Ok(p) && plan@ == p,
        decreases prefab_cook_order@.len() - i,
    {
        proof {
            assert(prefab_cook_order@.take(i + 1).drop_last() =~= prefab_cook_order@.take(i as int));
        }
        let id = prefab_cook_order[i];
        proof {
            assert(prefab_cook_order@.take(i + 1).last() == id);
        }
        let n_lookup = prefab_lookup.len();
        let found = lookup_prefab_exec(prefab_lookup, id);
        match found {
            None => {
                proof {
                    let q = prefab_cook_order@.take(i + 1);
                    assert(q.drop_last() == prefab_cook_order@.take(i as int));
                    assert(lookup_prefab(prefab_lookup@, id) is None);
                    assert(plan_order(ents, q, prefab_lookup@, *registry) == Err::<Seq<PendingOverride>, CookError>(
                        CookError::MissingPrefab(id),
                    ));
                    lemma_plan_order_err_stays(ents, prefab_cook_order@, prefab_lookup@, i + 1, *registry);
                }
                return Err(CookError::MissingPrefab(id));
            },
            Some(x) => {
                let ghost before = plan@;
                proof {
                    let l = lookup_prefab(prefab_lookup@, id);
                    lemma_lookup_bound(prefab_lookup@, id);
                    assert(found == Some(x));
                    assert(l is Some);
                    let li = l->Some_0;
                    assert(found == Some(li as usize));
                    assert(0 <= li < prefab_lookup@.len());
                    assert(prefab_lookup@.len() == n_lookup);
                    assert(li == x as int);
                }
                match plan_refs_exec(&entities, &prefab_lookup[x].prefab_meta.prefab_refs, registry, &mut plan) {
                    Err(e) => {
                        proof {
                            let q = prefab_cook_order@.take(i + 1);
                            assert(q.drop_last() == prefab_cook_order@.take(i as int));
                            assert(plan_order(ents, q, prefab_lookup@, *registry) == Err::<Seq<PendingOverride>, CookError>(e));
                            lemma_plan_order_err_stays(ents, prefab_cook_order@, prefab_lookup@, i + 1, *registry);
                        }
                        return Err(e);
                    },
                    Ok(()) => {
                        proof {
                            assert(plan@ =~= plan_order(ents, prefab_cook_order@.take(i + 1), prefab_lookup@, *registry)->Ok_0);
                        }
                    },
                }
            },
        }
        i = i + 1;
    }
    proof {
        assert(prefab_cook_order@.take(i as int) =~= prefab_cook_order@);
    }
    Ok((CookedPrefab { world, entities }, plan))
}

/// No entity identity is named by two different prefabs of the lookup.
pub open spec fn entity_ids_disjoint(ps: Seq<Prefab>) -> bool {
    forall|a: int, b: int, i: int, j: int|
        0 <= a < ps.len() && 0 <= b < ps.len() && a != b && 0 <= i < ps[a].prefab_meta.entities@.len() && 0 <= j
            < ps[b].prefab_meta.entities@.len() ==> #[trigger] ps[a].prefab_meta.entities@[i].0
            != #[trigger] ps[b].prefab_meta.entities@[j].0
}

pub(crate) proof fn lemma_entity_image_keys(ents: Seq<(EntityUuid, Entity)>, w: World, start: int, u: EntityUuid)
    ensures
        entity_image(ents, w, start).contains_key(u) ==> exists|i: int| 0 <= i < ents.len() && (#[trigger] ents[i]).0 == u,
    decreases ents.len(),
{
    if ents.len() > 0 {
        lemma_entity_image_keys(ents.drop_last(), w, start, u);
        if entity_image(ents.drop_last(), w, start).contains_key(u) {
            let i = choose|i: int| 0 <= i < ents.len() - 1 && (#[trigger] ents.drop_last()[i]).0 == u;
            assert(ents[i].0 == u);
        }
        if u == ents.last().0 {
            assert(ents[ents.len() - 1].0 == u);
        }
    }
}

pub(crate) proof fn lemma_entity_image_entry(ents: Seq<(EntityUuid, Entity)>, w: World, start: int, i: int)
    requires
        keys_unique(ents),
        0 <= i < ents.len(),
        w@.contains_key(ents[i].1),
    ensures
        entity_image(ents, w, start).contains_key(ents[i].0),
        entity_image(ents, w, start)[ents[i].0] == (start + w.position_of(ents[i].1)) as u64,
    decreases ents.len(),
{
    if i < ents.len() - 1 {
        let d = ents.drop_last();
        assert(keys_unique(d)) by {
            assert forall|a: int, b: int| 0 <= a < d.len() && 0 <= b < d.len() && a != b implies #[trigger] d[a].0
                != #[trigger] d[b].0 by {
                assert(d[a] == ents[a] && d[b] == ents[b]);
            }
        }
        assert(d[i] == ents[i]);
        lemma_entity_image_entry(d, w, start, i);
        assert(ents.last().0 != ents[i].0);
    }
}

proof fn lemma_merged_entities_keys(ps: Seq<Prefab>, k: int, u: EntityUuid)
    requires
        0 <= k <= ps.len(),
    ensures
        merged_entities(ps, k).contains_key(u) ==> exists|a: int, i: int| 0 <= a < k && 0 <= i < ps[a].prefab_meta.entities@.len()
            && (#[trigger] ps[a].prefab_meta.entities@[i]).0 == u,
    decreases k,
{
    if k > 0 {
        lemma_merged_entities_keys(ps, k - 1, u);
        let p = ps[k - 1];
        lemma_entity_image_keys(p.prefab_meta.entities@, p.world, offset(ps, k - 1), u);
        if entity_image(p.prefab_meta.entities@, p.world, offset(ps, k - 1)).contains_key(u) {
            let i = choose|i: int| 0 <= i < p.prefab_meta.entities@.len() && (#[trigger] p.prefab_meta.entities@[i]).0 == u;
            assert(ps[k - 1].prefab_meta.entities@[i].0 == u);
        }
    }
}

/// Every entity of a cooked world is named: when each prefab's naming covers its world and
/// no identity is named by two prefabs, each entity the prefabs' worlds are merged into is
/// the cooked entity of some identity.
pub proof fn lemma_cooked_entities_cover_world(ps: Seq<Prefab>)
    requires
        forall|i: int| 0 <= i < ps.len() ==> (#[trigger] ps[i]).wf(),
        offset(ps, ps.len() as int) <= u64::MAX,
        entity_ids_disjoint(ps),
    ensures
        forall|e: Entity| #[trigger] merged_world(ps, ps.len() as int).contains_key(e) ==> exists|u: EntityUuid|
            #[trigger] merged_entities(ps, ps.len() as int).contains_key(u) && merged_entities(ps, ps.len() as int)[u] == e,
{
    lemma_cover_upto(ps, ps.len() as int);
}

proof fn lemma_cover_upto(ps: Seq<Prefab>, k: int)
    requires
        0 <= k <= ps.len(),
        forall|i: int| 0 <= i < ps.len() ==> (#[trigger] ps[i]).wf(),
        offset(ps, ps.len() as int) <= u64::MAX,
        entity_ids_disjoint(ps),
    ensures
        forall|e: Entity| #[trigger] merged_world(ps, k).contains_key(e) ==> exists|u: EntityUuid|
            #[trigger] merged_entities(ps, k).contains_key(u) && merged_entities(ps, k)[u] == e,
    decreases k,
{
    if k > 0 {
        lemma_cover_upto(ps, k - 1);
        let p = ps[k - 1];
        let off = offset(ps, k - 1);
        lemma_offset_mono(ps, k, ps.len() as int);
        assert(offset(ps, k) == off + p.world.spec_len());
        lemma_offset_mono(ps, 0, k - 1);
        p.world.lemma_clone_image(off as u64);
        let img = entity_image(p.prefab_meta.entities@, p.world, off);
        assert forall|e: Entity| #[trigger] merged_world(ps, k).contains_key(e) implies exists|u: EntityUuid|
            #[trigger] merged_entities(ps, k).contains_key(u) && merged_entities(ps, k)[u] == e by {
            if p.world.clone_image(off as u64).contains_key(e) {
                let pos = e - off;
                let h = p.world.handle_at(pos);
                p.world.lemma_positions(h);
                assert(p.world@.contains_key(h));
                let s = p.prefab_meta.entities@;
                let i = choose|i: int| 0 <= i < s.len() && #[trigger] s[i].1 == h;
                lemma_entity_image_entry(s, p.world, off, i);
                assert(img[s[i].0] == e);
                assert(merged_entities(ps, k).contains_key(s[i].0) && merged_entities(ps, k)[s[i].0] == e);
            } else {
                assert(merged_world(ps, k - 1).contains_key(e));
                let u = choose|u: EntityUuid| #[trigger] merged_entities(ps, k - 1).contains_key(u) && merged_entities(ps, k - 1)[u] == e;
                lemma_merged_entities_keys(ps, k - 1, u);
                lemma_entity_image_keys(p.prefab_meta.entities@, p.world, off, u);
                if img.contains_key(u) {
                    let (a, i) = choose|a: int, i: int| 0 <= a < k - 1 && 0 <= i < ps[a].prefab_meta.entities@.len()
                        && (#[trigger] ps[a].prefab_meta.entities@[i]).0 == u;
                    let j = choose|j: int| 0 <= j < p.prefab_meta.entities@.len() && (#[trigger] p.prefab_meta.entities@[j]).0 == u;
                    assert(ps[a].prefab_meta.entities@[i].0 != ps[k - 1].prefab_meta.entities@[j].0);
                }
                assert(merged_entities(ps, k).contains_key(u) && merged_entities(ps, k)[u] == e);
            }
        }
    }
}

/// Embedding a prefab without overrides changes nothing: cooking a prefab that has no
/// entities of its own and whose references carry no overrides, together with a prefab it
/// embeds, gives the embedded prefab's world copied on its own, with its naming, and
/// nothing left to apply.
pub proof fn lemma_cook_without_overrides(a: Prefab, b: Prefab, reg: ComponentRegistry)
    requires
        a.wf(),
        b.wf(),
        a.world@ == Map::<Entity, Map<ComponentTypeUuid, Seq<u8>>>::empty(),
        a.prefab_meta.entities@.len() == 0,
        forall|i: int| 0 <= i < a.prefab_meta.prefab_refs@.len() ==> (#[trigger] a.prefab_meta.prefab_refs@[i]).1.overrides@.len() == 0,
        forall|i: int| 0 <= i < b.prefab_meta.prefab_refs@.len() ==> (#[trigger] b.prefab_meta.prefab_refs@[i]).1.overrides@.len() == 0,
    ensures
        ({
            let ps = seq![b, a];
            let ents = merged_entities(ps, 2);
            &&& merged_world(ps, 2) == b.world.clone_image(0)
            &&& ents == entity_image(b.prefab_meta.entities@, b.world, 0)
            &&& plan_order(ents, seq![b.prefab_meta.id, a.prefab_meta.id], ps, reg) == Ok::<Seq<PendingOverride>, CookError>(Seq::empty())
        }),
{
    let ps = seq![b, a];
    a.world.lemma_empty();
    assert(ps[0] == b && ps[1] == a);
    assert(offset(ps, 0) == 0);
    assert(offset(ps, 1) == b.world.spec_len());
    assert(merged_world(ps, 0) == Map::<Entity, Map<ComponentTypeUuid, Seq<u8>>>::empty());
    assert(merged_world(ps, 1) == merged_world(ps, 0).union_prefer_right(b.world.clone_image(0)));
    assert(merged_world(ps, 1) =~= b.world.clone_image(0));
    assert(merged_world(ps, 2) =~= b.world.clone_image(0));
    assert(entity_image(a.prefab_meta.entities@, a.world, offset(ps, 1)) == Map::<EntityUuid, Entity>::empty());
    assert(merged_entities(ps, 0) == Map::<EntityUuid, Entity>::empty());
    assert(merged_entities(ps, 1) == merged_entities(ps, 0).union_prefer_right(entity_image(b.prefab_meta.entities@, b.world, 0)));
    assert(merged_entities(ps, 1) =~= entity_image(b.prefab_meta.entities@, b.world, 0));
    assert(merged_entities(ps, 2) =~= entity_image(b.prefab_meta.entities@, b.world, 0));
    let ents = merged_entities(ps, 2);
    lemma_plan_refs_empty(ents, a.prefab_meta.prefab_refs@, reg);
    lemma_plan_refs_empty(ents, b.prefab_meta.prefab_refs@, reg);
    let order = seq![b.prefab_meta.id, a.prefab_meta.id];
    assert(order.drop_last() =~= seq![b.prefab_meta.id]);
    assert(order.drop_last().drop_last() =~= Seq::<PrefabUuid>::empty());
    let e0 = Seq::<PendingOverride>::empty();
    assert(e0 + e0 =~= e0);
    lemma_lookup_bound(ps, b.prefab_meta.id);
    lemma_lookup_bound(ps, a.prefab_meta.id);
    let lb = lookup_prefab(ps, b.prefab_meta.id);
    let la = lookup_prefab(ps, a.prefab_meta.id);
    assert(lb is Some) by {
        assert(ps.last() == a);
        if a.prefab_meta.id != b.prefab_meta.id {
            assert(ps.drop_last() =~= seq![b]);
            assert(seq![b].last() == b);
            assert(lookup_prefab(seq![b], b.prefab_meta.id) is Some);
        }
    }
    assert(la is Some);
    let ib = lb->Some_0;
    let ia = la->Some_0;
    assert(ps[ib] == a || ps[ib] == b);
    assert(ps[ia] == a || ps[ia] == b);
    assert(plan_refs(ents, ps[ib].prefab_meta.prefab_refs@, reg) == Ok::<Seq<PendingOverride>, CookError>(e0));
    assert(plan_refs(ents, ps[ia].prefab_meta.prefab_refs@, reg) == Ok::<Seq<PendingOverride>, CookError>(e0));
    assert(plan_order(ents, order.drop_last().drop_last(), ps, reg) == Ok::<Seq<PendingOverride>, CookError>(e0));
    assert(order.drop_last().last() == b.prefab_meta.id);
    assert(plan_order(ents, order.drop_last(), ps, reg) == Ok::<Seq<PendingOverride>, CookError>(e0));
    assert(order.last() == a.prefab_meta.id);
}

proof fn lemma_plan_refs_empty(ents: Map<EntityUuid, Entity>, refs: Seq<(PrefabUuid, PrefabRef)>, reg: ComponentRegistry)
    requires
        forall|i: int| 0 <= i < refs.len() ==> (#[trigger] refs[i]).1.overrides@.len() == 0,
    ensures
        plan_refs(ents, refs, reg) == Ok::<Seq<PendingOverride>, CookError>(Seq::empty()),
    decreases refs.len(),
{
    if refs.len() > 0 {
        let d = refs.drop_last();
        assert forall|i: int| 0 <= i < d.len() implies (#[trigger] d[i]).1.overrides@.len() == 0 by {
            assert(d[i] == refs[i]);
        }
        lemma_plan_refs_empty(ents, d, reg);
        assert(refs.last().1.overrides@.len() == 0);
        assert(plan_entities(ents, refs.last().1.overrides@, reg) == Ok::<Seq<PendingOverride>, CookError>(Seq::empty()));
        assert(Seq::<PendingOverride>::empty() + Seq::<PendingOverride>::empty() =~= Seq::<PendingOverride>::empty());
    }
}

} // verus!
