use vstd::prelude::*;

use crate::component_diffs::{apply_component_ops, apply_entity_ops, ComponentDiff, ComponentDiffOp, DiffState, EntityDiff, EntityDiffOp};
use crate::ids::{ComponentTypeUuid, Entity, EntityUuid};
use crate::registration::{ComponentRegistry, DiffSingleResult};
use crate::cooking::{entity_image, lemma_entity_image_entry, lemma_entity_image_keys};
use crate::pairs::{keys_unique, lemma_pairs_view_dom, lemma_pairs_view_entry, pairs_view};
use crate::transactions::{
    diffs_made, fresh_handles, ids_fit_spec, op_fits, outcome_of, pair_diffs, registry_types, removed_uuids, type_diffs, value_in,
    with_new_entities, Transaction, TransactionEntityInfo,
};
use crate::world::{handles, World};
use crate::component_diffs::apply_diff_spec;

verus! {

/// A changed component: entity identity, component type, value before and after.
pub type Change = (EntityUuid, ComponentTypeUuid, Option<Seq<u8>>, Option<Seq<u8>>);

/// The component diffs describe the changes one by one, from before to after.
pub open spec fn ops_fit<F: Fn(ComponentTypeUuid, Vec<u8>, Vec<u8>) -> Vec<u8>>(
    differ: F,
    ops: Seq<ComponentDiff>,
    pd: Seq<Change>,
) -> bool {
    &&& ops.len() == pd.len()
    &&& forall|k: int| 0 <= k < pd.len() ==> {
        &&& (#[trigger] ops[k]).spec_entity_uuid() == pd[k].0
        &&& ops[k].spec_component_type() == pd[k].1
        &&& op_fits(differ, pd[k].1, ops[k].spec_op(), pd[k].2, pd[k].3)
    }
}

/// No entity identity and component type occur twice.
pub open spec fn changes_distinct(pd: Seq<Change>) -> bool {
    forall|a: int, b: int| 0 <= a < pd.len() && 0 <= b < pd.len() && a != b ==> (#[trigger] pd[a].0 != #[trigger] pd[b].0 || pd[a].1 != pd[b].1)
}

/// The value a change leaves once its diff is applied: the value after, except for a
/// structural patch, which is set aside and leaves the value before.
pub open spec fn settled(c: Change) -> Option<Seq<u8>> {
    if outcome_of(c.2, c.3) == DiffSingleResult::Change {
        c.2
    } else {
        c.3
    }
}

/// Whether a change names this entity of the state and this type.
pub open spec fn touches(st: DiffState, c: Change, e: Entity, t: ComponentTypeUuid) -> bool {
    st.2.contains_key(c.0) && st.2[c.0] == e && c.1 == t
}

/// The state fits the changes: each named entity is in the world with its value before,
/// and distinct identities name distinct entities.
pub open spec fn state_fits(st: DiffState, pd: Seq<Change>, reg: ComponentRegistry) -> bool {
    &&& forall|k: int| 0 <= k < pd.len() ==> reg.has_uuid((#[trigger] pd[k]).1)
    &&& forall|k: int| 0 <= k < pd.len() && st.2.contains_key((#[trigger] pd[k]).0) ==> st.0.contains_key(st.2[pd[k].0])
        && value_in(st.0, Some(st.2[pd[k].0]), pd[k].1) == pd[k].2
    &&& forall|a: int, b: int|
        0 <= a < pd.len() && 0 <= b < pd.len() && st.2.contains_key((#[trigger] pd[a]).0) && st.2.contains_key((#[trigger] pd[b]).0)
            && pd[a].0 != pd[b].0 ==> st.2[pd[a].0] != st.2[pd[b].0]
}

/// Applying the component diffs of distinct changes to a state that fits them settles each
/// change on its entity and leaves everything else as it was.
pub proof fn lemma_component_ops_settle<F: Fn(ComponentTypeUuid, Vec<u8>, Vec<u8>) -> Vec<u8>>(
    differ: F,
    st: DiffState,
    ops: Seq<ComponentDiff>,
    pd: Seq<Change>,
    reg: ComponentRegistry,
)
    requires
        ops_fit(differ, ops, pd),
        changes_distinct(pd),
        state_fits(st, pd, reg),
    ensures
        ({
            let f = apply_component_ops(st, ops, reg);
            &&& f.1 == st.1
            &&& f.2 == st.2
            &&& f.0.dom() == st.0.dom()
            &&& forall|k: int| 0 <= k < pd.len() && st.2.contains_key((#[trigger] pd[k]).0) ==> value_in(f.0, Some(st.2[pd[k].0]), pd[k].1) == settled(pd[k])
            &&& forall|e: Entity, t: ComponentTypeUuid|
                (forall|k: int| 0 <= k < pd.len() ==> !touches(st, #[trigger] pd[k], e, t)) ==> #[trigger] value_in(f.0, Some(e), t) == value_in(st.0, Some(e), t)
        }),
    decreases ops.len(),
{
    if ops.len() > 0 {
        let n = ops.len() - 1;
        let ops0 = ops.drop_last();
        let pd0 = pd.drop_last();
        assert forall|k: int| 0 <= k < pd0.len() implies {
            &&& (#[trigger] ops0[k]).spec_entity_uuid() == pd0[k].0
            &&& ops0[k].spec_component_type() == pd0[k].1
            &&& op_fits(differ, pd0[k].1, ops0[k].spec_op(), pd0[k].2, pd0[k].3)
        } by {
            assert(ops0[k] == ops[k] && pd0[k] == pd[k]);
        }
        assert(changes_distinct(pd0)) by {
            assert forall|a: int, b: int| 0 <= a < pd0.len() && 0 <= b < pd0.len() && a != b implies (#[trigger] pd0[a].0
                != #[trigger] pd0[b].0 || pd0[a].1 != pd0[b].1) by {
                assert(pd0[a] == pd[a] && pd0[b] == pd[b]);
            }
        }
        assert(state_fits(st, pd0, reg)) by {
            assert forall|k: int| 0 <= k < pd0.len() implies reg.has_uuid((#[trigger] pd0[k]).1) by {
                assert(pd0[k] == pd[k]);
            }
            assert forall|k: int| 0 <= k < pd0.len() && st.2.contains_key((#[trigger] pd0[k]).0) implies st.0.contains_key(st.2[pd0[k].0])
                && value_in(st.0, Some(st.2[pd0[k].0]), pd0[k].1) == pd0[k].2 by {
                assert(pd0[k] == pd[k]);
            }
            assert forall|a: int, b: int|
                0 <= a < pd0.len() && 0 <= b < pd0.len() && st.2.contains_key((#[trigger] pd0[a]).0) && st.2.contains_key((#[trigger] pd0[b]).0)
                    && pd0[a].0 != pd0[b].0 implies st.2[pd0[a].0] != st.2[pd0[b].0] by {
                assert(pd0[a] == pd[a] && pd0[b] == pd[b]);
            }
        }
        lemma_component_ops_settle(differ, st, ops0, pd0, reg);
        let f0 = apply_component_ops(st, ops0, reg);
        let f = apply_component_ops(st, ops, reg);
        let c = pd[n];
        let d = ops[n];
        assert(ops.last() == d);
        assert(d.spec_entity_uuid() == c.0 && d.spec_component_type() == c.1);
        assert(op_fits(differ, c.1, d.spec_op(), c.2, c.3));
        if st.2.contains_key(c.0) {
            let e = st.2[c.0];
            let t = c.1;
            // The last change is untouched by the earlier ones.
            assert forall|k: int| 0 <= k < pd0.len() implies !touches(st, #[trigger] pd0[k], e, t) by {
                assert(pd0[k] == pd[k]);
                if touches(st, pd0[k], e, t) {
                    assert(pd[k].0 != pd[n].0 || pd[k].1 != pd[n].1);
                }
            }
            assert(value_in(f0.0, Some(e), t) == c.2);
            assert(f0.0.contains_key(e));
            assert(reg.has_uuid(t));
            assert forall|k: int| 0 <= k < pd.len() && st.2.contains_key((#[trigger] pd[k]).0) implies value_in(f.0, Some(st.2[pd[k].0]), pd[k].1)
                == settled(pd[k]) by {
                if k < n {
                    assert(pd0[k] == pd[k]);
                    assert(pd[k].0 != c.0 || pd[k].1 != t);
                }
            }
            assert forall|e2: Entity, t2: ComponentTypeUuid|
                (forall|k: int| 0 <= k < pd.len() ==> !touches(st, #[trigger] pd[k], e2, t2)) implies #[trigger] value_in(f.0, Some(e2), t2)
                == value_in(st.0, Some(e2), t2) by {
                assert(!touches(st, pd[n], e2, t2));
                assert forall|k: int| 0 <= k < pd0.len() implies !touches(st, #[trigger] pd0[k], e2, t2) by {
                    assert(pd0[k] == pd[k]);
                    assert(!touches(st, pd[k], e2, t2));
                }
                assert(value_in(f0.0, Some(e2), t2) == value_in(st.0, Some(e2), t2));
                assert(e2 != e || t2 != t);
                match d.spec_op() {
                    ComponentDiffOp::Change(_) => {
                        assert(f.0 == f0.0);
                    },
                    ComponentDiffOp::Add(bytes) => {
                        assert(f.0 == f0.0.insert(e, f0.0[e].insert(t, bytes@)));
                        assert(value_in(f.0, Some(e2), t2) == value_in(f0.0, Some(e2), t2));
                    },
                    ComponentDiffOp::Remove => {
                        assert(f.0 == f0.0.insert(e, f0.0[e].remove(t)));
                        assert(value_in(f.0, Some(e2), t2) == value_in(f0.0, Some(e2), t2));
                    },
                }
            }
            assert(f.0.dom() =~= st.0.dom());
        } else {
            assert(f == f0);
            assert forall|k: int| 0 <= k < pd.len() && st.2.contains_key((#[trigger] pd[k]).0) implies value_in(f.0, Some(st.2[pd[k].0]), pd[k].1)
                == settled(pd[k]) by {
                assert(k < n);
                assert(pd0[k] == pd[k]);
            }
            assert forall|e2: Entity, t2: ComponentTypeUuid|
                (forall|k: int| 0 <= k < pd.len() ==> !touches(st, #[trigger] pd[k], e2, t2)) implies #[trigger] value_in(f.0, Some(e2), t2)
                == value_in(st.0, Some(e2), t2) by {
                assert forall|k: int| 0 <= k < pd0.len() implies !touches(st, #[trigger] pd0[k], e2, t2) by {
                    assert(pd0[k] == pd[k]);
                    assert(!touches(st, pd[k], e2, t2));
                }
            }
        }
    }
}

/// The change a tracked entity and a type give, compared between two worlds.
pub open spec fn change_of(
    u: EntityUuid,
    info: TransactionEntityInfo,
    t: ComponentTypeUuid,
    bw: Map<Entity, Map<ComponentTypeUuid, Seq<u8>>>,
    aw: Map<Entity, Map<ComponentTypeUuid, Seq<u8>>>,
) -> Change {
    (u, t, value_in(bw, info.spec_before(), t), value_in(aw, info.spec_after(), t))
}

proof fn lemma_td_origin(
    u: EntityUuid,
    info: TransactionEntityInfo,
    types: Seq<ComponentTypeUuid>,
    bw: Map<Entity, Map<ComponentTypeUuid, Seq<u8>>>,
    aw: Map<Entity, Map<ComponentTypeUuid, Seq<u8>>>,
)
    ensures
        forall|k: int| 0 <= k < type_diffs(u, info, types, bw, aw).len() ==> types.contains((#[trigger] type_diffs(u, info, types, bw, aw)[k]).1)
            && type_diffs(u, info, types, bw, aw)[k] == change_of(u, info, type_diffs(u, info, types, bw, aw)[k].1, bw, aw),
        types.no_duplicates() ==> changes_distinct(type_diffs(u, info, types, bw, aw)),
        forall|k: int| 0 <= k < type_diffs(u, info, types, bw, aw).len() ==> outcome_of(
            (#[trigger] type_diffs(u, info, types, bw, aw)[k]).2,
            type_diffs(u, info, types, bw, aw)[k].3,
        ) != DiffSingleResult::NoChange,
    decreases types.len(),
{
    if types.len() > 0 {
        let d = types.drop_last();
        lemma_td_origin(u, info, d, bw, aw);
        let p = type_diffs(u, info, d, bw, aw);
        let q = type_diffs(u, info, types, bw, aw);
        let t = types.last();
        assert forall|k: int| 0 <= k < q.len() implies types.contains((#[trigger] q[k]).1) && q[k] == change_of(u, info, q[k].1, bw, aw) by {
            if k < p.len() {
                assert(q[k] == p[k]);
                assert(d.contains(p[k].1));
                let j = choose|j: int| 0 <= j < d.len() && d[j] == p[k].1;
                assert(types[j] == d[j]);
            } else {
                assert(types[types.len() - 1] == t);
            }
        }
        if types.no_duplicates() {
            assert forall|a: int, b: int| 0 <= a < q.len() && 0 <= b < q.len() && a != b implies (#[trigger] q[a].0 != #[trigger] q[b].0
                || q[a].1 != q[b].1) by {
                if a < p.len() && b < p.len() {
                    assert(d.no_duplicates()) by {
                        assert forall|x: int, y: int| 0 <= x < d.len() && 0 <= y < d.len() && x != y implies d[x] != d[y] by {
                            assert(d[x] == types[x] && d[y] == types[y]);
                        }
                    }
                    assert(q[a] == p[a] && q[b] == p[b]);
                } else if a < p.len() || b < p.len() {
                    let x = if a < p.len() { a } else { b };
                    assert(q[x] == p[x]);
                    assert(d.contains(p[x].1));
                    let j = choose|j: int| 0 <= j < d.len() && d[j] == p[x].1;
                    assert(types[j] == d[j]);
                    assert(types[j] != types[types.len() - 1]);
                }
            }
        }
        assert forall|k: int| 0 <= k < q.len() implies outcome_of((#[trigger] q[k]).2, q[k].3) != DiffSingleResult::NoChange by {
            if k < p.len() {
                assert(q[k] == p[k]);
            }
        }
    }
}

proof fn lemma_td_complete(
    u: EntityUuid,
    info: TransactionEntityInfo,
    types: Seq<ComponentTypeUuid>,
    j: int,
    bw: Map<Entity, Map<ComponentTypeUuid, Seq<u8>>>,
    aw: Map<Entity, Map<ComponentTypeUuid, Seq<u8>>>,
)
    requires
        0 <= j < types.len(),
        outcome_of(change_of(u, info, types[j], bw, aw).2, change_of(u, info, types[j], bw, aw).3) != DiffSingleResult::NoChange,
    ensures
        exists|k: int| 0 <= k < type_diffs(u, info, types, bw, aw).len() && #[trigger] type_diffs(u, info, types, bw, aw)[k]
            == change_of(u, info, types[j], bw, aw),
    decreases types.len(),
{
    let d = types.drop_last();
    let q = type_diffs(u, info, types, bw, aw);
    if j == types.len() - 1 {
        assert(q[q.len() - 1] == change_of(u, info, types[j], bw, aw));
    } else {
        assert(d[j] == types[j]);
        lemma_td_complete(u, info, d, j, bw, aw);
        let p = type_diffs(u, info, d, bw, aw);
        let k = choose|k: int| 0 <= k < p.len() && #[trigger] p[k] == change_of(u, info, d[j], bw, aw);
        assert(q[k] == p[k]);
    }
}

proof fn lemma_keys_unique_prefix(all: Seq<(EntityUuid, TransactionEntityInfo)>)
    requires
        crate::pairs::keys_unique(all),
        all.len() > 0,
    ensures
        crate::pairs::keys_unique(all.drop_last()),
        !crate::pairs::pairs_view(all.drop_last()).contains_key(all.last().0),
        crate::pairs::pairs_view(all) == crate::pairs::pairs_view(all.drop_last()).insert(all.last().0, all.last().1),
{
    let d = all.drop_last();
    assert forall|a: int, b: int| 0 <= a < d.len() && 0 <= b < d.len() && a != b implies #[trigger] d[a].0 != #[trigger] d[b].0 by {
        assert(d[a] == all[a] && d[b] == all[b]);
    }
    crate::pairs::lemma_pairs_view_dom(d, all.last().0);
    if crate::pairs::pairs_view(d).contains_key(all.last().0) {
        let i = choose|i: int| 0 <= i < d.len() && #[trigger] d[i].0 == all.last().0;
        assert(all[i].0 == all[all.len() - 1].0);
    }
}

/// Each change of `pair_diffs` is the change of a tracked entity and one of the types.
proof fn lemma_pd_origin(
    all: Seq<(EntityUuid, TransactionEntityInfo)>,
    types: Seq<ComponentTypeUuid>,
    bw: Map<Entity, Map<ComponentTypeUuid, Seq<u8>>>,
    aw: Map<Entity, Map<ComponentTypeUuid, Seq<u8>>>,
)
    requires
        crate::pairs::keys_unique(all),
    ensures
        forall|k: int| 0 <= k < pair_diffs(all, types, bw, aw).len() ==> {
            let c = #[trigger] pair_diffs(all, types, bw, aw)[k];
            &&& crate::pairs::pairs_view(all).contains_key(c.0)
            &&& types.contains(c.1)
            &&& c == change_of(c.0, crate::pairs::pairs_view(all)[c.0], c.1, bw, aw)
            &&& outcome_of(c.2, c.3) != DiffSingleResult::NoChange
        },
    decreases all.len(),
{
    if all.len() > 0 {
        let d = all.drop_last();
        lemma_keys_unique_prefix(all);
        lemma_pd_origin(d, types, bw, aw);
        let (u, info) = all.last();
        lemma_td_origin(u, info, types, bw, aw);
        let p = pair_diffs(d, types, bw, aw);
        let q = type_diffs(u, info, types, bw, aw);
        let pd = pair_diffs(all, types, bw, aw);
        assert(pd == p + q);
        let m = crate::pairs::pairs_view(all);
        assert forall|k: int| 0 <= k < pd.len() implies {
            let c = #[trigger] pd[k];
            &&& m.contains_key(c.0)
            &&& types.contains(c.1)
            &&& c == change_of(c.0, m[c.0], c.1, bw, aw)
            &&& outcome_of(c.2, c.3) != DiffSingleResult::NoChange
        } by {
            if k < p.len() {
                assert(pd[k] == p[k]);
                assert(p[k].0 != u);
            } else {
                assert(pd[k] == q[k - p.len()]);
            }
        }
    }
}

/// The changes of `pair_diffs` are distinct.
proof fn lemma_pd_distinct(
    all: Seq<(EntityUuid, TransactionEntityInfo)>,
    types: Seq<ComponentTypeUuid>,
    bw: Map<Entity, Map<ComponentTypeUuid, Seq<u8>>>,
    aw: Map<Entity, Map<ComponentTypeUuid, Seq<u8>>>,
)
    requires
        crate::pairs::keys_unique(all),
        types.no_duplicates(),
    ensures
        changes_distinct(pair_diffs(all, types, bw, aw)),
    decreases all.len(),
{
    if all.len() > 0 {
        let d = all.drop_last();
        lemma_keys_unique_prefix(all);
        lemma_pd_distinct(d, types, bw, aw);
        lemma_pd_origin(d, types, bw, aw);
        let (u, info) = all.last();
        lemma_td_origin(u, info, types, bw, aw);
        let p = pair_diffs(d, types, bw, aw);
        let q = type_diffs(u, info, types, bw, aw);
        let pd = pair_diffs(all, types, bw, aw);
        assert(pd == p + q);
        assert forall|a: int, b: int| 0 <= a < pd.len() && 0 <= b < pd.len() && a != b implies (#[trigger] pd[a].0 != #[trigger] pd[b].0
            || pd[a].1 != pd[b].1) by {
            if a < p.len() && b < p.len() {
                assert(pd[a] == p[a] && pd[b] == p[b]);
            } else if a >= p.len() && b >= p.len() {
                assert(pd[a] == q[a - p.len()] && pd[b] == q[b - p.len()]);
            } else {
                let x = if a < p.len() { a } else { b };
                let y = if a < p.len() { b } else { a };
                assert(pd[x] == p[x]);
                assert(pd[y] == q[y - p.len()]);
                assert(crate::pairs::pairs_view(d).contains_key(p[x].0));
            }
        }
    }
}

/// Every tracked entity and type whose component changed has its change in `pair_diffs`.
proof fn lemma_pd_complete(
    all: Seq<(EntityUuid, TransactionEntityInfo)>,
    types: Seq<ComponentTypeUuid>,
    i: int,
    j: int,
    bw: Map<Entity, Map<ComponentTypeUuid, Seq<u8>>>,
    aw: Map<Entity, Map<ComponentTypeUuid, Seq<u8>>>,
)
    requires
        0 <= i < all.len(),
        0 <= j < types.len(),
        outcome_of(change_of(all[i].0, all[i].1, types[j], bw, aw).2, change_of(all[i].0, all[i].1, types[j], bw, aw).3)
            != DiffSingleResult::NoChange,
    ensures
        exists|k: int| 0 <= k < pair_diffs(all, types, bw, aw).len() && #[trigger] pair_diffs(all, types, bw, aw)[k]
            == change_of(all[i].0, all[i].1, types[j], bw, aw),
    decreases all.len(),
{
    let d = all.drop_last();
    let (u, info) = all.last();
    let p = pair_diffs(d, types, bw, aw);
    let q = type_diffs(u, info, types, bw, aw);
    let pd = pair_diffs(all, types, bw, aw);
    assert(pd == p + q);
    if i < all.len() - 1 {
        assert(d[i] == all[i]);
        lemma_pd_complete(d, types, i, j, bw, aw);
        let k = choose|k: int| 0 <= k < p.len() && #[trigger] p[k] == change_of(d[i].0, d[i].1, types[j], bw, aw);
        assert(pd[k] == p[k]);
    } else {
        lemma_td_complete(u, info, types, j, bw, aw);
        let k = choose|k: int| 0 <= k < q.len() && #[trigger] q[k] == change_of(u, info, types[j], bw, aw);
        assert(pd[p.len() + k] == q[k]);
    }
}

/// Handles of distinct identities are distinct, are in the world, and are below the next
/// handle, as is every handle of the world.
pub open spec fn handles_sound(st: DiffState) -> bool {
    &&& forall|u: EntityUuid| #[trigger] st.2.contains_key(u) ==> st.0.contains_key(st.2[u])
    &&& forall|u1: EntityUuid, u2: EntityUuid| #[trigger] st.2.contains_key(u1) && #[trigger] st.2.contains_key(u2) && u1 != u2 ==> st.2[u1] != st.2[u2]
    &&& forall|e: Entity| #[trigger] st.0.contains_key(e) ==> e < st.1
    &&& 0 <= st.1
}

proof fn lemma_removes(st0: DiffState, ae: Seq<EntityDiff>, rem: Seq<EntityUuid>, k: int)
    requires
        0 <= k <= rem.len() <= ae.len(),
        forall|x: int| 0 <= x < rem.len() ==> (#[trigger] ae[x]).spec_entity_uuid() == rem[x] && ae[x].spec_op() == EntityDiffOp::Remove,
        handles_sound(st0),
    ensures
        ({
            let f = apply_entity_ops(st0, ae.take(k));
            &&& f.1 == st0.1
            &&& handles_sound(f)
            &&& forall|u: EntityUuid| #[trigger] f.2.contains_key(u) <==> st0.2.contains_key(u) && !rem.take(k).contains(u)
            &&& forall|u: EntityUuid| #[trigger] f.2.contains_key(u) ==> f.2[u] == st0.2[u] && f.0[f.2[u]] == st0.0[st0.2[u]]
            &&& forall|e: Entity| #[trigger] f.0.contains_key(e) ==> st0.0.contains_key(e)
        }),
    decreases k,
{
    if k == 0 {
        assert(ae.take(0) =~= Seq::<EntityDiff>::empty());
        assert(apply_entity_ops(st0, ae.take(0)) == st0);
        assert forall|u: EntityUuid| !rem.take(0).contains(u) by {}
    } else {
        lemma_removes(st0, ae, rem, k - 1);
        let g = apply_entity_ops(st0, ae.take(k - 1));
        assert(ae.take(k).drop_last() =~= ae.take(k - 1));
        assert(ae.take(k).last() == ae[k - 1]);
        let f = apply_entity_ops(st0, ae.take(k));
        let u0 = rem[k - 1];
        assert(rem.take(k) =~= rem.take(k - 1).push(u0));
        assert forall|u: EntityUuid| rem.take(k).contains(u) <==> rem.take(k - 1).contains(u) || u == u0 by {
            if rem.take(k).contains(u) {
                let x = choose|x: int| 0 <= x < rem.take(k).len() && #[trigger] rem.take(k)[x] == u;
                if x < k - 1 {
                    assert(rem.take(k - 1)[x] == u);
                }
            }
            if rem.take(k - 1).contains(u) {
                let x = choose|x: int| 0 <= x < rem.take(k - 1).len() && #[trigger] rem.take(k - 1)[x] == u;
                assert(rem.take(k)[x] == u);
            }
            if u == u0 {
                assert(rem.take(k)[k - 1] == u);
            }
        }
        if g.2.contains_key(u0) {
            assert(f == (g.0.remove(g.2[u0]), g.1, g.2.remove(u0), g.3));
            assert forall|u: EntityUuid| #[trigger] f.2.contains_key(u) implies f.2[u] == st0.2[u] && f.0[f.2[u]] == st0.0[st0.2[u]] by {
                assert(g.2.contains_key(u) && u != u0);
                assert(g.2[u] != g.2[u0]);
            }
            assert forall|u: EntityUuid| #[trigger] f.2.contains_key(u) implies f.0.contains_key(f.2[u]) by {
                assert(g.2[u] != g.2[u0]);
            }
        } else {
            assert(f == g);
        }
    }
}

proof fn lemma_adds(sr: DiffState, st0: DiffState, ae: Seq<EntityDiff>, r: int, ids: Seq<EntityUuid>, j: int)
    requires
        0 <= j <= ids.len(),
        ae.len() >= r + ids.len(),
        0 <= r,
        sr == apply_entity_ops(st0, ae.take(r)),
        forall|x: int| 0 <= x < ids.len() ==> (#[trigger] ae[r + x]).spec_entity_uuid() == ids[x] && ae[r + x].spec_op() == EntityDiffOp::Add,
        handles_sound(sr),
        ids.no_duplicates(),
        forall|x: int| 0 <= x < ids.len() ==> !sr.2.contains_key(#[trigger] ids[x]),
        sr.1 + ids.len() <= u64::MAX,
    ensures
        ({
            let f = apply_entity_ops(st0, ae.take(r + j));
            &&& f.1 == sr.1 + j
            &&& handles_sound(f)
            &&& forall|u: EntityUuid| #[trigger] f.2.contains_key(u) <==> sr.2.contains_key(u) || ids.take(j).contains(u)
            &&& forall|u: EntityUuid| #[trigger] sr.2.contains_key(u) ==> f.2[u] == sr.2[u] && f.0[f.2[u]] == sr.0[sr.2[u]]
            &&& forall|x: int| 0 <= x < j ==> f.2[#[trigger] ids[x]] == (sr.1 + x) as u64 && f.0[f.2[ids[x]]] == Map::<ComponentTypeUuid, Seq<u8>>::empty()
        }),
    decreases j,
{
    if j == 0 {
        assert forall|u: EntityUuid| !ids.take(0).contains(u) by {}
    } else {
        lemma_adds(sr, st0, ae, r, ids, j - 1);
        let g = apply_entity_ops(st0, ae.take(r + j - 1));
        assert(ae.take(r + j).drop_last() =~= ae.take(r + j - 1));
        assert(ae.take(r + j).last() == ae[r + j - 1]);
        assert(ae[r + (j - 1)].spec_entity_uuid() == ids[j - 1]);
        let f = apply_entity_ops(st0, ae.take(r + j));
        let h = g.1 as u64;
        let u0 = ids[j - 1];
        assert(f == (g.0.insert(h, Map::empty()), g.1 + 1, g.2.insert(u0, h), g.3));
        assert(!g.0.contains_key(h));
        assert forall|u: EntityUuid| ids.take(j).contains(u) <==> ids.take(j - 1).contains(u) || u == u0 by {
            if ids.take(j).contains(u) {
                let x = choose|x: int| 0 <= x < ids.take(j).len() && #[trigger] ids.take(j)[x] == u;
                if x < j - 1 {
                    assert(ids.take(j - 1)[x] == u);
                }
            }
            if ids.take(j - 1).contains(u) {
                let x = choose|x: int| 0 <= x < ids.take(j - 1).len() && #[trigger] ids.take(j - 1)[x] == u;
                assert(ids.take(j)[x] == u);
            }
            if u == u0 {
                assert(ids.take(j)[j - 1] == u);
            }
        }
        assert(!g.2.contains_key(u0)) by {
            assert(!sr.2.contains_key(ids[j - 1]));
            if ids.take(j - 1).contains(u0) {
                let x = choose|x: int| 0 <= x < ids.take(j - 1).len() && #[trigger] ids.take(j - 1)[x] == u0;
                assert(ids[x] == ids[j - 1]);
            }
        }
        assert forall|u1: EntityUuid, u2: EntityUuid| #[trigger] f.2.contains_key(u1) && #[trigger] f.2.contains_key(u2) && u1 != u2 implies f.2[u1]
            != f.2[u2] by {
            if u1 != u0 && u2 != u0 {
            } else if u1 == u0 {
                assert(g.0.contains_key(g.2[u2]));
            } else {
                assert(g.0.contains_key(g.2[u1]));
            }
        }
        assert forall|x: int| 0 <= x < j implies f.2[#[trigger] ids[x]] == (sr.1 + x) as u64 && f.0[f.2[ids[x]]] == Map::<ComponentTypeUuid, Seq<u8>>::empty() by {
            if x < j - 1 {
                assert(ids[x] != u0);
                assert(ids.take(j - 1).contains(ids[x])) by {
                    assert(ids.take(j - 1)[x] == ids[x]);
                }
                assert(g.2.contains_key(ids[x]));
                assert(g.0.contains_key(g.2[ids[x]]));
            }
        }
        assert forall|u: EntityUuid| #[trigger] sr.2.contains_key(u) implies f.2[u] == sr.2[u] && f.0[f.2[u]] == sr.0[sr.2[u]] by {
            assert(g.2.contains_key(u));
            assert(g.0.contains_key(g.2[u]));
        }
    }
}

/// A transaction as begun: every tracked entity has its own entity in the before world and
/// its own entity (then) in the after world.
pub open spec fn begun(tx: Transaction) -> bool {
    let s = tx.spec_entities();
    &&& forall|i: int| 0 <= i < s.len() ==> (#[trigger] s[i]).1.spec_before() is Some && tx.spec_before_world()@.contains_key(
        s[i].1.spec_before()->Some_0,
    ) && s[i].1.spec_after() is Some
    &&& forall|i: int, j: int| 0 <= i < s.len() && 0 <= j < s.len() && i != j ==> (#[trigger] s[i]).1.spec_before() != (#[trigger] s[j]).1.spec_before()
        && s[i].1.spec_after() != s[j].1.spec_after()
}

/// The tracked entities with their before-world entities.
pub open spec fn before_pairs(s: Seq<(EntityUuid, TransactionEntityInfo)>) -> Seq<(EntityUuid, Entity)> {
    s.map_values(|p: (EntityUuid, TransactionEntityInfo)| (p.0, p.1.spec_before()->Some_0))
}

proof fn lemma_registry_types(reg: ComponentRegistry)
    requires
        reg.wf(),
    ensures
        registry_types(reg).no_duplicates(),
        forall|t: ComponentTypeUuid| registry_types(reg).contains(t) <==> reg.has_uuid(t),
{
    let ts = registry_types(reg);
    assert forall|a: int, b: int| 0 <= a < ts.len() && 0 <= b < ts.len() && a != b implies ts[a] != ts[b] by {
        assert(ts[a] == reg@[a].spec_uuid() && ts[b] == reg@[b].spec_uuid());
    }
    assert forall|t: ComponentTypeUuid| ts.contains(t) <==> reg.has_uuid(t) by {
        if ts.contains(t) {
            let j = choose|j: int| 0 <= j < ts.len() && ts[j] == t;
            assert(reg@[j].spec_uuid() == t);
        }
        if reg.has_uuid(t) {
            let j = choose|j: int| 0 <= j < reg@.len() && #[trigger] reg@[j].spec_uuid() == t;
            assert(ts[j] == t);
        }
    }
}

proof fn lemma_removed_tracked(s: Seq<(EntityUuid, TransactionEntityInfo)>, aw: Map<Entity, Map<ComponentTypeUuid, Seq<u8>>>)
    ensures
        forall|k: int| 0 <= k < removed_uuids(s, aw).len() ==> pairs_view(s).contains_key(#[trigger] removed_uuids(s, aw)[k]),
    decreases s.len(),
{
    if s.len() > 0 {
        let d = s.drop_last();
        lemma_removed_tracked(d, aw);
        let r = removed_uuids(s, aw);
        let r0 = removed_uuids(d, aw);
        assert forall|k: int| 0 <= k < r.len() implies pairs_view(s).contains_key(#[trigger] r[k]) by {
            if k < r0.len() {
                assert(r[k] == r0[k]);
                assert(pairs_view(d).contains_key(r0[k]));
            }
        }
    }
}

/// The tracked entities once new ones are named have unique identities, and each keeps
/// its information.
proof fn lemma_all_entities(tx: Transaction, ids: Seq<EntityUuid>)
    requires
        tx.wf(),
        ids_fit_spec(tx, ids),
    ensures
        ({
            let s = tx.spec_entities();
            let fresh = fresh_handles(handles(tx.spec_after_world()), s);
            let all = with_new_entities(s, fresh, ids);
            &&& keys_unique(all)
            &&& all.len() == s.len() + ids.len()
            &&& forall|i: int| 0 <= i < s.len() ==> #[trigger] all[i] == s[i]
            &&& forall|x: int| 0 <= x < ids.len() ==> #[trigger] all[s.len() + x] == (ids[x], TransactionEntityInfo { before_entity: None, after_entity: Some(fresh[x]) })
            &&& forall|i: int| 0 <= i < all.len() ==> pairs_view(all).contains_key(all[i].0) && pairs_view(all)[(#[trigger] all[i]).0] == all[i].1
            &&& forall|u: EntityUuid| #[trigger] pairs_view(all).contains_key(u) <==> pairs_view(s).contains_key(u) || ids.contains(u)
        }),
{
    let s = tx.spec_entities();
    let fresh = fresh_handles(handles(tx.spec_after_world()), s);
    let all = with_new_entities(s, fresh, ids);
    let n = s.len() as int;
    assert forall|a: int, b: int| 0 <= a < all.len() && 0 <= b < all.len() && a != b implies #[trigger] all[a].0 != #[trigger] all[b].0 by {
        if a >= n && b >= n {
            assert(all[a].0 == ids[a - n] && all[b].0 == ids[b - n]);
        } else if a >= n {
            assert(all[a].0 == ids[a - n]);
            assert(all[b] == s[b]);
            lemma_pairs_view_dom(s, all[a].0);
        } else if b >= n {
            assert(all[b].0 == ids[b - n]);
            assert(all[a] == s[a]);
            lemma_pairs_view_dom(s, all[b].0);
        } else {
            assert(all[a] == s[a] && all[b] == s[b]);
        }
    }
    assert forall|i: int| 0 <= i < all.len() implies pairs_view(all).contains_key(all[i].0) && pairs_view(all)[(#[trigger] all[i]).0] == all[i].1 by {
        lemma_pairs_view_entry(all, i);
    }
    assert forall|u: EntityUuid| #[trigger] pairs_view(all).contains_key(u) <==> pairs_view(s).contains_key(u) || ids.contains(u) by {
        lemma_pairs_view_dom(all, u);
        lemma_pairs_view_dom(s, u);
        if pairs_view(all).contains_key(u) {
            let i = choose|i: int| 0 <= i < all.len() && #[trigger] all[i].0 == u;
            if i < n {
                assert(s[i].0 == u);
            } else {
                assert(ids[i - n] == u);
            }
        }
        if pairs_view(s).contains_key(u) {
            let i = choose|i: int| 0 <= i < s.len() && #[trigger] s[i].0 == u;
            assert(all[i].0 == u);
        }
        if ids.contains(u) {
            let x = choose|x: int| 0 <= x < ids.len() && ids[x] == u;
            assert(all[n + x].0 == u);
        }
    }
}

/// The state a diff is applied to, copied from a transaction's before world.
pub open spec fn start_state(tx: Transaction) -> DiffState {
    let w = tx.spec_before_world();
    (w.clone_image(0), w.spec_len() as int, entity_image(before_pairs(tx.spec_entities()), w, 0), Seq::empty())
}

proof fn lemma_start_state(tx: Transaction)
    requires
        tx.wf(),
        begun(tx),
        tx.spec_before_world().spec_len() <= u64::MAX,
    ensures
        ({
            let st0 = start_state(tx);
            let s = tx.spec_entities();
            let w = tx.spec_before_world();
            &&& handles_sound(st0)
            &&& forall|u: EntityUuid| #[trigger] st0.2.contains_key(u) <==> pairs_view(s).contains_key(u)
            &&& forall|i: int| 0 <= i < s.len() ==> st0.0[st0.2[(#[trigger] s[i]).0]] == w@[s[i].1.spec_before()->Some_0]
        }),
{
    let st0 = start_state(tx);
    let s = tx.spec_entities();
    let w = tx.spec_before_world();
    let bp = before_pairs(s);
    assert(keys_unique(bp)) by {
        assert forall|a: int, b: int| 0 <= a < bp.len() && 0 <= b < bp.len() && a != b implies #[trigger] bp[a].0 != #[trigger] bp[b].0 by {
            assert(bp[a].0 == s[a].0 && bp[b].0 == s[b].0);
        }
    }
    w.lemma_clone_image(0);
    assert forall|i: int| 0 <= i < s.len() implies st0.2.contains_key((#[trigger] s[i]).0) && st0.2[s[i].0] == w.position_of(
        s[i].1.spec_before()->Some_0,
    ) && 0 <= w.position_of(s[i].1.spec_before()->Some_0) < w.spec_len() && w.handle_at(w.position_of(s[i].1.spec_before()->Some_0))
        == s[i].1.spec_before()->Some_0 by {
        assert(bp[i] == (s[i].0, s[i].1.spec_before()->Some_0));
        lemma_entity_image_entry(bp, w, 0, i);
        w.lemma_positions(s[i].1.spec_before()->Some_0);
    }
    assert forall|u: EntityUuid| #[trigger] st0.2.contains_key(u) <==> pairs_view(s).contains_key(u) by {
        lemma_entity_image_keys(bp, w, 0, u);
        lemma_pairs_view_dom(s, u);
        if st0.2.contains_key(u) {
            let i = choose|i: int| 0 <= i < bp.len() && (#[trigger] bp[i]).0 == u;
            assert(s[i].0 == u);
        }
        if pairs_view(s).contains_key(u) {
            let i = choose|i: int| 0 <= i < s.len() && #[trigger] s[i].0 == u;
            assert(st0.2.contains_key(s[i].0));
        }
    }
    assert forall|u: EntityUuid| #[trigger] st0.2.contains_key(u) implies st0.0.contains_key(st0.2[u]) by {
        lemma_pairs_view_dom(s, u);
        let i = choose|i: int| 0 <= i < s.len() && #[trigger] s[i].0 == u;
        assert(st0.2.contains_key(s[i].0));
    }
    assert forall|u1: EntityUuid, u2: EntityUuid| #[trigger] st0.2.contains_key(u1) && #[trigger] st0.2.contains_key(u2) && u1 != u2 implies st0.2[u1]
        != st0.2[u2] by {
        lemma_pairs_view_dom(s, u1);
        lemma_pairs_view_dom(s, u2);
        let i = choose|i: int| 0 <= i < s.len() && #[trigger] s[i].0 == u1;
        let j = choose|j: int| 0 <= j < s.len() && #[trigger] s[j].0 == u2;
        assert(st0.2.contains_key(s[i].0) && st0.2.contains_key(s[j].0));
        assert(i != j);
        assert(s[i].1.spec_before() != s[j].1.spec_before());
    }
    assert forall|i: int| 0 <= i < s.len() implies st0.0[st0.2[(#[trigger] s[i]).0]] == w@[s[i].1.spec_before()->Some_0] by {
        assert(st0.2.contains_key(s[i].0));
        let p = w.position_of(s[i].1.spec_before()->Some_0);
        assert(st0.0[(0 + p) as u64] == w@[w.handle_at(p)]);
    }
}

/// After the entity diffs of a transaction's apply diff: the tracked entities the after
/// world kept and the new ones are there, each in the world with its value before.
proof fn lemma_apply_entity_phase<F: Fn(ComponentTypeUuid, Vec<u8>, Vec<u8>) -> Vec<u8>>(
    tx: Transaction,
    reg: ComponentRegistry,
    ids: Seq<EntityUuid>,
    differ: F,
    d: crate::transactions::TransactionDiffs,
)
    requires
        tx.wf(),
        begun(tx),
        diffs_made(tx, reg, ids, differ, d),
        tx.spec_before_world().spec_len() + d.spec_apply().spec_entity_diffs().len() < u64::MAX,
    ensures
        ({
            let s = tx.spec_entities();
            let bw = tx.spec_before_world()@;
            let aw = tx.spec_after_world()@;
            let fresh = fresh_handles(handles(tx.spec_after_world()), s);
            let all = with_new_entities(s, fresh, ids);
            let rem = removed_uuids(s, aw);
            let sa = apply_entity_ops(start_state(tx), d.spec_apply().spec_entity_diffs());
            &&& handles_sound(sa)
            &&& forall|u: EntityUuid| #[trigger] sa.2.contains_key(u) <==> pairs_view(all).contains_key(u) && !rem.contains(u)
            &&& forall|u: EntityUuid, t: ComponentTypeUuid| #[trigger] sa.2.contains_key(u) ==> #[trigger] value_in(sa.0, Some(sa.2[u]), t)
                == value_in(bw, pairs_view(all)[u].spec_before(), t)
        }),
{
    let s = tx.spec_entities();
    let bw = tx.spec_before_world()@;
    let aw = tx.spec_after_world()@;
    let fresh = fresh_handles(handles(tx.spec_after_world()), s);
    let all = with_new_entities(s, fresh, ids);
    let rem = removed_uuids(s, aw);
    let ae = d.spec_apply().spec_entity_diffs();
    let st0 = start_state(tx);
    let r = rem.len() as int;
    let n = tx.spec_before_world().spec_len();
    lemma_start_state(tx);
    lemma_all_entities(tx, ids);
    lemma_removed_tracked(s, aw);
    lemma_removes(st0, ae, rem, r);
    let sr = apply_entity_ops(st0, ae.take(r));
    assert(rem.take(r) =~= rem);
    assert forall|x: int| 0 <= x < ids.len() implies !sr.2.contains_key(#[trigger] ids[x]) by {
        if sr.2.contains_key(ids[x]) {
            assert(st0.2.contains_key(ids[x]));
        }
    }
    lemma_adds(sr, st0, ae, r, ids, ids.len() as int);
    assert(ae.take(r + ids.len()) =~= ae);
    let sa = apply_entity_ops(st0, ae);
    assert(ids.take(ids.len() as int) =~= ids);
    assert forall|u: EntityUuid| #[trigger] sa.2.contains_key(u) <==> pairs_view(all).contains_key(u) && !rem.contains(u) by {
        if ids.contains(u) && rem.contains(u) {
            let k = choose|k: int| 0 <= k < rem.len() && rem[k] == u;
            assert(pairs_view(s).contains_key(rem[k]));
            let x = choose|x: int| 0 <= x < ids.len() && ids[x] == u;
            assert(!pairs_view(s).contains_key(ids[x]));
        }
    }
    assert forall|u: EntityUuid, t: ComponentTypeUuid| #[trigger] sa.2.contains_key(u) implies #[trigger] value_in(sa.0, Some(sa.2[u]), t)
        == value_in(bw, pairs_view(all)[u].spec_before(), t) by {
        if sr.2.contains_key(u) {
            assert(st0.2.contains_key(u));
            lemma_pairs_view_dom(s, u);
            let i = choose|i: int| 0 <= i < s.len() && #[trigger] s[i].0 == u;
            assert(all[i] == s[i]);
            assert(pairs_view(all)[all[i].0] == all[i].1);
            assert(st0.0[st0.2[s[i].0]] == bw[s[i].1.spec_before()->Some_0]);
            assert(sa.0.contains_key(sa.2[u]));
        } else {
            assert(ids.contains(u));
            let x = choose|x: int| 0 <= x < ids.len() && ids[x] == u;
            assert(sa.2[ids[x]] == (sr.1 + x) as u64);
            assert(all[s.len() + x].0 == u);
            assert(pairs_view(all)[all[s.len() + x].0] == all[s.len() + x].1);
        }
    }
}

/// Applying a transaction's diff to its before world, each tracked entity named by its
/// before-world entity, gives its after world: the same entities by identity (those the
/// after world lost are gone, the new ones are there) and, for every registered component
/// type of each, the value the after world holds; a structural patch is set aside for the
/// caller to apply with the component's codec, and leaves the value before until then.
pub proof fn lemma_apply_reaches_after<F: Fn(ComponentTypeUuid, Vec<u8>, Vec<u8>) -> Vec<u8>>(
    tx: Transaction,
    reg: ComponentRegistry,
    ids: Seq<EntityUuid>,
    differ: F,
    d: crate::transactions::TransactionDiffs,
)
    requires
        tx.wf(),
        reg.wf(),
        begun(tx),
        diffs_made(tx, reg, ids, differ, d),
        tx.spec_before_world().spec_len() + d.spec_apply().spec_entity_diffs().len() < u64::MAX,
    ensures
        ({
            let s = tx.spec_entities();
            let bw = tx.spec_before_world()@;
            let aw = tx.spec_after_world()@;
            let all = with_new_entities(s, fresh_handles(handles(tx.spec_after_world()), s), ids);
            let rem = removed_uuids(s, aw);
            let st = apply_diff_spec(tx.spec_before_world(), before_pairs(s), d.spec_apply(), reg);
            &&& forall|u: EntityUuid| #[trigger] st.2.contains_key(u) <==> pairs_view(all).contains_key(u) && !rem.contains(u)
            &&& forall|u: EntityUuid, t: ComponentTypeUuid| st.2.contains_key(u) && reg.has_uuid(t) ==> #[trigger] value_in(st.0, Some(st.2[u]), t)
                == settled(change_of(u, pairs_view(all)[u], t, bw, aw))
        }),
{
    let s = tx.spec_entities();
    let bw = tx.spec_before_world()@;
    let aw = tx.spec_after_world()@;
    let all = with_new_entities(s, fresh_handles(handles(tx.spec_after_world()), s), ids);
    let types = registry_types(reg);
    let pd = pair_diffs(all, types, bw, aw);
    let ac = d.spec_apply().spec_component_diffs();
    lemma_apply_entity_phase(tx, reg, ids, differ, d);
    lemma_all_entities(tx, ids);
    lemma_registry_types(reg);
    lemma_pd_distinct(all, types, bw, aw);
    lemma_pd_origin(all, types, bw, aw);
    let sa = apply_entity_ops(start_state(tx), d.spec_apply().spec_entity_diffs());
    assert(ops_fit(differ, ac, pd));
    assert(state_fits(sa, pd, reg)) by {
        assert forall|k: int| 0 <= k < pd.len() implies reg.has_uuid((#[trigger] pd[k]).1) by {
            assert(types.contains(pd[k].1));
        }
        assert forall|k: int| 0 <= k < pd.len() && sa.2.contains_key((#[trigger] pd[k]).0) implies sa.0.contains_key(sa.2[pd[k].0])
            && value_in(sa.0, Some(sa.2[pd[k].0]), pd[k].1) == pd[k].2 by {
            assert(value_in(sa.0, Some(sa.2[pd[k].0]), pd[k].1) == value_in(bw, pairs_view(all)[pd[k].0].spec_before(), pd[k].1));
        }
    }
    lemma_component_ops_settle(differ, sa, ac, pd, reg);
    let st = apply_component_ops(sa, ac, reg);
    assert(st == apply_diff_spec(tx.spec_before_world(), before_pairs(s), d.spec_apply(), reg));
    assert forall|u: EntityUuid, t: ComponentTypeUuid| st.2.contains_key(u) && reg.has_uuid(t) implies #[trigger] value_in(st.0, Some(st.2[u]), t)
        == settled(change_of(u, pairs_view(all)[u], t, bw, aw)) by {
        let e = sa.2[u];
        let c = change_of(u, pairs_view(all)[u], t, bw, aw);
        lemma_pairs_view_dom(all, u);
        let i = choose|i: int| 0 <= i < all.len() && #[trigger] all[i].0 == u;
        assert(pairs_view(all)[all[i].0] == all[i].1);
        assert(types.contains(t));
        let j = choose|j: int| 0 <= j < types.len() && types[j] == t;
        assert(c == change_of(all[i].0, all[i].1, types[j], bw, aw));
        assert(value_in(sa.0, Some(sa.2[u]), t) == value_in(bw, pairs_view(all)[u].spec_before(), t));
        if outcome_of(c.2, c.3) != DiffSingleResult::NoChange {
            lemma_pd_complete(all, types, i, j, bw, aw);
            let k = choose|k: int| 0 <= k < pd.len() && #[trigger] pd[k] == change_of(all[i].0, all[i].1, types[j], bw, aw);
            assert(sa.2.contains_key(pd[k].0));
        } else {
            assert forall|k: int| 0 <= k < pd.len() implies !touches(sa, #[trigger] pd[k], e, t) by {
                if touches(sa, pd[k], e, t) {
                    assert(pd[k].0 == u);
                    assert(pd[k] == change_of(u, pairs_view(all)[u], t, bw, aw));
                }
            }
            assert(value_in(st.0, Some(e), t) == value_in(sa.0, Some(e), t));
        }
    }
}

/// The state a diff is applied to: a world copied, its entities named through `ps`.
pub open spec fn copy_state(w: World, ps: Seq<(EntityUuid, Entity)>) -> DiffState {
    (w.clone_image(0), w.spec_len() as int, entity_image(ps, w, 0), Seq::empty())
}

/// Copying a world keeps, for each identity whose entity it holds, that entity's
/// components, and names distinct entities distinctly.
proof fn lemma_copy_state(w: World, ps: Seq<(EntityUuid, Entity)>)
    requires
        w.wf(),
        w.spec_len() <= u64::MAX,
        keys_unique(ps),
        crate::prefab::values_unique(ps),
    ensures
        ({
            let st0 = copy_state(w, ps);
            &&& handles_sound(st0)
            &&& forall|u: EntityUuid| #[trigger] st0.2.contains_key(u) <==> pairs_view(ps).contains_key(u) && w@.contains_key(pairs_view(ps)[u])
            &&& forall|u: EntityUuid| #[trigger] st0.2.contains_key(u) ==> st0.0[st0.2[u]] == w@[pairs_view(ps)[u]]
        }),
{
    let st0 = copy_state(w, ps);
    w.lemma_clone_image(0);
    assert forall|i: int| 0 <= i < ps.len() && w@.contains_key((#[trigger] ps[i]).1) implies st0.2.contains_key(ps[i].0) && st0.2[ps[i].0]
        == w.position_of(ps[i].1) && 0 <= w.position_of(ps[i].1) < w.spec_len() && w.handle_at(w.position_of(ps[i].1)) == ps[i].1 by {
        lemma_entity_image_entry(ps, w, 0, i);
        w.lemma_positions(ps[i].1);
    }
    assert forall|u: EntityUuid| #[trigger] st0.2.contains_key(u) <==> pairs_view(ps).contains_key(u) && w@.contains_key(pairs_view(ps)[u]) by {
        lemma_entity_image_keys(ps, w, 0, u);
        lemma_pairs_view_dom(ps, u);
        if st0.2.contains_key(u) {
            let i = choose|i: int| 0 <= i < ps.len() && (#[trigger] ps[i]).0 == u;
            lemma_pairs_view_entry(ps, i);
            lemma_entity_image_has_handle(ps, w, u);
        }
        if pairs_view(ps).contains_key(u) && w@.contains_key(pairs_view(ps)[u]) {
            let i = choose|i: int| 0 <= i < ps.len() && #[trigger] ps[i].0 == u;
            lemma_pairs_view_entry(ps, i);
            assert(st0.2.contains_key(ps[i].0));
        }
    }
    assert forall|u: EntityUuid| #[trigger] st0.2.contains_key(u) implies st0.0.contains_key(st0.2[u]) && st0.0[st0.2[u]] == w@[pairs_view(ps)[u]] by {
        lemma_pairs_view_dom(ps, u);
        let i = choose|i: int| 0 <= i < ps.len() && #[trigger] ps[i].0 == u;
        lemma_pairs_view_entry(ps, i);
        assert(st0.2.contains_key(ps[i].0));
        let p = w.position_of(ps[i].1);
        assert(st0.0[(0 + p) as u64] == w@[w.handle_at(p)]);
    }
    assert forall|u1: EntityUuid, u2: EntityUuid| #[trigger] st0.2.contains_key(u1) && #[trigger] st0.2.contains_key(u2) && u1 != u2 implies st0.2[u1]
        != st0.2[u2] by {
        lemma_pairs_view_dom(ps, u1);
        lemma_pairs_view_dom(ps, u2);
        let i = choose|i: int| 0 <= i < ps.len() && #[trigger] ps[i].0 == u1;
        let j = choose|j: int| 0 <= j < ps.len() && #[trigger] ps[j].0 == u2;
        lemma_pairs_view_entry(ps, i);
        lemma_pairs_view_entry(ps, j);
        assert(st0.2.contains_key(ps[i].0) && st0.2.contains_key(ps[j].0));
        assert(i != j);
        assert(ps[i].1 != ps[j].1);
    }
}

proof fn lemma_entity_image_has_handle(ps: Seq<(EntityUuid, Entity)>, w: World, u: EntityUuid)
    requires
        keys_unique(ps),
        entity_image(ps, w, 0).contains_key(u),
    ensures
        pairs_view(ps).contains_key(u),
        w@.contains_key(pairs_view(ps)[u]),
    decreases ps.len(),
{
    let d = ps.drop_last();
    assert(keys_unique(d)) by {
        assert forall|a: int, b: int| 0 <= a < d.len() && 0 <= b < d.len() && a != b implies #[trigger] d[a].0 != #[trigger] d[b].0 by {
            assert(d[a] == ps[a] && d[b] == ps[b]);
        }
    }
    if ps.last().0 == u {
        lemma_entity_image_keys(d, w, 0, u);
        if entity_image(d, w, 0).contains_key(u) {
            let i = choose|i: int| 0 <= i < d.len() && (#[trigger] d[i]).0 == u;
            assert(ps[i].0 == ps[ps.len() - 1].0);
        }
        assert(w@.contains_key(ps.last().1));
        lemma_pairs_view_entry(ps, ps.len() - 1);
    } else {
        lemma_entity_image_has_handle(d, w, u);
    }
}

proof fn lemma_removes_at(sb: DiffState, st0: DiffState, ae: Seq<EntityDiff>, b: int, rem: Seq<EntityUuid>, k: int)
    requires
        0 <= b,
        0 <= k <= rem.len(),
        b + rem.len() <= ae.len(),
        sb == apply_entity_ops(st0, ae.take(b)),
        forall|x: int| 0 <= x < rem.len() ==> (#[trigger] ae[b + x]).spec_entity_uuid() == rem[x] && ae[b + x].spec_op() == EntityDiffOp::Remove,
        handles_sound(sb),
    ensures
        ({
            let f = apply_entity_ops(st0, ae.take(b + k));
            &&& f.1 == sb.1
            &&& handles_sound(f)
            &&& forall|u: EntityUuid| #[trigger] f.2.contains_key(u) <==> sb.2.contains_key(u) && !rem.take(k).contains(u)
            &&& forall|u: EntityUuid| #[trigger] f.2.contains_key(u) ==> f.2[u] == sb.2[u] && f.0[f.2[u]] == sb.0[sb.2[u]]
        }),
    decreases k,
{
    if k == 0 {
        assert forall|u: EntityUuid| !rem.take(0).contains(u) by {}
    } else {
        lemma_removes_at(sb, st0, ae, b, rem, k - 1);
        let g = apply_entity_ops(st0, ae.take(b + k - 1));
        assert(ae.take(b + k).drop_last() =~= ae.take(b + k - 1));
        assert(ae.take(b + k).last() == ae[b + k - 1]);
        assert(ae[b + (k - 1)].spec_entity_uuid() == rem[k - 1]);
        let f = apply_entity_ops(st0, ae.take(b + k));
        let u0 = rem[k - 1];
        assert forall|u: EntityUuid| rem.take(k).contains(u) <==> rem.take(k - 1).contains(u) || u == u0 by {
            if rem.take(k).contains(u) {
                let x = choose|x: int| 0 <= x < rem.take(k).len() && #[trigger] rem.take(k)[x] == u;
                if x < k - 1 {
                    assert(rem.take(k - 1)[x] == u);
                }
            }
            if rem.take(k - 1).contains(u) {
                let x = choose|x: int| 0 <= x < rem.take(k - 1).len() && #[trigger] rem.take(k - 1)[x] == u;
                assert(rem.take(k)[x] == u);
            }
            if u == u0 {
                assert(rem.take(k)[k - 1] == u);
            }
        }
        if g.2.contains_key(u0) {
            assert(f == (g.0.remove(g.2[u0]), g.1, g.2.remove(u0), g.3));
            assert forall|u: EntityUuid| #[trigger] f.2.contains_key(u) implies f.2[u] == sb.2[u] && f.0[f.2[u]] == sb.0[sb.2[u]] by {
                assert(g.2.contains_key(u) && u != u0);
                assert(g.2[u] != g.2[u0]);
            }
            assert forall|u: EntityUuid| #[trigger] f.2.contains_key(u) implies f.0.contains_key(f.2[u]) by {
                assert(g.2[u] != g.2[u0]);
            }
        } else {
            assert(f == g);
        }
    }
}

/// The removed identities are the tracked ones whose after-world entity is gone, each once.
proof fn lemma_removed_shape(s: Seq<(EntityUuid, TransactionEntityInfo)>, aw: Map<Entity, Map<ComponentTypeUuid, Seq<u8>>>)
    requires
        keys_unique(s),
    ensures
        removed_uuids(s, aw).no_duplicates(),
        forall|u: EntityUuid| #[trigger] removed_uuids(s, aw).contains(u) <==> pairs_view(s).contains_key(u) && pairs_view(s)[u].spec_after() is Some
            && !aw.contains_key(pairs_view(s)[u].spec_after()->Some_0),
    decreases s.len(),
{
    if s.len() > 0 {
        let d = s.drop_last();
        assert(keys_unique(d)) by {
            assert forall|a: int, b: int| 0 <= a < d.len() && 0 <= b < d.len() && a != b implies #[trigger] d[a].0 != #[trigger] d[b].0 by {
                assert(d[a] == s[a] && d[b] == s[b]);
            }
        }
        lemma_removed_shape(d, aw);
        let r = removed_uuids(s, aw);
        let r0 = removed_uuids(d, aw);
        let (u0, info) = s.last();
        lemma_pairs_view_dom(d, u0);
        assert(!pairs_view(d).contains_key(u0)) by {
            if pairs_view(d).contains_key(u0) {
                let i = choose|i: int| 0 <= i < d.len() && #[trigger] d[i].0 == u0;
                assert(s[i].0 == s[s.len() - 1].0);
            }
        }
        assert(pairs_view(s) == pairs_view(d).insert(u0, info));
        assert(r0.no_duplicates());
        assert forall|u: EntityUuid| #[trigger] r.contains(u) <==> r0.contains(u) || (u == u0 && info.spec_after() is Some && !aw.contains_key(
            info.spec_after()->Some_0,
        )) by {
            if r.contains(u) {
                let x = choose|x: int| 0 <= x < r.len() && r[x] == u;
                if x < r0.len() {
                    assert(r0[x] == u);
                }
            }
            if r0.contains(u) {
                let x = choose|x: int| 0 <= x < r0.len() && r0[x] == u;
                assert(r[x] == u);
            }
            if u == u0 && info.spec_after() is Some && !aw.contains_key(info.spec_after()->Some_0) {
                assert(r[r.len() - 1] == u);
            }
        }
        assert(r.no_duplicates()) by {
            assert forall|a: int, b: int| 0 <= a < r.len() && 0 <= b < r.len() && a != b implies r[a] != r[b] by {
                if a < r0.len() && b < r0.len() {
                    assert(r[a] == r0[a] && r[b] == r0[b]);
                } else if a < r0.len() {
                    assert(r[a] == r0[a]);
                    assert(r0.contains(r0[a]));
                } else if b < r0.len() {
                    assert(r[b] == r0[b]);
                    assert(r0.contains(r0[b]));
                }
            }
        }
    }
}

/// A change seen the other way round.
pub open spec fn swap(c: Change) -> Change {
    (c.0, c.1, c.3, c.2)
}

/// A world, its entities named through `ps`, holds what a transaction's after world holds:
/// exactly the tracked entities the after world kept and the new ones, each with the after
/// value of every registered component type.
pub open spec fn holds_after(
    tx: Transaction,
    reg: ComponentRegistry,
    ids: Seq<EntityUuid>,
    w: World,
    ps: Seq<(EntityUuid, Entity)>,
) -> bool {
    let s = tx.spec_entities();
    let aw = tx.spec_after_world()@;
    let all = with_new_entities(s, fresh_handles(handles(tx.spec_after_world()), s), ids);
    let rem = removed_uuids(s, aw);
    &&& forall|u: EntityUuid| #[trigger] pairs_view(all).contains_key(u) && !rem.contains(u) ==> pairs_view(ps).contains_key(u) && w@.contains_key(
        pairs_view(ps)[u],
    )
    &&& forall|u: EntityUuid| #[trigger] pairs_view(ps).contains_key(u) && w@.contains_key(pairs_view(ps)[u]) ==> pairs_view(all).contains_key(u)
        && !rem.contains(u)
    &&& forall|u: EntityUuid, t: ComponentTypeUuid|
        pairs_view(ps).contains_key(u) && w@.contains_key(pairs_view(ps)[u]) && reg.has_uuid(t) ==> #[trigger] value_in(w@, Some(pairs_view(ps)[u]), t)
            == value_in(aw, pairs_view(all)[u].spec_after(), t)
}

proof fn lemma_revert_entity_phase<F: Fn(ComponentTypeUuid, Vec<u8>, Vec<u8>) -> Vec<u8>>(
    tx: Transaction,
    reg: ComponentRegistry,
    ids: Seq<EntityUuid>,
    differ: F,
    d: crate::transactions::TransactionDiffs,
    w: World,
    ps: Seq<(EntityUuid, Entity)>,
)
    requires
        tx.wf(),
        begun(tx),
        diffs_made(tx, reg, ids, differ, d),
        w.wf(),
        w.spec_len() + d.spec_revert().spec_entity_diffs().len() < u64::MAX,
        keys_unique(ps),
        crate::prefab::values_unique(ps),
        holds_after(tx, reg, ids, w, ps),
    ensures
        ({
            let s = tx.spec_entities();
            let aw = tx.spec_after_world()@;
            let all = with_new_entities(s, fresh_handles(handles(tx.spec_after_world()), s), ids);
            let rem = removed_uuids(s, aw);
            let sf = apply_entity_ops(copy_state(w, ps), d.spec_revert().spec_entity_diffs());
            &&& handles_sound(sf)
            &&& forall|u: EntityUuid| #[trigger] sf.2.contains_key(u) <==> pairs_view(s).contains_key(u)
            &&& forall|u: EntityUuid, t: ComponentTypeUuid| #[trigger] sf.2.contains_key(u) && reg.has_uuid(t) ==> #[trigger] value_in(
                sf.0,
                Some(sf.2[u]),
                t,
            ) == value_in(aw, pairs_view(all)[u].spec_after(), t)
        }),
{
    let s = tx.spec_entities();
    let aw = tx.spec_after_world()@;
    let fresh = fresh_handles(handles(tx.spec_after_world()), s);
    let all = with_new_entities(s, fresh, ids);
    let rem = removed_uuids(s, aw);
    let re = d.spec_revert().spec_entity_diffs();
    let st0 = copy_state(w, ps);
    let r = rem.len() as int;
    lemma_copy_state(w, ps);
    lemma_all_entities(tx, ids);
    lemma_removed_shape(s, aw);
    assert(re.take(0) =~= Seq::<EntityDiff>::empty());
    assert(apply_entity_ops(st0, re.take(0)) == st0);
    assert forall|x: int| 0 <= x < rem.len() implies !st0.2.contains_key(#[trigger] rem[x]) by {
        assert(rem.contains(rem[x]));
    }
    let ae = d.spec_apply().spec_entity_diffs();
    assert forall|x: int| 0 <= x < rem.len() implies (#[trigger] re[0 + x]).spec_entity_uuid() == rem[x] && re[0 + x].spec_op()
        == EntityDiffOp::Add by {
        assert(ae[x].spec_entity_uuid() == rem[x]);
    }
    assert forall|x: int| 0 <= x < ids.len() implies (#[trigger] re[r + x]).spec_entity_uuid() == ids[x] && re[r + x].spec_op()
        == EntityDiffOp::Remove by {
        assert(ae[r + x].spec_entity_uuid() == ids[x]);
    }
    lemma_adds(st0, st0, re, 0, rem, r);
    let sm = apply_entity_ops(st0, re.take(r));
    assert(rem.take(r) =~= rem);
    lemma_removes_at(sm, st0, re, r, ids, ids.len() as int);
    assert(re.take(r + ids.len()) =~= re);
    let sf = apply_entity_ops(st0, re);
    assert(ids.take(ids.len() as int) =~= ids);
    assert forall|u: EntityUuid| #[trigger] sf.2.contains_key(u) <==> pairs_view(s).contains_key(u) by {
        if pairs_view(s).contains_key(u) {
            if !rem.contains(u) {
                assert(pairs_view(all).contains_key(u));
                assert(st0.2.contains_key(u));
            }
            if ids.contains(u) {
                let x = choose|x: int| 0 <= x < ids.len() && ids[x] == u;
                assert(!pairs_view(s).contains_key(ids[x]));
            }
        }
    }
    assert forall|u: EntityUuid, t: ComponentTypeUuid| #[trigger] sf.2.contains_key(u) && reg.has_uuid(t) implies #[trigger] value_in(
        sf.0,
        Some(sf.2[u]),
        t,
    ) == value_in(aw, pairs_view(all)[u].spec_after(), t) by {
        lemma_pairs_view_dom(s, u);
        let i = choose|i: int| 0 <= i < s.len() && #[trigger] s[i].0 == u;
        assert(all[i] == s[i]);
        assert(pairs_view(all)[all[i].0] == all[i].1);
        lemma_pairs_view_entry(s, i);
        if st0.2.contains_key(u) {
            assert(value_in(w@, Some(pairs_view(ps)[u]), t) == value_in(aw, pairs_view(all)[u].spec_after(), t));
        } else {
            assert(rem.contains(u));
            let x = choose|x: int| 0 <= x < rem.len() && rem[x] == u;
            assert(sm.2[rem[x]] == (st0.1 + x) as u64);
        }
    }
}

/// Applying a transaction's revert diff to a world that holds the after world gives the
/// before world: the tracked entities by identity (the new ones gone, the lost ones back)
/// and, for every registered component type of each, the value the before world holds; a
/// structural patch is set aside for the caller to apply with the component's codec, and
/// leaves the after value until then.
pub proof fn lemma_revert_reaches_before<F: Fn(ComponentTypeUuid, Vec<u8>, Vec<u8>) -> Vec<u8>>(
    tx: Transaction,
    reg: ComponentRegistry,
    ids: Seq<EntityUuid>,
    differ: F,
    d: crate::transactions::TransactionDiffs,
    w: World,
    ps: Seq<(EntityUuid, Entity)>,
)
    requires
        tx.wf(),
        reg.wf(),
        begun(tx),
        diffs_made(tx, reg, ids, differ, d),
        w.wf(),
        w.spec_len() + d.spec_revert().spec_entity_diffs().len() < u64::MAX,
        keys_unique(ps),
        crate::prefab::values_unique(ps),
        holds_after(tx, reg, ids, w, ps),
    ensures
        ({
            let s = tx.spec_entities();
            let bw = tx.spec_before_world()@;
            let aw = tx.spec_after_world()@;
            let st = apply_diff_spec(w, ps, d.spec_revert(), reg);
            &&& forall|u: EntityUuid| #[trigger] st.2.contains_key(u) <==> pairs_view(s).contains_key(u)
            &&& forall|u: EntityUuid, t: ComponentTypeUuid| st.2.contains_key(u) && reg.has_uuid(t) ==> #[trigger] value_in(st.0, Some(st.2[u]), t)
                == settled(swap(change_of(u, pairs_view(s)[u], t, bw, aw)))
        }),
{
    let s = tx.spec_entities();
    let bw = tx.spec_before_world()@;
    let aw = tx.spec_after_world()@;
    let all = with_new_entities(s, fresh_handles(handles(tx.spec_after_world()), s), ids);
    let types = registry_types(reg);
    let pd = pair_diffs(all, types, bw, aw);
    let pd2 = pd.map_values(|c: Change| swap(c));
    let rc = d.spec_revert().spec_component_diffs();
    lemma_revert_entity_phase(tx, reg, ids, differ, d, w, ps);
    lemma_all_entities(tx, ids);
    lemma_registry_types(reg);
    lemma_pd_distinct(all, types, bw, aw);
    lemma_pd_origin(all, types, bw, aw);
    let sf = apply_entity_ops(copy_state(w, ps), d.spec_revert().spec_entity_diffs());
    assert(ops_fit(differ, rc, pd2)) by {
        assert forall|k: int| 0 <= k < pd2.len() implies {
            &&& (#[trigger] rc[k]).spec_entity_uuid() == pd2[k].0
            &&& rc[k].spec_component_type() == pd2[k].1
            &&& op_fits(differ, pd2[k].1, rc[k].spec_op(), pd2[k].2, pd2[k].3)
        } by {
            assert(pd2[k] == swap(pd[k]));
            let ac = d.spec_apply().spec_component_diffs();
            assert(ac[k].spec_entity_uuid() == pd[k].0);
        }
    }
    assert(changes_distinct(pd2)) by {
        assert forall|a: int, b: int| 0 <= a < pd2.len() && 0 <= b < pd2.len() && a != b implies (#[trigger] pd2[a].0 != #[trigger] pd2[b].0
            || pd2[a].1 != pd2[b].1) by {
            assert(pd2[a] == swap(pd[a]) && pd2[b] == swap(pd[b]));
        }
    }
    assert(state_fits(sf, pd2, reg)) by {
        assert forall|k: int| 0 <= k < pd2.len() implies reg.has_uuid((#[trigger] pd2[k]).1) by {
            assert(pd2[k] == swap(pd[k]));
            assert(types.contains(pd[k].1));
        }
        assert forall|k: int| 0 <= k < pd2.len() && sf.2.contains_key((#[trigger] pd2[k]).0) implies sf.0.contains_key(sf.2[pd2[k].0])
            && value_in(sf.0, Some(sf.2[pd2[k].0]), pd2[k].1) == pd2[k].2 by {
            assert(pd2[k] == swap(pd[k]));
            assert(types.contains(pd[k].1));
            assert(value_in(sf.0, Some(sf.2[pd[k].0]), pd[k].1) == value_in(aw, pairs_view(all)[pd[k].0].spec_after(), pd[k].1));
        }
    }
    lemma_component_ops_settle(differ, sf, rc, pd2, reg);
    let st = apply_component_ops(sf, rc, reg);
    assert(st == apply_diff_spec(w, ps, d.spec_revert(), reg));
    assert forall|u: EntityUuid, t: ComponentTypeUuid| st.2.contains_key(u) && reg.has_uuid(t) implies #[trigger] value_in(st.0, Some(st.2[u]), t)
        == settled(swap(change_of(u, pairs_view(s)[u], t, bw, aw))) by {
        let e = sf.2[u];
        lemma_pairs_view_dom(s, u);
        let i = choose|i: int| 0 <= i < s.len() && #[trigger] s[i].0 == u;
        assert(all[i] == s[i]);
        assert(pairs_view(all)[all[i].0] == all[i].1);
        lemma_pairs_view_entry(s, i);
        let c = change_of(u, pairs_view(s)[u], t, bw, aw);
        assert(types.contains(t));
        let j = choose|j: int| 0 <= j < types.len() && types[j] == t;
        assert(c == change_of(all[i].0, all[i].1, types[j], bw, aw));
        assert(value_in(sf.0, Some(sf.2[u]), t) == c.3);
        if outcome_of(c.2, c.3) != DiffSingleResult::NoChange {
            lemma_pd_complete(all, types, i, j, bw, aw);
            let k = choose|k: int| 0 <= k < pd.len() && #[trigger] pd[k] == change_of(all[i].0, all[i].1, types[j], bw, aw);
            assert(pd2[k] == swap(c));
            assert(sf.2.contains_key(pd2[k].0));
        } else {
            assert forall|k: int| 0 <= k < pd2.len() implies !touches(sf, #[trigger] pd2[k], e, t) by {
                assert(pd2[k] == swap(pd[k]));
                if touches(sf, pd2[k], e, t) {
                    assert(pd[k].0 == u);
                    assert(pd[k] == change_of(u, pairs_view(all)[u], t, bw, aw));
                }
            }
            assert(value_in(st.0, Some(e), t) == value_in(sf.0, Some(e), t));
        }
    }
}

} // verus!
