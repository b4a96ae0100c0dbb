use legion_prefab::clone_merge::{CopyClone, SpawnClone, SpawnCloneHandlerSet};
use legion_prefab::component_diffs::{
    apply_diff, apply_diff_to_cooked_prefab, apply_diff_to_prefab, ApplyDiffToPrefabError, ComponentDiff,
    ComponentDiffOp, EntityDiff, EntityDiffOp, WorldDiff,
};
use legion_prefab::cooking::{cook_prefab, CookError};
use legion_prefab::option_iter::{option_iter_from_slice, OptionIter};
use legion_prefab::prefab::{Prefab, PrefabRef};
use legion_prefab::prefab_builder::{PrefabBuilder, PrefabBuilderError};
use legion_prefab::prefab_format::{PrefabFormatDeserializer, PrefabFormatSerializer, ReadError};
use legion_prefab::registration::{diff_single_result, ComponentRegistration, ComponentRegistry, DiffSingleResult};
use legion_prefab::transactions::{Transaction, TransactionBuilder, TransactionDiffs};
use legion_prefab::world::World;
use legion_prefab::world_serde::{CustomDeserializer, CustomSerializer};

const TRANSFORM: u128 = 0xd4b83227_d3f8_47f5_b026_db615fb41d31;
const VELOCITY: u128 = 0x2c6c4b33_4f8e_4e2b_9c57_0f3a7a1b9e10;
const UNKNOWN: u128 = 0x11111111_2222_3333_4444_555555555555;
const PREFAB_A: u128 = 0x5fd8256d_db36_4fe2_8211_c7b3446e1927;
const PREFAB_B: u128 = 0x14dec17f_ae14_40a3_8e44_e487fc423287;
const ENTITY_1: u128 = 0x62b3dbd1_56a8_469e_a262_41a66321da8b;
const ENTITY_2: u128 = 0x030389e7_1f1b_4d8e_8c2a_2a0a5c2b4f11;

fn registry() -> ComponentRegistry {
    let mut r = ComponentRegistry::new();
    assert!(r.register(ComponentRegistration::new(1, TRANSFORM, "Transform".to_string())));
    assert!(r.register(ComponentRegistration::new(2, VELOCITY, "Velocity".to_string())));
    r
}

fn transform_bytes(t: [u8; 3], s: [u8; 3]) -> Vec<u8> {
    vec![t[0], t[1], t[2], s[0], s[1], s[2]]
}

/// A stand-in structural diff: positions that changed, with their new byte.
fn byte_patch(_t: u128, a: Vec<u8>, b: Vec<u8>) -> Vec<u8> {
    let mut p = Vec::new();
    for i in 0..b.len() {
        if i >= a.len() || a[i] != b[i] {
            p.push(i as u8);
            p.push(b[i]);
        }
    }
    p
}

fn apply_byte_patch(v: &[u8], p: &[u8]) -> Vec<u8> {
    let mut out = v.to_vec();
    for pair in p.chunks(2) {
        out[pair[0] as usize] = pair[1];
    }
    out
}

fn read_one_entity(reg: &ComponentRegistry, data: Vec<u8>) -> Prefab {
    let mut r = PrefabFormatDeserializer::new(reg);
    r.begin_prefab(PREFAB_A).unwrap();
    r.begin_entity_object(PREFAB_A, ENTITY_1).unwrap();
    r.deserialize_component(PREFAB_A, ENTITY_1, TRANSFORM, data).unwrap();
    r.end_entity_object(PREFAB_A, ENTITY_1).unwrap();
    r.end_prefab(PREFAB_A).unwrap();
    r.prefab().unwrap()
}

#[test]
fn registry_refuses_taken_keys() {
    let mut r = registry();
    assert!(!r.register(ComponentRegistration::new(3, TRANSFORM, "Again".to_string())));
    assert!(!r.register(ComponentRegistration::new(1, UNKNOWN, "Other".to_string())));
    assert_eq!(r.len(), 2);
    assert_eq!(*r.by_uuid(VELOCITY).unwrap().uuid(), VELOCITY);
    assert_eq!(r.by_type_id(1).unwrap().name(), "Transform");
    assert!(r.by_uuid(UNKNOWN).is_none());
    assert!(r.contains_uuid(TRANSFORM));
    assert_eq!(r.iter_component_registrations().len(), 2);
}

#[test]
fn diff_outcomes() {
    assert_eq!(diff_single_result(true, true, true), DiffSingleResult::Change);
    assert_eq!(diff_single_result(true, true, false), DiffSingleResult::NoChange);
    assert_eq!(diff_single_result(false, true, false), DiffSingleResult::Add);
    assert_eq!(diff_single_result(true, false, false), DiffSingleResult::Remove);
    assert_eq!(diff_single_result(false, false, true), DiffSingleResult::NoChange);
    assert!(ComponentDiffOp::from_diff_single_result(DiffSingleResult::NoChange, vec![1]).is_none());
    match ComponentDiffOp::from_diff_single_result(DiffSingleResult::Add, vec![7]).unwrap() {
        ComponentDiffOp::Add(d) => assert_eq!(d, vec![7]),
        _ => panic!("expected an addition"),
    }
}

#[test]
fn round_trip_one_entity() {
    let reg = registry();
    let data = transform_bytes([0, 0, 5], [2, 2, 2]);
    let first = read_one_entity(&reg, data.clone());
    let ser = PrefabFormatSerializer::new(&reg, &first);
    let ids = ser.entities();
    assert_eq!(ids, vec![ENTITY_1]);

    let mut r = PrefabFormatDeserializer::new(&reg);
    r.begin_prefab(first.prefab_id()).unwrap();
    for id in &ids {
        r.begin_entity_object(first.prefab_id(), *id).unwrap();
        for t in ser.component_types(*id) {
            let v = ser.serialize_entity_component(*id, t).unwrap().clone();
            r.deserialize_component(first.prefab_id(), *id, t, v).unwrap();
        }
        r.end_entity_object(first.prefab_id(), *id).unwrap();
    }
    for p in ser.prefab_refs() {
        r.begin_prefab_ref(first.prefab_id(), p).unwrap();
        r.end_prefab_ref(first.prefab_id(), p).unwrap();
    }
    r.end_prefab(first.prefab_id()).unwrap();
    let second = r.prefab().unwrap();

    let ser2 = PrefabFormatSerializer::new(&reg, &second);
    assert_eq!(second.prefab_id(), PREFAB_A);
    assert_eq!(ser2.entities(), vec![ENTITY_1]);
    assert_eq!(ser2.component_types(ENTITY_1), vec![TRANSFORM]);
    assert_eq!(ser2.serialize_entity_component(ENTITY_1, TRANSFORM).unwrap(), &data);
    assert!(ser2.prefab_refs().is_empty());
}

#[test]
fn unknown_component_on_read() {
    let reg = registry();
    let mut r = PrefabFormatDeserializer::new(&reg);
    r.begin_prefab(PREFAB_A).unwrap();
    r.begin_entity_object(PREFAB_A, ENTITY_1).unwrap();
    assert_eq!(
        r.deserialize_component(PREFAB_A, ENTITY_1, UNKNOWN, vec![1, 2]),
        Err(ReadError::ComponentTypeNotRegistered(UNKNOWN))
    );
}

#[test]
fn reader_sequence_errors() {
    let reg = registry();
    let mut r = PrefabFormatDeserializer::new(&reg);
    assert_eq!(r.begin_entity_object(PREFAB_A, ENTITY_1), Err(ReadError::OutOfSequence));
    r.begin_prefab(PREFAB_A).unwrap();
    assert_eq!(r.begin_prefab(PREFAB_A), Err(ReadError::OutOfSequence));
    assert_eq!(r.begin_entity_object(PREFAB_B, ENTITY_1), Err(ReadError::PrefabMismatch));
    assert_eq!(r.deserialize_component(PREFAB_A, ENTITY_1, TRANSFORM, vec![]), Err(ReadError::OutOfSequence));
    r.begin_entity_object(PREFAB_A, ENTITY_1).unwrap();
    r.end_entity_object(PREFAB_A, ENTITY_1).unwrap();
    assert_eq!(r.begin_entity_object(PREFAB_A, ENTITY_1), Err(ReadError::DuplicateEntity(ENTITY_1)));
    assert!(r.prefab().is_none());
}

#[test]
fn unknown_component_on_emit() {
    let reg = registry();
    let mut r = PrefabFormatDeserializer::new(&reg);
    r.begin_prefab(PREFAB_A).unwrap();
    r.begin_entity_object(PREFAB_A, ENTITY_1).unwrap();
    r.deserialize_component(PREFAB_A, ENTITY_1, TRANSFORM, vec![1]).unwrap();
    r.end_entity_object(PREFAB_A, ENTITY_1).unwrap();
    r.end_prefab(PREFAB_A).unwrap();
    let mut p = r.prefab().unwrap();
    let h = p.prefab_meta.entities[0].1;
    p.world.add_component(h, UNKNOWN, vec![9]);
    let ser = PrefabFormatSerializer::new(&reg, &p);
    assert_eq!(ser.component_types(ENTITY_1), vec![TRANSFORM]);
    assert!(ser.component_types(ENTITY_2).is_empty());
}

fn prefab_b() -> Prefab {
    let reg = registry();
    let mut r = PrefabFormatDeserializer::new(&reg);
    r.begin_prefab(PREFAB_B).unwrap();
    r.begin_entity_object(PREFAB_B, ENTITY_2).unwrap();
    r.deserialize_component(PREFAB_B, ENTITY_2, TRANSFORM, transform_bytes([0, 0, 0], [1, 1, 1])).unwrap();
    r.end_entity_object(PREFAB_B, ENTITY_2).unwrap();
    r.end_prefab(PREFAB_B).unwrap();
    r.prefab().unwrap()
}

fn prefab_a(patch: &str) -> Prefab {
    let reg = registry();
    let mut r = PrefabFormatDeserializer::new(&reg);
    r.begin_prefab(PREFAB_A).unwrap();
    r.begin_prefab_ref(PREFAB_A, PREFAB_B).unwrap();
    r.apply_component_diff(PREFAB_A, PREFAB_B, ENTITY_2, TRANSFORM, patch.to_string()).unwrap();
    r.apply_component_diff(PREFAB_A, PREFAB_B, ENTITY_2, UNKNOWN, "kept".to_string()).unwrap();
    r.end_prefab_ref(PREFAB_A, PREFAB_B).unwrap();
    r.end_prefab(PREFAB_A).unwrap();
    r.prefab().unwrap()
}

#[test]
fn override_application() {
    let reg = registry();
    let patch = "[Enter(Field(\"translation\")), Enter(CollectionIndex(1)), Value(5.0)]";
    let a = prefab_a(patch);
    let ser = PrefabFormatSerializer::new(&reg, &a);
    assert_eq!(ser.prefab_refs(), vec![PREFAB_B]);
    assert_eq!(ser.prefab_ref_overrides(PREFAB_B), vec![(ENTITY_2, vec![TRANSFORM, UNKNOWN])]);
    assert_eq!(ser.serialize_component_override_diff(PREFAB_B, ENTITY_2, UNKNOWN).unwrap(), "kept");
    assert!(ser.serialize_component_override_diff(PREFAB_B, ENTITY_1, TRANSFORM).is_none());

    let lookup = vec![prefab_b(), a];
    let (cooked, plan) = cook_prefab(&reg, &vec![PREFAB_B, PREFAB_A], &lookup).unwrap();
    assert_eq!(cooked.world.len(), 1);
    assert_eq!(cooked.entities.len(), 1);
    assert_eq!(cooked.entities[0].0, ENTITY_2);
    let e = cooked.entities[0].1;
    assert_eq!(plan.len(), 1);
    assert_eq!(plan[0].entity, e);
    assert_eq!(plan[0].component_type, TRANSFORM);
    assert_eq!(plan[0].data, patch);
    assert_eq!(cooked.world.get_component(e, TRANSFORM).unwrap(), &transform_bytes([0, 0, 0], [1, 1, 1]));
}

#[test]
fn cook_errors() {
    let reg = registry();
    let lookup = vec![prefab_b()];
    assert!(matches!(cook_prefab(&reg, &vec![PREFAB_A], &lookup), Err(CookError::MissingPrefab(PREFAB_A))));
    let lookup = vec![prefab_a("[]")];
    assert!(matches!(cook_prefab(&reg, &vec![PREFAB_A], &lookup), Err(CookError::MissingEntity(ENTITY_2))));
}

#[test]
fn cook_without_overrides_equals_clone() {
    let reg = registry();
    let mut r = PrefabFormatDeserializer::new(&reg);
    r.begin_prefab(PREFAB_A).unwrap();
    r.begin_prefab_ref(PREFAB_A, PREFAB_B).unwrap();
    r.end_prefab_ref(PREFAB_A, PREFAB_B).unwrap();
    r.end_prefab(PREFAB_A).unwrap();
    let a = r.prefab().unwrap();
    let b = prefab_b();
    let mut direct = World::new();
    direct.clone_from(&b.world);
    let lookup = vec![b, a];
    let (cooked, plan) = cook_prefab(&reg, &vec![PREFAB_B, PREFAB_A], &lookup).unwrap();
    assert!(plan.is_empty());
    assert_eq!(cooked.world.entities(), direct.entities());
    for e in direct.entities() {
        assert_eq!(cooked.world.component_types(e), direct.component_types(e));
        assert_eq!(cooked.world.get_component(e, TRANSFORM), direct.get_component(e, TRANSFORM));
    }
}

#[test]
fn cooked_entities_cover_world() {
    let reg = registry();
    let lookup = vec![prefab_b(), read_one_entity(&reg, vec![3])];
    let (cooked, _) = cook_prefab(&reg, &vec![], &lookup).unwrap();
    let named: Vec<u64> = cooked.entities.iter().map(|p| p.1).collect();
    for e in cooked.world.entities() {
        assert!(named.contains(&e));
    }
    assert_eq!(cooked.world.entities().len(), 2);
}

#[test]
fn cook_is_deterministic() {
    let reg = registry();
    let lookup = vec![prefab_b(), prefab_a("[1]")];
    let (c1, p1) = cook_prefab(&reg, &vec![PREFAB_B, PREFAB_A], &lookup).unwrap();
    let (c2, p2) = cook_prefab(&reg, &vec![PREFAB_B, PREFAB_A], &lookup).unwrap();
    assert_eq!(c1.entities, c2.entities);
    assert_eq!(c1.world.entities(), c2.world.entities());
    assert_eq!(p1.len(), p2.len());
    assert_eq!(p1[0].entity, p2[0].entity);
    assert_eq!(p1[0].data, p2[0].data);
}

fn source_world() -> (World, u64) {
    let mut w = World::new();
    let e = w.spawn();
    w.add_component(e, TRANSFORM, transform_bytes([0, 0, 5], [2, 2, 2]));
    (w, e)
}

fn apply_pending(world: &mut World, pending: &[legion_prefab::component_diffs::PendingChange]) {
    for p in pending {
        let v = world.get_component(p.entity, p.component_type).unwrap().clone();
        world.add_component(p.entity, p.component_type, apply_byte_patch(&v, &p.data));
    }
}

#[test]
fn transaction_add_component() {
    let reg = registry();
    let (src, e) = source_world();
    let mut tx: Transaction = TransactionBuilder::new().add_entity(e, ENTITY_1).begin(&src);
    let a = tx.uuid_to_entity(ENTITY_1).unwrap();
    tx.world_mut().add_component(a, VELOCITY, vec![1, 2, 3]);
    let diffs: TransactionDiffs = tx.create_transaction_diffs(&reg, &byte_patch).unwrap();
    assert!(diffs.apply_diff().entity_diffs().is_empty());
    let ac = diffs.apply_diff().component_diffs();
    assert_eq!(ac.len(), 1);
    assert_eq!(*ac[0].component_type(), VELOCITY);
    assert!(matches!(ac[0].op(), ComponentDiffOp::Add(v) if *v == vec![1, 2, 3]));
    let rc = diffs.revert_diff().component_diffs();
    assert_eq!(rc.len(), 1);
    assert!(matches!(rc[0].op(), ComponentDiffOp::Remove));

    let start = vec![(ENTITY_1, e)];
    let (after, ents, pending) = apply_diff(&src, &start, diffs.apply_diff(), &reg);
    assert!(pending.is_empty());
    let h = ents[0].1;
    assert_eq!(after.get_component(h, VELOCITY).unwrap(), &vec![1, 2, 3]);
    let (back, ents2, _) = apply_diff(&after, &ents, diffs.revert_diff(), &reg);
    let h2 = ents2[0].1;
    assert!(back.get_component(h2, VELOCITY).is_none());
    assert_eq!(back.get_component(h2, TRANSFORM), src.get_component(e, TRANSFORM));
}

#[test]
fn transaction_change_round_trip() {
    let reg = registry();
    let (src, e) = source_world();
    let mut tx = TransactionBuilder::new().add_entity(e, ENTITY_1).begin(&src);
    let a = tx.uuid_to_entity(ENTITY_1).unwrap();
    tx.world_mut().add_component(a, TRANSFORM, transform_bytes([0, 5, 5], [2, 2, 2]));
    let diffs = tx.create_transaction_diffs(&reg, &byte_patch).unwrap();
    let ac = diffs.apply_diff().component_diffs();
    assert_eq!(ac.len(), 1);
    assert!(matches!(ac[0].op(), ComponentDiffOp::Change(p) if *p == vec![1, 5]));
    let (mut after, ents, pending) = apply_diff(&src, &vec![(ENTITY_1, e)], diffs.apply_diff(), &reg);
    assert_eq!(pending.len(), 1);
    apply_pending(&mut after, &pending);
    assert_eq!(after.get_component(ents[0].1, TRANSFORM).unwrap(), &transform_bytes([0, 5, 5], [2, 2, 2]));
    let (mut back, ents2, pending2) = apply_diff(&after, &ents, diffs.revert_diff(), &reg);
    apply_pending(&mut back, &pending2);
    assert_eq!(back.get_component(ents2[0].1, TRANSFORM), src.get_component(e, TRANSFORM));
}

#[test]
fn transaction_add_entity() {
    let reg = registry();
    let src = World::new();
    let mut tx = TransactionBuilder::new().begin(&src);
    let n = tx.world_mut().spawn();
    tx.world_mut().add_component(n, TRANSFORM, vec![4, 4]);
    let diffs = tx.create_transaction_diffs_with_ids(&reg, &vec![ENTITY_2], &byte_patch).unwrap();
    let ae = diffs.apply_diff().entity_diffs();
    assert_eq!(ae.len(), 1);
    assert_eq!(*ae[0].entity_uuid(), ENTITY_2);
    assert_eq!(*ae[0].op(), EntityDiffOp::Add);
    let re = diffs.revert_diff().entity_diffs();
    assert_eq!(*re[0].op(), EntityDiffOp::Remove);
    assert!(matches!(diffs.apply_diff().component_diffs()[0].op(), ComponentDiffOp::Add(_)));
    assert!(matches!(diffs.revert_diff().component_diffs()[0].op(), ComponentDiffOp::Remove));
    assert_eq!(tx.uuid_to_entity(ENTITY_2), Some(n));

    let (after, ents, _) = apply_diff(&src, &vec![], diffs.apply_diff(), &reg);
    assert_eq!(ents.len(), 1);
    assert_eq!(after.get_component(ents[0].1, TRANSFORM).unwrap(), &vec![4, 4]);
    let (back, ents2, _) = apply_diff(&after, &ents, diffs.revert_diff(), &reg);
    assert!(ents2.is_empty());
    assert!(back.entities().is_empty());
}

#[test]
fn transaction_remove_entity_and_reverse() {
    let reg = registry();
    let (src, e) = source_world();
    let mut tx = TransactionBuilder::new().add_entity(e, ENTITY_1).begin(&src);
    let a = tx.uuid_to_entity(ENTITY_1).unwrap();
    tx.world_mut().despawn(a);
    let mut diffs = tx.create_transaction_diffs(&reg, &byte_patch).unwrap();
    assert_eq!(*diffs.apply_diff().entity_diffs()[0].op(), EntityDiffOp::Remove);
    assert_eq!(*diffs.revert_diff().entity_diffs()[0].op(), EntityDiffOp::Add);
    assert!(tx.uuid_to_entity(ENTITY_1).is_none());
    diffs.reverse();
    assert_eq!(*diffs.apply_diff().entity_diffs()[0].op(), EntityDiffOp::Add);
}

#[test]
fn transaction_ids_refused() {
    let reg = registry();
    let src = World::new();
    let mut tx = TransactionBuilder::new().begin(&src);
    tx.world_mut().spawn();
    tx.world_mut().spawn();
    assert!(tx.create_transaction_diffs_with_ids(&reg, &vec![ENTITY_1], &byte_patch).is_none());
    assert!(tx.create_transaction_diffs_with_ids(&reg, &vec![ENTITY_1, ENTITY_1], &byte_patch).is_none());
    assert!(tx.create_transaction_diffs_with_ids(&reg, &vec![ENTITY_1, ENTITY_2], &byte_patch).is_some());
}

#[test]
fn apply_diff_skips_unknown_and_rejects_refs() {
    let reg = registry();
    let (src, e) = source_world();
    let diff = WorldDiff::new(
        vec![EntityDiff::new(ENTITY_2, EntityDiffOp::Remove)],
        vec![
            ComponentDiff::new(ENTITY_2, TRANSFORM, ComponentDiffOp::Remove),
            ComponentDiff::new(ENTITY_1, UNKNOWN, ComponentDiffOp::Add(vec![1])),
            ComponentDiff::new(ENTITY_1, VELOCITY, ComponentDiffOp::Add(vec![8])),
        ],
    );
    assert!(diff.has_changes());
    assert!(!WorldDiff::new(vec![], vec![]).has_changes());
    let (w, ents, pending) = apply_diff(&src, &vec![(ENTITY_1, e)], &diff, &reg);
    assert!(pending.is_empty());
    let h = ents[0].1;
    assert_eq!(w.component_types(h).len(), 2);
    assert!(w.get_component(h, UNKNOWN).is_none());

    let a = prefab_a("[]");
    assert!(matches!(apply_diff_to_prefab(&a, &diff, &reg), Err(ApplyDiffToPrefabError::PrefabHasOverrides)));
    let b = prefab_b();
    let (nb, _) = apply_diff_to_prefab(&b, &diff, &reg).unwrap();
    assert_eq!(nb.prefab_id(), PREFAB_B);
    let lookup = vec![b];
    let (cooked, _) = cook_prefab(&reg, &vec![], &lookup).unwrap();
    let (c2, _) = apply_diff_to_cooked_prefab(&cooked, &diff, &reg);
    assert_eq!(c2.world.len(), 0);
    assert!(c2.entities.is_empty());
}

#[test]
fn prefab_new_draws_fresh_ids() {
    let mut w = World::new();
    w.spawn();
    w.spawn();
    let p1 = Prefab::new(w).unwrap();
    assert_eq!(p1.prefab_meta.entities.len(), 2);
    assert_ne!(p1.prefab_meta.entities[0].0, p1.prefab_meta.entities[1].0);
    let p2 = Prefab::new(World::new()).unwrap();
    assert_ne!(p1.prefab_id(), p2.prefab_id());
    let mut w3 = World::new();
    w3.spawn();
    assert!(Prefab::from_parts(7, w3, vec![1, 2]).is_none());
    let _ = PrefabRef { overrides: vec![] };
}

#[test]
fn option_iter_steps() {
    let data = [10u32, 20, 30, 40];
    let mut it = option_iter_from_slice(Some(&data[..]), 1, 3);
    assert_eq!(it.next(), Some(Some(&20)));
    assert_eq!(it.next(), Some(Some(&30)));
    assert_eq!(it.next(), None);
    let mut none: OptionIter<u32> = option_iter_from_slice(None, 0, 2);
    assert_eq!(none.next(), Some(None));
    assert_eq!(none.next(), Some(None));
    assert_eq!(none.next(), None);
    let mut short = OptionIter::new(Some(&data[..1]), 2);
    assert_eq!(short.next(), Some(Some(&10)));
    assert_eq!(short.next(), Some(None));
    assert_eq!(short.next(), None);
}

#[test]
fn world_operations() {
    let mut w = World::new();
    let a = w.spawn();
    let b = w.spawn();
    assert_ne!(a, b);
    w.add_component(a, TRANSFORM, vec![1]);
    w.add_component(a, TRANSFORM, vec![2]);
    assert_eq!(w.get_component(a, TRANSFORM).unwrap(), &vec![2]);
    assert_eq!(w.component_types(a), vec![TRANSFORM]);
    w.remove_component(a, TRANSFORM);
    assert!(w.get_component(a, TRANSFORM).is_none());
    w.despawn(a);
    assert!(!w.contains(a));
    assert!(w.contains(b));
    assert_eq!(w.entities(), vec![b]);
    let mut other = World::new();
    let m = other.clone_from(&w);
    assert_eq!(m.len(), 1);
    assert_eq!(m[0].0, b);
    assert_eq!(other.clone_from_single(&w, a), None);
}

fn text_patch(_t: u128, a: Vec<u8>, b: Vec<u8>) -> String {
    format!("{:?}", byte_patch(0, a, b))
}

fn builder() -> PrefabBuilder {
    let reg = registry();
    let lookup = vec![prefab_b()];
    let (cooked, _) = cook_prefab(&reg, &vec![], &lookup).unwrap();
    PrefabBuilder::new(PREFAB_B, cooked)
}

#[test]
fn prefab_builder_records_overrides() {
    let reg = registry();
    let mut b = builder();
    let a = b.uuid_to_entity(ENTITY_2).unwrap();
    b.world_mut().add_component(a, TRANSFORM, transform_bytes([0, 5, 0], [1, 1, 1]));
    let n = b.world_mut().spawn();
    b.world_mut().add_component(n, VELOCITY, vec![3]);
    assert_eq!(b.added_entities(), vec![n]);
    let p = b.create_prefab_with_ids(&reg, PREFAB_A, &vec![ENTITY_1], &text_patch).unwrap().unwrap();
    assert_eq!(p.prefab_id(), PREFAB_A);
    assert_eq!(p.prefab_meta.entities, vec![(ENTITY_1, 0)]);
    assert_eq!(p.world.get_component(0, VELOCITY).unwrap(), &vec![3]);
    assert_eq!(p.prefab_meta.prefab_refs.len(), 1);
    assert_eq!(p.prefab_meta.prefab_refs[0].0, PREFAB_B);
    let ov = &p.prefab_meta.prefab_refs[0].1.overrides;
    assert_eq!(ov.len(), 1);
    assert_eq!(ov[0].0, ENTITY_2);
    assert_eq!(ov[0].1.len(), 1);
    assert_eq!(ov[0].1[0].component_type, TRANSFORM);
    assert_eq!(ov[0].1[0].data, "[1, 5]");
    assert!(b.create_prefab_with_ids(&reg, PREFAB_A, &vec![], &text_patch).is_none());
    assert!(b.create_prefab(&reg, &text_patch).unwrap().is_ok());
}

#[test]
fn prefab_builder_errors() {
    let reg = registry();
    let mut b = builder();
    let a = b.uuid_to_entity(ENTITY_2).unwrap();
    b.world_mut().add_component(a, VELOCITY, vec![1]);
    assert!(matches!(b.create_prefab_with_ids(&reg, PREFAB_A, &vec![], &text_patch), Some(Err(PrefabBuilderError::ComponentAdded))));

    let mut b = builder();
    let a = b.uuid_to_entity(ENTITY_2).unwrap();
    b.world_mut().remove_component(a, TRANSFORM);
    assert!(matches!(b.create_prefab_with_ids(&reg, PREFAB_A, &vec![], &text_patch), Some(Err(PrefabBuilderError::ComponentRemoved))));

    let mut b = builder();
    let a = b.uuid_to_entity(ENTITY_2).unwrap();
    b.world_mut().despawn(a);
    assert!(matches!(b.create_prefab_with_ids(&reg, PREFAB_A, &vec![], &text_patch), Some(Err(PrefabBuilderError::EntityDeleted))));
    assert_eq!(b.world().len(), 0);
}

#[test]
fn copy_clone_layout() {
    let reg = registry();
    let c = CopyClone::new(&reg);
    assert!(!CopyClone::prefers_new_archetype());
    assert_eq!(c.convert_layout(&vec![VELOCITY, TRANSFORM]), Some(vec![VELOCITY, TRANSFORM]));
    assert_eq!(c.convert_layout(&vec![TRANSFORM, UNKNOWN]), None);
}

#[test]
fn spawn_clone_layout_and_ids() {
    let reg = registry();
    let mut handlers = SpawnCloneHandlerSet::new();
    handlers.add_mapping(UNKNOWN, VELOCITY);
    handlers.add_mapping(TRANSFORM, UNKNOWN);
    handlers.add_mapping(TRANSFORM, VELOCITY);
    assert_eq!(handlers.target_of(TRANSFORM), Some(VELOCITY));
    let map = vec![(3u64, 30u64), (4, 40), (3, 31)];
    let s = SpawnClone::new(&handlers, &reg, &map);
    assert!(!SpawnClone::prefers_new_archetype());
    assert_eq!(s.convert_layout(&vec![TRANSFORM, UNKNOWN, VELOCITY]), Some(vec![VELOCITY, VELOCITY, VELOCITY]));
    assert_eq!(s.convert_layout(&vec![PREFAB_A]), None);
    assert_eq!(s.assign_id(3, 99), 31);
    assert_eq!(s.assign_id(4, 99), 40);
    assert_eq!(s.assign_id(5, 99), 99);
}

#[test]
fn reader_model_is_bijective() {
    let reg = registry();
    let mut r = PrefabFormatDeserializer::new(&reg);
    r.begin_prefab(PREFAB_A).unwrap();
    for id in [ENTITY_1, ENTITY_2] {
        r.begin_entity_object(PREFAB_A, id).unwrap();
        r.end_entity_object(PREFAB_A, id).unwrap();
    }
    r.end_prefab(PREFAB_A).unwrap();
    let p = r.prefab().unwrap();
    let handles = p.world.entities();
    assert_eq!(handles.len(), 2);
    let keyed: Vec<u64> = p.prefab_meta.entities.iter().map(|e| e.1).collect();
    for h in &handles {
        assert_eq!(keyed.iter().filter(|k| *k == h).count(), 1);
    }
    assert_ne!(p.prefab_meta.entities[0].0, p.prefab_meta.entities[1].0);
}

#[test]
fn entity_naming_during_emission() {
    let reg = registry();
    let mut ser = CustomSerializer::new(vec![(7, ENTITY_1)]);
    assert_eq!(ser.serialize_entity(7), ENTITY_1);
    assert_eq!(ser.serialize_entity_with_id(8, ENTITY_2), ENTITY_2);
    assert_eq!(ser.serialize_entity_with_id(8, UNKNOWN), ENTITY_2);
    let drawn = ser.serialize_entity(9);
    assert_ne!(drawn, ENTITY_1);
    assert_eq!(ser.serialize_entity(9), drawn);
    assert_eq!(ser.map_id(&reg, 2), Some(VELOCITY));
    assert_eq!(ser.map_id(&reg, 5), None);
}

#[test]
fn entity_naming_during_read() {
    let reg = registry();
    let mut de = CustomDeserializer::new(10);
    assert_eq!(de.deserialize_entity(ENTITY_1), 10);
    assert_eq!(de.deserialize_entity(ENTITY_2), 11);
    assert_eq!(de.deserialize_entity(ENTITY_1), 10);
    assert_eq!(de.unmap_id(&reg, TRANSFORM), Some(1));
    assert_eq!(de.unmap_id(&reg, UNKNOWN), None);
}

#[test]
fn unedited_transaction_has_no_changes() {
    let reg = registry();
    let (src, e) = source_world();
    let mut tx = TransactionBuilder::new().add_entity(e, ENTITY_1).begin(&src);
    let diffs = tx.create_transaction_diffs(&reg, &byte_patch).unwrap();
    assert!(!diffs.apply_diff().has_changes());
    assert!(!diffs.revert_diff().has_changes());
    assert!(tx.uuid_to_entity(ENTITY_1).is_some());
}

#[test]
fn begin_keeps_last_entry_of_an_identity() {
    let mut src = World::new();
    let e1 = src.spawn();
    src.add_component(e1, TRANSFORM, vec![1]);
    let e2 = src.spawn();
    src.add_component(e2, TRANSFORM, vec![2]);
    let tx = TransactionBuilder::new()
        .add_entity(e1, ENTITY_1)
        .add_entity(e2, ENTITY_1)
        .add_entity(99, ENTITY_2)
        .begin(&src);
    assert_eq!(tx.world().len(), 1);
    let a = tx.uuid_to_entity(ENTITY_1).unwrap();
    assert_eq!(tx.world().get_component(a, TRANSFORM).unwrap(), &vec![2]);
    assert!(tx.uuid_to_entity(ENTITY_2).is_none());
}

#[test]
fn patches_overridden_later_are_dropped() {
    let reg = registry();
    let (src, e) = source_world();
    let diff = WorldDiff::new(
        vec![],
        vec![
            ComponentDiff::new(ENTITY_1, TRANSFORM, ComponentDiffOp::Change(vec![0, 9])),
            ComponentDiff::new(ENTITY_1, TRANSFORM, ComponentDiffOp::Remove),
            ComponentDiff::new(ENTITY_1, TRANSFORM, ComponentDiffOp::Add(vec![7, 7])),
            ComponentDiff::new(ENTITY_1, TRANSFORM, ComponentDiffOp::Change(vec![1, 8])),
        ],
    );
    let (mut w, ents, pending) = apply_diff(&src, &vec![(ENTITY_1, e)], &diff, &reg);
    assert_eq!(pending.len(), 1);
    assert_eq!(pending[0].data, vec![1, 8]);
    apply_pending(&mut w, &pending);
    assert_eq!(w.get_component(ents[0].1, TRANSFORM).unwrap(), &vec![7, 8]);
}

#[test]
fn prefab_builder_without_additions_always_answers() {
    let reg = registry();
    let b = builder();
    let p = b.create_prefab(&reg, &text_patch).unwrap().unwrap();
    assert_ne!(p.prefab_id(), PREFAB_B);
    assert!(p.prefab_meta.prefab_refs[0].1.overrides.is_empty());
    assert!(Prefab::new(World::new()).is_some());
}
