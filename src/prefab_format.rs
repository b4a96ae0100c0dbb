use vstd::prelude::*;

use crate::ids::{ComponentTypeUuid, Entity, EntityUuid, PrefabUuid};
use crate::pairs::{find_key, keys_unique, pairs_view, set_key, take_key, lemma_pairs_view_dom, lemma_pairs_view_push};
use crate::prefab::{values_unique, ComponentOverride, Prefab, PrefabRef};
use crate::registration::ComponentRegistry;
use crate::world::comps_view;

verus! {

/// Why reading a prefab document failed.
#[derive(PartialEq, Eq, Structural, Clone, Copy, Debug)]
pub enum ReadError {
    /// An event arrived where the document grammar does not allow it.
    OutOfSequence,
    /// An event named another prefab than the one being read.
    PrefabMismatch,
    /// A component value of a type that is not registered.
    ComponentTypeNotRegistered(ComponentTypeUuid),
    /// A second entity with an identity already used in the document.
    DuplicateEntity(EntityUuid),
    /// The world has no entity handle left to give.
    TooManyEntities,
}

/// Where the reader stands in the document.
#[derive(PartialEq, Eq, Structural, Clone, Copy, Debug)]
pub enum ReaderState {
    Init,
    InPrefab,
    InEntity(EntityUuid, Entity),
    InRef(PrefabUuid),
    Done,
}

/// The sink that a document parser drives, event by event, to build a prefab.
pub struct PrefabFormatDeserializer<'a> {
    registry: &'a ComponentRegistry,
    state: ReaderState,
    prefab: Prefab,
}

impl<'a> PrefabFormatDeserializer<'a> {
    pub closed spec fn spec_state(&self) -> ReaderState {
        self.state
    }

    /// The prefab built so far; meaningful once the prefab has begun.
    pub closed spec fn spec_prefab(&self) -> Prefab {
        self.prefab
    }

    pub closed spec fn spec_registry(&self) -> ComponentRegistry {
        *self.registry
    }

    pub open spec fn wf(&self) -> bool {
        &&& self.spec_prefab().wf()
        &&& self.spec_registry().wf()
        &&& (self.spec_state() matches ReaderState::InEntity(u, h) ==> {
            &&& self.spec_prefab().prefab_meta.entity_map().contains_key(u)
            &&& self.spec_prefab().prefab_meta.entity_map()[u] == h
            &&& self.spec_prefab().world@.contains_key(h)
        })
        &&& (self.spec_state() matches ReaderState::InRef(t) ==> self.spec_prefab().prefab_meta.ref_map().contains_key(t))
    }

    /// The prefab is this one and the reader is inside it, not in an entity or a reference.
    pub open spec fn at_top(&self, prefab: PrefabUuid) -> bool {
        self.spec_state() == ReaderState::InPrefab && self.spec_prefab().prefab_meta.id == prefab
    }

    pub fn new(registry: &'a ComponentRegistry) -> (r: Self)
        requires
            registry.wf(),
        ensures
            r.wf(),
            r.spec_state() == ReaderState::Init,
            r.spec_registry() == *registry,
    {
        PrefabFormatDeserializer { registry, state: ReaderState::Init, prefab: Prefab::empty(0) }
    }

    /// The prefab read, once the document has ended.
    pub fn prefab(self) -> (r: Option<Prefab>)
        requires
            self.wf(),
        ensures
            r.is_some() <==> self.spec_state() == ReaderState::Done,
            r matches Some(p) ==> p == self.spec_prefab() && p.wf(),
    {
        match self.state {
            ReaderState::Done => Some(self.prefab),
            _ => None,
        }
    }

    fn check_prefab(&self, prefab: PrefabUuid) -> (r: Result<(), ReadError>)
        ensures
            r.is_ok() <==> self.spec_prefab().prefab_meta.id == prefab,
            r.is_err() ==> r == Err::<(), ReadError>(ReadError::PrefabMismatch),
    {
        if self.prefab.prefab_meta.id == prefab {
            Ok(())
        } else {
            Err(ReadError::PrefabMismatch)
        }
    }

    /// Starts the document's prefab.
    pub fn begin_prefab(&mut self, prefab: PrefabUuid) -> (r: Result<(), ReadError>)
        requires
            old(self).wf(),
        ensures
            final(self).wf(),
            final(self).spec_registry() == old(self).spec_registry(),
            r.is_ok() <==> old(self).spec_state() == ReaderState::Init,
            r.is_err() ==> r == Err::<(), ReadError>(ReadError::OutOfSequence) && *final(self) == *old(self),
            r.is_ok() ==> {
                &&& final(self).spec_state() == ReaderState::InPrefab
                &&& final(self).spec_prefab().prefab_meta.id == prefab
                &&& final(self).spec_prefab().world@.len() == 0
                &&& final(self).spec_prefab().prefab_meta.entities@.len() == 0
                &&& final(self).spec_prefab().prefab_meta.prefab_refs@.len() == 0
            },
    {
        match self.state {
            ReaderState::Init => {
                self.prefab = Prefab::empty(prefab);
                self.state = ReaderState::InPrefab;
                Ok(())
            },
            _ => Err(ReadError::OutOfSequence),
        }
    }

    /// Ends the document's prefab.
    pub fn end_prefab(&mut self, prefab: PrefabUuid) -> (r: Result<(), ReadError>)
        requires
            old(self).wf(),
        ensures
            final(self).wf(),
            r.is_ok() <==> old(self).at_top(prefab),
            r.is_err() ==> *final(self) == *old(self),
            r.is_err() && old(self).spec_state() != ReaderState::InPrefab ==> r == Err::<(), ReadError>(ReadError::OutOfSequence),
            r.is_ok() ==> final(self).spec_state() == ReaderState::Done && final(self).spec_prefab() == old(self).spec_prefab()
                && final(self).spec_registry() == old(self).spec_registry(),
    {
        match self.state {
            ReaderState::InPrefab => {
                self.check_prefab(prefab)?;
                self.state = ReaderState::Done;
                Ok(())
            },
            _ => Err(ReadError::OutOfSequence),
        }
    }

    /// Starts an entity of the prefab: a fresh entity with no components, named `entity`.
    pub fn begin_entity_object(&mut self, prefab: PrefabUuid, entity: EntityUuid) -> (r: Result<(), ReadError>)
        requires
            old(self).wf(),
        ensures
            final(self).wf(),
            final(self).spec_registry() == old(self).spec_registry(),
            r.is_ok() <==> old(self).at_top(prefab) && !old(self).spec_prefab().prefab_meta.entity_map().contains_key(entity)
                && old(self).spec_prefab().world.can_spawn(),
            r.is_err() ==> *final(self) == *old(self),
            r.is_err() && old(self).spec_state() != ReaderState::InPrefab ==> r == Err::<(), ReadError>(ReadError::OutOfSequence),
            r.is_err() && old(self).at_top(prefab) && old(self).spec_prefab().prefab_meta.entity_map().contains_key(entity)
                ==> r == Err::<(), ReadError>(ReadError::DuplicateEntity(entity)),
            r.is_ok() ==> {
                let h = old(self).spec_prefab().world.spec_next();
                &&& final(self).spec_state() == ReaderState::InEntity(entity, h)
                &&& !old(self).spec_prefab().world@.contains_key(h)
                &&& final(self).spec_prefab().world@ == old(self).spec_prefab().world@.insert(h, Map::empty())
                &&& final(self).spec_prefab().prefab_meta.entity_map() == old(self).spec_prefab().prefab_meta.entity_map().insert(entity, h)
                &&& final(self).spec_prefab().prefab_meta.id == prefab
                &&& final(self).spec_prefab().prefab_meta.prefab_refs == old(self).spec_prefab().prefab_meta.prefab_refs
            },
    {
        match self.state {
            ReaderState::InPrefab => {},
            _ => {
                return Err(ReadError::OutOfSequence);
            },
        }
        self.check_prefab(prefab)?;
        if find_key(&self.prefab.prefab_meta.entities, entity).is_some() {
            return Err(ReadError::DuplicateEntity(entity));
        }
        if !self.prefab.world.has_room() {
            return Err(ReadError::TooManyEntities);
        }
        let ghost old_p = self.prefab;
        let h = self.prefab.world.spawn();
        proof {
            lemma_pairs_view_push(self.prefab.prefab_meta.entities@, (entity, h));
            lemma_pairs_view_dom(self.prefab.prefab_meta.entities@, entity);
        }
        self.prefab.prefab_meta.entities.push((entity, h));
        self.state = ReaderState::InEntity(entity, h);
        proof {
            let s = self.prefab.prefab_meta.entities@;
            let o = old_p.prefab_meta.entities@;
            let n = o.len() as int;
            assert(comps_view(Seq::<crate::world::ComponentValue>::empty()) == Map::<ComponentTypeUuid, Seq<u8>>::empty());
            assert(keys_unique(s)) by {
                assert forall|a: int, b: int| 0 <= a < s.len() && 0 <= b < s.len() && a != b implies #[trigger] s[a].0
                    != #[trigger] s[b].0 by {
                    if a == n {
                        assert(s[b] == o[b]);
                    } else if b == n {
                        assert(s[a] == o[a]);
                    } else {
                        assert(s[a] == o[a] && s[b] == o[b]);
                    }
                }
            }
            assert(values_unique(s)) by {
                assert forall|a: int, b: int| 0 <= a < s.len() && 0 <= b < s.len() && a != b implies #[trigger] s[a].1
                    != #[trigger] s[b].1 by {
                    if a == n {
                        assert(s[b] == o[b]);
                        assert(old_p.world@.contains_key(o[b].1));
                    } else if b == n {
                        assert(s[a] == o[a]);
                        assert(old_p.world@.contains_key(o[a].1));
                    } else {
                        assert(s[a] == o[a] && s[b] == o[b]);
                    }
                }
            }
            assert forall|i: int| 0 <= i < s.len() implies self.prefab.world@.contains_key(#[trigger] s[i].1) by {
                if i < n {
                    assert(s[i] == o[i]);
                }
            }
            assert forall|e: Entity| #[trigger] self.prefab.world@.contains_key(e) implies exists|i: int| 0 <= i < s.len() && #[trigger] s[i].1 == e by {
                if e == h {
                    assert(s[n].1 == e);
                } else {
                    assert(old_p.world@.contains_key(e));
                    let i = choose|i: int| 0 <= i < o.len() && #[trigger] o[i].1 == e;
                    assert(s[i].1 == e);
                }
            }
            assert(self.prefab.entities_bijective());
            assert(self.prefab.prefab_meta.prefab_refs == old_p.prefab_meta.prefab_refs);
            assert(self.prefab.prefab_meta.ref_map() == old_p.prefab_meta.ref_map());
            assert(self.prefab.prefab_meta.refs_wf());
            assert(self.prefab.wf());
            assert(self.prefab.prefab_meta.entity_map()[entity] == h);
        }
        Ok(())
    }

    /// Ends the current entity.
    pub fn end_entity_object(&mut self, prefab: PrefabUuid, entity: EntityUuid) -> (r: Result<(), ReadError>)
        requires
            old(self).wf(),
        ensures
            final(self).wf(),
            r.is_ok() <==> (old(self).spec_state() matches ReaderState::InEntity(u, _) && u == entity)
                && old(self).spec_prefab().prefab_meta.id == prefab,
            r.is_err() ==> *final(self) == *old(self),
            r.is_ok() ==> final(self).spec_state() == ReaderState::InPrefab && final(self).spec_prefab() == old(self).spec_prefab()
                && final(self).spec_registry() == old(self).spec_registry(),
    {
        match self.state {
            ReaderState::InEntity(u, _) => {
                if u != entity {
                    return Err(ReadError::OutOfSequence);
                }
            },
            _ => {
                return Err(ReadError::OutOfSequence);
            },
        }
        self.check_prefab(prefab)?;
        self.state = ReaderState::InPrefab;
        Ok(())
    }

    /// Attaches a component value to the current entity.
    pub fn deserialize_component(
        &mut self,
        prefab: PrefabUuid,
        entity: EntityUuid,
        component_type: ComponentTypeUuid,
        data: Vec<u8>,
    ) -> (r: Result<(), ReadError>)
        requires
            old(self).wf(),
        ensures
            final(self).wf(),
            r.is_ok() <==> (old(self).spec_state() matches ReaderState::InEntity(u, _) && u == entity)
                && old(self).spec_prefab().prefab_meta.id == prefab && old(self).spec_registry().has_uuid(component_type),
            r.is_err() ==> *final(self) == *old(self),
            (old(self).spec_state() matches ReaderState::InEntity(u, _) && u == entity) && old(self).spec_prefab().prefab_meta.id
                == prefab && !old(self).spec_registry().has_uuid(component_type) ==> r == Err::<(), ReadError>(
                ReadError::ComponentTypeNotRegistered(component_type),
            ),
            r.is_ok() ==> (old(self).spec_state() matches ReaderState::InEntity(_, h) && {
                &&& final(self).spec_prefab().world@ == old(self).spec_prefab().world@.insert(
                    h,
                    old(self).spec_prefab().world@[h].insert(component_type, data@),
                )
                &&& final(self).spec_prefab().prefab_meta == old(self).spec_prefab().prefab_meta
                &&& final(self).spec_state() == old(self).spec_state()
                &&& final(self).spec_registry() == old(self).spec_registry()
            }),
    {
        let h = match self.state {
            ReaderState::InEntity(u, h) => {
                if u != entity {
                    return Err(ReadError::OutOfSequence);
                }
                h
            },
            _ => {
                return Err(ReadError::OutOfSequence);
            },
        };
        self.check_prefab(prefab)?;
        if !self.registry.contains_uuid(component_type) {
            return Err(ReadError::ComponentTypeNotRegistered(component_type));
        }
        self.prefab.world.add_component(h, component_type, data);
        Ok(())
    }

    /// Starts a reference to another prefab, with no overrides yet if it is new.
    pub fn begin_prefab_ref(&mut self, prefab: PrefabUuid, target_prefab: PrefabUuid) -> (r: Result<(), ReadError>)
        requires
            old(self).wf(),
        ensures
            final(self).wf(),
            r.is_ok() <==> old(self).at_top(prefab),
            r.is_err() ==> *final(self) == *old(self),
            r.is_ok() ==> {
                let old_refs = old(self).spec_prefab().prefab_meta.ref_map();
                &&& final(self).spec_state() == ReaderState::InRef(target_prefab)
                &&& final(self).spec_prefab().world == old(self).spec_prefab().world
                &&& final(self).spec_prefab().prefab_meta.entities == old(self).spec_prefab().prefab_meta.entities
                &&& final(self).spec_prefab().prefab_meta.id == prefab
                &&& old_refs.contains_key(target_prefab) ==> final(self).spec_prefab().prefab_meta.ref_map() == old_refs
                &&& !old_refs.contains_key(target_prefab) ==> {
                    let new_refs = final(self).spec_prefab().prefab_meta.ref_map();
                    &&& new_refs.dom() == old_refs.dom().insert(target_prefab)
                    &&& new_refs[target_prefab].overrides@.len() == 0
                    &&& forall|k: PrefabUuid| #[trigger] old_refs.contains_key(k) ==> new_refs[k] == old_refs[k]
                }
                &&& final(self).spec_registry() == old(self).spec_registry()
            },
    {
        match self.state {
            ReaderState::InPrefab => {},
            _ => {
                return Err(ReadError::OutOfSequence);
            },
        }
        self.check_prefab(prefab)?;
        if find_key(&self.prefab.prefab_meta.prefab_refs, target_prefab).is_none() {
            let ghost old_refs = self.prefab.prefab_meta.ref_map();
            set_key(&mut self.prefab.prefab_meta.prefab_refs, target_prefab, PrefabRef { overrides: Vec::new() });
            proof {
                let m = self.prefab.prefab_meta.ref_map();
                assert(m.dom() =~= old_refs.dom().insert(target_prefab));
                assert forall|k: PrefabUuid| #[trigger] m.contains_key(k) implies m[k].wf() by {
                    if k != target_prefab {
                        assert(old_refs.contains_key(k));
                    }
                }
            }
        }
        self.state = ReaderState::InRef(target_prefab);
        Ok(())
    }

    /// Ends the current reference.
    pub fn end_prefab_ref(&mut self, prefab: PrefabUuid, target_prefab: PrefabUuid) -> (r: Result<(), ReadError>)
        requires
            old(self).wf(),
        ensures
            final(self).wf(),
            r.is_ok() <==> old(self).spec_state() == ReaderState::InRef(target_prefab) && old(self).spec_prefab().prefab_meta.id == prefab,
            r.is_err() ==> *final(self) == *old(self),
            r.is_ok() ==> final(self).spec_state() == ReaderState::InPrefab && final(self).spec_prefab() == old(self).spec_prefab()
                && final(self).spec_registry() == old(self).spec_registry(),
    {
        match self.state {
            ReaderState::InRef(t) => {
                if t != target_prefab {
                    return Err(ReadError::OutOfSequence);
                }
            },
            _ => {
                return Err(ReadError::OutOfSequence);
            },
        }
        self.check_prefab(prefab)?;
        self.state = ReaderState::InPrefab;
        Ok(())
    }

    /// Records, under the current reference, a patch for a component of one of the
    /// referenced prefab's entities. The patch is kept as text, not applied.
    pub fn apply_component_diff(
        &mut self,
        parent_prefab: PrefabUuid,
        prefab_ref: PrefabUuid,
        entity: EntityUuid,
        component_type: ComponentTypeUuid,
        data: String,
    ) -> (r: Result<(), ReadError>)
        requires
            old(self).wf(),
        ensures
            final(self).wf(),
            r.is_ok() <==> old(self).spec_state() == ReaderState::InRef(prefab_ref) && old(self).spec_prefab().prefab_meta.id == parent_prefab,
            r.is_err() ==> *final(self) == *old(self),
            r.is_ok() ==> {
                let old_refs = old(self).spec_prefab().prefab_meta.ref_map();
                let old_ovr = old_refs[prefab_ref].overrides@;
                let new_refs = final(self).spec_prefab().prefab_meta.ref_map();
                let new_ovr = new_refs[prefab_ref].overrides@;
                let old_list = if pairs_view(old_ovr).contains_key(entity) { pairs_view(old_ovr)[entity]@ } else { Seq::empty() };
                &&& new_refs.dom() == old_refs.dom()
                &&& forall|k: PrefabUuid| #[trigger] new_refs.contains_key(k) && k != prefab_ref ==> new_refs[k] == old_refs[k]
                &&& pairs_view(new_ovr).dom() == pairs_view(old_ovr).dom().insert(entity)
                &&& forall|e: EntityUuid| #[trigger] pairs_view(new_ovr).contains_key(e) && e != entity ==> pairs_view(new_ovr)[e] == pairs_view(old_ovr)[e]
                &&& pairs_view(new_ovr)[entity]@ == old_list.push((ComponentOverride { component_type, data }))
                &&& final(self).spec_state() == old(self).spec_state()
                &&& final(self).spec_prefab().world == old(self).spec_prefab().world
                &&& final(self).spec_prefab().prefab_meta.entities == old(self).spec_prefab().prefab_meta.entities
                &&& final(self).spec_prefab().prefab_meta.id == old(self).spec_prefab().prefab_meta.id
                &&& final(self).spec_registry() == old(self).spec_registry()
            },
    {
        match self.state {
            ReaderState::InRef(t) => {
                if t != prefab_ref {
                    return Err(ReadError::OutOfSequence);
                }
            },
            _ => {
                return Err(ReadError::OutOfSequence);
            },
        }
        self.check_prefab(parent_prefab)?;
        let ghost old_refs = self.prefab.prefab_meta.ref_map();
        let mut r = take_key(&mut self.prefab.prefab_meta.prefab_refs, prefab_ref).unwrap();
        let ghost old_ovr = r.overrides@;
        let mut list = match take_key(&mut r.overrides, entity) {
            Some(l) => l,
            None => Vec::new(),
        };
        list.push(ComponentOverride { component_type, data });
        set_key(&mut r.overrides, entity, list);
        set_key(&mut self.prefab.prefab_meta.prefab_refs, prefab_ref, r);
        proof {
            let m = self.prefab.prefab_meta.ref_map();
            assert(m =~= old_refs.insert(prefab_ref, r));
            assert(pairs_view(r.overrides@) =~= pairs_view(old_ovr).insert(entity, list));
            assert forall|k: PrefabUuid| #[trigger] m.contains_key(k) implies m[k].wf() by {
                if k != prefab_ref {
                    assert(old_refs.contains_key(k));
                }
            }
            assert(m.dom() =~= old_refs.dom());
            assert(pairs_view(r.overrides@).dom() =~= pairs_view(old_ovr).dom().insert(entity));
        }
        Ok(())
    }
}

/// The query surface that a document emitter reads a prefab through.
pub struct PrefabFormatSerializer<'a, 'b> {
    registry: &'a ComponentRegistry,
    prefab: &'b Prefab,
}

impl<'a, 'b> PrefabFormatSerializer<'a, 'b> {
    pub closed spec fn spec_prefab(&self) -> Prefab {
        *self.prefab
    }

    pub closed spec fn spec_registry(&self) -> ComponentRegistry {
        *self.registry
    }

    pub fn new(registry: &'a ComponentRegistry, prefab: &'b Prefab) -> (r: Self)
        ensures
            r.spec_prefab() == *prefab,
            r.spec_registry() == *registry,
    {
        PrefabFormatSerializer { registry, prefab }
    }

    /// The identities of the prefab's own entities.
    pub fn entities(&self) -> (r: Vec<EntityUuid>)
        ensures
            r@.len() == self.spec_prefab().prefab_meta.entities@.len(),
            forall|k: int| 0 <= k < r@.len() ==> #[trigger] r@[k] == self.spec_prefab().prefab_meta.entities@[k].0,
    {
        let s = &self.prefab.prefab_meta.entities;
        let mut out: Vec<EntityUuid> = Vec::new();
        let mut i: usize = 0;
        while i < s.len()
            invariant
                i <= s@.len(),
                out@.len() == i,
                forall|k: int| 0 <= k < i ==> #[trigger] out@[k] == s@[k].0,
            decreases s@.len() - i,
        {
            out.push(s[i].0);
            i = i + 1;
        }
        out
    }

    /// The registered component types that a named entity holds, each once; types the
    /// registry does not know are left out. Empty for an unnamed entity.
    pub fn component_types(&self, entity_uuid: EntityUuid) -> (r: Vec<ComponentTypeUuid>)
        ensures
            r@.no_duplicates(),
            ({
                let p = self.spec_prefab();
                let m = p.prefab_meta.entity_map();
                &&& m.contains_key(entity_uuid) && p.world@.contains_key(m[entity_uuid]) ==> forall|t: ComponentTypeUuid|
                    r@.contains(t) <==> p.world@[m[entity_uuid]].contains_key(t) && self.spec_registry().has_uuid(t)
                &&& !(m.contains_key(entity_uuid) && p.world@.contains_key(m[entity_uuid])) ==> r@.len() == 0
            }),
    {
        let mut out: Vec<ComponentTypeUuid> = Vec::new();
        let i = match find_key(&self.prefab.prefab_meta.entities, entity_uuid) {
            Some(i) => i,
            None => {
                return out;
            },
        };
        let h = self.prefab.prefab_meta.entities[i].1;
        let all = self.prefab.world.component_types(h);
        let mut j: usize = 0;
        while j < all.len()
            invariant
                j <= all@.len(),
                all@.no_duplicates(),
                out@.no_duplicates(),
                forall|t: ComponentTypeUuid| out@.contains(t) <==> exists|k: int| 0 <= k < j && all@[k] == t && self.registry.has_uuid(t),
            decreases all@.len() - j,
        {
            let t = all[j];
            let ghost prev = out@;
            if self.registry.contains_uuid(t) {
                proof {
                    assert(!prev.contains(t)) by {
                        if prev.contains(t) {
                            let k = choose|k: int| 0 <= k < j && all@[k] == t && self.registry.has_uuid(t);
                            assert(all@[k] == all@[j as int]);
                        }
                    }
                }
                out.push(t);
            }
            proof {
                assert forall|u: ComponentTypeUuid| out@.contains(u) <==> exists|k: int| 0 <= k < j + 1 && all@[k] == u && self.registry.has_uuid(u) by {
                    if out@.contains(u) {
                        let m = choose|m: int| 0 <= m < out@.len() && out@[m] == u;
                        if m < prev.len() {
                            assert(prev[m] == u);
                            assert(prev.contains(u));
                        } else {
                            assert(all@[j as int] == u);
                        }
                    }
                    if exists|k: int| 0 <= k < j + 1 && all@[k] == u && self.registry.has_uuid(u) {
                        let k = choose|k: int| 0 <= k < j + 1 && all@[k] == u && self.registry.has_uuid(u);
                        if k < j {
                            assert(prev.contains(u));
                            let m = choose|m: int| 0 <= m < prev.len() && prev[m] == u;
                            assert(out@[m] == u);
                        } else {
                            assert(out@[out@.len() - 1] == u);
                        }
                    }
                }
            }
            j = j + 1;
        }
        proof {
            if self.prefab.world@.contains_key(h) {
                assert forall|t: ComponentTypeUuid| out@.contains(t) <==> self.prefab.world@[h].contains_key(t) && self.registry.has_uuid(t) by {
                    if self.prefab.world@[h].contains_key(t) && self.registry.has_uuid(t) {
                        assert(all@.contains(t));
                        let k = choose|k: int| 0 <= k < all@.len() && all@[k] == t;
                        assert(exists|k: int| 0 <= k < j && all@[k] == t && self.registry.has_uuid(t));
                    }
                    if out@.contains(t) {
                        let k = choose|k: int| 0 <= k < j && all@[k] == t && self.registry.has_uuid(t);
                        assert(all@.contains(t));
                    }
                }
            } else {
                if out@.len() > 0 {
                    let t = out@[0];
                    assert(out@.contains(t));
                    let k = choose|k: int| 0 <= k < j && all@[k] == t && self.registry.has_uuid(t);
                    assert(all@.len() > 0);
                }
            }
        }
        out
    }

    /// The encoded value of a component of a named entity.
    pub fn serialize_entity_component(&self, entity_uuid: EntityUuid, component: ComponentTypeUuid) -> (r: Option<&Vec<u8>>)
        ensures
            ({
                let p = self.spec_prefab();
                let m = p.prefab_meta.entity_map();
                let present = m.contains_key(entity_uuid) && p.world@.contains_key(m[entity_uuid]) && p.world@[m[entity_uuid]].contains_key(component);
                &&& r.is_some() <==> present
                &&& r matches Some(v) ==> v@ == p.world@[m[entity_uuid]][component]
            }),
    {
        match find_key(&self.prefab.prefab_meta.entities, entity_uuid) {
            Some(i) => self.prefab.world.get_component(self.prefab.prefab_meta.entities[i].1, component),
            None => None,
        }
    }

    /// The identities of the prefabs this one embeds.
    pub fn prefab_refs(&self) -> (r: Vec<PrefabUuid>)
        ensures
            r@.len() == self.spec_prefab().prefab_meta.prefab_refs@.len(),
            forall|k: int| 0 <= k < r@.len() ==> #[trigger] r@[k] == self.spec_prefab().prefab_meta.prefab_refs@[k].0,
    {
        let s = &self.prefab.prefab_meta.prefab_refs;
        let mut out: Vec<PrefabUuid> = Vec::new();
        let mut i: usize = 0;
        while i < s.len()
            invariant
                i <= s@.len(),
                out@.len() == i,
                forall|k: int| 0 <= k < i ==> #[trigger] out@[k] == s@[k].0,
            decreases s@.len() - i,
        {
            out.push(s[i].0);
            i = i + 1;
        }
        out
    }

    /// For a referenced prefab, each overridden entity with the component types of its
    /// overrides, in recorded order. Empty for a prefab that is not referenced.
    pub fn prefab_ref_overrides(&self, uuid: PrefabUuid) -> (r: Vec<(EntityUuid, Vec<ComponentTypeUuid>)>)
        ensures
            ({
                let refs = self.spec_prefab().prefab_meta.ref_map();
                &&& !refs.contains_key(uuid) ==> r@.len() == 0
                &&& refs.contains_key(uuid) ==> {
                    let o = refs[uuid].overrides@;
                    &&& r@.len() == o.len()
                    &&& forall|k: int| 0 <= k < o.len() ==> {
                        &&& (#[trigger] r@[k]).0 == o[k].0
                        &&& r@[k].1@.len() == o[k].1@.len()
                        &&& forall|m: int| 0 <= m < o[k].1@.len() ==> #[trigger] r@[k].1@[m] == o[k].1@[m].component_type
                    }
                }
            }),
    {
        let mut out: Vec<(EntityUuid, Vec<ComponentTypeUuid>)> = Vec::new();
        let i = match find_key(&self.prefab.prefab_meta.prefab_refs, uuid) {
            Some(i) => i,
            None => {
                return out;
            },
        };
        let o = &self.prefab.prefab_meta.prefab_refs[i].1.overrides;
        let mut k: usize = 0;
        while k < o.len()
            invariant
                k <= o@.len(),
                out@.len() == k,
                forall|a: int| 0 <= a < k ==> {
                    &&& (#[trigger] out@[a]).0 == o@[a].0
                    &&& out@[a].1@.len() == o@[a].1@.len()
                    &&& forall|m: int| 0 <= m < o@[a].1@.len() ==> #[trigger] out@[a].1@[m] == o@[a].1@[m].component_type
                },
            decreases o@.len() - k,
        {
            let list = &o[k].1;
            let mut types: Vec<ComponentTypeUuid> = Vec::new();
            let mut m: usize = 0;
            while m < list.len()
                invariant
                    m <= list@.len(),
                    types@.len() == m,
                    forall|x: int| 0 <= x < m ==> #[trigger] types@[x] == list@[x].component_type,
                decreases list@.len() - m,
            {
                types.push(list[m].component_type);
                m = m + 1;
            }
            out.push((o[k].0, types));
            k = k + 1;
        }
        out
    }

    /// The recorded patch text of an override: the first one of the component type under
    /// the entity in the reference.
    pub fn serialize_component_override_diff(
        &self,
        prefab_ref: PrefabUuid,
        entity: EntityUuid,
        component: ComponentTypeUuid,
    ) -> (r: Option<&String>)
        ensures
            ({
                let refs = self.spec_prefab().prefab_meta.ref_map();
                let found = refs.contains_key(prefab_ref) && pairs_view(refs[prefab_ref].overrides@).contains_key(entity);
                let list = pairs_view(refs[prefab_ref].overrides@)[entity]@;
                &&& r.is_some() <==> found && exists|k: int| 0 <= k < list.len() && #[trigger] list[k].component_type == component
                &&& r matches Some(d) ==> exists|k: int| 0 <= k < list.len() && #[trigger] list[k].component_type == component
                    && list[k].data == *d && forall|x: int| 0 <= x < k ==> list[x].component_type != component
            }),
    {
        let i = match find_key(&self.prefab.prefab_meta.prefab_refs, prefab_ref) {
            Some(i) => i,
            None => {
                return None;
            },
        };
        let o = &self.prefab.prefab_meta.prefab_refs[i].1.overrides;
        let j = match find_key(o, entity) {
            Some(j) => j,
            None => {
                return None;
            },
        };
        let list = &o[j].1;
        let ghost refs = self.prefab.prefab_meta.ref_map();
        let mut k: usize = 0;
        while k < list.len()
            invariant
                refs == self.prefab.prefab_meta.ref_map(),
                refs.contains_key(prefab_ref) && pairs_view(refs[prefab_ref].overrides@).contains_key(entity),
                list@ == pairs_view(refs[prefab_ref].overrides@)[entity]@,
                k <= list@.len(),
                forall|x: int| 0 <= x < k ==> list@[x].component_type != component,
            decreases list@.len() - k,
        {
            if list[k].component_type == component {
                proof {
                    let l = list@;
                    let list2 = pairs_view(refs[prefab_ref].overrides@)[entity]@;
                    assert(list2 == l);
                    assert(0 <= k < list2.len() && list2[k as int].component_type == component);
                    assert(exists|k2: int| 0 <= k2 < list2.len() && #[trigger] list2[k2].component_type == component
                        && list2[k2].data == list@[k as int].data && forall|x: int| 0 <= x < k2 ==> list2[x].component_type != component);
                }
                return Some(&list[k].data);
            }
            k = k + 1;
        }
        None
    }
}

} // verus!
