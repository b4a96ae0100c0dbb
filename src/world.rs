use vstd::prelude::*;

use crate::ids::{ComponentTypeUuid, Entity};

verus! {

/// One component of an entity: its type and its value in encoded form.
pub struct ComponentValue {
    pub component_type: ComponentTypeUuid,
    pub data: Vec<u8>,
}

/// One entity of a world with its components.
pub struct EntityRecord {
    pub entity: Entity,
    pub components: Vec<ComponentValue>,
}

/// What a sequence of component values holds, by type: a later value of a type shadows an
/// earlier one.
pub open spec fn comps_view(s: Seq<ComponentValue>) -> Map<ComponentTypeUuid, Seq<u8>>
    decreases s.len(),
{
    if s.len() == 0 {
        Map::empty()
    } else {
        comps_view(s.drop_last()).insert(s.last().component_type, s.last().data@)
    }
}

/// What a sequence of entity records holds, by entity: a later record of an entity shadows
/// an earlier one.
pub open spec fn records_view(s: Seq<EntityRecord>) -> Map<Entity, Map<ComponentTypeUuid, Seq<u8>>>
    decreases s.len(),
{
    if s.len() == 0 {
        Map::empty()
    } else {
        records_view(s.drop_last()).insert(s.last().entity, comps_view(s.last().components@))
    }
}

pub proof fn lemma_comps_view_push(s: Seq<ComponentValue>, c: ComponentValue)
    ensures
        comps_view(s.push(c)) == comps_view(s).insert(c.component_type, c.data@),
{
    assert(s.push(c).drop_last() =~= s);
}

pub proof fn lemma_records_view_push(s: Seq<EntityRecord>, r: EntityRecord)
    ensures
        records_view(s.push(r)) == records_view(s).insert(r.entity, comps_view(r.components@)),
{
    assert(s.push(r).drop_last() =~= s);
}

pub proof fn lemma_comps_view_take(s: Seq<ComponentValue>, i: int)
    requires
        0 <= i < s.len(),
    ensures
        comps_view(s.take(i + 1)) == comps_view(s.take(i)).insert(s[i].component_type, s[i].data@),
{
    assert(s.take(i + 1).drop_last() =~= s.take(i));
}

pub proof fn lemma_records_view_take(s: Seq<EntityRecord>, i: int)
    requires
        0 <= i < s.len(),
    ensures
        records_view(s.take(i + 1)) == records_view(s.take(i)).insert(
            s[i].entity,
            comps_view(s[i].components@),
        ),
{
    assert(s.take(i + 1).drop_last() =~= s.take(i));
}

/// Finds the value of a component type in a component list, the last one when repeated.
pub fn find_component(comps: &Vec<ComponentValue>, t: ComponentTypeUuid) -> (r: Option<usize>)
    ensures
        r.is_none() <==> !comps_view(comps@).contains_key(t),
        r matches Some(i) ==> i < comps@.len() && comps@[i as int].component_type == t
            && comps_view(comps@)[t] == comps@[i as int].data@,
{
    let mut i: usize = comps.len();
    assert(comps@.take(i as int) =~= comps@);
    while i > 0
        invariant
            i <= comps@.len(),
            comps_view(comps@).contains_key(t) == comps_view(comps@.take(i as int)).contains_key(t),
            comps_view(comps@).contains_key(t) ==> comps_view(comps@)[t] == comps_view(
                comps@.take(i as int),
            )[t],
        decreases i,
    {
        proof {
            lemma_comps_view_take(comps@, i - 1);
        }
        if comps[i - 1].component_type == t {
            return Some(i - 1);
        }
        i = i - 1;
    }
    None
}

/// Finds the record of an entity, the last one when repeated.
pub fn find_record(records: &Vec<EntityRecord>, e: Entity) -> (r: Option<usize>)
    ensures
        r.is_none() <==> !records_view(records@).contains_key(e),
        r matches Some(i) ==> i < records@.len() && records@[i as int].entity == e
            && records_view(records@)[e] == comps_view(records@[i as int].components@),
{
    let mut i: usize = records.len();
    assert(records@.take(i as int) =~= records@);
    while i > 0
        invariant
            i <= records@.len(),
            records_view(records@).contains_key(e) == records_view(records@.take(i as int)).contains_key(e),
            records_view(records@).contains_key(e) ==> records_view(records@)[e] == records_view(
                records@.take(i as int),
            )[e],
        decreases i,
    {
        proof {
            lemma_records_view_take(records@, i - 1);
        }
        if records[i - 1].entity == e {
            return Some(i - 1);
        }
        i = i - 1;
    }
    None
}

/// Copies a component list, value by value.
pub fn copy_components(comps: &Vec<ComponentValue>) -> (r: Vec<ComponentValue>)
    ensures
        r@.len() == comps@.len(),
        comps_view(r@) == comps_view(comps@),
{
    let mut out: Vec<ComponentValue> = Vec::new();
    let mut i: usize = 0;
    while i < comps.len()
        invariant
            i <= comps@.len(),
            out@.len() == i,
            comps_view(out@) == comps_view(comps@.take(i as int)),
        decreases comps@.len() - i,
    {
        let c = ComponentValue { component_type: comps[i].component_type, data: comps[i].data.clone() };
        proof {
            lemma_comps_view_push(out@, c);
            lemma_comps_view_take(comps@, i as int);
        }
        out.push(c);
        i = i + 1;
    }
    assert(comps@.take(i as int) =~= comps@);
    out
}

/// Rebuilds a component list without any value of one type.
pub fn without_component(comps: &Vec<ComponentValue>, t: ComponentTypeUuid) -> (r: Vec<ComponentValue>)
    ensures
        comps_view(r@) == comps_view(comps@).remove(t),
{
    let mut out: Vec<ComponentValue> = Vec::new();
    let mut i: usize = 0;
    while i < comps.len()
        invariant
            i <= comps@.len(),
            comps_view(out@) == comps_view(comps@.take(i as int)).remove(t),
        decreases comps@.len() - i,
    {
        proof {
            lemma_comps_view_take(comps@, i as int);
        }
        if comps[i].component_type != t {
            let c = ComponentValue { component_type: comps[i].component_type, data: comps[i].data.clone() };
            proof {
                lemma_comps_view_push(out@, c);
            }
            out.push(c);
            assert(comps_view(out@) =~= comps_view(comps@.take(i + 1)).remove(t));
        } else {
            assert(comps_view(out@) =~= comps_view(comps@.take(i + 1)).remove(t));
        }
        i = i + 1;
    }
    assert(comps@.take(i as int) =~= comps@);
    out
}

/// The entity-component store the prefab logic works on: entities, each with a set of typed
/// components whose values are held encoded.
pub struct World {
    next_entity: u64,
    records: Vec<EntityRecord>,
}

impl World {
    /// Entity by entity, the components it holds, by type.
    pub closed spec fn view(&self) -> Map<Entity, Map<ComponentTypeUuid, Seq<u8>>> {
        records_view(self.records@)
    }

    /// The handle the next spawned entity receives.
    pub closed spec fn spec_next(&self) -> u64 {
        self.next_entity
    }

    /// Every entity's handle is below the next one to be handed out.
    pub closed spec fn wf(&self) -> bool {
        &&& forall|i: int| 0 <= i < self.records@.len() ==> #[trigger] self.records@[i].entity < self.next_entity
        &&& forall|i: int, j: int|
            0 <= i < j < self.records@.len() ==> #[trigger] self.records@[i].entity < #[trigger] self.records@[j].entity
    }

    /// Number of entities.
    pub closed spec fn spec_len(&self) -> nat {
        self.records@.len()
    }

    /// Handle of the entity at a position, in the world's own order.
    pub closed spec fn handle_at(&self, k: int) -> Entity {
        self.records@[k].entity
    }

    /// What this world holds once its entities are copied elsewhere, renumbered from
    /// `start` in the world's own order.
    pub closed spec fn clone_image(&self, start: u64) -> Map<Entity, Map<ComponentTypeUuid, Seq<u8>>> {
        records_view(renumbered(self.records@, start as int))
    }

    /// Position of an entity in the world's own order.
    pub closed spec fn position_of(&self, e: Entity) -> int {
        choose|k: int| 0 <= k < self.records@.len() && self.records@[k].entity == e
    }

    /// Entities are present exactly at their positions, and positions are distinct.
    pub proof fn lemma_positions(&self, e: Entity)
        requires
            self.wf(),
        ensures
            self@.contains_key(e) <==> exists|k: int| 0 <= k < self.spec_len() && #[trigger] self.handle_at(k) == e,
            self@.contains_key(e) ==> 0 <= self.position_of(e) < self.spec_len() && self.handle_at(self.position_of(e)) == e,
            forall|k: int| 0 <= k < self.spec_len() && #[trigger] self.handle_at(k) == e ==> k == self.position_of(e),
    {
        lemma_records_view_dom(self.records@, e);
        if self@.contains_key(e) {
            let k = choose|k: int| 0 <= k < self.records@.len() && #[trigger] self.records@[k].entity == e;
            assert(self.handle_at(k) == e);
        }
        assert forall|k: int| 0 <= k < self.spec_len() && #[trigger] self.handle_at(k) == e implies k == self.position_of(e) by {
            let p = self.position_of(e);
            assert(self.records@[k].entity == e);
            if p < k {
                assert(self.records@[p].entity < self.records@[k].entity);
            } else if k < p {
                assert(self.records@[k].entity < self.records@[p].entity);
            }
        }
    }

    /// The copy renumbered from `start` holds the entity of position `p` under
    /// `start + p`, and nothing else.
    pub proof fn lemma_clone_image(&self, start: u64)
        requires
            self.wf(),
            start + self.spec_len() <= u64::MAX,
        ensures
            forall|e: Entity| #[trigger] self.clone_image(start).contains_key(e) <==> start <= e < start + self.spec_len(),
            forall|p: int| 0 <= p < self.spec_len() ==> #[trigger] self.clone_image(start)[(start + p) as u64] == self@[self.handle_at(p)],
    {
        let r = renumbered(self.records@, start as int);
        assert forall|e: Entity| #[trigger] self.clone_image(start).contains_key(e) <==> start <= e < start + self.spec_len() by {
            lemma_records_view_dom(r, e);
            if start <= e < start + self.spec_len() {
                assert(r[e - start].entity == e);
            }
        }
        assert forall|p: int| 0 <= p < self.spec_len() implies #[trigger] self.clone_image(start)[(start + p) as u64] == self@[self.handle_at(p)] by {
            lemma_records_view_distinct_entry(r, p);
            lemma_records_view_distinct_entry(self.records@, p);
        }
    }

    /// Every entity's handle is below the next one to be handed out.
    pub proof fn lemma_below_next(&self, e: Entity)
        requires
            self.wf(),
            self@.contains_key(e),
        ensures
            e < self.spec_next(),
    {
        lemma_records_view_dom(self.records@, e);
    }

    /// A world with no entities has no records.
    pub proof fn lemma_empty(&self)
        requires
            self@ == Map::<Entity, Map<ComponentTypeUuid, Seq<u8>>>::empty(),
        ensures
            self.spec_len() == 0,
            forall|start: u64| #[trigger] self.clone_image(start) == Map::<Entity, Map<ComponentTypeUuid, Seq<u8>>>::empty(),
    {
        if self.records@.len() > 0 {
            let e = self.records@[0].entity;
            lemma_records_view_dom(self.records@, e);
            assert(self@.contains_key(e));
        }
        assert forall|start: u64| #[trigger] self.clone_image(start) == Map::<Entity, Map<ComponentTypeUuid, Seq<u8>>>::empty() by {
            assert(renumbered(self.records@, start as int) =~= Seq::<EntityRecord>::empty());
        }
    }

    pub open spec fn can_spawn(&self) -> bool {
        self.spec_next() < u64::MAX
    }

    pub fn new() -> (r: Self)
        ensures
            r.wf(),
            r@ == Map::<Entity, Map<ComponentTypeUuid, Seq<u8>>>::empty(),
            r.spec_next() == 0,
    {
        World { next_entity: 0, records: Vec::new() }
    }

    pub fn next_handle(&self) -> (r: u64)
        ensures
            r == self.spec_next(),
    {
        self.next_entity
    }

    pub fn has_room(&self) -> (r: bool)
        ensures
            r == self.can_spawn(),
    {
        self.next_entity < u64::MAX
    }

    /// Adds an entity with the given components, under a fresh handle.
    pub fn push(&mut self, components: Vec<ComponentValue>) -> (e: Entity)
        requires
            old(self).wf(),
            old(self).can_spawn(),
        ensures
            final(self).wf(),
            !old(self)@.contains_key(e),
            e == old(self).spec_next(),
            final(self).spec_next() == e + 1,
            final(self)@ == old(self)@.insert(e, comps_view(components@)),
    {
        let e = self.next_entity;
        proof {
            if records_view(self.records@).contains_key(e) {
                lemma_absent_below(self.records@, e);
            }
        }
        let r = EntityRecord { entity: e, components };
        proof {
            lemma_records_view_push(self.records@, r);
        }
        self.records.push(r);
        self.next_entity = e + 1;
        e
    }

    /// Adds an entity with no components, under a fresh handle.
    pub fn spawn(&mut self) -> (e: Entity)
        requires
            old(self).wf(),
            old(self).can_spawn(),
        ensures
            final(self).wf(),
            !old(self)@.contains_key(e),
            e == old(self).spec_next(),
            final(self).spec_next() == e + 1,
            final(self)@ == old(self)@.insert(e, Map::empty()),
    {
        let e = self.push(Vec::new());
        assert(comps_view(Seq::<ComponentValue>::empty()) == Map::<ComponentTypeUuid, Seq<u8>>::empty());
        e
    }

    pub fn len(&self) -> (r: usize)
        ensures
            r == self.spec_len(),
    {
        self.records.len()
    }

    /// The value of a component of an entity.
    pub fn get_component(&self, e: Entity, t: ComponentTypeUuid) -> (r: Option<&Vec<u8>>)
        ensures
            r.is_none() <==> !(self@.contains_key(e) && self@[e].contains_key(t)),
            r matches Some(v) ==> v@ == self@[e][t],
    {
        match find_record(&self.records, e) {
            None => None,
            Some(i) => match find_component(&self.records[i].components, t) {
                None => None,
                Some(j) => Some(&self.records[i].components[j].data),
            },
        }
    }

    /// Rebuilds the records without the one of `e`.
    fn records_without(&self, e: Entity) -> (r: Vec<EntityRecord>)
        requires
            self.wf(),
        ensures
            records_view(r@) == self@.remove(e),
            forall|i: int| 0 <= i < r@.len() ==> #[trigger] r@[i].entity < self.next_entity,
            forall|i: int, j: int| 0 <= i < j < r@.len() ==> #[trigger] r@[i].entity < #[trigger] r@[j].entity,
    {
        let mut out: Vec<EntityRecord> = Vec::new();
        let mut i: usize = 0;
        let n = self.records.len();
        while i < n
            invariant
                self.wf(),
                n == self.records@.len(),
                i <= n,
                records_view(out@) == records_view(self.records@.take(i as int)).remove(e),
                forall|k: int| 0 <= k < out@.len() ==> #[trigger] out@[k].entity < self.next_entity,
                forall|a: int, b: int| 0 <= a < b < out@.len() ==> #[trigger] out@[a].entity < #[trigger] out@[b].entity,
                i < n ==> forall|k: int| 0 <= k < out@.len() ==> #[trigger] out@[k].entity < self.records@[i as int].entity,
            decreases n - i,
        {
            proof {
                lemma_records_view_take(self.records@, i as int);
            }
            if self.records[i].entity != e {
                let r = EntityRecord { entity: self.records[i].entity, components: copy_components(&self.records[i].components) };
                proof {
                    lemma_records_view_push(out@, r);
                }
                out.push(r);
                assert(records_view(out@) =~= records_view(self.records@.take(i + 1)).remove(e));
            } else {
                assert(records_view(out@) =~= records_view(self.records@.take(i + 1)).remove(e));
            }
            proof {
                if i + 1 < n {
                    assert(self.records@[i as int].entity < self.records@[i + 1].entity);
                }
            }
            i = i + 1;
        }
        assert(self.records@.take(i as int) =~= self.records@);
        out
    }

    /// Removes an entity and all its components; a no-op for an absent entity.
    pub fn despawn(&mut self, e: Entity)
        requires
            old(self).wf(),
        ensures
            final(self).wf(),
            final(self)@ == old(self)@.remove(e),
            final(self).spec_next() == old(self).spec_next(),
    {
        let out = self.records_without(e);
        self.records = out;
    }

    /// Replaces the components of an entity that is present.
    fn set_components(&mut self, i: usize, comps: Vec<ComponentValue>)
        requires
            old(self).wf(),
            i < old(self).spec_len(),
        ensures
            final(self).wf(),
            final(self)@ == old(self)@.insert(old(self).handle_at(i as int), comps_view(comps@)),
            final(self).spec_next() == old(self).spec_next(),
            final(self).spec_len() == old(self).spec_len(),
            forall|k: int| 0 <= k < old(self).spec_len() ==> #[trigger] final(self).handle_at(k) == old(self).handle_at(k),
    {
        let e = self.records[i].entity;
        let r = EntityRecord { entity: e, components: comps };
        proof {
            lemma_records_view_update(self.records@, i as int, r);
        }
        self.records.set(i, r);
    }

    /// Adds a component to a present entity, replacing a value of the same type.
    pub fn add_component(&mut self, e: Entity, t: ComponentTypeUuid, data: Vec<u8>)
        requires
            old(self).wf(),
            old(self)@.contains_key(e),
        ensures
            final(self).wf(),
            final(self)@ == old(self)@.insert(e, old(self)@[e].insert(t, data@)),
            final(self).spec_next() == old(self).spec_next(),
    {
        let i = find_record(&self.records, e).unwrap();
        let mut comps = without_component(&self.records[i].components, t);
        let c = ComponentValue { component_type: t, data };
        proof {
            lemma_comps_view_push(comps@, c);
            assert(comps_view(comps@).insert(t, data@) =~= self@[e].insert(t, data@));
        }
        comps.push(c);
        self.set_components(i, comps);
    }

    /// Removes a component of an entity; a no-op where it is absent.
    pub fn remove_component(&mut self, e: Entity, t: ComponentTypeUuid)
        requires
            old(self).wf(),
        ensures
            final(self).wf(),
            old(self)@.contains_key(e) ==> final(self)@ == old(self)@.insert(e, old(self)@[e].remove(t)),
            !old(self)@.contains_key(e) ==> final(self)@ == old(self)@,
            final(self).spec_next() == old(self).spec_next(),
    {
        match find_record(&self.records, e) {
            None => {},
            Some(i) => {
                let comps = without_component(&self.records[i].components, t);
                self.set_components(i, comps);
            },
        }
    }

    /// The handles of all entities, each once, in the world's own order.
    pub fn entities(&self) -> (r: Vec<Entity>)
        requires
            self.wf(),
        ensures
            r@.no_duplicates(),
            r@.len() == self.spec_len(),
            forall|k: int| 0 <= k < r@.len() ==> #[trigger] r@[k] == self.handle_at(k),
            forall|e: Entity| r@.contains(e) <==> self@.contains_key(e),
    {
        let mut out: Vec<Entity> = Vec::new();
        let mut i: usize = 0;
        while i < self.records.len()
            invariant
                i <= self.records@.len(),
                out@.len() == i,
                forall|k: int| 0 <= k < i ==> #[trigger] out@[k] == self.records@[k].entity,
            decreases self.records@.len() - i,
        {
            out.push(self.records[i].entity);
            i = i + 1;
        }
        proof {
            assert forall|e: Entity| out@.contains(e) <==> self@.contains_key(e) by {
                lemma_records_view_dom(self.records@, e);
                if out@.contains(e) {
                    let k = choose|k: int| 0 <= k < out@.len() && out@[k] == e;
                    assert(self.records@[k].entity == e);
                }
                if self@.contains_key(e) {
                    let k = choose|k: int| 0 <= k < self.records@.len() && #[trigger] self.records@[k].entity == e;
                    assert(out@[k] == e);
                }
            }
            assert forall|a: int, b: int| 0 <= a < out@.len() && 0 <= b < out@.len() && a != b implies out@[a]
                != out@[b] by {
                if a < b {
                    assert(self.records@[a].entity < self.records@[b].entity);
                } else {
                    assert(self.records@[b].entity < self.records@[a].entity);
                }
            }
        }
        out
    }

    /// The component types an entity holds, each once; empty for an absent entity.
    pub fn component_types(&self, e: Entity) -> (r: Vec<ComponentTypeUuid>)
        ensures
            r@.no_duplicates(),
            self@.contains_key(e) ==> forall|t: ComponentTypeUuid| r@.contains(t) <==> self@[e].contains_key(t),
            !self@.contains_key(e) ==> r@.len() == 0,
    {
        let mut out: Vec<ComponentTypeUuid> = Vec::new();
        match find_record(&self.records, e) {
            None => {},
            Some(i) => {
                let comps = &self.records[i].components;
                let mut j: usize = 0;
                while j < comps.len()
                    invariant
                        j <= comps@.len(),
                        out@.no_duplicates(),
                        forall|t: ComponentTypeUuid| out@.contains(t) <==> exists|k: int| 0 <= k < j && #[trigger] comps@[k].component_type == t,
                    decreases comps@.len() - j,
                {
                    let t = comps[j].component_type;
                    let mut seen = false;
                    let mut m: usize = 0;
                    while m < out.len()
                        invariant
                            m <= out@.len(),
                            seen == exists|k: int| 0 <= k < m && out@[k] == t,
                        decreases out@.len() - m,
                    {
                        if out[m] == t {
                            seen = true;
                        }
                        m = m + 1;
                    }
                    let ghost prev = out@;
                    if !seen {
                        out.push(t);
                    }
                    proof {
                        assert forall|u: ComponentTypeUuid| out@.contains(u) <==> exists|k: int| 0 <= k < j + 1 && #[trigger] comps@[k].component_type == u by {
                            assert(out@ == prev || out@ == prev.push(t));
                            if out@.contains(u) {
                                if u == t {
                                    assert(comps@[j as int].component_type == u);
                                } else {
                                    let k = choose|k: int| 0 <= k < out@.len() && out@[k] == u;
                                    assert(prev[k] == u);
                                    assert(prev.contains(u));
                                    let k2 = choose|k2: int| 0 <= k2 < j && #[trigger] comps@[k2].component_type == u;
                                    assert(0 <= k2 < j + 1 && comps@[k2].component_type == u);
                                }
                            }
                            if exists|k: int| 0 <= k < j + 1 && #[trigger] comps@[k].component_type == u {
                                let k = choose|k: int| 0 <= k < j + 1 && #[trigger] comps@[k].component_type == u;
                                if k < j {
                                    assert(prev.contains(u));
                                    let m = choose|m: int| 0 <= m < prev.len() && prev[m] == u;
                                    assert(out@[m] == u);
                                } else if seen {
                                    let m = choose|m: int| 0 <= m < prev.len() && prev[m] == t;
                                    assert(out@[m] == u);
                                } else {
                                    assert(out@[out@.len() - 1] == u);
                                }
                            }
                        }
                    }
                    j = j + 1;
                }
                proof {
                    assert forall|t: ComponentTypeUuid| out@.contains(t) <==> self@[e].contains_key(t) by {
                        lemma_comps_view_dom(comps@, t);
                    }
                }
            },
        }
        out
    }

    /// Copies every entity of `src` into this world under fresh handles, in `src`'s order;
    /// returns for each copied entity its handle in `src` and its new handle here.
    pub fn clone_from(&mut self, src: &World) -> (mapping: Vec<(Entity, Entity)>)
        requires
            old(self).wf(),
            src.wf(),
            old(self).spec_next() + src.spec_len() <= u64::MAX,
        ensures
            final(self).wf(),
            final(self).spec_next() == old(self).spec_next() + src.spec_len(),
            final(self)@ == old(self)@.union_prefer_right(src.clone_image(old(self).spec_next())),
            mapping@.len() == src.spec_len(),
            forall|k: int| 0 <= k < mapping@.len() ==> #[trigger] mapping@[k] == (src.handle_at(k), (old(self).spec_next() + k) as u64),
    {
        let ghost start = self.next_entity as int;
        let ghost img = renumbered(src.records@, start);
        let mut mapping: Vec<(Entity, Entity)> = Vec::new();
        let mut i: usize = 0;
        while i < src.records.len()
            invariant
                self.wf(),
                src.wf(),
                start + src.records@.len() <= u64::MAX,
                i <= src.records@.len(),
                self.next_entity == start + i,
                img == renumbered(src.records@, start),
                self@ == old(self)@.union_prefer_right(records_view(img.take(i as int))),
                mapping@.len() == i,
                forall|k: int| 0 <= k < i ==> #[trigger] mapping@[k] == (src.records@[k].entity, (start + k) as u64),
            decreases src.records@.len() - i,
        {
            let comps = copy_components(&src.records[i].components);
            let ghost before = self@;
            let e = self.push(comps);
            mapping.push((src.records[i].entity, e));
            proof {
                lemma_records_view_take(img, i as int);
                assert(img[i as int].entity == e);
                assert(self@ =~= old(self)@.union_prefer_right(records_view(img.take(i + 1))));
            }
            i = i + 1;
        }
        assert(img.take(i as int) =~= img);
        mapping
    }

    /// Copies one entity of `src` into this world under a fresh handle; nothing happens for
    /// an entity `src` does not hold.
    pub fn clone_from_single(&mut self, src: &World, e: Entity) -> (r: Option<Entity>)
        requires
            old(self).wf(),
            old(self).can_spawn(),
        ensures
            final(self).wf(),
            r.is_some() <==> src@.contains_key(e),
            r.is_none() ==> *final(self) == *old(self),
            r matches Some(h) ==> {
                &&& h == old(self).spec_next()
                &&& !old(self)@.contains_key(h)
                &&& final(self).spec_next() == h + 1
                &&& final(self)@ == old(self)@.insert(h, src@[e])
            },
    {
        match find_record(&src.records, e) {
            None => None,
            Some(i) => {
                let comps = copy_components(&src.records[i].components);
                Some(self.push(comps))
            },
        }
    }

    pub fn contains(&self, e: Entity) -> (r: bool)
        ensures
            r == self@.contains_key(e),
    {
        find_record(&self.records, e).is_some()
    }
}

pub proof fn lemma_comps_view_dom(s: Seq<ComponentValue>, t: ComponentTypeUuid)
    ensures
        comps_view(s).contains_key(t) <==> exists|i: int| 0 <= i < s.len() && #[trigger] s[i].component_type == t,
    decreases s.len(),
{
    if s.len() > 0 {
        lemma_comps_view_dom(s.drop_last(), t);
        if comps_view(s.drop_last()).contains_key(t) {
            let i = choose|i: int| 0 <= i < s.len() - 1 && #[trigger] s.drop_last()[i].component_type == t;
            assert(s[i].component_type == t);
        }
        if exists|i: int| 0 <= i < s.len() && #[trigger] s[i].component_type == t {
            let i = choose|i: int| 0 <= i < s.len() && #[trigger] s[i].component_type == t;
            if i < s.len() - 1 {
                assert(s.drop_last()[i].component_type == t);
            }
        }
    }
}

pub proof fn lemma_records_view_dom(s: Seq<EntityRecord>, e: Entity)
    ensures
        records_view(s).contains_key(e) <==> exists|i: int| 0 <= i < s.len() && #[trigger] s[i].entity == e,
    decreases s.len(),
{
    if s.len() > 0 {
        lemma_records_view_dom(s.drop_last(), e);
        if records_view(s.drop_last()).contains_key(e) {
            let i = choose|i: int| 0 <= i < s.len() - 1 && #[trigger] s.drop_last()[i].entity == e;
            assert(s[i].entity == e);
        }
        if exists|i: int| 0 <= i < s.len() && #[trigger] s[i].entity == e {
            let i = choose|i: int| 0 <= i < s.len() && #[trigger] s[i].entity == e;
            if i < s.len() - 1 {
                assert(s.drop_last()[i].entity == e);
            }
        }
    }
}

/// With strictly increasing handles, each record is what the view holds for its entity.
proof fn lemma_records_view_distinct_entry(s: Seq<EntityRecord>, i: int)
    requires
        0 <= i < s.len(),
        forall|a: int, b: int| 0 <= a < b < s.len() ==> #[trigger] s[a].entity < #[trigger] s[b].entity,
    ensures
        records_view(s).contains_key(s[i].entity),
        records_view(s)[s[i].entity] == comps_view(s[i].components@),
    decreases s.len(),
{
    if i < s.len() - 1 {
        let d = s.drop_last();
        assert(d[i] == s[i]);
        assert forall|a: int, b: int| 0 <= a < b < d.len() implies #[trigger] d[a].entity < #[trigger] d[b].entity by {
            assert(d[a] == s[a] && d[b] == s[b]);
        }
        lemma_records_view_distinct_entry(d, i);
        assert(s[i].entity < s[s.len() - 1].entity);
    }
}

proof fn lemma_records_view_update(s: Seq<EntityRecord>, i: int, r: EntityRecord)
    requires
        0 <= i < s.len(),
        s[i].entity == r.entity,
        forall|a: int, b: int| 0 <= a < b < s.len() ==> #[trigger] s[a].entity < #[trigger] s[b].entity,
    ensures
        records_view(s.update(i, r)) == records_view(s).insert(r.entity, comps_view(r.components@)),
    decreases s.len(),
{
    let u = s.update(i, r);
    if i == s.len() - 1 {
        assert(u.drop_last() =~= s.drop_last());
        assert(records_view(s.drop_last()).insert(r.entity, comps_view(r.components@)) =~= records_view(s).insert(
            r.entity,
            comps_view(r.components@),
        ));
    } else {
        let d = s.drop_last();
        assert(u.drop_last() =~= d.update(i, r));
        lemma_records_view_update(d, i, r);
        assert(s.last().entity != r.entity) by {
            assert(s[i].entity < s[s.len() - 1].entity);
        }
        assert(records_view(u) =~= records_view(s).insert(r.entity, comps_view(r.components@)));
    }
}

/// The handles of a world's entities, in its own order.
pub open spec fn handles(w: World) -> Seq<Entity> {
    Seq::new(w.spec_len(), |k: int| w.handle_at(k))
}

/// The records with the entity of position `k` renamed to `start + k`.
pub closed spec fn renumbered(s: Seq<EntityRecord>, start: int) -> Seq<EntityRecord> {
    Seq::new(s.len(), |k: int| EntityRecord { entity: (start + k) as u64, components: s[k].components })
}

proof fn lemma_absent_below(s: Seq<EntityRecord>, e: Entity)
    requires
        forall|i: int| 0 <= i < s.len() ==> #[trigger] s[i].entity < e,
    ensures
        !records_view(s).contains_key(e),
    decreases s.len(),
{
    if s.len() > 0 {
        lemma_absent_below(s.drop_last(), e);
    }
}

} // verus!
