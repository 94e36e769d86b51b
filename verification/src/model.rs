//! The entity store: owns the entity table, keeps the aspect index in sync
//! with every aspect mutation, and accumulates the per-tick diff.
//!
//! Mutations on dead or unknown entities are deliberately silent no-ops
//! (never errors): op batches are expected to race against same-tick entity
//! death. Spawn and kill are the only lifecycle paths; handles are never
//! reused.

use std::sync::Arc;

use vstd::prelude::*;

use crate::attr::{AttrLayer, AttrValue, LayerSource};
use crate::diff::ModelDiff;
use crate::effect::EffectInstance;
use crate::query::AspectQuery;
use crate::entity::{
    entity_id_before, entity_id_lt, inst_ids_sorted, traits_sorted, EntityAttrs, EntityId,
    EntityRecord, EntityRid,
};
use crate::ids::{AttrKeyId, EffectInstId, TraitId};
use crate::index::AspectIndex;
use crate::registry::{in_closure, AspectRegistry, AspectRid};
use crate::set::AspectSet;

verus! {

/// The deterministic entity store.
pub struct Model {
    /// The sealed taxonomy the store was built against; shared read-only.
    pub aspects_reg: Arc<AspectRegistry>,
    entities: Vec<EntityRecord>,
    by_id: Vec<(EntityId, EntityRid)>,
    /// Inverted index kept consistent with the entities' aspect sets.
    pub aspect_index: AspectIndex,
    effects: Vec<crate::effect::EffectInstance>,
    next_effect_inst: u64,
    pending_diff: ModelDiff,
}

impl Model {
    /// The entity rows, indexed by handle.
    pub closed spec fn entities_seq(&self) -> Seq<EntityRecord> {
        self.entities@
    }

    /// The live-entity id map, ascending by id.
    pub closed spec fn by_id_seq(&self) -> Seq<(EntityId, EntityRid)> {
        self.by_id@
    }

    /// The global effect table, ascending by instance id.
    pub closed spec fn effects_seq(&self) -> Seq<crate::effect::EffectInstance> {
        self.effects@
    }

    /// The next effect-instance id to allocate.
    pub closed spec fn next_inst_spec(&self) -> u64 {
        self.next_effect_inst
    }

    /// The diff accumulated since the last drain.
    pub closed spec fn diff_spec(&self) -> ModelDiff {
        self.pending_diff
    }

    /// The sealed registry the store was built against.
    pub closed spec fn reg(&self) -> AspectRegistry {
        *self.aspects_reg
    }

    /// The inverted aspect index.
    pub closed spec fn index_spec(&self) -> AspectIndex {
        self.aspect_index
    }

    /// Everything the store maintains across every mutation: rows sit at
    /// their own handle, dead rows have no aspects, per-row collections are
    /// sorted and well-formed, the id map lists exactly the live entities,
    /// the index holds an entity under an aspect exactly when the row does,
    /// and the effect table is sorted by instance id.
    pub open spec fn wf(&self) -> bool {
        let es = self.entities_seq();
        let reg_len = self.reg().nodes_seq().len();
        &&& self.reg().wf()
        &&& es.len() <= u32::MAX
        &&& forall|i: int| 0 <= i < es.len() ==> (#[trigger] es[i]).rid.0 == i
        &&& forall|i: int| 0 <= i < es.len() ==> (#[trigger] es[i]).aspects.wf()
        &&& forall|i: int, a: AspectRid|
            0 <= i < es.len() && (#[trigger] es[i].aspects@.contains(a)) ==> a.0 < reg_len
        &&& forall|i: int| 0 <= i < es.len() ==> traits_sorted((#[trigger] es[i]).traits@)
        &&& forall|i: int| 0 <= i < es.len() ==> inst_ids_sorted((#[trigger] es[i]).effects@)
        &&& forall|i: int| 0 <= i < es.len() ==> (#[trigger] es[i]).attrs.wf()
        &&& forall|i: int|
            0 <= i < es.len() && !(#[trigger] es[i]).alive ==> es[i].aspects@.len() == 0
        &&& forall|k: int, l: int|
            0 <= k < l < self.by_id_seq().len() ==> entity_id_lt(
                (#[trigger] self.by_id_seq()[k]).0,
                (#[trigger] self.by_id_seq()[l]).0,
            )
        &&& forall|k: int|
            0 <= k < self.by_id_seq().len() ==> {
                let p = #[trigger] self.by_id_seq()[k];
                p.1.0 < es.len() && es[p.1.0 as int].alive && es[p.1.0 as int].id == p.0
            }
        &&& forall|i: int|
            0 <= i < es.len() && (#[trigger] es[i]).alive ==> self.by_id_seq().contains(
                (es[i].id, EntityRid(i as u32)),
            )
        &&& self.index_spec().sets().len() == reg_len
        &&& forall|a: int, e: u32|
            0 <= a < reg_len ==> ((#[trigger] self.index_spec().sets()[a].contains(e)) <==> (e
                < es.len() && es[e as int].aspects@.contains(AspectRid(a as u32))))
        &&& forall|k: int, l: int|
            0 <= k < l < self.effects_seq().len() ==> (#[trigger] self.effects_seq()[
                k]).inst_id.0 < (#[trigger] self.effects_seq()[l]).inst_id.0
    }

    /// A fresh store over a sealed registry: no entities, no effects, an
    /// empty diff, and one empty index bitmap per aspect.
    pub fn new(aspects_reg: Arc<AspectRegistry>) -> (r: Model)
        requires
            (*aspects_reg).wf(),
        ensures
            r.wf(),
            r.reg() == *aspects_reg,
            r.entities_seq().len() == 0,
            r.by_id_seq().len() == 0,
            r.effects_seq().len() == 0,
            r.next_inst_spec() == 0,
            r.diff_spec().is_empty_spec(),
    {
        let num_aspects = aspects_reg.len();
        Model {
            aspects_reg,
            entities: Vec::new(),
            by_id: Vec::new(),
            aspect_index: AspectIndex::new(num_aspects),
            effects: Vec::new(),
            next_effect_inst: 0,
            pending_diff: ModelDiff::new(),
        }
    }

    /// The live entity handle mapped to an id, if any.
    fn lookup_rid(&self, id: &EntityId) -> (r: Option<EntityRid>)
        ensures
            match r {
                Some(rid) => exists|k: int|
                    0 <= k < self.by_id_seq().len() && #[trigger] self.by_id_seq()[k] == (
                    *id,
                    rid,
                ),
                None => forall|k: int|
                    0 <= k < self.by_id_seq().len() ==> (#[trigger] self.by_id_seq()[k]).0 != *id,
            },
    {
        let n = self.by_id.len();
        let mut k: usize = 0;
        while k < n
            invariant
                n == self.by_id@.len(),
                k <= n,
                forall|j: int| 0 <= j < k ==> (#[trigger] self.by_id@[j]).0 != *id,
            decreases n - k,
        {
            if entity_ids_equal(&self.by_id[k].0, id) {
                proof {
                    assert(self.by_id_seq()[k as int] == (*id, self.by_id@[k as int].1));
                }
                return Some(self.by_id[k].1);
            }
            k += 1;
        }
        None
    }

    /// Returns the existing handle when the id is already live, else
    /// allocates the next sequential handle, inserts an empty live row,
    /// maps the id, and records the spawn.
    pub fn spawn_entity(&mut self, id: EntityId) -> (r: EntityRid)
        requires
            old(self).wf(),
            old(self).entities_seq().len() < u32::MAX,
        ensures
            final(self).wf(),
            spawn_rel(*old(self), *final(self), id, r),
    {
        match self.lookup_rid(&id) {
            Some(rid) => {
                return rid;
            },
            None => {},
        }
        let ghost pre = *self;
        let rid = EntityRid(self.entities.len() as u32);
        let record = EntityRecord {
            id,
            rid,
            alive: true,
            archetype: None,
            traits: Vec::new(),
            effects: Vec::new(),
            aspects: AspectSet::new(),
            attrs: EntityAttrs::new(),
        };
        self.entities.push(record);
        insert_by_id(&mut self.by_id, id, rid);
        self.pending_diff.spawned.push(rid);
        proof {
            let es = self.entities_seq();
            let pes = pre.entities_seq();
            assert(forall|i: int| 0 <= i < pes.len() ==> #[trigger] es[i] == pes[i]);
            assert(es[pes.len() as int].aspects@ =~= Seq::<AspectRid>::empty());
            assert forall|i: int| 0 <= i < es.len() && (#[trigger] es[i]).alive implies self
                .by_id_seq().contains((es[i].id, EntityRid(i as u32))) by {
                if i < pes.len() {
                    assert(pre.by_id_seq().contains((pes[i].id, EntityRid(i as u32))));
                    let k = choose|k: int|
                        0 <= k < pre.by_id_seq().len() && pre.by_id_seq()[k] == (
                        pes[i].id,
                        EntityRid(i as u32),
                        );
                    assert(self.by_id_seq().contains(pre.by_id_seq()[k]));
                } else {
                    assert(self.by_id_seq().contains((id, rid)));
                }
            }
            assert forall|a: int, e: u32|
                0 <= a < self.reg().nodes_seq().len() implies ((
            #[trigger] self.index_spec().sets()[a].contains(e)) <==> (e < es.len() && es[
                e as int].aspects@.contains(AspectRid(a as u32)))) by {
                if e < es.len() && es[e as int].aspects@.contains(AspectRid(a as u32)) {
                    assert(e < pes.len() || es[e as int].aspects@.len() == 0);
                }
            }
            assert forall|k: int|
                0 <= k < self.by_id_seq().len() implies {
                    let p = #[trigger] self.by_id_seq()[k];
                    p.1.0 < es.len() && es[p.1.0 as int].alive && es[p.1.0 as int].id == p.0
                } by {
                assert(self.by_id_seq().contains(self.by_id_seq()[k]));
                let p = self.by_id_seq()[k];
                if pre.by_id_seq().contains(p) {
                    let k0 = choose|k0: int|
                        0 <= k0 < pre.by_id_seq().len() && pre.by_id_seq()[k0] == p;
                    assert(pre.by_id_seq()[k0] == p);
                    assert(es[p.1.0 as int] == pes[p.1.0 as int]);
                } else {
                    assert(p == (id, rid));
                }
            }
        }
        rid
    }

    /// Marks a live entity dead: clears its aspects (and their index
    /// memberships), drops its id mapping, and records the kill exactly
    /// once. A dead or unknown handle changes nothing.
    pub fn kill_entity(&mut self, rid: EntityRid)
        requires
            old(self).wf(),
        ensures
            final(self).wf(),
            kill_rel(*old(self), *final(self), rid),
    {
        let n = self.entities.len();
        if rid.0 as usize >= n {
            return ;
        }
        if !self.entities[rid.0 as usize].alive {
            return ;
        }
        let ghost pre = *self;
        let i = rid.0 as usize;
        let mut rec = self.entities.remove(i);
        let id = rec.id;
        rec.alive = false;
        let mut old_aspects = AspectSet::new();
        core::mem::swap(&mut old_aspects, &mut rec.aspects);
        self.entities.insert(i, rec);
        proof {
            assert(self.entities@ =~= pre.entities@.update(i as int, self.entities@[i as int]));
            assert(self.entities@[i as int].aspects@ =~= Seq::<AspectRid>::empty());
        }
        remove_by_id(&mut self.by_id, &id);
        let ghost mid_by_id = self.by_id@;
        let slice_len = old_aspects.len();
        let ghost oa = old_aspects@;
        let ghost mid_entities = self.entities@;
        proof {
            assert forall|j: int| 0 <= j < oa.len() implies (#[trigger] oa[j]).0 < pre.reg()
                .nodes_seq().len() by {
                assert(pre.entities_seq()[rid.0 as int].aspects@.contains(oa[j]));
            }
        }
        let mut t: usize = 0;
        while t < slice_len
            invariant
                self.reg() == pre.reg(),
                self.entities@ == mid_entities,
                self.by_id@ == mid_by_id,
                self.effects@ == pre.effects@,
                self.next_effect_inst == pre.next_effect_inst,
                self.pending_diff == pre.pending_diff,
                rid.0 < pre.entities@.len(),
                oa == pre.entities@[rid.0 as int].aspects@,
                old_aspects@ == oa,
                forall|j: int| 0 <= j < oa.len() ==> (#[trigger] oa[j]).0
                    < pre.reg().nodes_seq().len(),
                slice_len == oa.len(),
                t <= slice_len,
                self.aspect_index.sets().len() == pre.aspect_index.sets().len(),
                forall|a: int|
                    0 <= a < self.aspect_index.sets().len() ==> #[trigger] self.aspect_index.sets()[
                        a] =~= (if exists|j: int| 0 <= j < t && (#[trigger] oa[j]).0 == a {
                        pre.aspect_index.sets()[a].remove(rid.0)
                    } else {
                        pre.aspect_index.sets()[a]
                    }),
            decreases slice_len - t,
        {
            let a = old_aspects.as_slice()[t];
            proof {
                assert(oa[t as int] == a);
            }
            self.aspect_index.remove(rid, a);
            proof {
                assert forall|a2: int|
                    0 <= a2 < self.aspect_index.sets().len() implies #[trigger] self.aspect_index
                    .sets()[a2] =~= (if exists|j: int| 0 <= j < t + 1 && (#[trigger] oa[j]).0 == a2 {
                    pre.aspect_index.sets()[a2].remove(rid.0)
                } else {
                    pre.aspect_index.sets()[a2]
                }) by {
                    if a2 == a.0 {
                        assert(0 <= t < t + 1 && oa[t as int].0 == a2);
                    } else {
                        if exists|j: int| 0 <= j < t + 1 && (#[trigger] oa[j]).0 == a2 {
                            let j = choose|j: int| 0 <= j < t + 1 && (#[trigger] oa[j]).0 == a2;
                            assert(j < t);
                            assert(exists|j2: int| 0 <= j2 < t && (#[trigger] oa[j2]).0 == a2);
                        }
                    }
                }
            }
            t += 1;
        }
        self.pending_diff.killed.push(rid);
        proof {
            let es = self.entities_seq();
            let pes = pre.entities_seq();
            assert forall|a: int|
                0 <= a < self.aspect_index.sets().len() implies #[trigger] self.aspect_index.sets()[
                a] =~= pre.aspect_index.sets()[a].remove(rid.0) by {
                assert(0 <= a < pre.reg().nodes_seq().len());
                if pre.aspect_index.sets()[a].contains(rid.0) {
                    assert(pes[rid.0 as int].aspects@.contains(AspectRid(a as u32)));
                    let j = choose|j: int| 0 <= j < oa.len() && oa[j] == AspectRid(a as u32);
                    assert(oa[j].0 == a);
                    assert(self.aspect_index.sets()[a] =~= pre.aspect_index.sets()[a].remove(
                        rid.0,
                    ));
                } else {
                    if exists|j: int| 0 <= j < oa.len() && (#[trigger] oa[j]).0 == a {
                        assert(self.aspect_index.sets()[a] =~= pre.aspect_index.sets()[a].remove(
                            rid.0,
                        ));
                    } else {
                        assert(self.aspect_index.sets()[a] =~= pre.aspect_index.sets()[a]);
                        assert(pre.aspect_index.sets()[a].remove(rid.0)
                            =~= pre.aspect_index.sets()[a]);
                    }
                }
            }
            assert forall|a: int, e: u32|
                0 <= a < self.reg().nodes_seq().len() implies ((
            #[trigger] self.index_spec().sets()[a].contains(e)) <==> (e < es.len() && es[
                e as int].aspects@.contains(AspectRid(a as u32)))) by {
                if e == rid.0 {
                    assert(es[e as int].aspects@.len() == 0);
                } else {
                    assert(self.aspect_index.sets()[a].contains(e) == pre.aspect_index.sets()[
                        a].contains(e));
                    if e < es.len() {
                        assert(es[e as int] == pes[e as int]);
                    }
                }
            }
            assert forall|k: int|
                0 <= k < self.by_id_seq().len() implies {
                    let p = #[trigger] self.by_id_seq()[k];
                    p.1.0 < es.len() && es[p.1.0 as int].alive && es[p.1.0 as int].id == p.0
                } by {
                assert(self.by_id_seq().contains(self.by_id_seq()[k]));
                let p = self.by_id_seq()[k];
                assert(pre.by_id_seq().contains(p) && p.0 != id);
                let k0 = choose|k0: int|
                    0 <= k0 < pre.by_id_seq().len() && pre.by_id_seq()[k0] == p;
                assert(pre.by_id_seq()[k0] == p);
                assert(pes[p.1.0 as int].id == p.0);
                assert(p.1.0 != rid.0);
                assert(es[p.1.0 as int] == pes[p.1.0 as int]);
            }
            assert forall|i2: int|
                0 <= i2 < es.len() && (#[trigger] es[i2]).alive implies self.by_id_seq().contains(
                (es[i2].id, EntityRid(i2 as u32)),
            ) by {
                assert(i2 != rid.0);
                assert(es[i2] == pes[i2]);
                assert(pre.by_id_seq().contains((pes[i2].id, EntityRid(i2 as u32))));
                // ids of live entities are distinct from the killed entity's id
                let k = choose|k: int|
                    0 <= k < pre.by_id_seq().len() && pre.by_id_seq()[k] == (
                    pes[i2].id,
                    EntityRid(i2 as u32),
                    );
                if pes[i2].id == id {
                    assert(pre.by_id_seq().contains((id, EntityRid(i2 as u32))));
                    assert(pre.by_id_seq().contains((pes[rid.0 as int].id, rid)));
                    let k1 = choose|k1: int|
                        0 <= k1 < pre.by_id_seq().len() && pre.by_id_seq()[k1] == (id, rid);
                    if k < k1 {
                        assert(entity_id_lt(pre.by_id_seq()[k].0, pre.by_id_seq()[k1].0));
                        crate::entity::lemma_entity_id_order_total(id, id);
                        assert(false);
                    } else if k1 < k {
                        assert(entity_id_lt(pre.by_id_seq()[k1].0, pre.by_id_seq()[k].0));
                        assert(false);
                    } else {
                        assert(false);
                    }
                }
            }
        }
    }

    /// Replaces a live entity's aspect set with the ancestor closure of
    /// the given direct aspects, updating the index by the minimal insert
    /// and remove operations, and records an aspect change only when the
    /// closed set actually differs. Dead or unknown handles change nothing.
    pub fn set_entity_aspects(&mut self, rid: EntityRid, direct: &[AspectRid])
        requires
            old(self).wf(),
            forall|i: int|
                0 <= i < direct@.len() ==> (#[trigger] direct@[i]).0 < old(
                    self,
                ).reg().nodes_seq().len(),
        ensures
            final(self).wf(),
            set_aspects_rel(*old(self), *final(self), rid, direct@),
    {
        let n = self.entities.len();
        if rid.0 as usize >= n {
            return ;
        }
        if !self.entities[rid.0 as usize].alive {
            return ;
        }
        let ghost pre = *self;
        let new_aspects = self.aspects_reg.close_under_ancestors(direct);
        let ghost na = new_aspects@;
        let i = rid.0 as usize;
        let mut rec = self.entities.remove(i);
        let mut old_aspects = AspectSet::new();
        core::mem::swap(&mut old_aspects, &mut rec.aspects);
        let ghost oa = old_aspects@;
        let changed = !(old_aspects == new_aspects);
        proof {
            assert(oa == pre.entities_seq()[rid.0 as int].aspects@);
            assert forall|j: int| 0 <= j < oa.len() implies (#[trigger] oa[j]).0 < pre.reg()
                .nodes_seq().len() by {
                assert(pre.entities_seq()[rid.0 as int].aspects@.contains(oa[j]));
            }
        }
        // drop memberships no longer implied
        let old_len = old_aspects.len();
        let ghost mid_entities = self.entities@;
        let mut t: usize = 0;
        while t < old_len
            invariant
                self.reg() == pre.reg(),
                self.entities@ == mid_entities,
                self.by_id@ == pre.by_id@,
                self.effects@ == pre.effects@,
                self.next_effect_inst == pre.next_effect_inst,
                self.pending_diff == pre.pending_diff,
                rid.0 < pre.entities_seq().len(),
                old_aspects@ == oa,
                new_aspects@ == na,
                new_aspects.wf(),
                forall|j: int|
                    0 <= j < oa.len() ==> (#[trigger] oa[j]).0 < pre.reg().nodes_seq().len(),
                old_len == oa.len(),
                t <= old_len,
                self.aspect_index.sets().len() == pre.aspect_index.sets().len(),
                forall|a: int|
                    0 <= a < self.aspect_index.sets().len() ==> #[trigger] self.aspect_index.sets()[
                        a] =~= (if exists|j: int|
                        0 <= j < t && (#[trigger] oa[j]).0 == a && !na.contains(oa[j]) {
                        pre.aspect_index.sets()[a].remove(rid.0)
                    } else {
                        pre.aspect_index.sets()[a]
                    }),
            decreases old_len - t,
        {
            let a = old_aspects.as_slice()[t];
            proof {
                assert(oa[t as int] == a);
            }
            if !new_aspects.contains(a) {
                self.aspect_index.remove(rid, a);
            }
            proof {
                assert forall|a2: int|
                    0 <= a2 < self.aspect_index.sets().len() implies #[trigger] self.aspect_index
                    .sets()[a2] =~= (if exists|j: int|
                    0 <= j < t + 1 && (#[trigger] oa[j]).0 == a2 && !na.contains(oa[j]) {
                    pre.aspect_index.sets()[a2].remove(rid.0)
                } else {
                    pre.aspect_index.sets()[a2]
                }) by {
                    if a2 == a.0 && !na.contains(a) {
                        assert(0 <= t < t + 1 && oa[t as int].0 == a2 && !na.contains(
                            oa[t as int],
                        ));
                    } else {
                        if exists|j: int|
                            0 <= j < t + 1 && (#[trigger] oa[j]).0 == a2 && !na.contains(oa[j]) {
                            let j = choose|j: int|
                                0 <= j < t + 1 && (#[trigger] oa[j]).0 == a2 && !na.contains(
                                    oa[j],
                                );
                            assert(j < t || (oa[j] == a && a2 == a.0 && !na.contains(a)));
                            assert(exists|j2: int|
                                0 <= j2 < t && (#[trigger] oa[j2]).0 == a2 && !na.contains(
                                    oa[j2],
                                ));
                        }
                    }
                }
            }
            t += 1;
        }
        // add newly implied memberships
        let ghost sets1 = self.aspect_index.sets();
        proof {
            assert forall|j: int| 0 <= j < na.len() implies (#[trigger] na[j]).0 < pre.reg()
                .nodes_seq().len() by {
                assert(na.contains(na[j]));
            }
        }
        let new_len = new_aspects.len();
        let mut t: usize = 0;
        while t < new_len
            invariant
                self.reg() == pre.reg(),
                self.entities@ == mid_entities,
                self.by_id@ == pre.by_id@,
                self.effects@ == pre.effects@,
                self.next_effect_inst == pre.next_effect_inst,
                self.pending_diff == pre.pending_diff,
                rid.0 < pre.entities_seq().len(),
                old_aspects@ == oa,
                new_aspects@ == na,
                new_aspects.wf(),
                forall|j: int|
                    0 <= j < na.len() ==> (#[trigger] na[j]).0 < pre.reg().nodes_seq().len(),
                new_len == na.len(),
                t <= new_len,
                self.aspect_index.sets().len() == sets1.len(),
                sets1.len() == pre.aspect_index.sets().len(),
                forall|a: int|
                    0 <= a < self.aspect_index.sets().len() ==> #[trigger] self.aspect_index.sets()[
                        a] =~= (if exists|j: int|
                        0 <= j < t && (#[trigger] na[j]).0 == a && !oa.contains(na[j]) {
                        sets1[a].insert(rid.0)
                    } else {
                        sets1[a]
                    }),
            decreases new_len - t,
        {
            let a = new_aspects.as_slice()[t];
            proof {
                assert(na[t as int] == a);
            }
            if !old_aspects.contains(a) {
                self.aspect_index.insert(rid, a);
            }
            proof {
                assert forall|a2: int|
                    0 <= a2 < self.aspect_index.sets().len() implies #[trigger] self.aspect_index
                    .sets()[a2] =~= (if exists|j: int|
                    0 <= j < t + 1 && (#[trigger] na[j]).0 == a2 && !oa.contains(na[j]) {
                    sets1[a2].insert(rid.0)
                } else {
                    sets1[a2]
                }) by {
                    if a2 == a.0 && !oa.contains(a) {
                        assert(0 <= t < t + 1 && na[t as int].0 == a2 && !oa.contains(
                            na[t as int],
                        ));
                    } else {
                        if exists|j: int|
                            0 <= j < t + 1 && (#[trigger] na[j]).0 == a2 && !oa.contains(na[j]) {
                            let j = choose|j: int|
                                0 <= j < t + 1 && (#[trigger] na[j]).0 == a2 && !oa.contains(
                                    na[j],
                                );
                            assert(j < t || (na[j] == a && a2 == a.0 && !oa.contains(a)));
                            assert(exists|j2: int|
                                0 <= j2 < t && (#[trigger] na[j2]).0 == a2 && !oa.contains(
                                    na[j2],
                                ));
                        }
                    }
                }
            }
            t += 1;
        }
        rec.aspects = new_aspects;
        self.entities.insert(i, rec);
        proof {
            assert(self.entities@ =~= pre.entities@.update(i as int, self.entities@[i as int]));
        }
        if changed {
            self.pending_diff.aspects_changed.push(rid);
        }
        proof {
            let es = self.entities_seq();
            let pes = pre.entities_seq();
            let ks = pre.reg().keys_view();
            assert(es[rid.0 as int].aspects@ == na);
            // final index characterization
            assert forall|a: int|
                0 <= a < self.aspect_index.sets().len() implies #[trigger] self.aspect_index.sets()[
                a] =~= (if na.contains(AspectRid(a as u32)) {
                pre.aspect_index.sets()[a].insert(rid.0)
            } else {
                pre.aspect_index.sets()[a].remove(rid.0)
            }) by {
                let av = AspectRid(a as u32);
                if na.contains(av) {
                    let j = choose|j: int| 0 <= j < na.len() && na[j] == av;
                    assert(na[j].0 == a);
                    if oa.contains(av) {
                        // untouched; the entity was already a member
                        assert forall|j2: int|
                            0 <= j2 < oa.len() && (#[trigger] oa[j2]).0 == a implies na.contains(
                            oa[j2]) by {
                            assert(oa[j2] == av);
                        }
                        assert forall|j2: int|
                            0 <= j2 < na.len() && (#[trigger] na[j2]).0 == a implies oa.contains(
                            na[j2]) by {
                            assert(na[j2] == av);
                        }
                        assert(self.aspect_index.sets()[a] =~= sets1[a]);
                        assert(sets1[a] =~= pre.aspect_index.sets()[a]);
                        assert(pre.aspect_index.sets()[a].contains(rid.0));
                        assert(pre.aspect_index.sets()[a] =~= pre.aspect_index.sets()[a].insert(
                            rid.0,
                        ));
                    } else {
                        // inserted in the second sweep
                        assert(na[j].0 == a && !oa.contains(na[j]));
                        assert(self.aspect_index.sets()[a] =~= sets1[a].insert(rid.0));
                        assert forall|j2: int|
                            0 <= j2 < oa.len() && (#[trigger] oa[j2]).0 == a implies na.contains(
                            oa[j2]) by {
                            assert(oa[j2] == av);
                            assert(false);
                        }
                        assert(sets1[a] =~= pre.aspect_index.sets()[a]);
                    }
                } else {
                    if oa.contains(av) {
                        // removed in the first sweep
                        let j = choose|j: int| 0 <= j < oa.len() && oa[j] == av;
                        assert(oa[j].0 == a && !na.contains(oa[j]));
                        assert(sets1[a] =~= pre.aspect_index.sets()[a].remove(rid.0));
                        assert forall|j2: int|
                            0 <= j2 < na.len() && (#[trigger] na[j2]).0 == a implies oa.contains(
                            na[j2]) by {
                            assert(na[j2] == av);
                            assert(false);
                        }
                        assert(self.aspect_index.sets()[a] =~= sets1[a]);
                    } else {
                        // untouched; the entity was never a member
                        assert forall|j2: int|
                            0 <= j2 < oa.len() && (#[trigger] oa[j2]).0 == a implies na.contains(
                            oa[j2]) by {
                            assert(oa[j2] == av);
                            assert(false);
                        }
                        assert forall|j2: int|
                            0 <= j2 < na.len() && (#[trigger] na[j2]).0 == a implies oa.contains(
                            na[j2]) by {
                            assert(na[j2] == av);
                            assert(false);
                        }
                        assert(sets1[a] =~= pre.aspect_index.sets()[a]);
                        assert(self.aspect_index.sets()[a] =~= sets1[a]);
                        assert(!pre.aspect_index.sets()[a].contains(rid.0));
                        assert(pre.aspect_index.sets()[a] =~= pre.aspect_index.sets()[a].remove(
                            rid.0,
                        ));
                    }
                }
            }
            // index consistency for the invariant
            assert forall|a: int, e: u32|
                0 <= a < self.reg().nodes_seq().len() implies ((
            #[trigger] self.index_spec().sets()[a].contains(e)) <==> (e < es.len() && es[
                e as int].aspects@.contains(AspectRid(a as u32)))) by {
                let av = AspectRid(a as u32);
                if e == rid.0 {
                    if na.contains(av) {
                        assert(self.aspect_index.sets()[a] =~= pre.aspect_index.sets()[a].insert(
                            rid.0,
                        ));
                    } else {
                        assert(self.aspect_index.sets()[a] =~= pre.aspect_index.sets()[a].remove(
                            rid.0,
                        ));
                    }
                } else {
                    if na.contains(av) {
                        assert(self.aspect_index.sets()[a] =~= pre.aspect_index.sets()[a].insert(
                            rid.0,
                        ));
                    } else {
                        assert(self.aspect_index.sets()[a] =~= pre.aspect_index.sets()[a].remove(
                            rid.0,
                        ));
                    }
                    assert(self.aspect_index.sets()[a].contains(e) == pre.aspect_index.sets()[
                        a].contains(e));
                    if e < es.len() {
                        assert(es[e as int] == pes[e as int]);
                    }
                }
            }
            // the id map is untouched and rows keep id and liveness
            assert forall|k: int| 0 <= k < self.by_id_seq().len() implies {
                let p = #[trigger] self.by_id_seq()[k];
                p.1.0 < es.len() && es[p.1.0 as int].alive && es[p.1.0 as int].id == p.0
            } by {
                let p = self.by_id_seq()[k];
                assert(pre.by_id_seq()[k] == p);
                if p.1.0 != rid.0 {
                    assert(es[p.1.0 as int] == pes[p.1.0 as int]);
                }
            }
            assert forall|i2: int|
                0 <= i2 < es.len() && (#[trigger] es[i2]).alive implies self.by_id_seq().contains(
                (es[i2].id, EntityRid(i2 as u32)),
            ) by {
                if i2 != rid.0 {
                    assert(es[i2] == pes[i2]);
                }
                assert(pes[i2].alive && pes[i2].id == es[i2].id);
            }
        }
    }

    /// Adds a trait to a live entity's sorted trait set; records the
    /// addition only on actual change. Dead or unknown handles change
    /// nothing.
    pub fn add_trait(&mut self, rid: EntityRid, t: TraitId)
        requires
            old(self).wf(),
        ensures
            final(self).wf(),
            add_trait_rel(*old(self), *final(self), rid, t),
    {
        let n = self.entities.len();
        if rid.0 as usize >= n {
            return ;
        }
        if !self.entities[rid.0 as usize].alive {
            return ;
        }
        let ghost pre = *self;
        let i = rid.0 as usize;
        let mut rec = self.entities.remove(i);
        let added = sorted_insert_trait(&mut rec.traits, t);
        self.entities.insert(i, rec);
        proof {
            assert(self.entities@ =~= pre.entities@.update(i as int, self.entities@[i as int]));
        }
        if added {
            self.pending_diff.trait_added.push((rid, t));
        }
        proof {
            lemma_row_update_preserves_links(pre, *self, rid);
        }
    }

    /// Removes a trait from a live entity's sorted trait set; records the
    /// removal only on actual change. Dead or unknown handles change
    /// nothing.
    pub fn remove_trait(&mut self, rid: EntityRid, t: TraitId)
        requires
            old(self).wf(),
        ensures
            final(self).wf(),
            remove_trait_rel(*old(self), *final(self), rid, t),
    {
        let n = self.entities.len();
        if rid.0 as usize >= n {
            return ;
        }
        if !self.entities[rid.0 as usize].alive {
            return ;
        }
        let ghost pre = *self;
        let i = rid.0 as usize;
        let mut rec = self.entities.remove(i);
        let removed = sorted_remove_trait(&mut rec.traits, t);
        self.entities.insert(i, rec);
        proof {
            assert(self.entities@ =~= pre.entities@.update(i as int, self.entities@[i as int]));
        }
        if removed {
            self.pending_diff.trait_removed.push((rid, t));
        }
        proof {
            lemma_row_update_preserves_links(pre, *self, rid);
        }
    }

    /// Upserts an attribute layer into a live entity's stack for the key,
    /// creating the stack on first write, and unconditionally records an
    /// attribute change (over-reporting is preferred to under-reporting).
    /// Dead or unknown handles change nothing.
    pub fn upsert_attr_layer(&mut self, rid: EntityRid, key: AttrKeyId, layer: AttrLayer)
        requires
            old(self).wf(),
        ensures
            final(self).wf(),
            upsert_attr_rel(*old(self), *final(self), rid, key, layer),
    {
        let n = self.entities.len();
        if rid.0 as usize >= n {
            return ;
        }
        if !self.entities[rid.0 as usize].alive {
            return ;
        }
        let ghost pre = *self;
        let i = rid.0 as usize;
        let mut rec = self.entities.remove(i);
        rec.attrs.upsert_layer(key, layer);
        self.entities.insert(i, rec);
        proof {
            assert(self.entities@ =~= pre.entities@.update(i as int, self.entities@[i as int]));
        }
        self.pending_diff.attr_changed.push((rid, key));
        proof {
            lemma_row_update_preserves_links(pre, *self, rid);
        }
    }

    /// Drops every attribute layer the given source contributed to a live
    /// entity, across all of its stacks. Dead or unknown handles change
    /// nothing.
    pub fn remove_attr_layers_by_source(&mut self, rid: EntityRid, source: LayerSource)
        requires
            old(self).wf(),
        ensures
            final(self).wf(),
            remove_attr_source_rel(*old(self), *final(self), rid, source),
    {
        let n = self.entities.len();
        if rid.0 as usize >= n {
            return ;
        }
        if !self.entities[rid.0 as usize].alive {
            return ;
        }
        let ghost pre = *self;
        let i = rid.0 as usize;
        let mut rec = self.entities.remove(i);
        rec.attrs.remove_source_all(source);
        self.entities.insert(i, rec);
        proof {
            assert(self.entities@ =~= pre.entities@.update(i as int, self.entities@[i as int]));
            lemma_row_update_preserves_links(pre, *self, rid);
        }
    }

    /// Whether an id names a live entity.
    pub fn has_entity(&self, id: EntityId) -> (r: bool)
        ensures
            r == exists|k: int|
                0 <= k < self.by_id_seq().len() && (#[trigger] self.by_id_seq()[k]).0 == id,
    {
        match self.lookup_rid(&id) {
            Some(_) => true,
            None => false,
        }
    }

    /// The live entity handle of an id, if any.
    pub fn rid_of(&self, id: EntityId) -> (r: Option<EntityRid>)
        ensures
            match r {
                Some(rid) => exists|k: int|
                    0 <= k < self.by_id_seq().len() && #[trigger] self.by_id_seq()[k] == (id, rid),
                None => forall|k: int|
                    0 <= k < self.by_id_seq().len() ==> (#[trigger] self.by_id_seq()[k]).0 != id,
            },
    {
        self.lookup_rid(&id)
    }

    /// The id of a row, live or dead; `None` for an unknown handle.
    pub fn id_of(&self, rid: EntityRid) -> (r: Option<EntityId>)
        ensures
            match r {
                Some(id) => rid.0 < self.entities_seq().len() && id == self.entities_seq()[
                    rid.0 as int].id,
                None => rid.0 >= self.entities_seq().len(),
            },
    {
        if (rid.0 as usize) < self.entities.len() {
            Some(self.entities[rid.0 as usize].id)
        } else {
            None
        }
    }

    /// The closed aspect set of a known row.
    pub fn aspects(&self, rid: EntityRid) -> (r: &AspectSet)
        requires
            rid.0 < self.entities_seq().len(),
        ensures
            *r == self.entities_seq()[rid.0 as int].aspects,
    {
        &self.entities[rid.0 as usize].aspects
    }

    /// Evaluates a query on a live entity's closed aspect set; dead or
    /// unknown handles never match.
    pub fn matches(&self, rid: EntityRid, q: &AspectQuery) -> (r: bool)
        requires
            self.wf(),
        ensures
            r == (rid.0 < self.entities_seq().len() && self.entities_seq()[rid.0 as int].alive
                && crate::query::query_matches(
                q.all_of@,
                q.any_of@,
                q.none_of@,
                self.entities_seq()[rid.0 as int].aspects@,
            )),
    {
        if (rid.0 as usize) >= self.entities.len() {
            return false;
        }
        if !self.entities[rid.0 as usize].alive {
            return false;
        }
        q.matches(&self.entities[rid.0 as usize].aspects)
    }

    /// The cached resolved value of a live entity's attribute, if any:
    /// nothing for a dead or unknown handle, a missing stack, or an empty
    /// cache.
    pub fn get_attr(&self, rid: EntityRid, key: AttrKeyId) -> (r: Option<&AttrValue>)
        ensures
            match r {
                Some(v) => rid.0 < self.entities_seq().len() && self.entities_seq()[
                    rid.0 as int].alive && (exists|i: int|
                    0 <= i < self.entities_seq()[rid.0 as int].attrs.stacks_seq().len() && (
                    #[trigger] self.entities_seq()[rid.0 as int].attrs.stacks_seq()[i]).0 == key
                        && self.entities_seq()[rid.0 as int].attrs.stacks_seq()[i].1.cached_spec()
                        == Some(*v)),
                None => rid.0 >= self.entities_seq().len() || !self.entities_seq()[
                    rid.0 as int].alive || (forall|i: int|
                    0 <= i < self.entities_seq()[rid.0 as int].attrs.stacks_seq().len() ==> (
                    #[trigger] self.entities_seq()[rid.0 as int].attrs.stacks_seq()[i]).0 != key)
                    || (exists|i: int|
                    0 <= i < self.entities_seq()[rid.0 as int].attrs.stacks_seq().len() && (
                    #[trigger] self.entities_seq()[rid.0 as int].attrs.stacks_seq()[i]).0 == key
                        && self.entities_seq()[rid.0 as int].attrs.stacks_seq()[i].1.cached_spec()
                        is None),
            },
    {
        if (rid.0 as usize) >= self.entities.len() {
            return None;
        }
        if !self.entities[rid.0 as usize].alive {
            return None;
        }
        match self.entities[rid.0 as usize].attrs.stack(&key) {
            Some(st) => st.cached(),
            None => None,
        }
    }

    /// The full ordered layer list of a live entity's attribute, if any:
    /// nothing for a dead or unknown handle or a missing stack.
    pub fn explain_attr(&self, rid: EntityRid, key: AttrKeyId) -> (r: Option<&[AttrLayer]>)
        ensures
            match r {
                Some(ls) => rid.0 < self.entities_seq().len() && self.entities_seq()[
                    rid.0 as int].alive && (exists|i: int|
                    0 <= i < self.entities_seq()[rid.0 as int].attrs.stacks_seq().len() && (
                    #[trigger] self.entities_seq()[rid.0 as int].attrs.stacks_seq()[i]).0 == key
                        && self.entities_seq()[rid.0 as int].attrs.stacks_seq()[i].1.layers_seq()
                        == ls@),
                None => rid.0 >= self.entities_seq().len() || !self.entities_seq()[
                    rid.0 as int].alive || (forall|i: int|
                    0 <= i < self.entities_seq()[rid.0 as int].attrs.stacks_seq().len() ==> (
                    #[trigger] self.entities_seq()[rid.0 as int].attrs.stacks_seq()[i]).0 != key),
            },
    {
        if (rid.0 as usize) >= self.entities.len() {
            return None;
        }
        if !self.entities[rid.0 as usize].alive {
            return None;
        }
        match self.entities[rid.0 as usize].attrs.stack(&key) {
            Some(st) => Some(st.layers()),
            None => None,
        }
    }

    /// Whether a live entity carries the trait; dead or unknown handles do
    /// not.
    pub fn has_trait(&self, rid: EntityRid, t: TraitId) -> (r: bool)
        ensures
            r == (rid.0 < self.entities_seq().len() && self.entities_seq()[rid.0 as int].alive
                && self.entities_seq()[rid.0 as int].traits@.contains(t)),
    {
        if (rid.0 as usize) >= self.entities.len() {
            return false;
        }
        if !self.entities[rid.0 as usize].alive {
            return false;
        }
        let rec = &self.entities[rid.0 as usize];
        let tr = &rec.traits;
        proof {
            assert(*rec == self.entities_seq()[rid.0 as int]);
            assert(tr@ == self.entities_seq()[rid.0 as int].traits@);
        }
        let n = tr.len();
        let mut j: usize = 0;
        while j < n
            invariant
                n == tr@.len(),
                j <= n,
                rid.0 < self.entities_seq().len(),
                self.entities_seq()[rid.0 as int].alive,
                tr@ == self.entities_seq()[rid.0 as int].traits@,
                forall|q: int| 0 <= q < j ==> #[trigger] tr@[q] != t,
            decreases n - j,
        {
            if tr[j].0.0 == t.0.0 {
                proof {
                    assert(tr@[j as int] == t);
                    assert(tr@.contains(t));
                }
                return true;
            }
            j += 1;
        }
        proof {
            if tr@.contains(t) {
                let q = choose|q: int| 0 <= q < tr@.len() && tr@[q] == t;
                assert(false);
            }
        }
        false
    }

    /// Allocates the next globally fresh effect-instance id.
    pub fn alloc_effect_inst(&mut self) -> (r: EffectInstId)
        requires
            old(self).wf(),
            old(self).next_inst_spec() < u64::MAX,
        ensures
            final(self).wf(),
            r.0 == old(self).next_inst_spec(),
            final(self).next_inst_spec() == old(self).next_inst_spec() + 1,
            final(self).entities_seq() == old(self).entities_seq(),
            final(self).by_id_seq() == old(self).by_id_seq(),
            final(self).index_spec() == old(self).index_spec(),
            final(self).effects_seq() == old(self).effects_seq(),
            final(self).diff_spec() == old(self).diff_spec(),
            final(self).reg() == old(self).reg(),
    {
        let id = EffectInstId(self.next_effect_inst);
        self.next_effect_inst = self.next_effect_inst + 1;
        id
    }

    /// Inserts an effect instance into the globally sorted table.
    /// Re-insertion under an existing instance id overwrites the record in
    /// place without touching any owner back-reference; a fresh id is
    /// inserted in order and back-referenced from its owner when the owner
    /// is live.
    pub fn insert_effect_instance(&mut self, inst: EffectInstance)
        requires
            old(self).wf(),
        ensures
            final(self).wf(),
            insert_effect_rel(*old(self), *final(self), inst),
    {
        let ghost pre = *self;
        let n = self.effects.len();
        let mut k: usize = 0;
        let mut found: Option<usize> = None;
        while k < n && found.is_none()
            invariant
                n == self.effects@.len(),
                *self == pre,
                k <= n,
                found matches Some(f) ==> f < n && self.effects@[f as int].inst_id
                    == inst.inst_id,
                found is None ==> forall|j: int|
                    0 <= j < k ==> (#[trigger] self.effects@[j]).inst_id != inst.inst_id,
            decreases n - k + (if found is None { 1int } else { 0int }),
        {
            if self.effects[k].inst_id.0 == inst.inst_id.0 {
                found = Some(k);
            } else {
                k += 1;
            }
        }
        match found {
            Some(f) => {
                self.effects.remove(f);
                self.effects.insert(f, inst);
                proof {
                    assert(self.effects@ =~= pre.effects@.update(f as int, inst));
                    assert forall|j: int| 0 <= j < self.effects@.len() implies #[trigger] self
                        .effects@[j] == (if pre.effects@[j].inst_id == inst.inst_id {
                        inst
                    } else {
                        pre.effects@[j]
                    }) by {
                        if j != f && pre.effects@[j].inst_id == inst.inst_id {
                            if j < f {
                                assert(pre.effects@[j].inst_id.0 < pre.effects@[
                                    f as int].inst_id.0);
                            } else {
                                assert(pre.effects@[f as int].inst_id.0 < pre.effects@[
                                    j].inst_id.0);
                            }
                            assert(false);
                        }
                    }
                }
            },
            None => {
                let mut pos: usize = 0;
                while pos < n && self.effects[pos].inst_id.0 < inst.inst_id.0
                    invariant
                        n == self.effects@.len(),
                        *self == pre,
                        pos <= n,
                        forall|j: int|
                            0 <= j < pos ==> (#[trigger] self.effects@[j]).inst_id.0
                                < inst.inst_id.0,
                        forall|j: int|
                            0 <= j < n ==> (#[trigger] self.effects@[j]).inst_id != inst.inst_id,
                    decreases n - pos,
                {
                    pos += 1;
                }
                let ghost o = self.effects@;
                proof {
                    assert forall|j: int| pos <= j < n implies inst.inst_id.0 < (
                    #[trigger] o[j]).inst_id.0 by {
                        if j > pos {
                            assert(o[pos as int].inst_id.0 < o[j].inst_id.0);
                        }
                    }
                }
                self.effects.insert(pos, inst);
                proof {
                    let se = self.effects@;
                    assert(forall|j: int| 0 <= j < pos ==> #[trigger] se[j] == o[j]);
                    assert(forall|j: int| pos < j < se.len() ==> #[trigger] se[j] == o[j - 1]);
                    assert(se[pos as int] == inst);
                    assert forall|e: crate::effect::EffectInstance| #[trigger] se.contains(e)
                        <==> (o.contains(e) || e == inst) by {
                        if se.contains(e) {
                            let j = choose|j: int| 0 <= j < se.len() && se[j] == e;
                            if j < pos {
                                assert(o[j] == e);
                            } else if j > pos {
                                assert(o[j - 1] == e);
                            }
                        }
                        if o.contains(e) {
                            let j = choose|j: int| 0 <= j < o.len() && o[j] == e;
                            if j < pos {
                                assert(se[j] == e);
                            } else {
                                assert(se[j + 1] == e);
                            }
                        }
                        if e == inst {
                            assert(se[pos as int] == e);
                        }
                    }
                    assert forall|a: int, b: int| 0 <= a < b < se.len() implies (
                    #[trigger] se[a]).inst_id.0 < (#[trigger] se[b]).inst_id.0 by {
                        if a != pos && b != pos {
                            let ao: int = if a < pos { a } else { a - 1 };
                            let bo: int = if b < pos { b } else { b - 1 };
                            assert(se[a] == o[ao] && se[b] == o[bo]);
                        }
                    }
                }
                let owner = inst.owner;
                let ghost mid = *self;
                if (owner.0 as usize) < self.entities.len() {
                    if self.entities[owner.0 as usize].alive {
                        let i = owner.0 as usize;
                        let mut rec = self.entities.remove(i);
                        sorted_insert_inst_id(&mut rec.effects, inst.inst_id);
                        self.entities.insert(i, rec);
                        proof {
                            assert(self.entities@ =~= pre.entities@.update(
                                i as int,
                                self.entities@[i as int],
                            ));
                        }
                    }
                }
                proof {
                    lemma_row_update_preserves_links_general(pre, *self, owner);
                }
            },
        }
    }

    /// Removes an effect instance by id: drops it from the global table,
    /// records the removal, and unlinks the owner's back-reference when the
    /// owner is live. A nonexistent id changes nothing and records nothing.
    pub fn remove_effect_instance(&mut self, inst_id: EffectInstId)
        requires
            old(self).wf(),
        ensures
            final(self).wf(),
            remove_effect_rel(*old(self), *final(self), inst_id),
    {
        let ghost pre = *self;
        let n = self.effects.len();
        let mut k: usize = 0;
        let mut found: Option<usize> = None;
        while k < n && found.is_none()
            invariant
                n == self.effects@.len(),
                *self == pre,
                k <= n,
                found matches Some(f) ==> f < n && self.effects@[f as int].inst_id == inst_id,
                found is None ==> forall|j: int|
                    0 <= j < k ==> (#[trigger] self.effects@[j]).inst_id != inst_id,
            decreases n - k + (if found is None { 1int } else { 0int }),
        {
            if self.effects[k].inst_id.0 == inst_id.0 {
                found = Some(k);
            } else {
                k += 1;
            }
        }
        let f = match found {
            Some(f) => f,
            None => {
                proof {
                    if exists|j: int|
                        0 <= j < pre.effects_seq().len() && (#[trigger] pre.effects_seq()[
                        j]).inst_id == inst_id {
                        let j = choose|j: int|
                            0 <= j < pre.effects_seq().len() && (#[trigger] pre.effects_seq()[
                            j]).inst_id == inst_id;
                        assert(false);
                    }
                }
                return ;
            },
        };
        let owner = self.effects[f].owner;
        let ghost o = self.effects@;
        self.effects.remove(f);
        proof {
            let se = self.effects@;
            assert(forall|j: int| 0 <= j < f ==> #[trigger] se[j] == o[j]);
            assert(forall|j: int| f <= j < se.len() ==> #[trigger] se[j] == o[j + 1]);
            assert forall|e: crate::effect::EffectInstance| #[trigger] se.contains(e) <==> (
            o.contains(e) && e.inst_id != inst_id) by {
                if se.contains(e) {
                    let j = choose|j: int| 0 <= j < se.len() && se[j] == e;
                    if j < f {
                        assert(o[j] == e);
                        assert(o[j].inst_id.0 < o[f as int].inst_id.0);
                    } else {
                        assert(o[j + 1] == e);
                        assert(o[f as int].inst_id.0 < o[j + 1].inst_id.0);
                    }
                }
                if o.contains(e) && e.inst_id != inst_id {
                    let j = choose|j: int| 0 <= j < o.len() && o[j] == e;
                    if j < f {
                        assert(se[j] == e);
                    } else if j > f {
                        assert(se[j - 1] == e);
                    } else {
                        assert(false);
                    }
                }
            }
            assert forall|a: int, b: int| 0 <= a < b < se.len() implies (
            #[trigger] se[a]).inst_id.0 < (#[trigger] se[b]).inst_id.0 by {
                let ao: int = if a < f { a } else { a + 1 };
                let bo: int = if b < f { b } else { b + 1 };
                assert(se[a] == o[ao] && se[b] == o[bo]);
            }
        }
        self.pending_diff.effect_removed.push(inst_id);
        if (owner.0 as usize) < self.entities.len() {
            if self.entities[owner.0 as usize].alive {
                let i = owner.0 as usize;
                let mut rec = self.entities.remove(i);
                sorted_remove_inst_id(&mut rec.effects, inst_id);
                self.entities.insert(i, rec);
                proof {
                    assert(self.entities@ =~= pre.entities@.update(
                        i as int,
                        self.entities@[i as int],
                    ));
                }
            }
        }
        proof {
            lemma_row_update_preserves_links_general(pre, *self, owner);
        }
    }

    /// Sweeps every live entity's attribute stacks for expiry at `now`,
    /// records an attribute change for each stack left dirty, and forces
    /// its resolution — the sole path for expiry-driven diff entries.
    pub fn finalize_commit(&mut self, now: crate::time::Tick)
        requires
            old(self).wf(),
        ensures
            final(self).wf(),
            finalize_rel(*old(self), *final(self), now),
    {
        let ghost pre = *self;
        let n = self.entities.len();
        let mut i: usize = 0;
        while i < n
            invariant
                n == pre.entities_seq().len(),
                self.entities@.len() == n,
                i <= n,
                pre.wf(),
                self.reg() == pre.reg(),
                self.by_id@ == pre.by_id@,
                self.aspect_index == pre.aspect_index,
                self.effects@ == pre.effects@,
                self.next_effect_inst == pre.next_effect_inst,
                self.pending_diff.spawned@ == pre.diff_spec().spawned@,
                self.pending_diff.killed@ == pre.diff_spec().killed@,
                self.pending_diff.trait_added@ == pre.diff_spec().trait_added@,
                self.pending_diff.trait_removed@ == pre.diff_spec().trait_removed@,
                self.pending_diff.effect_added@ == pre.diff_spec().effect_added@,
                self.pending_diff.effect_removed@ == pre.diff_spec().effect_removed@,
                self.pending_diff.aspects_changed@ == pre.diff_spec().aspects_changed@,
                forall|i2: int| i <= i2 < n ==> #[trigger] self.entities@[i2]
                    == pre.entities_seq()[i2],
                forall|i2: int|
                    0 <= i2 < i && !(#[trigger] pre.entities_seq()[i2]).alive
                        ==> self.entities@[i2] == pre.entities_seq()[i2],
                forall|i2: int|
                    0 <= i2 < i && (#[trigger] pre.entities_seq()[i2]).alive ==> finalized_row(
                        pre.entities_seq()[i2],
                        self.entities@[i2],
                        now,
                    ),
                forall|p: (EntityRid, AttrKeyId)|
                    #[trigger] self.pending_diff.attr_changed@.contains(p) <==> (
                    pre.diff_spec().attr_changed@.contains(p) || (exists|i2: int|
                        0 <= i2 < i && (#[trigger] pre.entities_seq()[i2]).alive && p.0
                            == EntityRid(i2 as u32) && stack_reports(
                            pre.entities_seq()[i2].attrs.stacks_seq(),
                            p.1,
                            now,
                        ))),
            decreases n - i,
        {
            let ghost dpre = self.pending_diff.attr_changed@;
            if self.entities[i].alive {
                let ghost cur_entities = self.entities@;
                let mut rec = self.entities.remove(i);
                let mut changed_keys: Vec<AttrKeyId> = Vec::new();
                rec.attrs.finalize_stacks(now, &mut changed_keys);
                self.entities.insert(i, rec);
                proof {
                    assert(self.entities@ =~= cur_entities.update(
                        i as int,
                        self.entities@[i as int],
                    ));
                }
                let ghost ent_after = self.entities@;
                let rid = EntityRid(i as u32);
                let m = changed_keys.len();
                let mut t: usize = 0;
                while t < m
                    invariant
                        m == changed_keys@.len(),
                        t <= m,
                        self.reg() == pre.reg(),
                        self.entities@ == ent_after,
                        self.by_id@ == pre.by_id@,
                        self.aspect_index == pre.aspect_index,
                        self.effects@ == pre.effects@,
                        self.next_effect_inst == pre.next_effect_inst,
                        self.pending_diff.spawned@ == pre.diff_spec().spawned@,
                        self.pending_diff.killed@ == pre.diff_spec().killed@,
                        self.pending_diff.trait_added@ == pre.diff_spec().trait_added@,
                        self.pending_diff.trait_removed@ == pre.diff_spec().trait_removed@,
                        self.pending_diff.effect_added@ == pre.diff_spec().effect_added@,
                        self.pending_diff.effect_removed@ == pre.diff_spec().effect_removed@,
                        self.pending_diff.aspects_changed@ == pre.diff_spec().aspects_changed@,
                        forall|p: (EntityRid, AttrKeyId)|
                            #[trigger] self.pending_diff.attr_changed@.contains(p) <==> (
                            dpre.contains(p) || (p.0 == rid && changed_keys@.take(
                                t as int,
                            ).contains(p.1))),
                    decreases m - t,
                {
                    let ghost dmid = self.pending_diff.attr_changed@;
                    let key = changed_keys[t];
                    self.pending_diff.attr_changed.push((rid, key));
                    proof {
                        assert(self.pending_diff.attr_changed@ =~= dmid.push((rid, key)));
                        let tk1 = changed_keys@.take(t + 1);
                        assert(tk1.drop_last() =~= changed_keys@.take(t as int));
                        assert(tk1.last() == changed_keys@[t as int]);
                        assert forall|p: (EntityRid, AttrKeyId)|
                            #[trigger] self.pending_diff.attr_changed@.contains(p) <==> (
                            dpre.contains(p) || (p.0 == rid && tk1.contains(p.1))) by {
                            if self.pending_diff.attr_changed@.contains(p) {
                                let j = choose|j: int|
                                    0 <= j < self.pending_diff.attr_changed@.len()
                                        && self.pending_diff.attr_changed@[j] == p;
                                if j < self.pending_diff.attr_changed@.len() - 1 {
                                    assert(dmid[j] == p);
                                    assert(dmid.contains(p));
                                } else {
                                    assert(p == (rid, key));
                                    assert(tk1.contains(key));
                                }
                            }
                            if dmid.contains(p) {
                                let j = choose|j: int| 0 <= j < dmid.len() && dmid[j] == p;
                                assert(self.pending_diff.attr_changed@[j] == p);
                            }
                            if p.0 == rid && tk1.contains(p.1) {
                                let j = choose|j: int| 0 <= j < tk1.len() && tk1[j] == p.1;
                                if j < tk1.len() - 1 {
                                    assert(changed_keys@.take(t as int)[j] == p.1);
                                    assert(changed_keys@.take(t as int).contains(p.1));
                                } else {
                                    assert(p == (rid, key));
                                    assert(self.pending_diff.attr_changed@.last() == p);
                                }
                            }
                        }
                    }
                    t += 1;
                }
                proof {
                    assert(changed_keys@.take(m as int) =~= changed_keys@);
                    assert forall|p: (EntityRid, AttrKeyId)|
                        #[trigger] self.pending_diff.attr_changed@.contains(p) <==> (
                        dpre.contains(p) || (exists|i2: int|
                            0 <= i2 < i + 1 && (#[trigger] pre.entities_seq()[i2]).alive && p.0
                                == EntityRid(i2 as u32) && stack_reports(
                                pre.entities_seq()[i2].attrs.stacks_seq(),
                                p.1,
                                now,
                            ))) by {
                        if self.pending_diff.attr_changed@.contains(p) && !dpre.contains(p) {
                            assert(p.0 == rid && changed_keys@.contains(p.1));
                            assert(stack_reports(
                                pre.entities_seq()[i as int].attrs.stacks_seq(),
                                p.1,
                                now,
                            ));
                            assert(0 <= i < i + 1 && pre.entities_seq()[i as int].alive && p.0
                                == EntityRid(i as u32));
                        }
                        if !self.pending_diff.attr_changed@.contains(p) && (exists|i2: int|
                            0 <= i2 < i + 1 && (#[trigger] pre.entities_seq()[i2]).alive && p.0
                                == EntityRid(i2 as u32) && stack_reports(
                                pre.entities_seq()[i2].attrs.stacks_seq(),
                                p.1,
                                now,
                            )) {
                            let i2 = choose|i2: int|
                                0 <= i2 < i + 1 && (#[trigger] pre.entities_seq()[i2]).alive
                                    && p.0 == EntityRid(i2 as u32) && stack_reports(
                                    pre.entities_seq()[i2].attrs.stacks_seq(),
                                    p.1,
                                    now,
                                );
                            if i2 == i {
                                assert(changed_keys@.contains(p.1));
                                assert(false);
                            } else {
                                assert(EntityRid(i2 as u32) != rid);
                                assert(false);
                            }
                        }
                    }
                }
            }
            i += 1;
        }
        proof {
            assert forall|i2: int| 0 <= i2 < self.entities@.len() implies {
                let e = #[trigger] self.entities@[i2];
                let p = pre.entities_seq()[i2];
                e.rid.0 == i2 && e.aspects.wf() && traits_sorted(e.traits@) && inst_ids_sorted(
                    e.effects@) && e.attrs.wf() && (!e.alive ==> e.aspects@.len() == 0) && e.id
                    == p.id && e.alive == p.alive && e.aspects == p.aspects
            } by {
                if pre.entities_seq()[i2].alive {
                    assert(finalized_row(pre.entities_seq()[i2], self.entities@[i2], now));
                } else {
                    assert(self.entities@[i2] == pre.entities_seq()[i2]);
                }
            }
            assert forall|k: int| 0 <= k < self.by_id_seq().len() implies {
                let p = #[trigger] self.by_id_seq()[k];
                p.1.0 < self.entities@.len() && self.entities@[p.1.0 as int].alive
                    && self.entities@[p.1.0 as int].id == p.0
            } by {
                assert(pre.by_id_seq()[k] == self.by_id_seq()[k]);
            }
            assert forall|i2: int|
                0 <= i2 < self.entities@.len() && (#[trigger] self.entities@[i2]).alive
                implies self.by_id_seq().contains(
                (self.entities@[i2].id, EntityRid(i2 as u32)),
            ) by {
                assert(pre.entities_seq()[i2].alive && pre.entities_seq()[i2].id
                    == self.entities@[i2].id);
            }
            assert forall|a: int, e: u32|
                0 <= a < self.reg().nodes_seq().len() implies ((
            #[trigger] self.index_spec().sets()[a].contains(e)) <==> (e < self.entities@.len()
                && self.entities@[e as int].aspects@.contains(AspectRid(a as u32)))) by {
                if e < self.entities@.len() {
                    assert(self.entities@[e as int].aspects == pre.entities_seq()[
                        e as int].aspects || self.entities@[e as int] == pre.entities_seq()[
                        e as int]);
                }
            }
            assert forall|i2: int, a: AspectRid|
                0 <= i2 < self.entities@.len() && (#[trigger] self.entities@[
                i2].aspects@.contains(a)) implies a.0 < self.reg().nodes_seq().len() by {
                assert(pre.entities_seq()[i2].aspects@.contains(a));
            }
        }
    }

    /// Drains the accumulated diff: every list sorted and duplicate-free,
    /// and the pending diff reset to empty. Without intervening mutation a
    /// second drain returns an empty diff.
    pub fn take_diff(&mut self) -> (r: ModelDiff)
        requires
            old(self).wf(),
        ensures
            final(self).wf(),
            final(self).diff_spec().is_empty_spec(),
            final(self).entities_seq() == old(self).entities_seq(),
            final(self).by_id_seq() == old(self).by_id_seq(),
            final(self).effects_seq() == old(self).effects_seq(),
            final(self).next_inst_spec() == old(self).next_inst_spec(),
            final(self).index_spec() == old(self).index_spec(),
            final(self).reg() == old(self).reg(),
            crate::diff::rids_asc(r.spawned@) && crate::diff::rids_asc(r.killed@)
                && crate::diff::rids_asc(r.aspects_changed@),
            crate::diff::trait_pairs_asc(r.trait_added@) && crate::diff::trait_pairs_asc(
                r.trait_removed@,
            ),
            crate::diff::attr_pairs_asc(r.attr_changed@),
            crate::diff::insts_asc(r.effect_added@) && crate::diff::insts_asc(r.effect_removed@),
            forall|x: EntityRid|
                #[trigger] r.spawned@.contains(x) <==> old(self).diff_spec().spawned@.contains(x),
            forall|x: EntityRid|
                #[trigger] r.killed@.contains(x) <==> old(self).diff_spec().killed@.contains(x),
            forall|x: (EntityRid, TraitId)|
                #[trigger] r.trait_added@.contains(x) <==> old(
                    self,
                ).diff_spec().trait_added@.contains(x),
            forall|x: (EntityRid, TraitId)|
                #[trigger] r.trait_removed@.contains(x) <==> old(
                    self,
                ).diff_spec().trait_removed@.contains(x),
            forall|x: (EntityRid, AttrKeyId)|
                #[trigger] r.attr_changed@.contains(x) <==> old(
                    self,
                ).diff_spec().attr_changed@.contains(x),
            forall|x: EffectInstId|
                #[trigger] r.effect_added@.contains(x) <==> old(
                    self,
                ).diff_spec().effect_added@.contains(x),
            forall|x: EffectInstId|
                #[trigger] r.effect_removed@.contains(x) <==> old(
                    self,
                ).diff_spec().effect_removed@.contains(x),
            forall|x: EntityRid|
                #[trigger] r.aspects_changed@.contains(x) <==> old(
                    self,
                ).diff_spec().aspects_changed@.contains(x),
    {
        self.pending_diff.canonicalize();
        let mut drained = ModelDiff::new();
        core::mem::swap(&mut drained, &mut self.pending_diff);
        drained
    }
}

/// What spawning does to the store. An already-live id returns its handle
/// and changes nothing; otherwise the next handle is allocated, an empty
/// live row appended, the id mapped, and the spawn recorded.
pub open spec fn spawn_rel(pre: Model, post: Model, id: EntityId, r: EntityRid) -> bool {
    if exists|k: int| 0 <= k < pre.by_id_seq().len() && (#[trigger] pre.by_id_seq()[k]).0 == id {
        &&& post == pre
        &&& exists|k: int|
            0 <= k < pre.by_id_seq().len() && #[trigger] pre.by_id_seq()[k] == (id, r)
    } else {
        &&& r.0 == pre.entities_seq().len()
        &&& post.entities_seq().len() == pre.entities_seq().len() + 1
        &&& forall|i: int|
            0 <= i < pre.entities_seq().len() ==> #[trigger] post.entities_seq()[i]
                == pre.entities_seq()[i]
        &&& {
            let e = post.entities_seq().last();
            e.id == id && e.rid == r && e.alive && e.archetype is None && e.traits@.len() == 0
                && e.effects@.len() == 0 && e.aspects@.len() == 0 && e.attrs.stacks_seq().len()
                == 0
        }
        &&& forall|p: (EntityId, EntityRid)|
            #[trigger] post.by_id_seq().contains(p) <==> (pre.by_id_seq().contains(p) || p == (
            id,
            r,
            ))
        &&& post.diff_spec().spawned@ == pre.diff_spec().spawned@.push(r)
        &&& post.diff_spec().killed@ == pre.diff_spec().killed@
        &&& post.diff_spec().trait_added@ == pre.diff_spec().trait_added@
        &&& post.diff_spec().trait_removed@ == pre.diff_spec().trait_removed@
        &&& post.diff_spec().attr_changed@ == pre.diff_spec().attr_changed@
        &&& post.diff_spec().effect_added@ == pre.diff_spec().effect_added@
        &&& post.diff_spec().effect_removed@ == pre.diff_spec().effect_removed@
        &&& post.diff_spec().aspects_changed@ == pre.diff_spec().aspects_changed@
        &&& post.index_spec() == pre.index_spec()
        &&& post.effects_seq() == pre.effects_seq()
        &&& post.next_inst_spec() == pre.next_inst_spec()
        &&& post.reg() == pre.reg()
    }
}

/// What killing does to the store. A dead or unknown handle changes
/// nothing; a live one is marked dead with its aspects cleared, every index
/// membership removed, its id unmapped, and the kill recorded.
pub open spec fn kill_rel(pre: Model, post: Model, rid: EntityRid) -> bool {
    if rid.0 >= pre.entities_seq().len() || !pre.entities_seq()[rid.0 as int].alive {
        post == pre
    } else {
        &&& post.entities_seq().len() == pre.entities_seq().len()
        &&& forall|i: int|
            0 <= i < pre.entities_seq().len() && i != rid.0 ==> #[trigger] post.entities_seq()[i]
                == pre.entities_seq()[i]
        &&& {
            let e = post.entities_seq()[rid.0 as int];
            let p = pre.entities_seq()[rid.0 as int];
            !e.alive && e.aspects@.len() == 0 && e.id == p.id && e.rid == p.rid && e.archetype
                == p.archetype && e.traits == p.traits && e.effects == p.effects && e.attrs
                == p.attrs
        }
        &&& forall|p: (EntityId, EntityRid)|
            #[trigger] post.by_id_seq().contains(p) <==> (pre.by_id_seq().contains(p) && p.0
                != pre.entities_seq()[rid.0 as int].id)
        &&& post.index_spec().sets().len() == pre.index_spec().sets().len()
        &&& forall|a: int|
            0 <= a < pre.index_spec().sets().len() ==> #[trigger] post.index_spec().sets()[a]
                == pre.index_spec().sets()[a].remove(rid.0)
        &&& post.diff_spec().killed@ == pre.diff_spec().killed@.push(rid)
        &&& post.diff_spec().spawned@ == pre.diff_spec().spawned@
        &&& post.diff_spec().trait_added@ == pre.diff_spec().trait_added@
        &&& post.diff_spec().trait_removed@ == pre.diff_spec().trait_removed@
        &&& post.diff_spec().attr_changed@ == pre.diff_spec().attr_changed@
        &&& post.diff_spec().effect_added@ == pre.diff_spec().effect_added@
        &&& post.diff_spec().effect_removed@ == pre.diff_spec().effect_removed@
        &&& post.diff_spec().aspects_changed@ == pre.diff_spec().aspects_changed@
        &&& post.effects_seq() == pre.effects_seq()
        &&& post.next_inst_spec() == pre.next_inst_spec()
        &&& post.reg() == pre.reg()
    }
}

/// Everything outside one entity row is unchanged.
pub open spec fn row_patch(pre: Model, post: Model, rid: EntityRid) -> bool {
    &&& post.entities_seq().len() == pre.entities_seq().len()
    &&& forall|i: int|
        0 <= i < pre.entities_seq().len() && i != rid.0 ==> #[trigger] post.entities_seq()[i]
            == pre.entities_seq()[i]
    &&& post.by_id_seq() == pre.by_id_seq()
    &&& post.index_spec() == pre.index_spec()
    &&& post.effects_seq() == pre.effects_seq()
    &&& post.next_inst_spec() == pre.next_inst_spec()
    &&& post.reg() == pre.reg()
}

/// All row fields except the trait set are unchanged.
pub open spec fn row_same_but_traits(a: EntityRecord, b: EntityRecord) -> bool {
    a.id == b.id && a.rid == b.rid && a.alive == b.alive && a.archetype == b.archetype && a.effects
        == b.effects && a.aspects == b.aspects && a.attrs == b.attrs
}

/// All row fields except the attribute stacks are unchanged.
pub open spec fn row_same_but_attrs(a: EntityRecord, b: EntityRecord) -> bool {
    a.id == b.id && a.rid == b.rid && a.alive == b.alive && a.archetype == b.archetype && a.effects
        == b.effects && a.aspects == b.aspects && a.traits == b.traits
}

/// Only the trait-added list of the diff may differ.
pub open spec fn diff_only_trait_added(pre: ModelDiff, post: ModelDiff) -> bool {
    &&& post.spawned@ == pre.spawned@
    &&& post.killed@ == pre.killed@
    &&& post.trait_removed@ == pre.trait_removed@
    &&& post.attr_changed@ == pre.attr_changed@
    &&& post.effect_added@ == pre.effect_added@
    &&& post.effect_removed@ == pre.effect_removed@
    &&& post.aspects_changed@ == pre.aspects_changed@
}

/// Only the trait-removed list of the diff may differ.
pub open spec fn diff_only_trait_removed(pre: ModelDiff, post: ModelDiff) -> bool {
    &&& post.spawned@ == pre.spawned@
    &&& post.killed@ == pre.killed@
    &&& post.trait_added@ == pre.trait_added@
    &&& post.attr_changed@ == pre.attr_changed@
    &&& post.effect_added@ == pre.effect_added@
    &&& post.effect_removed@ == pre.effect_removed@
    &&& post.aspects_changed@ == pre.aspects_changed@
}

/// Only the attribute-changed list of the diff may differ.
pub open spec fn diff_only_attr_changed(pre: ModelDiff, post: ModelDiff) -> bool {
    &&& post.spawned@ == pre.spawned@
    &&& post.killed@ == pre.killed@
    &&& post.trait_added@ == pre.trait_added@
    &&& post.trait_removed@ == pre.trait_removed@
    &&& post.effect_added@ == pre.effect_added@
    &&& post.effect_removed@ == pre.effect_removed@
    &&& post.aspects_changed@ == pre.aspects_changed@
}

/// Only the aspects-changed list of the diff may differ.
pub open spec fn diff_only_aspects_changed(pre: ModelDiff, post: ModelDiff) -> bool {
    &&& post.spawned@ == pre.spawned@
    &&& post.killed@ == pre.killed@
    &&& post.trait_added@ == pre.trait_added@
    &&& post.trait_removed@ == pre.trait_removed@
    &&& post.attr_changed@ == pre.attr_changed@
    &&& post.effect_added@ == pre.effect_added@
    &&& post.effect_removed@ == pre.effect_removed@
}

/// The whole diff is unchanged.
pub open spec fn diff_unchanged(pre: ModelDiff, post: ModelDiff) -> bool {
    &&& post.spawned@ == pre.spawned@
    &&& post.killed@ == pre.killed@
    &&& post.trait_added@ == pre.trait_added@
    &&& post.trait_removed@ == pre.trait_removed@
    &&& post.attr_changed@ == pre.attr_changed@
    &&& post.effect_added@ == pre.effect_added@
    &&& post.effect_removed@ == pre.effect_removed@
    &&& post.aspects_changed@ == pre.aspects_changed@
}

/// What replacing an entity's aspects does: on a live entity the aspect
/// set becomes exactly the ancestor closure of the direct aspects, the
/// index reflects the new set for that entity and no other, and an aspect
/// change is recorded exactly when the closed set differs; dead or unknown
/// handles change nothing.
pub open spec fn set_aspects_rel(
    pre: Model,
    post: Model,
    rid: EntityRid,
    direct: Seq<AspectRid>,
) -> bool {
    if rid.0 >= pre.entities_seq().len() || !pre.entities_seq()[rid.0 as int].alive {
        post == pre
    } else {
        let p = pre.entities_seq()[rid.0 as int];
        let q = post.entities_seq()[rid.0 as int];
        let ks = pre.reg().keys_view();
        &&& row_patch_but_index(pre, post, rid)
        &&& q.id == p.id && q.rid == p.rid && q.alive == p.alive && q.archetype == p.archetype
            && q.traits == p.traits && q.effects == p.effects && q.attrs == p.attrs
        &&& q.aspects.wf()
        &&& forall|a: AspectRid| #[trigger] q.aspects@.contains(a) <==> in_closure(ks, direct, a)
        &&& post.index_spec().sets().len() == pre.index_spec().sets().len()
        &&& forall|a: int|
            0 <= a < pre.index_spec().sets().len() ==> #[trigger] post.index_spec().sets()[a]
                == (if q.aspects@.contains(AspectRid(a as u32)) {
                pre.index_spec().sets()[a].insert(rid.0)
            } else {
                pre.index_spec().sets()[a].remove(rid.0)
            })
        &&& diff_only_aspects_changed(pre.diff_spec(), post.diff_spec())
        &&& post.diff_spec().aspects_changed@ == (if p.aspects@ == q.aspects@ {
            pre.diff_spec().aspects_changed@
        } else {
            pre.diff_spec().aspects_changed@.push(rid)
        })
    }
}

/// Everything outside one entity row and the index is unchanged.
pub open spec fn row_patch_but_index(pre: Model, post: Model, rid: EntityRid) -> bool {
    &&& post.entities_seq().len() == pre.entities_seq().len()
    &&& forall|i: int|
        0 <= i < pre.entities_seq().len() && i != rid.0 ==> #[trigger] post.entities_seq()[i]
            == pre.entities_seq()[i]
    &&& post.by_id_seq() == pre.by_id_seq()
    &&& post.effects_seq() == pre.effects_seq()
    &&& post.next_inst_spec() == pre.next_inst_spec()
    &&& post.reg() == pre.reg()
}

/// An entity whose aspect set is empty has no index membership at all: in
/// a well-formed store, clearing an entity's aspects clears its inverted
/// index entries with it.
pub proof fn lemma_empty_aspects_no_memberships(m: Model, rid: EntityRid)
    requires
        m.wf(),
        rid.0 < m.entities_seq().len(),
        m.entities_seq()[rid.0 as int].aspects@.len() == 0,
    ensures
        forall|a: int|
            0 <= a < m.index_spec().sets().len() ==> !(#[trigger] m.index_spec().sets()[
            a].contains(rid.0)),
{
    assert forall|a: int|
        0 <= a < m.index_spec().sets().len() implies !(#[trigger] m.index_spec().sets()[
    a].contains(rid.0)) by {
        if m.index_spec().sets()[a].contains(rid.0) {
            assert(m.entities_seq()[rid.0 as int].aspects@.contains(AspectRid(a as u32)));
        }
    }
}

/// What adding a trait does: on a live entity the trait joins the sorted
/// trait set, and the addition is recorded exactly when the trait was
/// absent; dead or unknown handles change nothing.
pub open spec fn add_trait_rel(pre: Model, post: Model, rid: EntityRid, t: TraitId) -> bool {
    if rid.0 >= pre.entities_seq().len() || !pre.entities_seq()[rid.0 as int].alive {
        post == pre
    } else {
        let p = pre.entities_seq()[rid.0 as int];
        let q = post.entities_seq()[rid.0 as int];
        &&& row_patch(pre, post, rid)
        &&& row_same_but_traits(p, q)
        &&& forall|x: TraitId| #[trigger] q.traits@.contains(x) <==> (p.traits@.contains(x) || x
            == t)
        &&& diff_only_trait_added(pre.diff_spec(), post.diff_spec())
        &&& post.diff_spec().trait_added@ == (if p.traits@.contains(t) {
            pre.diff_spec().trait_added@
        } else {
            pre.diff_spec().trait_added@.push((rid, t))
        })
    }
}

/// What removing a trait does: on a live entity the trait leaves the sorted
/// trait set, and the removal is recorded exactly when the trait was
/// present; dead or unknown handles change nothing.
pub open spec fn remove_trait_rel(pre: Model, post: Model, rid: EntityRid, t: TraitId) -> bool {
    if rid.0 >= pre.entities_seq().len() || !pre.entities_seq()[rid.0 as int].alive {
        post == pre
    } else {
        let p = pre.entities_seq()[rid.0 as int];
        let q = post.entities_seq()[rid.0 as int];
        &&& row_patch(pre, post, rid)
        &&& row_same_but_traits(p, q)
        &&& forall|x: TraitId| #[trigger] q.traits@.contains(x) <==> (p.traits@.contains(x) && x
            != t)
        &&& diff_only_trait_removed(pre.diff_spec(), post.diff_spec())
        &&& post.diff_spec().trait_removed@ == (if p.traits@.contains(t) {
            pre.diff_spec().trait_removed@.push((rid, t))
        } else {
            pre.diff_spec().trait_removed@
        })
    }
}

/// What upserting an attribute layer does: on a live entity the layer goes
/// into the key's stack (created on first write) and an attribute change is
/// recorded unconditionally; dead or unknown handles change nothing.
pub open spec fn upsert_attr_rel(
    pre: Model,
    post: Model,
    rid: EntityRid,
    key: AttrKeyId,
    layer: AttrLayer,
) -> bool {
    if rid.0 >= pre.entities_seq().len() || !pre.entities_seq()[rid.0 as int].alive {
        post == pre
    } else {
        let p = pre.entities_seq()[rid.0 as int];
        let q = post.entities_seq()[rid.0 as int];
        &&& row_patch(pre, post, rid)
        &&& row_same_but_attrs(p, q)
        &&& crate::entity::attrs_upsert_rel(p.attrs, q.attrs, key, layer)
        &&& diff_only_attr_changed(pre.diff_spec(), post.diff_spec())
        &&& post.diff_spec().attr_changed@ == pre.diff_spec().attr_changed@.push((rid, key))
    }
}

/// What clearing a source's attribute layers does: on a live entity every
/// stack drops that source's layers, slot for slot; nothing is recorded;
/// dead or unknown handles change nothing.
pub open spec fn remove_attr_source_rel(
    pre: Model,
    post: Model,
    rid: EntityRid,
    source: LayerSource,
) -> bool {
    if rid.0 >= pre.entities_seq().len() || !pre.entities_seq()[rid.0 as int].alive {
        post == pre
    } else {
        let p = pre.entities_seq()[rid.0 as int];
        let q = post.entities_seq()[rid.0 as int];
        &&& row_patch(pre, post, rid)
        &&& row_same_but_attrs(p, q)
        &&& q.attrs.stacks_seq().len() == p.attrs.stacks_seq().len()
        &&& forall|i: int|
            0 <= i < q.attrs.stacks_seq().len() ==> (#[trigger] q.attrs.stacks_seq()[i]).0
                == p.attrs.stacks_seq()[i].0 && crate::attr::remove_source_rel(
                p.attrs.stacks_seq()[i].1,
                q.attrs.stacks_seq()[i].1,
                source,
            )
        &&& diff_unchanged(pre.diff_spec(), post.diff_spec())
    }
}

/// A change confined to one live row's traits or attribute stacks keeps the
/// id map and the index consistent.
proof fn lemma_row_update_preserves_links(pre: Model, post: Model, rid: EntityRid)
    requires
        pre.wf(),
        rid.0 < pre.entities_seq().len(),
        post.entities_seq().len() == pre.entities_seq().len(),
        forall|i: int|
            0 <= i < pre.entities_seq().len() && i != rid.0 ==> #[trigger] post.entities_seq()[i]
                == pre.entities_seq()[i],
        ({
            let p = pre.entities_seq()[rid.0 as int];
            let q = post.entities_seq()[rid.0 as int];
            q.id == p.id && q.rid == p.rid && q.alive == p.alive && q.aspects == p.aspects
        }),
        traits_sorted(post.entities_seq()[rid.0 as int].traits@),
        inst_ids_sorted(post.entities_seq()[rid.0 as int].effects@),
        post.entities_seq()[rid.0 as int].attrs.wf(),
        post.by_id_seq() == pre.by_id_seq(),
        post.index_spec() == pre.index_spec(),
        forall|k: int, l: int|
            0 <= k < l < post.effects_seq().len() ==> (#[trigger] post.effects_seq()[
                k]).inst_id.0 < (#[trigger] post.effects_seq()[l]).inst_id.0,
        post.reg() == pre.reg(),
    ensures
        post.wf(),
{
    let es = post.entities_seq();
    let pes = pre.entities_seq();
    assert forall|i: int| 0 <= i < es.len() implies (#[trigger] es[i]).rid.0 == i && es[
        i].aspects.wf() && traits_sorted(es[i].traits@) && inst_ids_sorted(es[i].effects@) && es[
        i].attrs.wf() && (!es[i].alive ==> es[i].aspects@.len() == 0) by {
        if i != rid.0 {
            assert(es[i] == pes[i]);
        } else {
            assert(pes[i].rid.0 == i);
            assert(es[i].aspects == pes[i].aspects);
        }
    }
    assert forall|i: int, a: AspectRid|
        0 <= i < es.len() && (#[trigger] es[i].aspects@.contains(a)) implies a.0 < post.reg()
        .nodes_seq().len() by {
        if i != rid.0 {
            assert(es[i] == pes[i]);
        } else {
            assert(es[i].aspects == pes[i].aspects);
        }
    }
    assert forall|k: int| 0 <= k < post.by_id_seq().len() implies {
        let p = #[trigger] post.by_id_seq()[k];
        p.1.0 < es.len() && es[p.1.0 as int].alive && es[p.1.0 as int].id == p.0
    } by {
        let p = post.by_id_seq()[k];
        assert(pre.by_id_seq()[k] == p);
        if p.1.0 != rid.0 {
            assert(es[p.1.0 as int] == pes[p.1.0 as int]);
        }
    }
    assert forall|i: int|
        0 <= i < es.len() && (#[trigger] es[i]).alive implies post.by_id_seq().contains(
        (es[i].id, EntityRid(i as u32)),
    ) by {
        if i != rid.0 {
            assert(es[i] == pes[i]);
        }
        assert(pes[i].alive && pes[i].id == es[i].id);
    }
    assert forall|a: int, e: u32|
        0 <= a < post.reg().nodes_seq().len() implies ((#[trigger] post.index_spec().sets()[
        a].contains(e)) <==> (e < es.len() && es[e as int].aspects@.contains(
        AspectRid(a as u32),
    ))) by {
        if e < es.len() && e != rid.0 {
            assert(es[e as int] == pes[e as int]);
        }
        if e < es.len() && e == rid.0 {
            assert(es[e as int].aspects == pes[e as int].aspects);
        }
    }
}

/// Ordered insert into a trait set; reports whether the trait was absent.
fn sorted_insert_trait(v: &mut Vec<TraitId>, t: TraitId) -> (added: bool)
    requires
        traits_sorted(old(v)@),
    ensures
        traits_sorted(final(v)@),
        forall|x: TraitId| #[trigger] final(v)@.contains(x) <==> (old(v)@.contains(x) || x == t),
        added == !old(v)@.contains(t),
        !added ==> final(v)@ == old(v)@,
{
    let n = v.len();
    let mut pos: usize = 0;
    while pos < n && v[pos].0.0 < t.0.0
        invariant
            n == v@.len(),
            v@ == old(v)@,
            pos <= n,
            forall|j: int| 0 <= j < pos ==> (#[trigger] v@[j]).0.0 < t.0.0,
        decreases n - pos,
    {
        pos += 1;
    }
    if pos < n && v[pos].0.0 == t.0.0 {
        proof {
            assert(v@[pos as int] == t);
            assert(v@.contains(t));
        }
        return false;
    }
    proof {
        assert(forall|j: int| pos <= j < n ==> t.0.0 < (#[trigger] v@[j]).0.0);
        if v@.contains(t) {
            let k = choose|k: int| 0 <= k < v@.len() && v@[k] == t;
            assert(false);
        }
    }
    let ghost o = v@;
    v.insert(pos, t);
    proof {
        let s = v@;
        assert(forall|j: int| 0 <= j < pos ==> #[trigger] s[j] == o[j]);
        assert(forall|j: int| pos < j < s.len() ==> #[trigger] s[j] == o[j - 1]);
        assert(s[pos as int] == t);
        assert forall|x: TraitId| #[trigger] s.contains(x) <==> (o.contains(x) || x == t) by {
            if s.contains(x) {
                let j = choose|j: int| 0 <= j < s.len() && s[j] == x;
                if j < pos {
                    assert(o[j] == x);
                } else if j > pos {
                    assert(o[j - 1] == x);
                }
            }
            if o.contains(x) {
                let j = choose|j: int| 0 <= j < o.len() && o[j] == x;
                if j < pos {
                    assert(s[j] == x);
                } else {
                    assert(s[j + 1] == x);
                }
            }
            if x == t {
                assert(s[pos as int] == x);
            }
        }
        assert forall|i: int, j: int| 0 <= i < j < s.len() implies (#[trigger] s[i]).0.0 < (
        #[trigger] s[j]).0.0 by {
            if i != pos && j != pos {
                let io: int = if i < pos { i } else { i - 1 };
                let jo: int = if j < pos { j } else { j - 1 };
                assert(s[i] == o[io] && s[j] == o[jo]);
            }
        }
    }
    true
}

/// Ordered removal from a trait set; reports whether the trait was present.
fn sorted_remove_trait(v: &mut Vec<TraitId>, t: TraitId) -> (removed: bool)
    requires
        traits_sorted(old(v)@),
    ensures
        traits_sorted(final(v)@),
        forall|x: TraitId| #[trigger] final(v)@.contains(x) <==> (old(v)@.contains(x) && x != t),
        removed == old(v)@.contains(t),
        !removed ==> final(v)@ == old(v)@,
{
    let n = v.len();
    let mut k: usize = 0;
    let mut found: Option<usize> = None;
    while k < n && found.is_none()
        invariant
            n == v@.len(),
            v@ == old(v)@,
            k <= n,
            found matches Some(f) ==> f < n && v@[f as int] == t,
            found is None ==> forall|j: int| 0 <= j < k ==> #[trigger] v@[j] != t,
        decreases n - k + (if found is None { 1int } else { 0int }),
    {
        if v[k].0.0 == t.0.0 {
            proof {
                assert(v@[k as int] == t);
            }
            found = Some(k);
        } else {
            k += 1;
        }
    }
    match found {
        Some(f) => {
            let ghost o = v@;
            proof {
                assert(o.contains(t));
            }
            v.remove(f);
            proof {
                let s = v@;
                assert(forall|j: int| 0 <= j < f ==> #[trigger] s[j] == o[j]);
                assert(forall|j: int| f <= j < s.len() ==> #[trigger] s[j] == o[j + 1]);
                assert forall|x: TraitId| #[trigger] s.contains(x) <==> (o.contains(x) && x
                    != t) by {
                    if s.contains(x) {
                        let j = choose|j: int| 0 <= j < s.len() && s[j] == x;
                        if j < f {
                            assert(o[j] == x);
                            assert(o[j].0.0 < o[f as int].0.0);
                        } else {
                            assert(o[j + 1] == x);
                            assert(o[f as int].0.0 < o[j + 1].0.0);
                        }
                    }
                    if o.contains(x) && x != t {
                        let j = choose|j: int| 0 <= j < o.len() && o[j] == x;
                        if j < f {
                            assert(s[j] == x);
                        } else if j > f {
                            assert(s[j - 1] == x);
                        } else {
                            assert(false);
                        }
                    }
                }
                assert forall|i: int, j: int| 0 <= i < j < s.len() implies (#[trigger] s[i]).0.0
                    < (#[trigger] s[j]).0.0 by {
                    let io: int = if i < f { i } else { i + 1 };
                    let jo: int = if j < f { j } else { j + 1 };
                    assert(s[i] == o[io] && s[j] == o[jo]);
                }
            }
            true
        },
        None => {
            proof {
                if v@.contains(t) {
                    let j = choose|j: int| 0 <= j < v@.len() && v@[j] == t;
                    assert(false);
                }
            }
            false
        },
    }
}

/// All row fields except the effect back-references are unchanged.
pub open spec fn row_same_but_effects(a: EntityRecord, b: EntityRecord) -> bool {
    a.id == b.id && a.rid == b.rid && a.alive == b.alive && a.archetype == b.archetype && a.traits
        == b.traits && a.aspects == b.aspects && a.attrs == b.attrs
}

/// Only the effect-removed list of the diff may differ.
pub open spec fn diff_only_effect_removed(pre: ModelDiff, post: ModelDiff) -> bool {
    &&& post.spawned@ == pre.spawned@
    &&& post.killed@ == pre.killed@
    &&& post.trait_added@ == pre.trait_added@
    &&& post.trait_removed@ == pre.trait_removed@
    &&& post.attr_changed@ == pre.attr_changed@
    &&& post.effect_added@ == pre.effect_added@
    &&& post.aspects_changed@ == pre.aspects_changed@
}

/// What inserting an effect instance does. An existing instance id has its
/// record overwritten in place, back-references untouched; a fresh id
/// joins the sorted table, and a live owner gains the back-reference. The
/// diff is untouched either way.
pub open spec fn insert_effect_rel(
    pre: Model,
    post: Model,
    inst: crate::effect::EffectInstance,
) -> bool {
    &&& post.by_id_seq() == pre.by_id_seq()
    &&& post.index_spec() == pre.index_spec()
    &&& post.next_inst_spec() == pre.next_inst_spec()
    &&& post.reg() == pre.reg()
    &&& diff_unchanged(pre.diff_spec(), post.diff_spec())
    &&& if exists|k: int|
        0 <= k < pre.effects_seq().len() && (#[trigger] pre.effects_seq()[k]).inst_id
            == inst.inst_id {
        &&& post.effects_seq().len() == pre.effects_seq().len()
        &&& forall|j: int|
            0 <= j < pre.effects_seq().len() ==> #[trigger] post.effects_seq()[j] == (
            if pre.effects_seq()[j].inst_id == inst.inst_id {
                inst
            } else {
                pre.effects_seq()[j]
            })
        &&& post.entities_seq() == pre.entities_seq()
    } else {
        &&& forall|e: crate::effect::EffectInstance|
            #[trigger] post.effects_seq().contains(e) <==> (pre.effects_seq().contains(e) || e
                == inst)
        &&& if inst.owner.0 < pre.entities_seq().len() && pre.entities_seq()[
            inst.owner.0 as int].alive {
            &&& post.entities_seq().len() == pre.entities_seq().len()
            &&& forall|i: int|
                0 <= i < pre.entities_seq().len() && i != inst.owner.0
                    ==> #[trigger] post.entities_seq()[i] == pre.entities_seq()[i]
            &&& row_same_but_effects(
                pre.entities_seq()[inst.owner.0 as int],
                post.entities_seq()[inst.owner.0 as int],
            )
            &&& forall|x: EffectInstId|
                #[trigger] post.entities_seq()[inst.owner.0 as int].effects@.contains(x) <==> (
                pre.entities_seq()[inst.owner.0 as int].effects@.contains(x) || x == inst.inst_id)
        } else {
            post.entities_seq() == pre.entities_seq()
        }
    }
}

/// What removing an effect instance does. A present id leaves the table,
/// the removal is recorded, and a live owner loses the back-reference; a
/// nonexistent id changes nothing and records nothing.
pub open spec fn remove_effect_rel(pre: Model, post: Model, inst_id: EffectInstId) -> bool {
    if exists|k: int|
        0 <= k < pre.effects_seq().len() && (#[trigger] pre.effects_seq()[k]).inst_id == inst_id {
        let k = choose|k: int|
            0 <= k < pre.effects_seq().len() && (#[trigger] pre.effects_seq()[k]).inst_id
                == inst_id;
        let owner = pre.effects_seq()[k].owner;
        &&& post.by_id_seq() == pre.by_id_seq()
        &&& post.index_spec() == pre.index_spec()
        &&& post.next_inst_spec() == pre.next_inst_spec()
        &&& post.reg() == pre.reg()
        &&& forall|e: crate::effect::EffectInstance|
            #[trigger] post.effects_seq().contains(e) <==> (pre.effects_seq().contains(e)
                && e.inst_id != inst_id)
        &&& diff_only_effect_removed(pre.diff_spec(), post.diff_spec())
        &&& post.diff_spec().effect_removed@ == pre.diff_spec().effect_removed@.push(inst_id)
        &&& if owner.0 < pre.entities_seq().len() && pre.entities_seq()[owner.0 as int].alive {
            &&& post.entities_seq().len() == pre.entities_seq().len()
            &&& forall|i: int|
                0 <= i < pre.entities_seq().len() && i != owner.0
                    ==> #[trigger] post.entities_seq()[i] == pre.entities_seq()[i]
            &&& row_same_but_effects(
                pre.entities_seq()[owner.0 as int],
                post.entities_seq()[owner.0 as int],
            )
            &&& forall|x: EffectInstId|
                #[trigger] post.entities_seq()[owner.0 as int].effects@.contains(x) <==> (
                pre.entities_seq()[owner.0 as int].effects@.contains(x) && x != inst_id)
        } else {
            post.entities_seq() == pre.entities_seq()
        }
    } else {
        post == pre
    }
}

/// Removing a nonexistent effect instance is a silent no-op: the store,
/// including the pending diff, is unchanged.
pub proof fn lemma_remove_effect_idempotent(m0: Model, m1: Model, m2: Model, id: EffectInstId)
    requires
        exists|k: int|
            0 <= k < m0.effects_seq().len() && (#[trigger] m0.effects_seq()[k]).inst_id == id,
        remove_effect_rel(m0, m1, id),
        remove_effect_rel(m1, m2, id),
    ensures
        m2 == m1,
{
    if exists|k: int|
        0 <= k < m1.effects_seq().len() && (#[trigger] m1.effects_seq()[k]).inst_id == id {
        let k = choose|k: int|
            0 <= k < m1.effects_seq().len() && (#[trigger] m1.effects_seq()[k]).inst_id == id;
        assert(m1.effects_seq().contains(m1.effects_seq()[k]));
        assert(false);
    }
}

/// One live row finalized at `now`: every stack swept, resolved and left
/// clean; everything else about the row unchanged.
pub open spec fn finalized_row(p: EntityRecord, q: EntityRecord, now: crate::time::Tick) -> bool {
    &&& q.id == p.id && q.rid == p.rid && q.alive == p.alive && q.archetype == p.archetype
        && q.traits == p.traits && q.effects == p.effects && q.aspects == p.aspects
    &&& q.attrs.wf()
    &&& q.attrs.stacks_seq().len() == p.attrs.stacks_seq().len()
    &&& forall|s: int|
        0 <= s < q.attrs.stacks_seq().len() ==> {
            let ps = (#[trigger] p.attrs.stacks_seq()[s]).1;
            let qs = q.attrs.stacks_seq()[s].1;
            &&& q.attrs.stacks_seq()[s].0 == p.attrs.stacks_seq()[s].0
            &&& qs.layers_seq() == ps.layers_seq().filter(
                |l: AttrLayer| crate::attr::layer_live(l, now),
            )
            &&& !qs.dirty_spec()
            &&& qs.cached_spec() == crate::attr::resolved_spec(qs.layers_seq())
        }
}

/// A stack that the finalization sweep reports for the key: it was already
/// dirty, or the sweep dropped at least one expired layer.
pub open spec fn stack_reports(
    stacks: Seq<(AttrKeyId, crate::attr::AttrStack)>,
    k: AttrKeyId,
    now: crate::time::Tick,
) -> bool {
    exists|s: int|
        0 <= s < stacks.len() && (#[trigger] stacks[s]).0 == k && (stacks[s].1.dirty_spec()
            || stacks[s].1.layers_seq().filter(|l: AttrLayer| crate::attr::layer_live(l, now)).len()
            != stacks[s].1.layers_seq().len())
}

/// What tick finalization does: every live row is finalized at `now`, dead
/// rows are untouched, and an attribute change is recorded for exactly the
/// stacks the sweep reports.
pub open spec fn finalize_rel(pre: Model, post: Model, now: crate::time::Tick) -> bool {
    &&& post.entities_seq().len() == pre.entities_seq().len()
    &&& forall|i: int|
        0 <= i < pre.entities_seq().len() && !(#[trigger] pre.entities_seq()[i]).alive
            ==> post.entities_seq()[i] == pre.entities_seq()[i]
    &&& forall|i: int|
        0 <= i < pre.entities_seq().len() && (#[trigger] pre.entities_seq()[i]).alive
            ==> finalized_row(pre.entities_seq()[i], post.entities_seq()[i], now)
    &&& forall|p: (EntityRid, AttrKeyId)|
        #[trigger] post.diff_spec().attr_changed@.contains(p) <==> (
        pre.diff_spec().attr_changed@.contains(p) || (exists|i: int|
            0 <= i < pre.entities_seq().len() && (#[trigger] pre.entities_seq()[i]).alive && p.0
                == EntityRid(i as u32) && stack_reports(
                pre.entities_seq()[i].attrs.stacks_seq(),
                p.1,
                now,
            )))
    &&& diff_only_attr_changed(pre.diff_spec(), post.diff_spec())
    &&& post.by_id_seq() == pre.by_id_seq()
    &&& post.index_spec() == pre.index_spec()
    &&& post.effects_seq() == pre.effects_seq()
    &&& post.next_inst_spec() == pre.next_inst_spec()
    &&& post.reg() == pre.reg()
}

/// Like the row-update lemma, but tolerating an out-of-range handle (no
/// row changed) and a rewritten effect table.
proof fn lemma_row_update_preserves_links_general(pre: Model, post: Model, rid: EntityRid)
    requires
        pre.wf(),
        post.entities_seq().len() == pre.entities_seq().len(),
        forall|i: int|
            0 <= i < pre.entities_seq().len() && i != rid.0 ==> #[trigger] post.entities_seq()[i]
                == pre.entities_seq()[i],
        rid.0 < pre.entities_seq().len() ==> ({
            let p = pre.entities_seq()[rid.0 as int];
            let q = post.entities_seq()[rid.0 as int];
            q.id == p.id && q.rid == p.rid && q.alive == p.alive && q.aspects == p.aspects
                && q.traits == p.traits && q.attrs == p.attrs && inst_ids_sorted(q.effects@)
        }),
        post.by_id_seq() == pre.by_id_seq(),
        post.index_spec() == pre.index_spec(),
        forall|k: int, l: int|
            0 <= k < l < post.effects_seq().len() ==> (#[trigger] post.effects_seq()[
                k]).inst_id.0 < (#[trigger] post.effects_seq()[l]).inst_id.0,
        post.reg() == pre.reg(),
    ensures
        post.wf(),
{
    let es = post.entities_seq();
    let pes = pre.entities_seq();
    assert forall|i: int| 0 <= i < es.len() implies (#[trigger] es[i]).rid.0 == i && es[
        i].aspects.wf() && traits_sorted(es[i].traits@) && inst_ids_sorted(es[i].effects@) && es[
        i].attrs.wf() && (!es[i].alive ==> es[i].aspects@.len() == 0) by {
        if i != rid.0 {
            assert(es[i] == pes[i]);
        } else {
            assert(pes[i].rid.0 == i);
            assert(es[i].aspects == pes[i].aspects);
        }
    }
    assert forall|i: int, a: AspectRid|
        0 <= i < es.len() && (#[trigger] es[i].aspects@.contains(a)) implies a.0 < post.reg()
        .nodes_seq().len() by {
        if i != rid.0 {
            assert(es[i] == pes[i]);
        } else {
            assert(es[i].aspects == pes[i].aspects);
        }
    }
    assert forall|k: int| 0 <= k < post.by_id_seq().len() implies {
        let p = #[trigger] post.by_id_seq()[k];
        p.1.0 < es.len() && es[p.1.0 as int].alive && es[p.1.0 as int].id == p.0
    } by {
        let p = post.by_id_seq()[k];
        assert(pre.by_id_seq()[k] == p);
        if p.1.0 != rid.0 {
            assert(es[p.1.0 as int] == pes[p.1.0 as int]);
        }
    }
    assert forall|i: int|
        0 <= i < es.len() && (#[trigger] es[i]).alive implies post.by_id_seq().contains(
        (es[i].id, EntityRid(i as u32)),
    ) by {
        if i != rid.0 {
            assert(es[i] == pes[i]);
        }
        assert(pes[i].alive && pes[i].id == es[i].id);
    }
    assert forall|a: int, e: u32|
        0 <= a < post.reg().nodes_seq().len() implies ((#[trigger] post.index_spec().sets()[
        a].contains(e)) <==> (e < es.len() && es[e as int].aspects@.contains(
        AspectRid(a as u32),
    ))) by {
        if e < es.len() && e != rid.0 {
            assert(es[e as int] == pes[e as int]);
        }
        if e < es.len() && e == rid.0 {
            assert(es[e as int].aspects == pes[e as int].aspects);
        }
    }
}

/// Ordered insert into an entity's effect list; no-op when present.
fn sorted_insert_inst_id(v: &mut Vec<EffectInstId>, x: EffectInstId)
    requires
        inst_ids_sorted(old(v)@),
    ensures
        inst_ids_sorted(final(v)@),
        forall|y: EffectInstId|
            #[trigger] final(v)@.contains(y) <==> (old(v)@.contains(y) || y == x),
{
    let n = v.len();
    let mut pos: usize = 0;
    while pos < n && v[pos].0 < x.0
        invariant
            n == v@.len(),
            v@ == old(v)@,
            pos <= n,
            forall|j: int| 0 <= j < pos ==> (#[trigger] v@[j]).0 < x.0,
        decreases n - pos,
    {
        pos += 1;
    }
    if pos < n && v[pos].0 == x.0 {
        proof {
            assert(v@[pos as int] == x);
            assert(v@.contains(x));
        }
        return ;
    }
    proof {
        assert(forall|j: int| pos <= j < n ==> x.0 < (#[trigger] v@[j]).0);
        if v@.contains(x) {
            let k = choose|k: int| 0 <= k < v@.len() && v@[k] == x;
            assert(false);
        }
    }
    let ghost o = v@;
    v.insert(pos, x);
    proof {
        let s = v@;
        assert(forall|j: int| 0 <= j < pos ==> #[trigger] s[j] == o[j]);
        assert(forall|j: int| pos < j < s.len() ==> #[trigger] s[j] == o[j - 1]);
        assert(s[pos as int] == x);
        assert forall|y: EffectInstId| #[trigger] s.contains(y) <==> (o.contains(y) || y == x) by {
            if s.contains(y) {
                let j = choose|j: int| 0 <= j < s.len() && s[j] == y;
                if j < pos {
                    assert(o[j] == y);
                } else if j > pos {
                    assert(o[j - 1] == y);
                }
            }
            if o.contains(y) {
                let j = choose|j: int| 0 <= j < o.len() && o[j] == y;
                if j < pos {
                    assert(s[j] == y);
                } else {
                    assert(s[j + 1] == y);
                }
            }
            if y == x {
                assert(s[pos as int] == y);
            }
        }
        assert forall|i: int, j: int| 0 <= i < j < s.len() implies (#[trigger] s[i]).0 < (
        #[trigger] s[j]).0 by {
            if i != pos && j != pos {
                let io: int = if i < pos { i } else { i - 1 };
                let jo: int = if j < pos { j } else { j - 1 };
                assert(s[i] == o[io] && s[j] == o[jo]);
            }
        }
    }
}

/// Ordered removal from an entity's effect list; no-op when absent.
fn sorted_remove_inst_id(v: &mut Vec<EffectInstId>, x: EffectInstId)
    requires
        inst_ids_sorted(old(v)@),
    ensures
        inst_ids_sorted(final(v)@),
        forall|y: EffectInstId|
            #[trigger] final(v)@.contains(y) <==> (old(v)@.contains(y) && y != x),
{
    let n = v.len();
    let mut k: usize = 0;
    let mut found: Option<usize> = None;
    while k < n && found.is_none()
        invariant
            n == v@.len(),
            v@ == old(v)@,
            k <= n,
            found matches Some(f) ==> f < n && v@[f as int] == x,
            found is None ==> forall|j: int| 0 <= j < k ==> #[trigger] v@[j] != x,
        decreases n - k + (if found is None { 1int } else { 0int }),
    {
        if v[k].0 == x.0 {
            proof {
                assert(v@[k as int] == x);
            }
            found = Some(k);
        } else {
            k += 1;
        }
    }
    match found {
        Some(f) => {
            let ghost o = v@;
            v.remove(f);
            proof {
                let s = v@;
                assert(forall|j: int| 0 <= j < f ==> #[trigger] s[j] == o[j]);
                assert(forall|j: int| f <= j < s.len() ==> #[trigger] s[j] == o[j + 1]);
                assert forall|y: EffectInstId| #[trigger] s.contains(y) <==> (o.contains(y) && y
                    != x) by {
                    if s.contains(y) {
                        let j = choose|j: int| 0 <= j < s.len() && s[j] == y;
                        if j < f {
                            assert(o[j] == y);
                            assert(o[j].0 < o[f as int].0);
                        } else {
                            assert(o[j + 1] == y);
                            assert(o[f as int].0 < o[j + 1].0);
                        }
                    }
                    if o.contains(y) && y != x {
                        let j = choose|j: int| 0 <= j < o.len() && o[j] == y;
                        if j < f {
                            assert(s[j] == y);
                        } else if j > f {
                            assert(s[j - 1] == y);
                        } else {
                            assert(false);
                        }
                    }
                }
                assert forall|i: int, j: int| 0 <= i < j < s.len() implies (#[trigger] s[i]).0
                    < (#[trigger] s[j]).0 by {
                    let io: int = if i < f { i } else { i + 1 };
                    let jo: int = if j < f { j } else { j + 1 };
                    assert(s[i] == o[io] && s[j] == o[jo]);
                }
            }
        },
        None => {
            proof {
                if v@.contains(x) {
                    let j = choose|j: int| 0 <= j < v@.len() && v@[j] == x;
                    assert(false);
                }
            }
        },
    }
}

/// Killing is idempotent: a second kill of the same handle, and any kill of
/// an unknown handle, changes nothing and records nothing.
pub proof fn lemma_kill_idempotent(m0: Model, m1: Model, m2: Model, rid: EntityRid)
    requires
        rid.0 < m0.entities_seq().len(),
        m0.entities_seq()[rid.0 as int].alive,
        kill_rel(m0, m1, rid),
        kill_rel(m1, m2, rid),
    ensures
        m2 == m1,
{
    assert(!m1.entities_seq()[rid.0 as int].alive);
}

/// Entity-id equality.
fn entity_ids_equal(a: &EntityId, b: &EntityId) -> (r: bool)
    ensures
        r == (*a == *b),
{
    match (a, b) {
        (EntityId::Auth(x), EntityId::Auth(y)) => x.0.0 == y.0.0,
        (EntityId::Run(x), EntityId::Run(y)) => x.0 == y.0,
        _ => false,
    }
}

/// Ordered insert into the id map; the id must not be mapped yet.
fn insert_by_id(v: &mut Vec<(EntityId, EntityRid)>, id: EntityId, rid: EntityRid)
    requires
        forall|k: int, l: int|
            0 <= k < l < old(v)@.len() ==> entity_id_lt(
                (#[trigger] old(v)@[k]).0,
                (#[trigger] old(v)@[l]).0,
            ),
        forall|k: int| 0 <= k < old(v)@.len() ==> (#[trigger] old(v)@[k]).0 != id,
    ensures
        forall|k: int, l: int|
            0 <= k < l < final(v)@.len() ==> entity_id_lt(
                (#[trigger] final(v)@[k]).0,
                (#[trigger] final(v)@[l]).0,
            ),
        forall|p: (EntityId, EntityRid)|
            #[trigger] final(v)@.contains(p) <==> (old(v)@.contains(p) || p == (id, rid)),
{
    let n = v.len();
    let mut pos: usize = 0;
    while pos < n && entity_id_before(&v[pos].0, &id)
        invariant
            n == v@.len(),
            v@ == old(v)@,
            pos <= n,
            forall|j: int| 0 <= j < pos ==> entity_id_lt((#[trigger] v@[j]).0, id),
        decreases n - pos,
    {
        pos += 1;
    }
    proof {
        assert forall|j: int| pos <= j < n implies entity_id_lt(id, (#[trigger] v@[j]).0) by {
            crate::entity::lemma_entity_id_order_total(id, v@[pos as int].0);
            if j > pos {
                assert(entity_id_lt(v@[pos as int].0, v@[j].0));
            }
        }
    }
    let ghost o = v@;
    v.insert(pos, (id, rid));
    proof {
        let s = v@;
        assert(forall|j: int| 0 <= j < pos ==> #[trigger] s[j] == o[j]);
        assert(forall|j: int| pos < j < s.len() ==> #[trigger] s[j] == o[j - 1]);
        assert(s[pos as int] == (id, rid));
        assert forall|k: int, l: int| 0 <= k < l < s.len() implies entity_id_lt(
            (#[trigger] s[k]).0,
            (#[trigger] s[l]).0,
        ) by {
            if k != pos && l != pos {
                let ko: int = if k < pos { k } else { k - 1 };
                let lo: int = if l < pos { l } else { l - 1 };
                assert(s[k] == o[ko] && s[l] == o[lo]);
            }
        }
        assert forall|p: (EntityId, EntityRid)| #[trigger] s.contains(p) <==> (o.contains(p) || p
            == (id, rid)) by {
            if s.contains(p) {
                let j = choose|j: int| 0 <= j < s.len() && s[j] == p;
                if j < pos {
                    assert(o[j] == p);
                } else if j > pos {
                    assert(o[j - 1] == p);
                }
            }
            if o.contains(p) {
                let j = choose|j: int| 0 <= j < o.len() && o[j] == p;
                if j < pos {
                    assert(s[j] == p);
                } else {
                    assert(s[j + 1] == p);
                }
            }
            if p == (id, rid) {
                assert(s[pos as int] == p);
            }
        }
    }
}

/// Drops the id's mapping, if present.
fn remove_by_id(v: &mut Vec<(EntityId, EntityRid)>, id: &EntityId)
    requires
        forall|k: int, l: int|
            0 <= k < l < old(v)@.len() ==> entity_id_lt(
                (#[trigger] old(v)@[k]).0,
                (#[trigger] old(v)@[l]).0,
            ),
    ensures
        forall|k: int, l: int|
            0 <= k < l < final(v)@.len() ==> entity_id_lt(
                (#[trigger] final(v)@[k]).0,
                (#[trigger] final(v)@[l]).0,
            ),
        forall|p: (EntityId, EntityRid)|
            #[trigger] final(v)@.contains(p) <==> (old(v)@.contains(p) && p.0 != *id),
{
    let n = v.len();
    let mut k: usize = 0;
    let mut found: Option<usize> = None;
    while k < n && found.is_none()
        invariant
            n == v@.len(),
            v@ == old(v)@,
            k <= n,
            found matches Some(f) ==> f < n && (v@[f as int]).0 == *id,
            found is None ==> forall|j: int| 0 <= j < k ==> (#[trigger] v@[j]).0 != *id,
        decreases n - k + (if found is None { 1int } else { 0int }),
    {
        if entity_ids_equal(&v[k].0, id) {
            found = Some(k);
        } else {
            k += 1;
        }
    }
    match found {
        Some(f) => {
            let ghost o = v@;
            v.remove(f);
            proof {
                let s = v@;
                assert(forall|j: int| 0 <= j < f ==> #[trigger] s[j] == o[j]);
                assert(forall|j: int| f <= j < s.len() ==> #[trigger] s[j] == o[j + 1]);
                assert forall|p: (EntityId, EntityRid)| #[trigger] s.contains(p) <==> (o.contains(
                    p,
                ) && p.0 != *id) by {
                    if s.contains(p) {
                        let j = choose|j: int| 0 <= j < s.len() && s[j] == p;
                        if j < f {
                            assert(o[j] == p);
                            assert(entity_id_lt(o[j].0, o[f as int].0));
                        } else {
                            assert(o[j + 1] == p);
                            assert(entity_id_lt(o[f as int].0, o[j + 1].0));
                        }
                    }
                    if o.contains(p) && p.0 != *id {
                        let j = choose|j: int| 0 <= j < o.len() && o[j] == p;
                        if j < f {
                            assert(s[j] == p);
                        } else if j > f {
                            assert(s[j - 1] == p);
                        } else {
                            assert(o[f as int].0 == *id);
                        }
                    }
                }
                assert forall|k2: int, l2: int| 0 <= k2 < l2 < s.len() implies entity_id_lt(
                    (#[trigger] s[k2]).0,
                    (#[trigger] s[l2]).0,
                ) by {
                    let ko: int = if k2 < f { k2 } else { k2 + 1 };
                    let lo: int = if l2 < f { l2 } else { l2 + 1 };
                    assert(s[k2] == o[ko] && s[l2] == o[lo]);
                }
            }
        },
        None => {
            proof {
                assert forall|p: (EntityId, EntityRid)| #[trigger] v@.contains(p) <==> (old(
                    v,
                )@.contains(p) && p.0 != *id) by {
                    if v@.contains(p) {
                        let j = choose|j: int| 0 <= j < v@.len() && v@[j] == p;
                    }
                }
            }
        },
    }
}

} // verus!
