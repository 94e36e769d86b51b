//! Entity records: identity, liveness, traits, effects, aspects and
//! attribute stacks, plus the runtime entity-id generator.

use vstd::prelude::*;

use crate::attr::{
    layer_live, remove_source_rel, resolved_spec, upsert_rel, AttrLayer, AttrStack, LayerSource,
};
use crate::ids::{ArchetypeId, AttrKeyId, EffectInstId, EntityAuthId, TraitId};
use crate::set::AspectSet;
use crate::time::Tick;

verus! {

/// Dense session-stable handle of an entity row; never reused.
#[derive(Clone, Copy, Debug, PartialEq, Eq, Structural, Hash)]
pub struct EntityRid(pub u32);

/// Identifier of a runtime-instantiated entity: a session seed in the high
/// 64 bits and a per-session counter in the low 64 bits.
#[derive(Clone, Copy, Debug, PartialEq, Eq, Structural, Hash)]
pub struct EntityRunId(pub u128);

impl EntityRunId {
    /// Packs a session seed and a counter into one identifier.
    pub fn from_seed_counter(session_seed: u64, counter: u64) -> (r: EntityRunId)
        ensures
            r.0 == ((session_seed as u128) << 64) | (counter as u128),
    {
        EntityRunId(((session_seed as u128) << 64) | (counter as u128))
    }

    /// The session seed packed into the high 64 bits.
    pub fn session_seed(&self) -> (r: u64)
        ensures
            r == (self.0 >> 64) as u64,
    {
        (self.0 >> 64) as u64
    }

    /// The counter packed into the low 64 bits.
    pub fn counter(&self) -> (r: u64)
        ensures
            r == (self.0 & 0xFFFF_FFFF_FFFF_FFFF) as u64,
    {
        (self.0 & 0xFFFF_FFFF_FFFF_FFFF) as u64
    }
}

/// An entity named either by authored content or by runtime instantiation.
#[derive(Clone, Copy, Debug, PartialEq, Eq, Structural, Hash)]
pub enum EntityId {
    Auth(EntityAuthId),
    Run(EntityRunId),
}

impl EntityId {
    /// Whether this is an authored-content identifier.
    pub fn is_auth(&self) -> (r: bool)
        ensures
            r == (self is Auth),
    {
        matches!(self, EntityId::Auth(_))
    }

    /// Whether this is a runtime-instance identifier.
    pub fn is_run(&self) -> (r: bool)
        ensures
            r == (self is Run),
    {
        matches!(self, EntityId::Run(_))
    }
}

impl From<EntityAuthId> for EntityId {
    fn from(v: EntityAuthId) -> (r: EntityId) {
        EntityId::Auth(v)
    }
}

impl vstd::std_specs::convert::FromSpecImpl<EntityAuthId> for EntityId {
    open spec fn obeys_from_spec() -> bool {
        true
    }

    open spec fn from_spec(v: EntityAuthId) -> EntityId {
        EntityId::Auth(v)
    }
}

impl From<EntityRunId> for EntityId {
    fn from(v: EntityRunId) -> (r: EntityId) {
        EntityId::Run(v)
    }
}

impl vstd::std_specs::convert::FromSpecImpl<EntityRunId> for EntityId {
    open spec fn obeys_from_spec() -> bool {
        true
    }

    open spec fn from_spec(v: EntityRunId) -> EntityId {
        EntityId::Run(v)
    }
}

/// Rank of an entity-id variant, for the deterministic id order.
pub open spec fn entity_id_rank(id: EntityId) -> int {
    match id {
        EntityId::Auth(_) => 0,
        EntityId::Run(_) => 1,
    }
}

/// Payload of an entity id as a number.
pub open spec fn entity_id_payload(id: EntityId) -> int {
    match id {
        EntityId::Auth(a) => a.0.0 as int,
        EntityId::Run(r) => r.0 as int,
    }
}

/// Strict total order on entity ids: by variant, then by payload.
pub open spec fn entity_id_lt(a: EntityId, b: EntityId) -> bool {
    entity_id_rank(a) < entity_id_rank(b) || (entity_id_rank(a) == entity_id_rank(b)
        && entity_id_payload(a) < entity_id_payload(b))
}

/// Two ids unordered either way are equal.
pub proof fn lemma_entity_id_order_total(a: EntityId, b: EntityId)
    ensures
        entity_id_lt(a, b) || entity_id_lt(b, a) || a == b,
{
}

/// Compares two entity ids in the deterministic id order.
pub fn entity_id_before(a: &EntityId, b: &EntityId) -> (r: bool)
    ensures
        r == entity_id_lt(*a, *b),
{
    let ra: u8 = match a {
        EntityId::Auth(_) => 0,
        EntityId::Run(_) => 1,
    };
    let rb: u8 = match b {
        EntityId::Auth(_) => 0,
        EntityId::Run(_) => 1,
    };
    if ra != rb {
        return ra < rb;
    }
    let pa: u128 = match a {
        EntityId::Auth(x) => x.0.0,
        EntityId::Run(x) => x.0,
    };
    let pb: u128 = match b {
        EntityId::Auth(x) => x.0.0,
        EntityId::Run(x) => x.0,
    };
    pa < pb
}

/// The attribute stacks of one entity, keyed by attribute id, kept in
/// ascending key order.
#[derive(Debug)]
pub struct EntityAttrs {
    stacks: Vec<(AttrKeyId, AttrStack)>,
}

/// Stack keys strictly ascending, hence unique.
pub open spec fn attr_keys_sorted(s: Seq<(AttrKeyId, AttrStack)>) -> bool {
    forall|i: int, j: int|
        0 <= i < j < s.len() ==> (#[trigger] s[i]).0.0.0 < (#[trigger] s[j]).0.0.0
}

impl EntityAttrs {
    /// The (key, stack) pairs in ascending key order.
    pub closed spec fn stacks_seq(&self) -> Seq<(AttrKeyId, AttrStack)> {
        self.stacks@
    }

    /// Keys stay sorted and every stack stays well-formed.
    pub open spec fn wf(&self) -> bool {
        &&& attr_keys_sorted(self.stacks_seq())
        &&& forall|i: int|
            0 <= i < self.stacks_seq().len() ==> (#[trigger] self.stacks_seq()[i]).1.wf()
    }

    /// No stacks at all.
    pub fn new() -> (r: EntityAttrs)
        ensures
            r.wf(),
            r.stacks_seq() == Seq::<(AttrKeyId, AttrStack)>::empty(),
    {
        EntityAttrs { stacks: Vec::new() }
    }

    /// The stack of the given attribute key, if any.
    pub fn stack(&self, key: &AttrKeyId) -> (r: Option<&AttrStack>)
        ensures
            match r {
                Some(st) => exists|i: int|
                    0 <= i < self.stacks_seq().len() && (#[trigger] self.stacks_seq()[i]).0
                        == *key && self.stacks_seq()[i].1 == *st,
                None => forall|i: int|
                    0 <= i < self.stacks_seq().len() ==> (#[trigger] self.stacks_seq()[i]).0
                        != *key,
            },
    {
        let n = self.stacks.len();
        let mut i: usize = 0;
        while i < n
            invariant
                n == self.stacks@.len(),
                i <= n,
                forall|j: int| 0 <= j < i ==> (#[trigger] self.stacks@[j]).0 != *key,
            decreases n - i,
        {
            if self.stacks[i].0.0.0 == key.0.0 {
                proof {
                    assert((self.stacks_seq()[i as int]).0 == *key);
                }
                let st = &self.stacks[i].1;
                proof {
                    assert(self.stacks_seq()[i as int].1 == *st);
                }
                return Some(st);
            }
            i += 1;
        }
        None
    }
}

/// The stack stored under a key, if any.
pub open spec fn attr_lookup(s: Seq<(AttrKeyId, AttrStack)>, k: AttrKeyId) -> Option<AttrStack> {
    if exists|i: int| 0 <= i < s.len() && (#[trigger] s[i]).0 == k {
        let i = choose|i: int| 0 <= i < s.len() && (#[trigger] s[i]).0 == k;
        Some(s[i].1)
    } else {
        None
    }
}

/// With sorted keys, a pair pins the lookup result at its key.
pub proof fn lemma_attr_lookup_at(s: Seq<(AttrKeyId, AttrStack)>, k: AttrKeyId, i: int)
    requires
        attr_keys_sorted(s),
        0 <= i < s.len(),
        s[i].0 == k,
    ensures
        attr_lookup(s, k) == Some(s[i].1),
{
    let j = choose|j: int| 0 <= j < s.len() && (#[trigger] s[j]).0 == k;
    if i < j || j < i {
        assert(s[i].0.0.0 != s[j].0.0.0);
    }
}

/// What upserting one layer does to an entity's stacks: other keys are
/// untouched; the key's stack (empty when absent) gets the layer, replacing
/// its slot.
pub open spec fn attrs_upsert_rel(
    pre: EntityAttrs,
    post: EntityAttrs,
    key: AttrKeyId,
    layer: AttrLayer,
) -> bool {
    &&& forall|k2: AttrKeyId|
        k2 != key ==> attr_lookup(post.stacks_seq(), k2) == attr_lookup(
            #[trigger] pre.stacks_seq(),
            k2,
        )
    &&& match attr_lookup(pre.stacks_seq(), key) {
        Some(prev) => attr_lookup(post.stacks_seq(), key) matches Some(st) && upsert_rel(
            prev,
            st,
            layer,
        ),
        None => attr_lookup(post.stacks_seq(), key) matches Some(st) && st.dirty_spec()
            && st.cached_spec() is None && (forall|l: AttrLayer|
            #[trigger] st.layers_seq().contains(l) <==> l == layer),
    }
}

impl EntityAttrs {
    /// Upserts a layer into the stack of the given key, creating the stack
    /// on first write.
    pub fn upsert_layer(&mut self, key: AttrKeyId, layer: AttrLayer)
        requires
            old(self).wf(),
        ensures
            final(self).wf(),
            attrs_upsert_rel(*old(self), *final(self), key, layer),
    {
        let ghost pre = self.stacks@;
        let n = self.stacks.len();
        let mut i: usize = 0;
        let mut found: Option<usize> = None;
        while i < n && found.is_none()
            invariant
                n == self.stacks@.len(),
                self.stacks@ == pre,
                i <= n,
                found matches Some(f) ==> f < n && pre[f as int].0 == key,
                found is None ==> forall|j: int| 0 <= j < i ==> (#[trigger] pre[j]).0 != key,
            decreases n - i + (if found is None { 1int } else { 0int }),
        {
            if self.stacks[i].0.0.0 == key.0.0 {
                proof {
                    assert(pre[i as int].0 == key);
                }
                found = Some(i);
            } else {
                i += 1;
            }
        }
        match found {
            Some(f) => {
                proof {
                    lemma_attr_lookup_at(pre, key, f as int);
                }
                let mut pair = self.stacks.remove(f);
                pair.1.upsert(layer);
                self.stacks.insert(f, pair);
                proof {
                    let s = self.stacks@;
                    assert(s =~= pre.update(f as int, (key, pair.1)));
                    assert(forall|j: int| 0 <= j < s.len() && j != f ==> s[j] == #[trigger] pre[j]);
                    assert(s[f as int].0 == key);
                    lemma_attr_lookup_at(s, key, f as int);
                    assert forall|k2: AttrKeyId| k2 != key implies attr_lookup(s, k2)
                        == attr_lookup(pre, k2) by {
                        if exists|j: int| 0 <= j < s.len() && (#[trigger] s[j]).0 == k2 {
                            let j = choose|j: int| 0 <= j < s.len() && (#[trigger] s[j]).0 == k2;
                            assert(pre[j].0 == k2);
                            lemma_attr_lookup_at(s, k2, j);
                            lemma_attr_lookup_at(pre, k2, j);
                        } else if exists|j: int|
                            0 <= j < pre.len() && (#[trigger] pre[j]).0 == k2 {
                            let j = choose|j: int|
                                0 <= j < pre.len() && (#[trigger] pre[j]).0 == k2;
                            assert(s[j].0 == k2);
                            assert(false);
                        }
                    }
                }
            },
            None => {
                let mut st = AttrStack::new();
                st.upsert(layer);
                let mut pos: usize = 0;
                while pos < n && self.stacks[pos].0.0.0 < key.0.0
                    invariant
                        n == self.stacks@.len(),
                        self.stacks@ == pre,
                        pos <= n,
                        forall|j: int| 0 <= j < pos ==> (#[trigger] pre[j]).0.0.0 < key.0.0,
                    decreases n - pos,
                {
                    pos += 1;
                }
                proof {
                    assert forall|j: int| pos <= j < n implies key.0.0 < (
                    #[trigger] pre[j]).0.0.0 by {
                        assert(pre[j].0 != key);
                        if j == pos {
                        } else {
                            assert(pre[pos as int].0 != key);
                            assert(pre[pos as int].0.0.0 < pre[j].0.0.0);
                        }
                    }
                }
                self.stacks.insert(pos, (key, st));
                proof {
                    let s = self.stacks@;
                    assert(forall|j: int| 0 <= j < pos ==> #[trigger] s[j] == pre[j]);
                    assert(forall|j: int| pos < j < s.len() ==> #[trigger] s[j] == pre[j - 1]);
                    assert(s[pos as int] == (key, st));
                    assert forall|i2: int, j2: int| 0 <= i2 < j2 < s.len() implies (
                    #[trigger] s[i2]).0.0.0 < (#[trigger] s[j2]).0.0.0 by {
                        if i2 != pos && j2 != pos {
                            let io: int = if i2 < pos { i2 } else { i2 - 1 };
                            let jo: int = if j2 < pos { j2 } else { j2 - 1 };
                            assert(s[i2] == pre[io] && s[j2] == pre[jo]);
                        }
                    }
                    lemma_attr_lookup_at(s, key, pos as int);
                    assert forall|k2: AttrKeyId| k2 != key implies attr_lookup(s, k2)
                        == attr_lookup(pre, k2) by {
                        if exists|j: int| 0 <= j < s.len() && (#[trigger] s[j]).0 == k2 {
                            let j = choose|j: int| 0 <= j < s.len() && (#[trigger] s[j]).0 == k2;
                            assert(j != pos);
                            let jo: int = if j < pos { j } else { j - 1 };
                            assert(pre[jo].0 == k2);
                            lemma_attr_lookup_at(s, k2, j);
                            lemma_attr_lookup_at(pre, k2, jo);
                        } else if exists|j: int|
                            0 <= j < pre.len() && (#[trigger] pre[j]).0 == k2 {
                            let j = choose|j: int|
                                0 <= j < pre.len() && (#[trigger] pre[j]).0 == k2;
                            if j < pos {
                                assert(s[j].0 == k2);
                            } else {
                                assert(s[j + 1].0 == k2);
                            }
                            assert(false);
                        }
                    }
                }
            },
        }
    }

    /// Removes every layer of the given source from every stack; keys and
    /// order are unchanged.
    pub fn remove_source_all(&mut self, source: LayerSource)
        requires
            old(self).wf(),
        ensures
            final(self).wf(),
            final(self).stacks_seq().len() == old(self).stacks_seq().len(),
            forall|i: int|
                0 <= i < final(self).stacks_seq().len()
                    ==> (#[trigger] final(self).stacks_seq()[i]).0 == old(self).stacks_seq()[i].0
                    && remove_source_rel(
                    old(self).stacks_seq()[i].1,
                    final(self).stacks_seq()[i].1,
                    source,
                ),
    {
        let ghost pre = self.stacks@;
        let n = self.stacks.len();
        let mut i: usize = 0;
        while i < n
            invariant
                n == pre.len(),
                n == self.stacks@.len(),
                i <= n,
                attr_keys_sorted(pre),
                forall|j: int| 0 <= j < pre.len() ==> (#[trigger] pre[j]).1.wf(),
                forall|j: int|
                    i <= j < n ==> #[trigger] self.stacks@[j] == pre[j],
                forall|j: int|
                    0 <= j < i ==> (#[trigger] self.stacks@[j]).0 == pre[j].0 && self.stacks@[
                        j].1.wf() && remove_source_rel(pre[j].1, self.stacks@[j].1, source),
            decreases n - i,
        {
            let ghost cur = self.stacks@;
            let mut pair = self.stacks.remove(i);
            pair.1.remove_by_source(source);
            self.stacks.insert(i, pair);
            proof {
                assert(self.stacks@ =~= cur.update(
                    i as int,
                    (cur[i as int].0, self.stacks@[i as int].1),
                ));
                assert(cur[i as int] == pre[i as int]);
            }
            i += 1;
        }
        proof {
            assert forall|i2: int, j2: int|
                0 <= i2 < j2 < self.stacks@.len() implies (#[trigger] self.stacks@[i2]).0.0.0 < (
            #[trigger] self.stacks@[j2]).0.0.0 by {
                assert(pre[i2].0.0.0 < pre[j2].0.0.0);
            }
        }
    }

    /// Sweeps every stack for expiry at `now`; each stack left dirty by the
    /// sweep or already dirty has its key appended to `changed` and is then
    /// resolved. Keys and order are unchanged, and afterwards no stack is
    /// dirty.
    pub fn finalize_stacks(&mut self, now: Tick, changed: &mut Vec<AttrKeyId>)
        requires
            old(self).wf(),
        ensures
            final(self).wf(),
            final(self).stacks_seq().len() == old(self).stacks_seq().len(),
            forall|i: int|
                0 <= i < final(self).stacks_seq().len() ==> {
                    let pre = (#[trigger] old(self).stacks_seq()[i]).1;
                    let post = final(self).stacks_seq()[i].1;
                    &&& final(self).stacks_seq()[i].0 == old(self).stacks_seq()[i].0
                    &&& post.layers_seq() == pre.layers_seq().filter(
                        |l: AttrLayer| layer_live(l, now),
                    )
                    &&& !post.dirty_spec()
                    &&& post.cached_spec() == resolved_spec(post.layers_seq())
                },
            forall|k: AttrKeyId|
                #[trigger] final(changed)@.contains(k) <==> (old(changed)@.contains(k) || (
                exists|i: int|
                    0 <= i < old(self).stacks_seq().len() && (#[trigger] old(
                        self,
                    ).stacks_seq()[i]).0 == k && ((old(self).stacks_seq()[i]).1.dirty_spec() || (
                    old(self).stacks_seq()[i]).1.layers_seq().filter(
                        |l: AttrLayer| layer_live(l, now),
                    ).len() != (old(self).stacks_seq()[i]).1.layers_seq().len()))),
    {
        let ghost pre = self.stacks@;
        let ghost chpre = changed@;
        let n = self.stacks.len();
        let mut i: usize = 0;
        while i < n
            invariant
                n == pre.len(),
                n == self.stacks@.len(),
                i <= n,
                attr_keys_sorted(pre),
                forall|j: int| 0 <= j < pre.len() ==> (#[trigger] pre[j]).1.wf(),
                forall|j: int|
                    i <= j < n ==> #[trigger] self.stacks@[j] == pre[j],
                forall|j: int|
                    0 <= j < i ==> {
                        let p = (#[trigger] pre[j]).1;
                        let q = self.stacks@[j].1;
                        &&& self.stacks@[j].0 == pre[j].0
                        &&& q.wf()
                        &&& q.layers_seq() == p.layers_seq().filter(
                            |l: AttrLayer| layer_live(l, now),
                        )
                        &&& !q.dirty_spec()
                        &&& q.cached_spec() == resolved_spec(q.layers_seq())
                    },
                forall|k: AttrKeyId|
                    #[trigger] changed@.contains(k) <==> (chpre.contains(k) || (exists|j: int|
                        0 <= j < i && (#[trigger] pre[j]).0 == k && (pre[j].1.dirty_spec() || pre[
                            j].1.layers_seq().filter(|l: AttrLayer| layer_live(l, now)).len()
                            != pre[j].1.layers_seq().len()))),
            decreases n - i,
        {
            let ghost chmid = changed@;
            let ghost cur = self.stacks@;
            let mut pair = self.stacks.remove(i);
            pair.1.purge_expired(now);
            if pair.1.is_dirty() {
                changed.push(pair.0);
            }
            let _ = pair.1.resolve();
            self.stacks.insert(i, pair);
            proof {
                assert(self.stacks@ =~= cur.update(
                    i as int,
                    (cur[i as int].0, self.stacks@[i as int].1),
                ));
                assert(cur[i as int] == pre[i as int]);
                let p = pre[i as int].1;
                let q = self.stacks@[i as int].1;
                assert(q.layers_seq() == p.layers_seq().filter(
                    |l: AttrLayer| layer_live(l, now),
                ));
                assert forall|k: AttrKeyId| #[trigger] changed@.contains(k) <==> (
                chpre.contains(k) || (exists|j: int|
                    0 <= j < i + 1 && (#[trigger] pre[j]).0 == k && (pre[j].1.dirty_spec() || pre[
                        j].1.layers_seq().filter(|l: AttrLayer| layer_live(l, now)).len() != pre[
                        j].1.layers_seq().len()))) by {
                    let dirty_here = p.dirty_spec() || p.layers_seq().filter(
                        |l: AttrLayer| layer_live(l, now),
                    ).len() != p.layers_seq().len();
                    if dirty_here {
                        assert(changed@ =~= chmid.push(pre[i as int].0));
                        assert(changed@.last() == pre[i as int].0);
                        if changed@.contains(k) {
                            let t = choose|t: int| 0 <= t < changed@.len() && changed@[t] == k;
                            if t < changed@.len() - 1 {
                                assert(chmid[t] == k);
                                assert(chmid.contains(k));
                            } else {
                                assert(pre[i as int].0 == k);
                            }
                        }
                        if chmid.contains(k) {
                            let t = choose|t: int| 0 <= t < chmid.len() && chmid[t] == k;
                            assert(changed@[t] == k);
                        }
                        if pre[i as int].0 == k {
                            assert(changed@.contains(k));
                        }
                    } else {
                        assert(changed@ == chmid);
                    }
                    if chmid.contains(k) || (exists|j: int|
                        0 <= j < i && (#[trigger] pre[j]).0 == k && (pre[j].1.dirty_spec() || pre[
                            j].1.layers_seq().filter(|l: AttrLayer| layer_live(l, now)).len()
                            != pre[j].1.layers_seq().len())) {
                        assert(changed@.contains(k));
                    }
                }
            }
            i += 1;
        }
        proof {
            assert forall|i2: int, j2: int|
                0 <= i2 < j2 < self.stacks@.len() implies (#[trigger] self.stacks@[i2]).0.0.0 < (
            #[trigger] self.stacks@[j2]).0.0.0 by {
                assert(pre[i2].0.0.0 < pre[j2].0.0.0);
            }
            assert forall|j: int|
                0 <= j < self.stacks@.len() implies (#[trigger] self.stacks@[j]).1.wf() by {
                assert((pre[j]).1.wf());
            }
        }
    }
}

/// One entity row: identity, liveness, and the entity's taxonomy, trait,
/// effect and attribute state. Dead entities keep their slot permanently.
#[derive(Debug)]
pub struct EntityRecord {
    pub id: EntityId,
    pub rid: EntityRid,
    pub alive: bool,
    pub archetype: Option<ArchetypeId>,
    pub traits: Vec<TraitId>,
    pub effects: Vec<EffectInstId>,
    pub aspects: AspectSet,
    pub attrs: EntityAttrs,
}

/// Trait identifiers strictly ascending, hence duplicate-free.
pub open spec fn traits_sorted(s: Seq<TraitId>) -> bool {
    forall|i: int, j: int| 0 <= i < j < s.len() ==> (#[trigger] s[i]).0.0 < (#[trigger] s[j]).0.0
}

/// Effect-instance identifiers strictly ascending, hence duplicate-free.
pub open spec fn inst_ids_sorted(s: Seq<EffectInstId>) -> bool {
    forall|i: int, j: int| 0 <= i < j < s.len() ==> (#[trigger] s[i]).0 < (#[trigger] s[j]).0
}

/// Allocates runtime entity ids from a session seed and a counter.
#[derive(Clone, Copy, Debug)]
pub struct EntityRunIdGen {
    session_seed: u64,
    next_counter: u64,
}

impl EntityRunIdGen {
    /// The seed the generator was built with.
    pub closed spec fn seed_spec(&self) -> u64 {
        self.session_seed
    }

    /// The counter the next allocation will use.
    pub closed spec fn counter_spec(&self) -> u64 {
        self.next_counter
    }

    /// A generator starting at counter zero.
    pub fn new(session_seed: u64) -> (r: EntityRunIdGen)
        ensures
            r.seed_spec() == session_seed,
            r.counter_spec() == 0,
    {
        EntityRunIdGen { session_seed, next_counter: 0 }
    }

    /// Allocates the next runtime id; the counter must not wrap.
    pub fn allocate(&mut self) -> (r: crate::entity::EntityRunId)
        requires
            old(self).counter_spec() < u64::MAX,
        ensures
            final(self).seed_spec() == old(self).seed_spec(),
            final(self).counter_spec() == old(self).counter_spec() + 1,
            r.0 == ((old(self).seed_spec() as u128) << 64) | (old(self).counter_spec() as u128),
    {
        let id = EntityRunId::from_seed_counter(self.session_seed, self.next_counter);
        self.next_counter = self.next_counter + 1;
        id
    }

    /// The session seed.
    pub fn session_seed(&self) -> (r: u64)
        ensures
            r == self.seed_spec(),
    {
        self.session_seed
    }

    /// The counter the next allocation will use.
    pub fn next_counter(&self) -> (r: u64)
        ensures
            r == self.counter_spec(),
    {
        self.next_counter
    }

    /// Rewinds or advances the counter, e.g. when restoring a session.
    pub fn set_next_counter(&mut self, v: u64)
        ensures
            final(self).seed_spec() == old(self).seed_spec(),
            final(self).counter_spec() == v,
    {
        self.next_counter = v;
    }
}

} // verus!
