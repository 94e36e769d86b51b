//! Layered attribute values: per-attribute stacks of typed layers resolving
//! deterministically to one effective value.
//!
//! Layers are totally ordered by (kind, priority, source, stamp); the
//! resolved value is the value of the greatest layer. Ties never fall back
//! to insertion order, so independently-run instances resolve identically.

use vstd::prelude::*;

use crate::ids::{AbilityId, ArchetypeId, AttrKeyId, EffectId, EffectInstId, EntityId, TraitId};
use crate::num::Q16_16;
use crate::time::Tick;

verus! {

/// A typed attribute value. Floating-point payloads are carried as their
/// IEEE-754 single-precision bit pattern; the core stores and compares the
/// bits without interpreting them, which keeps resolution bit-reproducible.
#[derive(Debug)]
pub enum AttrValue {
    Null,
    Bool(bool),
    Int(i64),
    Fixed(Q16_16),
    Float(u32),
    Str(String),
    Entity(EntityId),
    Trait(TraitId),
    Ability(AbilityId),
    Effect(EffectId),
    Archetype(ArchetypeId),
}

impl Clone for AttrValue {
    fn clone(&self) -> (res: AttrValue)
        ensures
            res == *self,
    {
        match self {
            AttrValue::Null => AttrValue::Null,
            AttrValue::Bool(b) => AttrValue::Bool(*b),
            AttrValue::Int(v) => AttrValue::Int(*v),
            AttrValue::Fixed(v) => AttrValue::Fixed(*v),
            AttrValue::Float(v) => AttrValue::Float(*v),
            AttrValue::Str(s) => AttrValue::Str(s.clone()),
            AttrValue::Entity(v) => AttrValue::Entity(*v),
            AttrValue::Trait(v) => AttrValue::Trait(*v),
            AttrValue::Ability(v) => AttrValue::Ability(*v),
            AttrValue::Effect(v) => AttrValue::Effect(*v),
            AttrValue::Archetype(v) => AttrValue::Archetype(*v),
        }
    }
}

/// Value equality: payloads compared by value, strings by their contents.
pub open spec fn attr_value_eq(a: AttrValue, b: AttrValue) -> bool {
    match (a, b) {
        (AttrValue::Null, AttrValue::Null) => true,
        (AttrValue::Bool(x), AttrValue::Bool(y)) => x == y,
        (AttrValue::Int(x), AttrValue::Int(y)) => x == y,
        (AttrValue::Fixed(x), AttrValue::Fixed(y)) => x.0 == y.0,
        (AttrValue::Float(x), AttrValue::Float(y)) => x == y,
        (AttrValue::Str(x), AttrValue::Str(y)) => x@ == y@,
        (AttrValue::Entity(x), AttrValue::Entity(y)) => x == y,
        (AttrValue::Trait(x), AttrValue::Trait(y)) => x == y,
        (AttrValue::Ability(x), AttrValue::Ability(y)) => x == y,
        (AttrValue::Effect(x), AttrValue::Effect(y)) => x == y,
        (AttrValue::Archetype(x), AttrValue::Archetype(y)) => x == y,
        _ => false,
    }
}

impl PartialEq for AttrValue {
    fn eq(&self, other: &AttrValue) -> (r: bool) {
        match (self, other) {
            (AttrValue::Null, AttrValue::Null) => true,
            (AttrValue::Bool(x), AttrValue::Bool(y)) => x == y,
            (AttrValue::Int(x), AttrValue::Int(y)) => x == y,
            (AttrValue::Fixed(x), AttrValue::Fixed(y)) => x.0 == y.0,
            (AttrValue::Float(x), AttrValue::Float(y)) => x == y,
            (AttrValue::Str(x), AttrValue::Str(y)) => x.eq(y),
            (AttrValue::Entity(x), AttrValue::Entity(y)) => x == y,
            (AttrValue::Trait(x), AttrValue::Trait(y)) => x.0.0 == y.0.0,
            (AttrValue::Ability(x), AttrValue::Ability(y)) => x.0.0 == y.0.0,
            (AttrValue::Effect(x), AttrValue::Effect(y)) => x.0.0 == y.0.0,
            (AttrValue::Archetype(x), AttrValue::Archetype(y)) => x.0.0 == y.0.0,
            _ => false,
        }
    }
}

impl vstd::std_specs::cmp::PartialEqSpecImpl for AttrValue {
    open spec fn obeys_eq_spec() -> bool {
        true
    }

    open spec fn eq_spec(&self, other: &AttrValue) -> bool {
        attr_value_eq(*self, *other)
    }
}

/// The tier of a layer; later tiers take precedence over earlier ones.
#[derive(Clone, Copy, Debug, PartialEq, Eq, Structural, Hash)]
pub enum LayerKind {
    Archetype,
    Trait,
    Effect,
    Override,
}

/// Precedence rank of a kind: overrides beat effects beat traits beat
/// archetypes.
pub open spec fn kind_rank(k: LayerKind) -> int {
    match k {
        LayerKind::Archetype => 0,
        LayerKind::Trait => 1,
        LayerKind::Effect => 2,
        LayerKind::Override => 3,
    }
}

/// The identity of the contender that contributed a layer.
#[derive(Clone, Copy, Debug, PartialEq, Eq, Structural, Hash)]
pub enum LayerSource {
    Archetype(ArchetypeId),
    Trait(TraitId),
    EffectInstance(EffectInstId),
    Override(u64),
    System(u64),
}

/// Rank of a source's variant, for the deterministic source order.
pub open spec fn src_rank(s: LayerSource) -> int {
    match s {
        LayerSource::Archetype(_) => 0,
        LayerSource::Trait(_) => 1,
        LayerSource::EffectInstance(_) => 2,
        LayerSource::Override(_) => 3,
        LayerSource::System(_) => 4,
    }
}

/// Payload of a source, for ordering within one variant.
pub open spec fn src_payload(s: LayerSource) -> int {
    match s {
        LayerSource::Archetype(id) => id.0.0 as int,
        LayerSource::Trait(id) => id.0.0 as int,
        LayerSource::EffectInstance(id) => id.0 as int,
        LayerSource::Override(v) => v as int,
        LayerSource::System(v) => v as int,
    }
}

/// Strict total order on sources: by variant, then by payload.
pub open spec fn source_lt(a: LayerSource, b: LayerSource) -> bool {
    src_rank(a) < src_rank(b) || (src_rank(a) == src_rank(b) && src_payload(a) < src_payload(b))
}

/// When a layer was written: tick plus the strict within-tick sequence.
#[derive(Clone, Copy, Debug, PartialEq, Eq, Structural, Hash)]
pub struct LayerStamp {
    pub tick: Tick,
    pub seq: u32,
}

/// One contender's claim on an attribute's value.
#[derive(Debug)]
pub struct AttrLayer {
    pub kind: LayerKind,
    pub source: LayerSource,
    pub value: AttrValue,
    pub stamp: LayerStamp,
    pub expires_at: Option<Tick>,
    pub priority: i16,
}

impl Clone for AttrLayer {
    fn clone(&self) -> (res: AttrLayer)
        ensures
            res == *self,
    {
        AttrLayer {
            kind: self.kind,
            source: self.source,
            value: self.value.clone(),
            stamp: self.stamp,
            expires_at: self.expires_at,
            priority: self.priority,
        }
    }
}

/// The strict resolution order: kind ascending, then priority, then source,
/// then stamp tick, then stamp sequence. The greatest layer wins.
pub open spec fn layer_lt(a: AttrLayer, b: AttrLayer) -> bool {
    let ka = kind_rank(a.kind);
    let kb = kind_rank(b.kind);
    if ka != kb {
        ka < kb
    } else if a.priority != b.priority {
        a.priority < b.priority
    } else if a.source != b.source {
        source_lt(a.source, b.source)
    } else if a.stamp.tick.0 != b.stamp.tick.0 {
        a.stamp.tick.0 < b.stamp.tick.0
    } else {
        a.stamp.seq < b.stamp.seq
    }
}

/// Two layers contend for the same slot: same kind and same source.
pub open spec fn same_slot(a: AttrLayer, b: AttrLayer) -> bool {
    a.kind == b.kind && a.source == b.source
}

/// The order is total: two unordered layers agree on every ordering field.
pub proof fn lemma_layer_order_total(a: AttrLayer, b: AttrLayer)
    ensures
        layer_lt(a, b) || layer_lt(b, a) || (same_slot(a, b) && a.priority == b.priority
            && a.stamp == b.stamp),
{
    if src_rank(a.source) == src_rank(b.source) && src_payload(a.source) == src_payload(
        b.source,
    ) {
        assert(a.source == b.source);
    }
    if kind_rank(a.kind) == kind_rank(b.kind) {
        assert(a.kind == b.kind);
    }
}

/// The order is transitive.
pub proof fn lemma_layer_order_trans(a: AttrLayer, b: AttrLayer, c: AttrLayer)
    requires
        layer_lt(a, b),
        layer_lt(b, c),
    ensures
        layer_lt(a, c),
{
}

/// A layer is still alive at `now`: expiry, if any, lies strictly in the
/// future. A layer expiring at tick T is present exactly while now < T.
pub open spec fn layer_live(l: AttrLayer, now: Tick) -> bool {
    match l.expires_at {
        Some(t) => t.0 > now.0,
        None => true,
    }
}

/// Layers strictly ascending in the resolution order.
pub open spec fn layers_sorted(s: Seq<AttrLayer>) -> bool {
    forall|i: int, j: int| 0 <= i < j < s.len() ==> layer_lt(#[trigger] s[i], #[trigger] s[j])
}

/// At most one layer per (kind, source) slot.
pub open spec fn slots_unique(s: Seq<AttrLayer>) -> bool {
    forall|i: int, j: int|
        0 <= i < j < s.len() ==> !same_slot(#[trigger] s[i], #[trigger] s[j])
}

/// The value the ordered layer list resolves to: the greatest layer's
/// value, or nothing for an empty stack.
pub open spec fn resolved_spec(s: Seq<AttrLayer>) -> Option<AttrValue> {
    if s.len() == 0 {
        None
    } else {
        Some(s.last().value)
    }
}

/// What an upsert does to a stack: the layer replaces any layer of its
/// (kind, source) slot, the stack becomes dirty, the cache is untouched.
pub open spec fn upsert_rel(pre: AttrStack, post: AttrStack, layer: AttrLayer) -> bool {
    &&& post.dirty_spec()
    &&& post.cached_spec() == pre.cached_spec()
    &&& forall|l: AttrLayer|
        #[trigger] post.layers_seq().contains(l) <==> ((pre.layers_seq().contains(l)
            && !same_slot(l, layer)) || l == layer)
}

/// What an expiry sweep does to a stack: exactly the live layers survive,
/// in order; the stack becomes dirty exactly when something was dropped.
pub open spec fn purge_rel(pre: AttrStack, post: AttrStack, now: Tick) -> bool {
    &&& post.layers_seq() == pre.layers_seq().filter(|l: AttrLayer| layer_live(l, now))
    &&& post.dirty_spec() == (pre.dirty_spec() || post.layers_seq().len()
        != pre.layers_seq().len())
    &&& post.cached_spec() == pre.cached_spec()
}

/// What a source removal does to a stack: exactly the other sources'
/// layers survive, in order; dirty exactly when something was dropped.
pub open spec fn remove_source_rel(pre: AttrStack, post: AttrStack, source: LayerSource) -> bool {
    &&& post.layers_seq() == pre.layers_seq().filter(|l: AttrLayer| l.source != source)
    &&& post.dirty_spec() == (pre.dirty_spec() || post.layers_seq().len()
        != pre.layers_seq().len())
    &&& post.cached_spec() == pre.cached_spec()
}

/// What resolving does to a stack: layers are untouched and the cache holds
/// the resolved value.
pub open spec fn resolve_rel(pre: AttrStack, post: AttrStack) -> bool {
    &&& post.layers_seq() == pre.layers_seq()
    &&& !post.dirty_spec()
    &&& post.cached_spec() == resolved_spec(post.layers_seq())
}

/// The resolved value is the value of the greatest layer in the resolution
/// order: in a sorted stack every other layer sorts strictly below the
/// last, so the last layer's value wins.
pub proof fn lemma_resolved_is_greatest(s: Seq<AttrLayer>)
    requires
        layers_sorted(s),
        s.len() > 0,
    ensures
        resolved_spec(s) == Some(s.last().value),
        forall|i: int| 0 <= i < s.len() - 1 ==> layer_lt(#[trigger] s[i], s.last()),
{
    assert(forall|i: int| 0 <= i < s.len() - 1 ==> layer_lt(#[trigger] s[i], s[s.len() - 1]));
}

/// An ordered stack of layers with a cached resolved value.
#[derive(Debug)]
pub struct AttrStack {
    layers: Vec<AttrLayer>,
    dirty: bool,
    cached: Option<AttrValue>,
}

impl AttrStack {
    /// The layers in ascending resolution order.
    pub closed spec fn layers_seq(&self) -> Seq<AttrLayer> {
        self.layers@
    }

    /// Whether the cache is stale.
    pub closed spec fn dirty_spec(&self) -> bool {
        self.dirty
    }

    /// The cached resolved value.
    pub closed spec fn cached_spec(&self) -> Option<AttrValue> {
        self.cached
    }

    /// Layers stay sorted and slot-unique; a clean cache holds the resolved
    /// value.
    pub open spec fn wf(&self) -> bool {
        &&& layers_sorted(self.layers_seq())
        &&& slots_unique(self.layers_seq())
        &&& (!self.dirty_spec() ==> self.cached_spec() == resolved_spec(self.layers_seq()))
    }

    /// An empty stack with a clean, empty cache.
    pub fn new() -> (r: AttrStack)
        ensures
            r.wf(),
            r.layers_seq() == Seq::<AttrLayer>::empty(),
            !r.dirty_spec(),
            r.cached_spec() is None,
    {
        AttrStack { layers: Vec::new(), dirty: false, cached: None }
    }

    /// Whether the cache is stale.
    pub fn is_dirty(&self) -> (r: bool)
        ensures
            r == self.dirty_spec(),
    {
        self.dirty
    }

    /// The cached resolved value, without recomputation.
    pub fn cached(&self) -> (r: Option<&AttrValue>)
        ensures
            match r {
                Some(v) => self.cached_spec() == Some(*v),
                None => self.cached_spec() is None,
            },
    {
        self.cached.as_ref()
    }

    /// The layers in ascending resolution order.
    pub fn layers(&self) -> (r: &[AttrLayer])
        ensures
            r@ == self.layers_seq(),
    {
        self.layers.as_slice()
    }

    /// The full ordered layer list, for diagnostics.
    pub fn explain(&self) -> (r: &[AttrLayer])
        ensures
            r@ == self.layers_seq(),
    {
        self.layers.as_slice()
    }

    /// Inserts a layer, replacing any existing layer of the same (kind,
    /// source) slot, and marks the stack dirty.
    pub fn upsert(&mut self, layer: AttrLayer)
        requires
            old(self).wf(),
        ensures
            final(self).wf(),
            upsert_rel(*old(self), *final(self), layer),
    {
        let ghost pre = self.layers@;
        // drop the displaced layer of the same slot, if any
        let n = self.layers.len();
        let mut i: usize = 0;
        let mut found: Option<usize> = None;
        while i < n && found.is_none()
            invariant
                n == self.layers@.len(),
                i <= n,
                self.layers@ == pre,
                found matches Some(f) ==> f < n && same_slot(pre[f as int], layer),
                found is None ==> forall|j: int| 0 <= j < i ==> !same_slot(
                    #[trigger] pre[j], layer),
            decreases n - i + (if found is None { 1int } else { 0int }),
        {
            if self.layers[i].kind == layer.kind && self.layers[i].source == layer.source {
                found = Some(i);
            } else {
                i += 1;
            }
        }
        if let Some(i) = found {
            self.layers.remove(i);
            proof {
                let s = self.layers@;
                assert(forall|j: int| 0 <= j < i ==> s[j] == pre[j]);
                assert(forall|j: int| i <= j < s.len() ==> s[j] == pre[j + 1]);
                assert forall|l: AttrLayer| #[trigger] s.contains(l) <==> (pre.contains(l)
                    && !same_slot(l, layer)) by {
                    if s.contains(l) {
                        let j = choose|j: int| 0 <= j < s.len() && s[j] == l;
                        if j < i {
                            assert(pre[j] == l);
                            assert(!same_slot(pre[j as int], pre[i as int]));
                        } else {
                            assert(pre[j + 1] == l);
                            assert(!same_slot(pre[i as int], pre[j + 1]));
                        }
                    }
                    if pre.contains(l) && !same_slot(l, layer) {
                        let j = choose|j: int| 0 <= j < pre.len() && pre[j] == l;
                        if j < i {
                            assert(s[j] == l);
                        } else if j > i {
                            assert(s[j - 1] == l);
                        }
                    }
                }
            }
        } else {
            proof {
                assert forall|l: AttrLayer| #[trigger] self.layers@.contains(l) implies !same_slot(
                    l,
                    layer,
                ) by {
                    let j = choose|j: int| 0 <= j < pre.len() && pre[j] == l;
                }
            }
        }
        self.insert_sorted(layer);
        self.dirty = true;
    }

    /// Ordered insert of a layer whose slot is not present.
    fn insert_sorted(&mut self, layer: AttrLayer)
        requires
            layers_sorted(old(self).layers_seq()),
            slots_unique(old(self).layers_seq()),
            forall|l: AttrLayer|
                #[trigger] old(self).layers_seq().contains(l) ==> !same_slot(l, layer),
        ensures
            layers_sorted(final(self).layers_seq()),
            slots_unique(final(self).layers_seq()),
            final(self).dirty_spec() == old(self).dirty_spec(),
            final(self).cached_spec() == old(self).cached_spec(),
            forall|l: AttrLayer|
                #[trigger] final(self).layers_seq().contains(l) <==> (old(
                    self,
                ).layers_seq().contains(l) || l == layer),
    {
        let n = self.layers.len();
        let mut pos: usize = 0;
        while pos < n && layer_before(&self.layers[pos], &layer)
            invariant
                n == self.layers@.len(),
                self.layers@ == old(self).layers@,
                pos <= n,
                forall|j: int| 0 <= j < pos ==> layer_lt(#[trigger] self.layers@[j], layer),
            decreases n - pos,
        {
            pos += 1;
        }
        proof {
            let s = self.layers@;
            assert forall|j: int| pos <= j < n implies layer_lt(layer, #[trigger] s[j]) by {
                assert(s.contains(s[pos as int]));
                lemma_layer_order_total(s[pos as int], layer);
                assert(layer_lt(layer, s[pos as int]));
                if j > pos {
                    lemma_layer_order_trans(layer, s[pos as int], s[j]);
                }
            }
        }
        self.layers.insert(pos, layer);
        proof {
            let s = self.layers@;
            let o = old(self).layers@;
            assert(forall|j: int| 0 <= j < pos ==> #[trigger] s[j] == o[j]);
            assert(forall|j: int| pos < j < s.len() ==> #[trigger] s[j] == o[j - 1]);
            assert(s[pos as int] == layer);
            assert forall|i: int, j: int| 0 <= i < j < s.len() implies layer_lt(
                #[trigger] s[i],
                #[trigger] s[j],
            ) by {
                if i != pos && j != pos {
                    let io: int = if i < pos { i } else { i - 1 };
                    let jo: int = if j < pos { j } else { j - 1 };
                    assert(s[i] == o[io] && s[j] == o[jo]);
                }
            }
            assert forall|i: int, j: int| 0 <= i < j < s.len() implies !same_slot(
                #[trigger] s[i],
                #[trigger] s[j],
            ) by {
                if i != pos && j != pos {
                    let io: int = if i < pos { i } else { i - 1 };
                    let jo: int = if j < pos { j } else { j - 1 };
                    assert(s[i] == o[io] && s[j] == o[jo]);
                } else if i == pos {
                    assert(s[j] == o[j - 1]);
                    assert(o.contains(o[j - 1]));
                } else {
                    assert(s[i] == o[i]);
                    assert(o.contains(o[i]));
                }
            }
            assert forall|l: AttrLayer| #[trigger] s.contains(l) <==> (o.contains(l) || l
                == layer) by {
                if s.contains(l) {
                    let j = choose|j: int| 0 <= j < s.len() && s[j] == l;
                    if j < pos {
                        assert(o[j] == l);
                    } else if j > pos {
                        assert(o[j - 1] == l);
                    }
                }
                if o.contains(l) {
                    let j = choose|j: int| 0 <= j < o.len() && o[j] == l;
                    if j < pos {
                        assert(s[j] == l);
                    } else {
                        assert(s[j + 1] == l);
                    }
                }
                if l == layer {
                    assert(s[pos as int] == l);
                }
            }
        }
    }

    /// Drops every layer contributed by the given source; marks the stack
    /// dirty exactly when something was removed.
    pub fn remove_by_source(&mut self, source: LayerSource)
        requires
            old(self).wf(),
        ensures
            final(self).wf(),
            remove_source_rel(*old(self), *final(self), source),
            !final(self).dirty_spec() ==> final(self).layers_seq() == old(self).layers_seq(),
    {
        let ghost pred = |l: AttrLayer| l.source != source;
        let n = self.layers.len();
        let mut kept: Vec<AttrLayer> = Vec::new();
        proof {
            reveal(Seq::filter);
            assert(self.layers@.take(0).filter(pred) =~= Seq::<AttrLayer>::empty());
        }
        let mut i: usize = 0;
        while i < n
            invariant
                n == self.layers@.len(),
                i <= n,
                layers_sorted(self.layers@),
                slots_unique(self.layers@),
                pred == (|l: AttrLayer| l.source != source),
                kept@ == self.layers@.take(i as int).filter(pred),
                forall|j: int|
                    0 <= j < kept@.len() ==> self.layers@.take(i as int).contains(
                        #[trigger] kept@[j]),
            decreases n - i,
        {
            proof {
                reveal(Seq::filter);
                let t1 = self.layers@.take(i + 1);
                assert(t1.drop_last() =~= self.layers@.take(i as int));
                assert(t1.last() == self.layers@[i as int]);
            }
            if !(self.layers[i].source == source) {
                kept.push(self.layers[i].clone());
            }
            proof {
                assert forall|j: int|
                    0 <= j < kept@.len() implies self.layers@.take(i + 1).contains(
                    #[trigger] kept@[j]) by {
                    if j < kept@.len() - 1 || kept@[j] == self.layers@[i as int] {
                        if self.layers@.take(i as int).contains(kept@[j]) {
                            let t = choose|t: int|
                                0 <= t < i && self.layers@.take(i as int)[t] == kept@[j];
                            assert(self.layers@.take(i + 1)[t] == kept@[j]);
                        } else {
                            assert(self.layers@.take(i + 1)[i as int] == kept@[j]);
                        }
                    } else {
                        assert(self.layers@.take(i as int).contains(kept@[j]));
                        let t = choose|t: int|
                            0 <= t < i && self.layers@.take(i as int)[t] == kept@[j];
                        assert(self.layers@.take(i + 1)[t] == kept@[j]);
                    }
                }
            }
            i += 1;
        }
        proof {
            reveal(Seq::filter);
            assert(self.layers@.take(n as int) =~= self.layers@);
            let s = self.layers@;
            let k = kept@;
            assert forall|a: int, b: int| 0 <= a < b < k.len() implies layer_lt(
                #[trigger] k[a],
                #[trigger] k[b],
            ) && !same_slot(k[a], k[b]) by {
                lemma_filter_positions(s, pred, a, b);
            }
        }
        if kept.len() != n {
            self.dirty = true;
        } else {
            proof {
                lemma_filter_all(self.layers@, pred);
            }
        }
        self.layers = kept;
    }

    /// Drops every layer whose expiry tick has been reached: a layer with
    /// `expires_at == Some(t)` survives exactly while `now < t`. Marks the
    /// stack dirty exactly when something was removed.
    pub fn purge_expired(&mut self, now: Tick)
        requires
            old(self).wf(),
        ensures
            final(self).wf(),
            purge_rel(*old(self), *final(self), now),
            !final(self).dirty_spec() ==> final(self).layers_seq() == old(self).layers_seq(),
    {
        let ghost pred = |l: AttrLayer| layer_live(l, now);
        let n = self.layers.len();
        let mut kept: Vec<AttrLayer> = Vec::new();
        proof {
            reveal(Seq::filter);
            assert(self.layers@.take(0).filter(pred) =~= Seq::<AttrLayer>::empty());
        }
        let mut i: usize = 0;
        while i < n
            invariant
                n == self.layers@.len(),
                i <= n,
                layers_sorted(self.layers@),
                slots_unique(self.layers@),
                pred == (|l: AttrLayer| layer_live(l, now)),
                kept@ == self.layers@.take(i as int).filter(pred),
                forall|j: int|
                    0 <= j < kept@.len() ==> self.layers@.take(i as int).contains(
                        #[trigger] kept@[j]),
            decreases n - i,
        {
            proof {
                reveal(Seq::filter);
                let t1 = self.layers@.take(i + 1);
                assert(t1.drop_last() =~= self.layers@.take(i as int));
                assert(t1.last() == self.layers@[i as int]);
            }
            let live = match self.layers[i].expires_at {
                Some(t) => t.0 > now.0,
                None => true,
            };
            if live {
                kept.push(self.layers[i].clone());
            }
            proof {
                assert forall|j: int|
                    0 <= j < kept@.len() implies self.layers@.take(i + 1).contains(
                    #[trigger] kept@[j]) by {
                    if self.layers@.take(i as int).contains(kept@[j]) {
                        let t = choose|t: int|
                            0 <= t < i && self.layers@.take(i as int)[t] == kept@[j];
                        assert(self.layers@.take(i + 1)[t] == kept@[j]);
                    } else {
                        assert(self.layers@.take(i + 1)[i as int] == kept@[j]);
                    }
                }
            }
            i += 1;
        }
        proof {
            reveal(Seq::filter);
            assert(self.layers@.take(n as int) =~= self.layers@);
            let s = self.layers@;
            let k = kept@;
            assert forall|a: int, b: int| 0 <= a < b < k.len() implies layer_lt(
                #[trigger] k[a],
                #[trigger] k[b],
            ) && !same_slot(k[a], k[b]) by {
                lemma_filter_positions(s, pred, a, b);
            }
        }
        if kept.len() != n {
            self.dirty = true;
        } else {
            proof {
                lemma_filter_all(self.layers@, pred);
            }
        }
        self.layers = kept;
    }

    /// Recomputes the cached value when stale, then returns it: the value
    /// of the greatest layer in the resolution order, or nothing.
    pub fn resolve(&mut self) -> (r: Option<&AttrValue>)
        requires
            old(self).wf(),
        ensures
            final(self).wf(),
            resolve_rel(*old(self), *final(self)),
            match r {
                Some(v) => resolved_spec(final(self).layers_seq()) == Some(*v),
                None => resolved_spec(final(self).layers_seq()) is None,
            },
    {
        if self.dirty {
            let m = self.layers.len();
            if m == 0 {
                self.cached = None;
            } else {
                self.cached = Some(self.layers[m - 1].value.clone());
            }
            self.dirty = false;
        }
        self.cached.as_ref()
    }
}

/// Compares two layers in the resolution order.
fn layer_before(a: &AttrLayer, b: &AttrLayer) -> (r: bool)
    ensures
        r == layer_lt(*a, *b),
{
    let ka = kind_rank_ex(a.kind);
    let kb = kind_rank_ex(b.kind);
    if ka != kb {
        return ka < kb;
    }
    if a.priority != b.priority {
        return a.priority < b.priority;
    }
    if !(a.source == b.source) {
        return source_before(&a.source, &b.source);
    }
    if a.stamp.tick.0 != b.stamp.tick.0 {
        return a.stamp.tick.0 < b.stamp.tick.0;
    }
    a.stamp.seq < b.stamp.seq
}

/// Precedence rank of a kind.
fn kind_rank_ex(k: LayerKind) -> (r: u8)
    ensures
        r as int == kind_rank(k),
{
    match k {
        LayerKind::Archetype => 0,
        LayerKind::Trait => 1,
        LayerKind::Effect => 2,
        LayerKind::Override => 3,
    }
}

/// Compares two sources in the deterministic source order.
fn source_before(a: &LayerSource, b: &LayerSource) -> (r: bool)
    ensures
        r == source_lt(*a, *b),
{
    let ra = src_rank_ex(a);
    let rb = src_rank_ex(b);
    if ra != rb {
        return ra < rb;
    }
    let pa = src_payload_ex(a);
    let pb = src_payload_ex(b);
    pa < pb
}

/// Rank of a source's variant.
fn src_rank_ex(s: &LayerSource) -> (r: u8)
    ensures
        r as int == src_rank(*s),
{
    match s {
        LayerSource::Archetype(_) => 0,
        LayerSource::Trait(_) => 1,
        LayerSource::EffectInstance(_) => 2,
        LayerSource::Override(_) => 3,
        LayerSource::System(_) => 4,
    }
}

/// Payload of a source as a number.
fn src_payload_ex(s: &LayerSource) -> (r: u128)
    ensures
        r as int == src_payload(*s),
{
    match s {
        LayerSource::Archetype(id) => id.0.0,
        LayerSource::Trait(id) => id.0.0,
        LayerSource::EffectInstance(id) => id.0 as u128,
        LayerSource::Override(v) => *v as u128,
        LayerSource::System(v) => *v as u128,
    }
}

/// A filter that drops nothing is the identity.
proof fn lemma_filter_all(s: Seq<AttrLayer>, pred: spec_fn(AttrLayer) -> bool)
    requires
        s.filter(pred).len() == s.len(),
    ensures
        s.filter(pred) == s,
    decreases s.len(),
{
    reveal(Seq::filter);
    if s.len() > 0 {
        let d = s.drop_last();
        d.lemma_filter_len(pred);
        if pred(s.last()) {
            lemma_filter_all(d, pred);
            assert(s.filter(pred) =~= s);
        } else {
            assert(s.filter(pred).len() <= d.len());
            assert(false);
        }
    } else {
        assert(s.filter(pred) =~= s);
    }
}

/// Every element of a filtered sequence is an element of the original.
proof fn lemma_filter_element_of(s: Seq<AttrLayer>, pred: spec_fn(AttrLayer) -> bool, i: int)
    requires
        0 <= i < s.filter(pred).len(),
    ensures
        exists|k: int| 0 <= k < s.len() && s[k] == #[trigger] s.filter(pred)[i],
    decreases s.len(),
{
    reveal(Seq::filter);
    if s.len() > 0 {
        let d = s.drop_last();
        if pred(s.last()) {
            if i < s.filter(pred).len() - 1 {
                assert(s.filter(pred)[i] == d.filter(pred)[i]);
                lemma_filter_element_of(d, pred, i);
                let k = choose|k: int|
                    0 <= k < d.len() && d[k] == #[trigger] d.filter(pred)[i];
                assert(s[k] == s.filter(pred)[i]);
            } else {
                assert(s.filter(pred)[i] == s.last());
                assert(s[s.len() - 1] == s.filter(pred)[i]);
            }
        } else {
            assert(s.filter(pred) == d.filter(pred));
            lemma_filter_element_of(d, pred, i);
            let k = choose|k: int| 0 <= k < d.len() && d[k] == #[trigger] d.filter(pred)[i];
            assert(s[k] == s.filter(pred)[i]);
        }
    }
}

/// Two positions of a filtered sequence come from two positions of the
/// original in the same relative order.
proof fn lemma_filter_positions(s: Seq<AttrLayer>, pred: spec_fn(AttrLayer) -> bool, a: int, b: int)
    requires
        layers_sorted(s),
        slots_unique(s),
        0 <= a < b < s.filter(pred).len(),
    ensures
        layer_lt(s.filter(pred)[a], s.filter(pred)[b]),
        !same_slot(s.filter(pred)[a], s.filter(pred)[b]),
    decreases s.len(),
{
    reveal(Seq::filter);
    if s.len() > 0 {
        let d = s.drop_last();
        let f = s.filter(pred);
        assert(forall|i: int, j: int|
            0 <= i < j < d.len() ==> layer_lt(#[trigger] d[i], #[trigger] d[j]) && !same_slot(
                d[i],
                d[j],
            ));
        if pred(s.last()) {
            assert(f == d.filter(pred).push(s.last()));
            if b < f.len() - 1 {
                assert(d.filter(pred)[a] == f[a]);
                assert(d.filter(pred)[b] == f[b]);
                lemma_filter_positions(d, pred, a, b);
            } else {
                // f[b] is the last element of s
                assert(f[b] == s.last());
                assert(f[a] == d.filter(pred)[a]);
                lemma_filter_element_of(d, pred, a);
                let t = choose|t: int| 0 <= t < d.len() && d[t] == #[trigger] d.filter(pred)[a];
                assert(s[t] == f[a]);
                assert(layer_lt(s[t], s.last()));
                assert(!same_slot(s[t], s.last()));
            }
        } else {
            assert(f == d.filter(pred));
            lemma_filter_positions(d, pred, a, b);
        }
    }
}

/// Sweeping expired layers is idempotent: the layers surviving one sweep
/// all survive a second sweep at the same tick, so a second
/// `purge_expired(now)` leaves layers, cache and dirty flag unchanged.
pub proof fn lemma_purge_expired_idempotent(s: Seq<AttrLayer>, now: Tick)
    ensures
        s.filter(|l: AttrLayer| layer_live(l, now)).filter(|l: AttrLayer| layer_live(l, now))
            == s.filter(|l: AttrLayer| layer_live(l, now)),
{
    lemma_filter_idempotent(s, |l: AttrLayer| layer_live(l, now));
}

/// Filtering is idempotent.
proof fn lemma_filter_idempotent(s: Seq<AttrLayer>, pred: spec_fn(AttrLayer) -> bool)
    ensures
        s.filter(pred).filter(pred) == s.filter(pred),
    decreases s.len(),
{
    reveal(Seq::filter);
    if s.len() == 0 {
        assert(s.filter(pred) == s);
        assert(s.len() == 0 ==> s.filter(pred).len() == 0);
    } else {
        let d = s.drop_last();
        lemma_filter_idempotent(d, pred);
        if pred(s.last()) {
            let f = d.filter(pred).push(s.last());
            assert(s.filter(pred) == f);
            assert(f.drop_last() =~= d.filter(pred));
            assert(f.last() == s.last());
            assert(f.filter(pred) == d.filter(pred).filter(pred).push(s.last()));
        } else {
            assert(s.filter(pred) == d.filter(pred));
        }
    }
}

} // verus!
