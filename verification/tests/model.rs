use std::sync::Arc;

use wmms::attr::{AttrStack, AttrValue, LayerKind, LayerSource, LayerStamp};
use wmms::effect_ops::{apply_ops, ApplyCtx, AttrLayerSpec, EffectOp, EffectSpec};
use wmms::entity::EntityId;
use wmms::ids::{AttrKeyId, EffectId, EffectInstId, EntityAuthId, TraitId};
use wmms::diff::ModelDiff;
use wmms::entity::EntityRid;
use wmms::model::Model;
use wmms::registry::AspectRid;
use wmms::set::AspectSet;
use wmms::registry::{AspectRegistry, AspectRegistryBuilder};
use wmms::time::Tick;

fn small_registry() -> AspectRegistry {
    let mut b = AspectRegistryBuilder::new();
    b.register("damage.fire").unwrap();
    b.register("damage.ice").unwrap();
    b.seal().unwrap()
}

fn layer(kind: LayerKind, source: LayerSource, value: i64, tick: u64, seq: u32) -> wmms::attr::AttrLayer {
    wmms::attr::AttrLayer {
        kind,
        source,
        value: AttrValue::Int(value),
        stamp: LayerStamp { tick: Tick(tick), seq },
        expires_at: None,
        priority: 0,
    }
}

#[test]
fn layer_resolution_picks_the_greatest_layer() {
    let mut st = AttrStack::new();
    let a = wmms::attr::AttrLayer {
        kind: LayerKind::Trait,
        source: LayerSource::Trait(TraitId::new("a")),
        value: AttrValue::Int(1),
        stamp: LayerStamp { tick: Tick(0), seq: 0 },
        expires_at: None,
        priority: 0,
    };
    let b = wmms::attr::AttrLayer {
        kind: LayerKind::Effect,
        source: LayerSource::EffectInstance(EffectInstId(1)),
        value: AttrValue::Int(2),
        stamp: LayerStamp { tick: Tick(0), seq: 1 },
        expires_at: None,
        priority: 0,
    };
    let c = wmms::attr::AttrLayer {
        kind: LayerKind::Trait,
        source: LayerSource::Trait(TraitId::new("c")),
        value: AttrValue::Int(3),
        stamp: LayerStamp { tick: Tick(0), seq: 2 },
        expires_at: None,
        priority: 5,
    };
    st.upsert(a);
    st.upsert(b);
    st.upsert(c);
    // the effect tier beats every trait layer, whatever the priority
    assert_eq!(st.resolve(), Some(&AttrValue::Int(2)));
}

#[test]
fn later_stamp_wins_within_one_slot() {
    let mut st = AttrStack::new();
    let src = LayerSource::Override(1);
    st.upsert(layer(LayerKind::Override, src, 10, 1, 0));
    st.upsert(layer(LayerKind::Override, src, 20, 2, 0));
    // the same (kind, source) slot holds one layer: the later write
    assert_eq!(st.explain().len(), 1);
    assert_eq!(st.resolve(), Some(&AttrValue::Int(20)));
}

#[test]
fn expiry_boundary_is_exclusive_of_survival() {
    let mut st = AttrStack::new();
    let mut l = layer(LayerKind::Override, LayerSource::Override(1), 10, 0, 0);
    l.expires_at = Some(Tick(5));
    st.upsert(l);
    st.purge_expired(Tick(4));
    assert_eq!(st.explain().len(), 1);
    st.purge_expired(Tick(5));
    assert_eq!(st.explain().len(), 0);
    // a second sweep at the same tick changes nothing
    st.purge_expired(Tick(5));
    assert_eq!(st.explain().len(), 0);
    assert_eq!(st.resolve(), None);
}

#[test]
fn remove_by_source_drops_only_that_source() {
    let mut st = AttrStack::new();
    st.upsert(layer(LayerKind::Override, LayerSource::Override(1), 10, 0, 0));
    st.upsert(layer(LayerKind::Override, LayerSource::Override(2), 20, 0, 1));
    st.remove_by_source(LayerSource::Override(1));
    assert_eq!(st.explain().len(), 1);
    assert_eq!(st.resolve(), Some(&AttrValue::Int(20)));
}

#[test]
fn spawn_is_idempotent_per_id() {
    let reg = Arc::new(small_registry());
    let mut m = Model::new(reg);
    let id = EntityId::Auth(EntityAuthId::new("hero"));
    let e1 = m.spawn_entity(id);
    let e2 = m.spawn_entity(id);
    assert_eq!(e1, e2);
    let d = m.take_diff();
    assert_eq!(d.spawned.len(), 1);
}

#[test]
fn aspect_round_trip_clears_index_and_set() {
    let reg = Arc::new(small_registry());
    let fire = reg.resolve_path("damage.fire").unwrap();
    let damage = reg.resolve_path("damage").unwrap();
    let mut m = Model::new(reg);
    let e = m.spawn_entity(EntityId::Auth(EntityAuthId::new("hero")));
    m.set_entity_aspects(e, &[fire]);
    assert!(m.aspect_index.has_aspect(e, fire));
    // the closure implies the ancestor membership
    assert!(m.aspect_index.has_aspect(e, damage));
    m.set_entity_aspects(e, &[]);
    assert!(!m.aspect_index.has_aspect(e, fire));
    assert!(!m.aspect_index.has_aspect(e, damage));
    assert!(m.aspects(e).as_slice().is_empty());
}

#[test]
fn re_killing_a_dead_entity_changes_nothing() {
    let reg = Arc::new(small_registry());
    let mut m = Model::new(reg);
    let e = m.spawn_entity(EntityId::Auth(EntityAuthId::new("hero")));
    m.kill_entity(e);
    let d1 = m.take_diff();
    assert_eq!(d1.killed.len(), 1);
    m.kill_entity(e);
    let d2 = m.take_diff();
    assert!(d2.killed.is_empty());
    assert!(d2.spawned.is_empty());
}

#[test]
fn removing_a_nonexistent_effect_changes_nothing() {
    let reg = Arc::new(small_registry());
    let mut m = Model::new(reg);
    m.remove_effect_instance(EffectInstId(99));
    let d = m.take_diff();
    assert!(d.effect_removed.is_empty());
}

#[test]
fn diff_lists_are_sorted_and_deduplicated() {
    let reg = Arc::new(small_registry());
    let mut m = Model::new(reg);
    let e = m.spawn_entity(EntityId::Auth(EntityAuthId::new("hero")));
    let key = AttrKeyId::new("hp");
    let l1 = layer(LayerKind::Override, LayerSource::Override(1), 10, 0, 0);
    let l2 = layer(LayerKind::Override, LayerSource::Override(1), 20, 0, 1);
    m.upsert_attr_layer(e, key, l1);
    m.upsert_attr_layer(e, key, l2);
    let d = m.take_diff();
    // two writes, one canonical entry
    assert_eq!(d.attr_changed.len(), 1);
    assert_eq!(d.attr_changed[0], (e, key));
    // a second drain without mutation returns an empty diff
    let d2 = m.take_diff();
    assert!(d2.spawned.is_empty());
    assert!(d2.attr_changed.is_empty());
    assert!(d2.aspects_changed.is_empty());
}

#[test]
fn trait_mutation_reports_only_real_changes() {
    let reg = Arc::new(small_registry());
    let mut m = Model::new(reg);
    let e = m.spawn_entity(EntityId::Auth(EntityAuthId::new("hero")));
    let t = TraitId::new("brave");
    m.add_trait(e, t);
    m.add_trait(e, t);
    m.remove_trait(e, TraitId::new("absent"));
    assert!(m.has_trait(e, t));
    let d = m.take_diff();
    assert_eq!(d.trait_added.len(), 1);
    assert!(d.trait_removed.is_empty());
}

#[test]
fn finalize_commit_sweeps_expiry_and_resolves() {
    let reg = Arc::new(small_registry());
    let mut m = Model::new(reg);
    let e = m.spawn_entity(EntityId::Auth(EntityAuthId::new("hero")));
    let key = AttrKeyId::new("hp");
    let mut l = layer(LayerKind::Override, LayerSource::Override(1), 10, 0, 0);
    l.expires_at = Some(Tick(5));
    m.upsert_attr_layer(e, key, l);
    m.finalize_commit(Tick(0));
    assert_eq!(m.get_attr(e, key), Some(&AttrValue::Int(10)));
    let _ = m.take_diff();
    m.finalize_commit(Tick(5));
    assert_eq!(m.get_attr(e, key), None);
    let d = m.take_diff();
    assert_eq!(d.attr_changed.len(), 1);
    // a second finalization at the same tick reports nothing further
    m.finalize_commit(Tick(5));
    let d2 = m.take_diff();
    assert!(d2.attr_changed.is_empty());
}

#[test]
fn op_batch_applies_in_order_with_stamping() {
    let reg = Arc::new(small_registry());
    let fire = reg.resolve_path("damage.fire").unwrap();
    let mut m = Model::new(reg);
    let hero = m.spawn_entity(EntityId::Auth(EntityAuthId::new("hero")));
    let ghoul = m.spawn_entity(EntityId::Auth(EntityAuthId::new("ghoul")));
    let key = AttrKeyId::new("hp");
    let ops = vec![
        EffectOp::AddTrait { target: hero, trait_id: TraitId::new("brave") },
        EffectOp::UpsertAttrLayer {
            target: hero,
            key,
            layer: AttrLayerSpec {
                kind: LayerKind::Override,
                source: LayerSource::Override(1),
                value: AttrValue::Int(7),
                expires_at: None,
                priority: 0,
            },
        },
        EffectOp::SetAspectsDirect { target: hero, aspects: vec![fire] },
        EffectOp::ApplyEffect {
            spec: EffectSpec {
                effect_id: EffectId::new("burn"),
                owner: hero,
                source: Some(ghoul),
                stack_key: 0,
                expires_at: Some(Tick(9)),
            },
        },
        EffectOp::KillEntity { target: ghoul },
        // absorbed: the target is already dead
        EffectOp::AddTrait { target: ghoul, trait_id: TraitId::new("sneaky") },
    ];
    let mut ctx = ApplyCtx { now: Tick(1), seq: 0 };
    apply_ops(&mut m, &mut ctx, &ops);
    assert_eq!(ctx.seq, 1);
    assert!(m.has_trait(hero, TraitId::new("brave")));
    assert!(!m.has_trait(ghoul, TraitId::new("sneaky")));
    assert!(m.aspect_index.has_aspect(hero, fire));
    m.finalize_commit(Tick(1));
    assert_eq!(m.get_attr(hero, key), Some(&AttrValue::Int(7)));
    let layers = m.explain_attr(hero, key).unwrap();
    assert_eq!(layers.len(), 1);
    assert_eq!(layers[0].stamp.tick, Tick(1));
    assert_eq!(layers[0].stamp.seq, 0);
    let d = m.take_diff();
    assert_eq!(d.killed.len(), 1);
    assert_eq!(d.trait_added.len(), 1);
    assert_eq!(d.aspects_changed.len(), 1);
    // removing the applied effect reports exactly one removal
    m.remove_effect_instance(EffectInstId(0));
    let d2 = m.take_diff();
    assert_eq!(d2.effect_removed, vec![EffectInstId(0)]);
    m.remove_effect_instance(EffectInstId(0));
    let d3 = m.take_diff();
    assert!(d3.effect_removed.is_empty());
}

#[test]
fn kill_clears_aspects_and_id_mapping() {
    let reg = Arc::new(small_registry());
    let fire = reg.resolve_path("damage.fire").unwrap();
    let mut m = Model::new(reg);
    let id = EntityId::Auth(EntityAuthId::new("hero"));
    let e = m.spawn_entity(id);
    m.set_entity_aspects(e, &[fire]);
    assert!(m.has_entity(id));
    assert_eq!(m.rid_of(id), Some(e));
    m.kill_entity(e);
    assert!(!m.has_entity(id));
    assert_eq!(m.rid_of(id), None);
    assert_eq!(m.id_of(e), Some(id));
    assert!(!m.aspect_index.has_aspect(e, fire));
    // mutations on the dead row are absorbed
    m.set_entity_aspects(e, &[fire]);
    assert!(!m.aspect_index.has_aspect(e, fire));
}

#[test]
fn canonicalize_sorts_and_dedups_every_list() {
    let mut d = ModelDiff::new();
    d.spawned = vec![EntityRid(3), EntityRid(1), EntityRid(3), EntityRid(2)];
    d.effect_removed = vec![EffectInstId(5), EffectInstId(5), EffectInstId(2)];
    d.trait_added = vec![
        (EntityRid(2), TraitId::new("b")),
        (EntityRid(1), TraitId::new("a")),
        (EntityRid(2), TraitId::new("b")),
    ];
    d.canonicalize();
    assert_eq!(d.spawned, vec![EntityRid(1), EntityRid(2), EntityRid(3)]);
    assert_eq!(d.effect_removed, vec![EffectInstId(2), EffectInstId(5)]);
    assert_eq!(d.trait_added.len(), 2);
    assert!(d.trait_added[0].0 .0 <= d.trait_added[1].0 .0);
}

#[test]
fn aspect_set_insert_is_ordered_and_idempotent() {
    let mut s = AspectSet::new();
    s.insert(AspectRid(5));
    s.insert(AspectRid(1));
    s.insert(AspectRid(5));
    assert_eq!(s.as_slice(), &[AspectRid(1), AspectRid(5)]);
    assert!(s.contains(AspectRid(1)));
    assert!(!s.contains(AspectRid(2)));
}
