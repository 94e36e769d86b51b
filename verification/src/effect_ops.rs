//! The closed effect-op vocabulary, applied transactionally against the
//! store under one (tick, sequence) context.
//!
//! Ops run in list order; the sequence counter advances once per attribute
//! layer write, giving same-tick writes a strict relative order for the
//! stack's tie-break. There is no rollback: an op naming a dead or unknown
//! entity is silently absorbed by the target's no-op contract and the rest
//! of the batch always completes.

use vstd::prelude::*;

use crate::attr::{AttrLayer, AttrValue, LayerKind, LayerSource, LayerStamp};
use crate::effect::EffectInstance;
use crate::entity::EntityRid;
use crate::ids::{AttrKeyId, EffectId, EffectInstId, TraitId};
use crate::model::{
    add_trait_rel, insert_effect_rel, kill_rel, remove_attr_source_rel, remove_effect_rel,
    remove_trait_rel, set_aspects_rel, upsert_attr_rel, Model,
};
use crate::registry::AspectRid;
use crate::time::Tick;

verus! {

/// A layer to be written, before it is stamped.
pub struct AttrLayerSpec {
    pub kind: LayerKind,
    pub source: LayerSource,
    pub value: AttrValue,
    pub expires_at: Option<Tick>,
    pub priority: i16,
}

/// The layer an `AttrLayerSpec` becomes under a stamp.
pub open spec fn layer_of_spec(l: AttrLayerSpec, tick: Tick, seq: u32) -> AttrLayer {
    AttrLayer {
        kind: l.kind,
        source: l.source,
        value: l.value,
        stamp: LayerStamp { tick, seq },
        expires_at: l.expires_at,
        priority: l.priority,
    }
}

impl AttrLayerSpec {
    /// Stamps the layer, consuming the spec.
    pub fn into_layer(self, tick: Tick, seq: u32) -> (r: AttrLayer)
        ensures
            r == layer_of_spec(self, tick, seq),
    {
        AttrLayer {
            kind: self.kind,
            source: self.source,
            value: self.value,
            stamp: LayerStamp { tick, seq },
            expires_at: self.expires_at,
            priority: self.priority,
        }
    }

    /// Stamps a copy of the layer.
    pub fn to_layer(&self, tick: Tick, seq: u32) -> (r: AttrLayer)
        ensures
            r == layer_of_spec(*self, tick, seq),
    {
        AttrLayer {
            kind: self.kind,
            source: self.source,
            value: self.value.clone(),
            stamp: LayerStamp { tick, seq },
            expires_at: self.expires_at,
            priority: self.priority,
        }
    }
}

/// A timed effect to be applied; the instance id is allocated on apply.
pub struct EffectSpec {
    pub effect_id: EffectId,
    pub owner: EntityRid,
    pub source: Option<EntityRid>,
    pub stack_key: u64,
    pub expires_at: Option<Tick>,
}

/// One command of the closed op vocabulary.
pub enum EffectOp {
    AddTrait { target: EntityRid, trait_id: TraitId },
    RemoveTrait { target: EntityRid, trait_id: TraitId },
    UpsertAttrLayer { target: EntityRid, key: AttrKeyId, layer: AttrLayerSpec },
    RemoveAttrLayersBySource { target: EntityRid, source: LayerSource },
    SetAspectsDirect { target: EntityRid, aspects: Vec<AspectRid> },
    ApplyEffect { spec: EffectSpec },
    RemoveEffect { inst_id: EffectInstId },
    KillEntity { target: EntityRid },
}

/// The shared context of one op batch: the current tick and the strict
/// within-tick write sequence.
pub struct ApplyCtx {
    pub now: Tick,
    pub seq: u32,
}

impl ApplyCtx {
    /// Hands out the current sequence number and advances it.
    fn next_seq(&mut self) -> (r: u32)
        requires
            old(self).seq < u32::MAX,
        ensures
            r == old(self).seq,
            final(self).seq == old(self).seq + 1,
            final(self).now == old(self).now,
    {
        let v = self.seq;
        self.seq = self.seq + 1;
        v
    }
}

/// An op's aspect handles stay inside the sealed taxonomy.
pub open spec fn op_in_range(op: EffectOp, reg_len: int) -> bool {
    match op {
        EffectOp::SetAspectsDirect { target: _, aspects } => forall|j: int|
            0 <= j < aspects@.len() ==> (#[trigger] aspects@[j]).0 < reg_len,
        _ => true,
    }
}

/// What one op does to the store and to the sequence counter: each command
/// hands its target to the corresponding store call; only an attribute
/// layer write consumes a sequence number; applying an effect allocates
/// the next fresh instance id and inserts the stamped record.
pub open spec fn op_rel(
    pre: Model,
    post: Model,
    now: Tick,
    seq0: u32,
    seq1: u32,
    op: EffectOp,
) -> bool {
    match op {
        EffectOp::AddTrait { target, trait_id } => add_trait_rel(pre, post, target, trait_id)
            && seq1 == seq0,
        EffectOp::RemoveTrait { target, trait_id } => remove_trait_rel(
            pre,
            post,
            target,
            trait_id,
        ) && seq1 == seq0,
        EffectOp::UpsertAttrLayer { target, key, layer } => upsert_attr_rel(
            pre,
            post,
            target,
            key,
            layer_of_spec(layer, now, seq0),
        ) && seq1 == seq0 + 1,
        EffectOp::RemoveAttrLayersBySource { target, source } => remove_attr_source_rel(
            pre,
            post,
            target,
            source,
        ) && seq1 == seq0,
        EffectOp::SetAspectsDirect { target, aspects } => set_aspects_rel(
            pre,
            post,
            target,
            aspects@,
        ) && seq1 == seq0,
        EffectOp::ApplyEffect { spec } => seq1 == seq0 && (exists|mid: Model|
            #![auto]
            mid.entities_seq() == pre.entities_seq() && mid.by_id_seq() == pre.by_id_seq()
                && mid.index_spec() == pre.index_spec() && mid.effects_seq()
                == pre.effects_seq() && mid.diff_spec() == pre.diff_spec() && mid.reg()
                == pre.reg() && mid.next_inst_spec() == pre.next_inst_spec() + 1
                && insert_effect_rel(
                mid,
                post,
                EffectInstance {
                    inst_id: EffectInstId(pre.next_inst_spec()),
                    effect_id: spec.effect_id,
                    owner: spec.owner,
                    source: spec.source,
                    stack_key: spec.stack_key,
                    applied_at: now,
                    expires_at: spec.expires_at,
                },
            )),
        EffectOp::RemoveEffect { inst_id } => remove_effect_rel(pre, post, inst_id) && seq1
            == seq0,
        EffectOp::KillEntity { target } => kill_rel(pre, post, target) && seq1 == seq0,
    }
}

/// What an op list does: the ops applied in order, threading the store and
/// the sequence counter through every step.
pub open spec fn ops_rel(
    pre: Model,
    post: Model,
    now: Tick,
    seq0: u32,
    seq1: u32,
    ops: Seq<EffectOp>,
) -> bool
    decreases ops.len(),
{
    if ops.len() == 0 {
        post == pre && seq1 == seq0
    } else {
        exists|mid: Model, seqm: u32|
            #![trigger op_rel(mid, post, now, seqm, seq1, ops.last())]
            ops_rel(pre, mid, now, seq0, seqm, ops.drop_last()) && op_rel(
                mid,
                post,
                now,
                seqm,
                seq1,
                ops.last(),
            )
    }
}

/// Applies one op against the store.
fn apply_op(model: &mut Model, ctx: &mut ApplyCtx, op: &EffectOp)
    requires
        old(model).wf(),
        old(ctx).seq < u32::MAX,
        old(model).next_inst_spec() < u64::MAX,
        op_in_range(*op, old(model).reg().nodes_seq().len() as int),
    ensures
        final(model).wf(),
        op_rel(*old(model), *final(model), old(ctx).now, old(ctx).seq, final(ctx).seq, *op),
        final(ctx).now == old(ctx).now,
        old(ctx).seq <= final(ctx).seq <= old(ctx).seq + 1,
        old(model).next_inst_spec() <= final(model).next_inst_spec() <= old(
            model,
        ).next_inst_spec() + 1,
{
    match op {
        EffectOp::AddTrait { target, trait_id } => {
            model.add_trait(*target, *trait_id);
        },
        EffectOp::RemoveTrait { target, trait_id } => {
            model.remove_trait(*target, *trait_id);
        },
        EffectOp::UpsertAttrLayer { target, key, layer } => {
            let seq = ctx.next_seq();
            let stamped = layer.to_layer(ctx.now, seq);
            model.upsert_attr_layer(*target, *key, stamped);
        },
        EffectOp::RemoveAttrLayersBySource { target, source } => {
            model.remove_attr_layers_by_source(*target, *source);
        },
        EffectOp::SetAspectsDirect { target, aspects } => {
            model.set_entity_aspects(*target, aspects.as_slice());
        },
        EffectOp::ApplyEffect { spec } => {
            let inst_id = model.alloc_effect_inst();
            let ghost mid = *model;
            let inst = EffectInstance {
                inst_id,
                effect_id: spec.effect_id,
                owner: spec.owner,
                source: spec.source,
                stack_key: spec.stack_key,
                applied_at: ctx.now,
                expires_at: spec.expires_at,
            };
            model.insert_effect_instance(inst);
            proof {
                assert(insert_effect_rel(mid, *model, inst));
            }
        },
        EffectOp::RemoveEffect { inst_id } => {
            model.remove_effect_instance(*inst_id);
            proof {
                // the table length only shrinks, so the allocator bound holds
                assert(model.next_inst_spec() == old(model).next_inst_spec());
            }
        },
        EffectOp::KillEntity { target } => {
            model.kill_entity(*target);
        },
    }
}

/// Applies an op batch in list order under one context. Ops naming dead or
/// unknown entities are silently absorbed; the batch always completes.
pub fn apply_ops(model: &mut Model, ctx: &mut ApplyCtx, ops: &[EffectOp])
    requires
        old(model).wf(),
        old(ctx).seq + ops@.len() <= u32::MAX,
        old(model).next_inst_spec() + ops@.len() <= u64::MAX,
        forall|i: int|
            0 <= i < ops@.len() ==> op_in_range(
                #[trigger] ops@[i],
                old(model).reg().nodes_seq().len() as int,
            ),
    ensures
        final(model).wf(),
        ops_rel(*old(model), *final(model), old(ctx).now, old(ctx).seq, final(ctx).seq, ops@),
        final(ctx).now == old(ctx).now,
{
    let n = ops.len();
    let mut i: usize = 0;
    while i < n
        invariant
            n == ops@.len(),
            i <= n,
            model.wf(),
            ctx.now == old(ctx).now,
            ctx.seq <= old(ctx).seq + i,
            old(ctx).seq <= ctx.seq,
            model.next_inst_spec() <= old(model).next_inst_spec() + i,
            old(ctx).seq + n <= u32::MAX,
            old(model).next_inst_spec() + n <= u64::MAX,
            model.reg() == old(model).reg(),
            forall|j: int|
                0 <= j < n ==> op_in_range(
                    #[trigger] ops@[j],
                    old(model).reg().nodes_seq().len() as int,
                ),
            ops_rel(*old(model), *model, old(ctx).now, old(ctx).seq, ctx.seq, ops@.take(i as int)),
        decreases n - i,
    {
        let ghost mid = *model;
        let ghost seqm = ctx.seq;
        apply_op(model, ctx, &ops[i]);
        proof {
            let t1 = ops@.take(i + 1);
            assert(t1.drop_last() =~= ops@.take(i as int));
            assert(t1.last() == ops@[i as int]);
            assert(ops_rel(*old(model), mid, old(ctx).now, old(ctx).seq, seqm, t1.drop_last())
                && op_rel(mid, *model, old(ctx).now, seqm, ctx.seq, t1.last()));
            assert(ops_rel(*old(model), *model, old(ctx).now, old(ctx).seq, ctx.seq, t1));
            lemma_op_rel_same_reg(mid, *model, old(ctx).now, seqm, ctx.seq, ops@[i as int]);
        }
        i += 1;
    }
    proof {
        assert(ops@.take(n as int) =~= ops@);
    }
}

/// Every op leaves the sealed registry untouched.
proof fn lemma_op_rel_same_reg(pre: Model, post: Model, now: Tick, s0: u32, s1: u32, op: EffectOp)
    requires
        op_rel(pre, post, now, s0, s1, op),
    ensures
        post.reg() == pre.reg(),
{
    match op {
        EffectOp::ApplyEffect { spec } => {
        },
        _ => {
        },
    }
}

} // verus!
