//! Applied effect instances: transient, timed modifiers owned by entities.

use vstd::prelude::*;

use crate::entity::EntityRid;
use crate::ids::{EffectId, EffectInstId};
use crate::time::Tick;

verus! {

/// One applied effect: which effect, on whom, from whom, and for how long.
#[derive(Clone, Copy, Debug, PartialEq, Eq, Structural, Hash)]
pub struct EffectInstance {
    pub inst_id: EffectInstId,
    pub effect_id: EffectId,
    pub owner: EntityRid,
    pub source: Option<EntityRid>,
    pub stack_key: u64,
    pub applied_at: Tick,
    pub expires_at: Option<Tick>,
}

} // verus!
