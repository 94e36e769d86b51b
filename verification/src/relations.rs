//! Directed entity relations: per-entity outgoing edges labelled by a
//! relation kind.

use vstd::prelude::*;

use crate::entity::EntityRunId;
use crate::ids::RelationId;

verus! {

/// Outgoing edges per entity row: each edge names its relation kind and
/// its target entity.
pub struct Relation {
    pub out_edges: Vec<Vec<(RelationId, EntityRunId)>>,
}

} // verus!
