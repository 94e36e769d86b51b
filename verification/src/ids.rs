//! Stable content identifiers: keyed hashes of a type-tag prefix plus a
//! canonical key, persistable across sessions (unlike handles).

use vstd::prelude::*;
use vstd::string::StringSliceAdditionalSpecFns;

use crate::hash::{hash128, hash128_of, Hash128};

verus! {

/// The ASCII colon between the type-tag prefix and the canonical key.
pub const COLON: u8 = 58;

/// The bytes hashed for a content identifier: `<prefix>:<canonical>`.
pub open spec fn id_input(prefix: Seq<u8>, canonical: Seq<u8>) -> Seq<u8> {
    prefix + seq![COLON] + canonical
}

/// Appends a byte slice to a buffer.
fn append_slice(v: &mut Vec<u8>, s: &[u8])
    ensures
        final(v)@ == old(v)@ + s@,
{
    let n = s.len();
    let mut i: usize = 0;
    while i < n
        invariant
            n == s@.len(),
            i <= n,
            v@ == old(v)@ + s@.take(i as int),
        decreases n - i,
    {
        v.push(s[i]);
        proof {
            assert(v@ =~= old(v)@ + s@.take(i + 1));
        }
        i += 1;
    }
    proof {
        assert(old(v)@ + s@.take(n as int) =~= old(v)@ + s@);
    }
}

/// 128-bit content hash of `<prefix>:<canonical>`.
pub fn prefixed_hash128(prefix: &str, canonical: &str) -> (r: Hash128)
    ensures
        r.0 == hash128_of(id_input(prefix.spec_bytes(), canonical.spec_bytes())),
{
    let mut v: Vec<u8> = Vec::new();
    append_slice(&mut v, prefix.as_bytes());
    v.push(COLON);
    append_slice(&mut v, canonical.as_bytes());
    proof {
        assert(v@ =~= id_input(prefix.spec_bytes(), canonical.spec_bytes()));
    }
    hash128(v.as_slice())
}

/// Content identifier of an aspect taxonomy node.
#[derive(Clone, Copy, Debug, PartialEq, Eq, Structural, Hash)]
pub struct AspectId(pub Hash128);

impl AspectId {
    /// The identifier hashed from the canonical key under this type's tag.
    pub fn new(canonical: &str) -> (r: AspectId)
        ensures
            r.0.0 == hash128_of(id_input("aspect".spec_bytes(), canonical.spec_bytes())),
    {
        AspectId(prefixed_hash128("aspect", canonical))
    }
}

/// Content identifier of a trait.
#[derive(Clone, Copy, Debug, PartialEq, Eq, Structural, Hash)]
pub struct TraitId(pub Hash128);

impl TraitId {
    /// The identifier hashed from the canonical key under this type's tag.
    pub fn new(canonical: &str) -> (r: TraitId)
        ensures
            r.0.0 == hash128_of(id_input("trait".spec_bytes(), canonical.spec_bytes())),
    {
        TraitId(prefixed_hash128("trait", canonical))
    }
}

/// Content identifier of an ability.
#[derive(Clone, Copy, Debug, PartialEq, Eq, Structural, Hash)]
pub struct AbilityId(pub Hash128);

impl AbilityId {
    /// The identifier hashed from the canonical key under this type's tag.
    pub fn new(canonical: &str) -> (r: AbilityId)
        ensures
            r.0.0 == hash128_of(id_input("ability".spec_bytes(), canonical.spec_bytes())),
    {
        AbilityId(prefixed_hash128("ability", canonical))
    }
}

/// Content identifier of an effect definition.
#[derive(Clone, Copy, Debug, PartialEq, Eq, Structural, Hash)]
pub struct EffectId(pub Hash128);

impl EffectId {
    /// The identifier hashed from the canonical key under this type's tag.
    pub fn new(canonical: &str) -> (r: EffectId)
        ensures
            r.0.0 == hash128_of(id_input("effect".spec_bytes(), canonical.spec_bytes())),
    {
        EffectId(prefixed_hash128("effect", canonical))
    }
}

/// Content identifier of an archetype.
#[derive(Clone, Copy, Debug, PartialEq, Eq, Structural, Hash)]
pub struct ArchetypeId(pub Hash128);

impl ArchetypeId {
    /// The identifier hashed from the canonical key under this type's tag.
    pub fn new(canonical: &str) -> (r: ArchetypeId)
        ensures
            r.0.0 == hash128_of(id_input("archetype".spec_bytes(), canonical.spec_bytes())),
    {
        ArchetypeId(prefixed_hash128("archetype", canonical))
    }
}

/// Content identifier of a signal.
#[derive(Clone, Copy, Debug, PartialEq, Eq, Structural, Hash)]
pub struct SignalId(pub Hash128);

impl SignalId {
    /// The identifier hashed from the canonical key under this type's tag.
    pub fn new(canonical: &str) -> (r: SignalId)
        ensures
            r.0.0 == hash128_of(id_input("signal".spec_bytes(), canonical.spec_bytes())),
    {
        SignalId(prefixed_hash128("signal", canonical))
    }
}

/// Content identifier of an attribute key.
#[derive(Clone, Copy, Debug, PartialEq, Eq, Structural, Hash)]
pub struct AttrKeyId(pub Hash128);

impl AttrKeyId {
    /// The identifier hashed from the canonical key under this type's tag.
    pub fn new(canonical: &str) -> (r: AttrKeyId)
        ensures
            r.0.0 == hash128_of(id_input("attr".spec_bytes(), canonical.spec_bytes())),
    {
        AttrKeyId(prefixed_hash128("attr", canonical))
    }
}

/// Content identifier of a relation kind.
#[derive(Clone, Copy, Debug, PartialEq, Eq, Structural, Hash)]
pub struct RelationId(pub Hash128);

impl RelationId {
    /// The identifier hashed from the canonical key under this type's tag.
    pub fn new(canonical: &str) -> (r: RelationId)
        ensures
            r.0.0 == hash128_of(id_input("relation".spec_bytes(), canonical.spec_bytes())),
    {
        RelationId(prefixed_hash128("relation", canonical))
    }
}

/// Content identifier of an authored entity (named by an asset path).
#[derive(Clone, Copy, Debug, PartialEq, Eq, Structural, Hash)]
pub struct EntityAuthId(pub Hash128);

impl EntityAuthId {
    /// The identifier hashed from the canonical key under this type's tag.
    pub fn new(canonical: &str) -> (r: EntityAuthId)
        ensures
            r.0.0 == hash128_of(id_input("entity_auth".spec_bytes(), canonical.spec_bytes())),
    {
        EntityAuthId(prefixed_hash128("entity_auth", canonical))
    }
}

/// Identifier of one applied effect instance; allocated sequentially by the
/// entity store, unique for the lifetime of the store.
#[derive(Clone, Copy, Debug, PartialEq, Eq, Structural, Hash)]
pub struct EffectInstId(pub u64);

/// Identifier of a runtime-instantiated entity: a session seed in the high
/// 64 bits and a per-session counter in the low 64 bits.
#[derive(Clone, Copy, Debug, PartialEq, Eq, Structural, Hash)]
pub struct EntityInstId(pub Hash128);

impl EntityInstId {
    /// Packs a session seed and a counter into one identifier.
    pub fn from_seed_counter(session_seed: u64, counter: u64) -> (r: EntityInstId)
        ensures
            r.0.0 == ((session_seed as u128) << 64) | (counter as u128),
    {
        EntityInstId(Hash128(((session_seed as u128) << 64) | (counter as u128)))
    }

    /// The session seed packed into the high 64 bits.
    pub fn session_seed(&self) -> (r: u64)
        ensures
            r == (self.0.0 >> 64) as u64,
    {
        (self.0.0 >> 64) as u64
    }

    /// The counter packed into the low 64 bits.
    pub fn counter(&self) -> (r: u64)
        ensures
            r == (self.0.0 & 0xFFFF_FFFF_FFFF_FFFF) as u64,
    {
        (self.0.0 & 0xFFFF_FFFF_FFFF_FFFF) as u64
    }
}

/// Packing a seed and counter and reading them back is the identity.
pub proof fn lemma_inst_id_round_trip(session_seed: u64, counter: u64)
    ensures
        ((((session_seed as u128) << 64) | (counter as u128)) >> 64) as u64 == session_seed,
        ((((session_seed as u128) << 64) | (counter as u128)) & 0xFFFF_FFFF_FFFF_FFFF) as u64
            == counter,
{
    assert(((((session_seed as u128) << 64) | (counter as u128)) >> 64) as u64 == session_seed)
        by (bit_vector);
    assert(((((session_seed as u128) << 64) | (counter as u128)) & 0xFFFF_FFFF_FFFF_FFFF) as u64
        == counter) by (bit_vector);
}

/// An entity named either by authored content or by runtime instantiation.
#[derive(Clone, Copy, Debug, PartialEq, Eq, Structural, Hash)]
pub enum EntityId {
    Auth(EntityAuthId),
    Run(EntityInstId),
}

impl EntityId {
    /// Whether this is an authored-content identifier.
    pub fn is_auth(&self) -> (r: bool)
        ensures
            r == (self is Auth),
    {
        matches!(self, EntityId::Auth(_))
    }

    /// Whether this is a runtime-instance identifier.
    pub fn is_run(&self) -> (r: bool)
        ensures
            r == (self is Run),
    {
        matches!(self, EntityId::Run(_))
    }
}

impl From<EntityAuthId> for EntityId {
    fn from(v: EntityAuthId) -> (r: EntityId) {
        EntityId::Auth(v)
    }
}

impl vstd::std_specs::convert::FromSpecImpl<EntityAuthId> for EntityId {
    open spec fn obeys_from_spec() -> bool {
        true
    }

    open spec fn from_spec(v: EntityAuthId) -> EntityId {
        EntityId::Auth(v)
    }
}

impl From<EntityInstId> for EntityId {
    fn from(v: EntityInstId) -> (r: EntityId) {
        EntityId::Run(v)
    }
}

impl vstd::std_specs::convert::FromSpecImpl<EntityInstId> for EntityId {
    open spec fn obeys_from_spec() -> bool {
        true
    }

    open spec fn from_spec(v: EntityInstId) -> EntityId {
        EntityId::Run(v)
    }
}

} // verus!
