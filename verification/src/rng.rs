//! Seeded, splittable deterministic random generation, a collaborator of
//! the core. The core itself never draws randomness; callers thread a
//! generator through explicitly, which keeps runs reproducible.

use vstd::prelude::*;

verus! {

#[verifier::external_type_specification]
#[verifier::external_body]
pub struct ExChaCha12Rng(rand_chacha::ChaCha12Rng);

/// Relies on Clone for ChaCha12Rng: duplicates the generator state.
pub assume_specification[ <rand_chacha::ChaCha12Rng as Clone>::clone ](
    v: &rand_chacha::ChaCha12Rng,
) -> rand_chacha::ChaCha12Rng;

/// A deterministic generator seeded from a single 64-bit value.
#[derive(Clone, Debug)]
pub struct DetRng {
    inner: rand_chacha::ChaCha12Rng,
}

impl DetRng {
    /// Relies on rand_chacha::ChaCha12Rng::from_seed (SeedableRng): builds
    /// the generator from a 32-byte seed array; the seed's bytes alone
    /// determine the stream.
    #[verifier::external_body]
    pub fn from_seed_u64(seed: u64) -> DetRng {
        let mut s = [0u8; 32];
        s[..8].copy_from_slice(&seed.to_le_bytes());
        DetRng { inner: <rand_chacha::ChaCha12Rng as rand::SeedableRng>::from_seed(s) }
    }

    /// Relies on rand_core::RngCore::next_u32 for ChaCha12Rng: advances the
    /// stream and returns its next 32 bits; nothing is promised of the
    /// value.
    #[verifier::external_body]
    pub fn next_u32(&mut self) -> u32 {
        rand::RngCore::next_u32(&mut self.inner)
    }

    /// Relies on rand_core::RngCore::next_u64 for ChaCha12Rng: advances the
    /// stream and returns its next 64 bits; nothing is promised of the
    /// value.
    #[verifier::external_body]
    pub fn next_u64(&mut self) -> u64 {
        rand::RngCore::next_u64(&mut self.inner)
    }

    /// Deterministically splits off an independent generator: draws one
    /// value, mixes in the tag, and seeds the child from the result.
    pub fn split(&mut self, tag: u64) -> DetRng {
        let drawn = self.next_u64();
        let seed = drawn ^ tag;
        DetRng::from_seed_u64(seed)
    }
}

} // verus!
