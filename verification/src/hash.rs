//! Keyed content hashing, a collaborator of the core.
//!
//! The digests come from an outside hash function; the core only relies on
//! the digest being a pure function of the input bytes, which is what makes
//! content identifiers and the registry hash reproducible across processes.

use vstd::prelude::*;
use vstd::string::StringSliceAdditionalSpecFns;

verus! {

/// A 128-bit content digest.
#[derive(Clone, Copy, Debug, PartialEq, Eq, Structural, Hash)]
pub struct Hash128(pub u128);

/// A 64-bit content digest.
#[derive(Clone, Copy, Debug, PartialEq, Eq, Structural, Hash)]
pub struct Hash64(pub u64);

/// The 32-byte digest that the outside hash function assigns to the input.
/// A function of the input bytes alone: equal inputs give equal digests, in
/// every process and on every machine.
pub uninterp spec fn blake3_digest(data: Seq<u8>) -> Seq<u8>;

/// The natural number encoded by a byte sequence in little-endian order.
pub open spec fn le_bytes_to_nat(s: Seq<u8>) -> nat
    decreases s.len(),
{
    if s.len() == 0 {
        0
    } else {
        s[0] as nat + 256 * le_bytes_to_nat(s.drop_first())
    }
}

/// The 128-bit digest of `data`: the first 16 digest bytes, little-endian.
pub open spec fn hash128_of(data: Seq<u8>) -> u128 {
    le_bytes_to_nat(blake3_digest(data).take(16)) as u128
}

/// The 64-bit digest of `data`: the first 8 digest bytes, little-endian.
pub open spec fn hash64_of(data: Seq<u8>) -> u64 {
    le_bytes_to_nat(blake3_digest(data).take(8)) as u64
}

/// Relies on blake3::hash (32-byte digest, a pure function of the input)
/// and u128::from_le_bytes (little-endian recomposition).
#[verifier::external_body]
fn blake3_128(data: &[u8]) -> (r: u128)
    ensures
        r == le_bytes_to_nat(blake3_digest(data@).take(16)) as u128,
{
    let h = blake3::hash(data);
    let mut a = [0u8; 16];
    a.copy_from_slice(&h.as_bytes()[0..16]);
    u128::from_le_bytes(a)
}

/// Relies on blake3::hash (32-byte digest, a pure function of the input)
/// and u64::from_le_bytes (little-endian recomposition).
#[verifier::external_body]
fn blake3_64(data: &[u8]) -> (r: u64)
    ensures
        r == le_bytes_to_nat(blake3_digest(data@).take(8)) as u64,
{
    let h = blake3::hash(data);
    let mut a = [0u8; 8];
    a.copy_from_slice(&h.as_bytes()[0..8]);
    u64::from_le_bytes(a)
}

/// 128-bit content hash of a byte slice.
pub fn hash128(data: &[u8]) -> (r: Hash128)
    ensures
        r.0 == hash128_of(data@),
{
    Hash128(blake3_128(data))
}

/// 64-bit content hash of a byte slice.
pub fn hash64(data: &[u8]) -> (r: Hash64)
    ensures
        r.0 == hash64_of(data@),
{
    Hash64(blake3_64(data))
}

/// 128-bit content hash of a string's UTF-8 bytes.
pub fn hash_str128(s: &str) -> (r: Hash128)
    ensures
        r.0 == hash128_of(s.spec_bytes()),
{
    hash128(s.as_bytes())
}

/// 64-bit content hash of a string's UTF-8 bytes.
pub fn hash_str64(s: &str) -> (r: Hash64)
    ensures
        r.0 == hash64_of(s.spec_bytes()),
{
    hash64(s.as_bytes())
}

} // verus!
