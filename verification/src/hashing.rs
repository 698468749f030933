//! The external hash collaborator: a deterministic 64-bit hash over bytes.

use vstd::prelude::*;

verus! {

/// The 64-bit digest of a byte string. The table engine relies on nothing
/// beyond determinism: equal byte sequences always hash to equal values.
pub uninterp spec fn hash_of(k: Seq<u8>) -> u64;

/// Relies on fasthash::city::hash64: a deterministic, non-cryptographic
/// 64-bit hash whose result is a function of the given bytes alone.
#[verifier::external_body]
pub(crate) fn hash_key(k: &[u8]) -> (r: u64)
    ensures
        r == hash_of(k@),
{
    fasthash::city::hash64(k)
}

} // verus!
