//! The hash function that commits to data.

use crate::primitives::Digest;
use vstd::prelude::*;

verus! {

/// The SHA3-256 digest of `data`.
pub uninterp spec fn sha3_256_digest(data: Seq<u8>) -> [u8; 32];

/// The bytes of the digest of `data`. There are 32 of them.
pub open spec fn digest_of(data: Seq<u8>) -> Seq<u8> {
    sha3_256_digest(data)@
}

/// Calls `tiny_keccak::sha3_256`. Trusted: the result is the SHA3-256 digest
/// of the input, a function of the input bytes alone.
#[verifier::external_body]
pub(crate) fn sha3_256(data: &[u8]) -> (digest: Digest)
    ensures
        digest.bytes == sha3_256_digest(data@),
{
    Digest { bytes: tiny_keccak::sha3_256(data) }
}

/// Whether two different inputs with the same digest exist.
pub open spec fn hash_collision() -> bool {
    exists|a: Seq<u8>, b: Seq<u8>| a != b && #[trigger] digest_of(a) == #[trigger] digest_of(b)
}

} // verus!
