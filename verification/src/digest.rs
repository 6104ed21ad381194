//! BLAKE3 digests of in-memory data.

use vstd::prelude::*;

verus! {

/// The 32-byte BLAKE3 hash of `data` (what `blake3::hash` returns).
pub uninterp spec fn blake3_hash(data: Seq<u8>) -> Seq<u8>;

/// Calls `blake3::Hasher::new`, `update_rayon` and `finalize`. The blake3
/// documentation states that `Hasher::new().update(x).finalize()` equals
/// `blake3::hash(x)` and that `update_rayon` is `update` using Rayon-based
/// multithreading, so the contract claims that the result is the BLAKE3
/// hash of `data`. The work runs on the Rayon pool the caller is in.
#[verifier::external_body]
fn blake3_update_rayon(data: &[u8]) -> (digest: [u8; 32])
    ensures
        digest@ == blake3_hash(data@),
{
    blake3::Hasher::new().update_rayon(data).finalize().into()
}

/// Hashes an in-memory buffer with BLAKE3's internal tree parallelism, on
/// the Rayon pool of the caller. The digest is identical to
/// `blake3::hash(data)`: parallelism never changes the result.
pub fn hash_bytes(data: &[u8]) -> (digest: [u8; 32])
    ensures
        digest@ == blake3_hash(data@),
{
    blake3_update_rayon(data)
}

} // verus!
