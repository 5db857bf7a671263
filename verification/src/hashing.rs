//! The 2-to-1 tree hash.
//!
//! Every internal node of a Merkle tree is the hash of the 64-byte
//! concatenation of its two 32-byte children, with no domain separation
//! tag.  The digest itself is opaque to the proofs here: contracts speak
//! of it only through the uninterpreted function `hash2`.

use crate::chunk::{zero_chunk, Chunk};
use vstd::prelude::*;

verus! {

/// The digest the 2-to-1 tree hash returns on the given pair of byte
/// strings; a function of the input bytes alone.
pub uninterp spec fn hash2(left: Seq<u8>, right: Seq<u8>) -> Seq<u8>;

/// Relies on `ethereum_hashing::hash32_concat`: the SHA-256 digest of the
/// concatenation of the two inputs, returned as a 32-byte array and
/// determined by the input bytes alone.
#[verifier::external_body]
pub fn hash_nodes(left: &Chunk, right: &Chunk) -> (r: Chunk)
    ensures
        r@ == hash2(left@, right@),
        r@.len() == 32,
{
    let digest = ethereum_hashing::hash32_concat(left.bytes.as_slice(), right.bytes.as_slice());
    Chunk { bytes: digest.to_vec() }
}

/// Root of an all-zero subtree of the given depth.
pub open spec fn zero_root(depth: nat) -> Seq<u8>
    decreases depth,
{
    if depth == 0 {
        zero_chunk()
    } else {
        hash2(zero_root((depth - 1) as nat), zero_root((depth - 1) as nat))
    }
}

} // verus!
