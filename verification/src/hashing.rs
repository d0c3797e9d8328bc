use vstd::prelude::*;

use sha3::{Digest, Keccak256};

verus! {

/// What Keccak-256 gives for these bytes.
pub uninterp spec fn keccak256_spec(data: Seq<u8>) -> Seq<u8>;

/// `Keccak256::digest`: the Keccak-256 hash of the data, the hash function of Ethereum.
#[verifier::external_body]
pub(crate) fn keccak256(data: &[u8]) -> (hash: [u8; 32])
    ensures
        hash@ == keccak256_spec(data@),
{
    let digest = Keccak256::digest(data);
    let mut hash = [0u8; 32];
    hash.copy_from_slice(&digest);
    hash
}

} // verus!
