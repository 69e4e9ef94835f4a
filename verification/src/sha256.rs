//! SHA-256 digests, read as 256-bit numbers.

use crate::u256::U256;
use sha2::Digest;
use vstd::prelude::*;

verus! {

/// The SHA-256 digest of a byte string.
pub uninterp spec fn sha256_digest(data: Seq<u8>) -> Seq<u8>;

/// Computes SHA-256 with `sha2::Sha256::digest`. The contract only names the digest:
/// the same bytes give the same 32 bytes.
#[verifier::external_body]
fn sha256(data: &[u8]) -> (digest: [u8; 32])
    ensures
        digest@ == sha256_digest(data@),
{
    sha2::Sha256::digest(data).into()
}

/// A SHA-256 digest, held as the number that its bytes stand for, the most significant
/// byte first.
#[derive(Clone, Copy, Debug, PartialEq, Eq, Structural)]
pub struct Hash {
    pub value: U256,
}

impl View for Hash {
    type V = nat;

    open spec fn view(&self) -> nat {
        self.value@
    }
}

impl Hash {
    /// The hash of a byte string.
    pub open spec fn of_bytes(data: Seq<u8>) -> Hash {
        Hash { value: U256::spec_from_be_bytes(sha256_digest(data)) }
    }

    /// Whether a hash meets a target: as a number it is at most the target.
    pub open spec fn meets(self, target: U256) -> bool {
        self@ <= target@
    }

    /// The hash whose bytes are all zero.
    pub fn zero() -> (h: Hash)
        ensures
            h@ == 0,
            h == (Hash { value: U256 { l0: 0, l1: 0, l2: 0, l3: 0 } }),
    {
        Hash { value: U256::zero() }
    }

    /// The hash that the 32 bytes of a digest stand for.
    pub fn from_digest(digest: &[u8; 32]) -> (h: Hash)
        ensures
            h.value == U256::spec_from_be_bytes(digest@),
    {
        Hash { value: U256::from_be_bytes(digest) }
    }

    /// Hashes a byte string.
    pub fn hash_bytes(data: &[u8]) -> (h: Hash)
        ensures
            h == Hash::of_bytes(data@),
    {
        let digest: [u8; 32] = sha256(data);
        Hash::from_digest(&digest)
    }

    /// Whether the hash meets `target`.
    pub fn matches_target(&self, target: U256) -> (r: bool)
        ensures
            r == self.meets(target),
    {
        self.value.le(&target)
    }

    /// The 32 bytes of the hash, the most significant first.
    pub fn as_bytes(&self) -> (bytes: [u8; 32])
        ensures
            bytes@ == self.value.spec_to_be_bytes(),
    {
        self.value.to_be_bytes()
    }
}

/// A hash that meets a target meets every larger target.
pub proof fn lemma_matches_target_monotone(hash: Hash, t1: U256, t2: U256)
    requires
        t1@ <= t2@,
        hash.meets(t1),
    ensures
        hash.meets(t2),
{
}

} // verus!
