//! Identifiers and content hashing.

use vstd::prelude::*;

verus! {

/// A 256-bit identifier for DHT nodes: the BLAKE3 digest of the node's public key.
pub type NodeId = [u8; 32];

/// A 256-bit content-addressed key: the BLAKE3 digest of the stored value.
pub type Key = [u8; 32];

/// The 32-byte BLAKE3 digest of `data`.
pub uninterp spec fn blake3(data: Seq<u8>) -> [u8; 32];

/// Calls `iroh_blake3::hash`, which maps a byte string to its BLAKE3 digest. Claimed of
/// it: the digest depends on the bytes alone. What the digest of given bytes is, and
/// that two inputs rarely share one, is left unsaid.
#[verifier::external_body]
fn blake3_digest(data: &[u8]) -> (digest: [u8; 32])
    ensures
        digest == blake3(data@),
{
    *iroh_blake3::hash(data).as_bytes()
}

/// Compares two identifiers byte by byte.
pub fn same_id(a: &[u8; 32], b: &[u8; 32]) -> (same: bool)
    ensures
        same == (*a == *b),
{
    for i in 0..32usize
        invariant
            forall|j: int| 0 <= j < i ==> a[j] == b[j],
    {
        if a[i] != b[i] {
            return false;
        }
    }
    assert(*a =~= *b);
    true
}

/// Derives a stable node identifier from arbitrary bytes, typically a public key.
pub fn derive_node_id(data: &[u8]) -> (id: NodeId)
    ensures
        id == blake3(data@),
{
    blake3_digest(data)
}

/// Computes the key under which content is stored: the digest of its bytes.
pub fn hash_content(data: &[u8]) -> (key: Key)
    ensures
        key == blake3(data@),
{
    blake3_digest(data)
}

/// Whether `key` is the digest of `value`.
pub fn verify_key_value_pair(key: &Key, value: &[u8]) -> (matches: bool)
    ensures
        matches == (blake3(value@) == *key),
{
    let digest = hash_content(value);
    same_id(&digest, key)
}

} // verus!
