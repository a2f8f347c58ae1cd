//! Domain-separated xxh3 hashes of positions, used for sharding, worker
//! partitioning and the minimal perfect hash of the tablebase.

use vstd::prelude::*;
use crate::node::Node;

verus! {

pub const DOMAIN_SHARD: u64 = 0x7f754f191742d00f;
pub const DOMAIN_BUCKET: u64 = 0x97b750923ceb3ffd;
pub const DOMAIN_PHI_1: u64 = 0x0f825a9f1ecf8543;
pub const DOMAIN_PHI_2: u64 = 0x3136e519e64f64f1;
pub const DOMAIN_WORKER: u64 = 0x97b750923ceb3ffd;

/// The 64-bit xxh3 hash of `input` under `seed`.
pub uninterp spec fn xxh3_64_with_seed_spec(input: Seq<u8>, seed: u64) -> u64;

/// Calls `xxhash_rust::xxh3::xxh3_64_with_seed`. The hash is a function of
/// the input bytes and the seed alone; its value is only named here.
#[verifier::external_body]
fn xxh3_64_with_seed(input: &[u8], seed: u64) -> (r: u64)
    ensures
        r == xxh3_64_with_seed_spec(input@, seed),
{
    xxhash_rust::xxh3::xxh3_64_with_seed(input, seed)
}

/// Bucket hash of an 11-byte key.
pub open spec fn hash_bucket_spec(key: Seq<u8>) -> u64 {
    xxh3_64_with_seed_spec(key, DOMAIN_BUCKET)
}

/// The displacement hash of a key under displacement `l`.
pub open spec fn hash_phi_spec(key: Seq<u8>, l: u64) -> u64 {
    xxh3_64_with_seed_spec(key, DOMAIN_PHI_1).wrapping_add(
        l.wrapping_mul(xxh3_64_with_seed_spec(key, DOMAIN_PHI_2) | 1u64),
    )
}

/// Hash for shard selection.
pub fn hash_shard_node(node: &Node) -> (r: u64)
    ensures
        r == xxh3_64_with_seed_spec(node.bytes_spec(), DOMAIN_SHARD),
{
    let key = node.to_bytes();
    xxh3_64_with_seed(&key, DOMAIN_SHARD)
}

/// Hash for MPH bucket selection within a shard.
pub fn hash_bucket_bytes(key: &[u8; 11]) -> (r: u64)
    ensures
        r == hash_bucket_spec(key@),
{
    xxh3_64_with_seed(key, DOMAIN_BUCKET)
}

/// Hash for MPH bucket selection within a shard.
pub fn hash_bucket_node(node: &Node) -> (r: u64)
    ensures
        r == hash_bucket_spec(node.bytes_spec()),
{
    hash_bucket_bytes(&node.to_bytes())
}

/// MPH phi function hash.
pub fn hash_phi_bytes(key: &[u8; 11], l: u64) -> (r: u64)
    ensures
        r == hash_phi_spec(key@, l),
{
    let h1 = xxh3_64_with_seed(key, DOMAIN_PHI_1);
    let h2 = xxh3_64_with_seed(key, DOMAIN_PHI_2);
    h1.wrapping_add(l.wrapping_mul(h2 | 1u64))
}

/// Hash for worker partitioning during solve/count.
pub fn hash_worker_node(node: &Node) -> (r: u64)
    ensures
        r == xxh3_64_with_seed_spec(node.bytes_spec(), DOMAIN_WORKER),
{
    let key = node.to_bytes();
    xxh3_64_with_seed(&key, DOMAIN_WORKER)
}

} // verus!
