//! Deterministic mapping from keys to shards.
//!
//! A key is hashed with 64-bit FNV-1a, and the result is passed through a
//! 64-bit finalizer so that every bit of the key reaches the low bits that
//! select the shard. The hash has no seed: a key is sent to the same shard on
//! every call and in every process.

use vstd::prelude::*;

verus! {

/// Offset basis of 64-bit FNV-1a.
pub const FNV_OFFSET: u64 = 0xcbf2_9ce4_8422_2325;

/// Prime of 64-bit FNV-1a.
pub const FNV_PRIME: u64 = 0x0000_0100_0000_01b3;

/// First multiplier of the finalizer.
pub const MIX_FIRST: u64 = 0xff51_afd7_ed55_8ccd;

/// Second multiplier of the finalizer.
pub const MIX_SECOND: u64 = 0xc4ce_b9fe_1a85_ec53;

/// One FNV-1a round: fold `byte` into the running hash `h`.
pub open spec fn fnv_round(h: u64, byte: u8) -> u64 {
    (h ^ (byte as u64)).wrapping_mul(FNV_PRIME)
}

/// The FNV-1a hash of a byte string, folding the bytes in from left to right.
pub open spec fn fnv1a_of(key: Seq<u8>) -> u64
    decreases key.len(),
{
    if key.len() == 0 {
        FNV_OFFSET
    } else {
        fnv_round(fnv1a_of(key.drop_last()), key.last())
    }
}

/// The finalizer: two rounds of xor-shift and multiply, and a last xor-shift.
pub open spec fn mixed(h: u64) -> u64 {
    let first = (h ^ (h >> 33)).wrapping_mul(MIX_FIRST);
    let second = (first ^ (first >> 33)).wrapping_mul(MIX_SECOND);
    second ^ (second >> 33)
}

/// The hash of a key: its FNV-1a hash, finalized.
pub open spec fn hash_of(key: Seq<u8>) -> u64 {
    mixed(fnv1a_of(key))
}

/// The shard that owns `key` among `shard_count` shards.
pub open spec fn shard_of(key: Seq<u8>, shard_count: u32) -> int {
    (hash_of(key) as int) % (shard_count as int)
}

/// Computes the FNV-1a hash of `key`.
pub fn fnv1a(key: &[u8]) -> (h: u64)
    ensures
        h == fnv1a_of(key@),
{
    let mut h: u64 = FNV_OFFSET;
    let mut i: usize = 0;
    while i < key.len()
        invariant
            i <= key.len(),
            h == fnv1a_of(key@.take(i as int)),
        decreases key.len() - i,
    {
        proof {
            let next = key@.take(i + 1);
            assert(next.drop_last() =~= key@.take(i as int));
        }
        h = (h ^ (key[i] as u64)).wrapping_mul(FNV_PRIME);
        i += 1;
    }
    proof {
        assert(key@.take(key@.len() as int) =~= key@);
    }
    h
}

/// Applies the finalizer to `h`.
pub fn mix(h: u64) -> (m: u64)
    ensures
        m == mixed(h),
{
    let first: u64 = (h ^ (h >> 33)).wrapping_mul(MIX_FIRST);
    let second: u64 = (first ^ (first >> 33)).wrapping_mul(MIX_SECOND);
    second ^ (second >> 33)
}

/// Computes the hash of `key`.
pub fn hash_key(key: &[u8]) -> (h: u64)
    ensures
        h == hash_of(key@),
{
    mix(fnv1a(key))
}

/// Routes `key` to one of `shard_count` shards.
pub fn route(key: &[u8], shard_count: u32) -> (index: u32)
    requires
        shard_count > 0,
    ensures
        index == shard_of(key@, shard_count),
        index < shard_count,
{
    let h: u64 = hash_key(key);
    (h % (shard_count as u64)) as u32
}

} // verus!
