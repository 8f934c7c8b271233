//! The content hash the zoom-step table is keyed by, so a table built from other artwork is caught.
use vstd::prelude::*;

verus! {

/// The multiplier of each step of the hash.
pub const HASH_PRIME: u64 = 0x0000_0100_0000_01b3;

/// The hash of a run of bytes from a seed: each byte is folded in with xor, then the state is
/// multiplied by the prime, modulo 2^64.
pub open spec fn fnv_hash(bytes: Seq<u8>, seed: u64) -> u64
    decreases bytes.len(),
{
    if bytes.len() == 0 {
        seed
    } else {
        let h = fnv_hash(bytes.drop_last(), seed) ^ (bytes.last() as u64);
        ((h as nat * HASH_PRIME as nat) % 0x1_0000_0000_0000_0000nat) as u64
    }
}

/// A content hash of the page data.
pub fn hash(bytes: &[u8], seed: u64) -> (h: u64)
    ensures
        h == fnv_hash(bytes@, seed),
{
    let mut h = seed;
    let mut k: usize = 0;
    while k < bytes.len()
        invariant
            k <= bytes@.len(),
            h == fnv_hash(bytes@.take(k as int), seed),
        decreases bytes@.len() - k,
    {
        proof {
            assert(bytes@.take(k + 1).drop_last() =~= bytes@.take(k as int));
        }
        h = h ^ (bytes[k] as u64);
        h = h.wrapping_mul(HASH_PRIME);
        k += 1;
    }
    assert(bytes@.take(k as int) =~= bytes@);
    h
}

} // verus!
