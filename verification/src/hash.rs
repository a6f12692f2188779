use vstd::prelude::*;

verus! {

/// The multiplier of the hash.
pub const HASH_MULTIPLIER: u32 = 1936502639;

/// One round of the hash: multiply, fold the high half into the low half,
/// add the seed; all modulo two to the thirty-second.
pub open spec fn spec_hash_round(h: u32, seed: u32) -> u32 {
    let a = h.wrapping_mul(HASH_MULTIPLIER);
    let b = a ^ a.wrapping_shr(16);
    b.wrapping_add(seed)
}

/// The hash of `n` under `seed`: three rounds.
pub open spec fn spec_hash_u32(n: u32, seed: u32) -> u32 {
    spec_hash_round(spec_hash_round(spec_hash_round(n, seed), seed), seed)
}

/// The hash of `n` under `seed`.
pub fn hash_u32(n: u32, seed: u32) -> (h: u32)
    ensures
        h == spec_hash_u32(n, seed),
{
    let mut hash: u32 = n;
    let mut round: u32 = 0;
    while round < 3
        invariant
            round <= 3,
            round == 0 ==> hash == n,
            round == 1 ==> hash == spec_hash_round(n, seed),
            round == 2 ==> hash == spec_hash_round(spec_hash_round(n, seed), seed),
            round == 3 ==> hash == spec_hash_u32(n, seed),
        decreases 3 - round,
    {
        let a: u32 = hash.wrapping_mul(HASH_MULTIPLIER);
        let b: u32 = a ^ a.wrapping_shr(16);
        hash = b.wrapping_add(seed);
        round += 1;
    }
    hash
}

} // verus!
