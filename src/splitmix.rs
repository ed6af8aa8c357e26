//! The SplitMix64 mixing step, a small deterministic pseudo-random sequence
//! used to fill Zobrist tables.
use vstd::prelude::*;

verus! {

/// One SplitMix64 step from `x`.
pub open spec fn mix(x: u64) -> u64 {
    let z = x.wrapping_add(0x9E37_79B9_7F4A_7C15u64);
    let z = (z ^ (z >> 30u64)).wrapping_mul(0xBF58_476D_1CE4_E5B9u64);
    let z = (z ^ (z >> 27u64)).wrapping_mul(0x94D0_49BB_1331_11EBu64);
    z ^ (z >> 31u64)
}

/// One SplitMix64 step from `x`.
pub fn splitmix64(x: u64) -> (r: u64)
    ensures
        r == mix(x),
{
    let z = x.wrapping_add(0x9E37_79B9_7F4A_7C15u64);
    let z = (z ^ (z >> 30u64)).wrapping_mul(0xBF58_476D_1CE4_E5B9u64);
    let z = (z ^ (z >> 27u64)).wrapping_mul(0x94D0_49BB_1331_11EBu64);
    z ^ (z >> 31u64)
}

} // verus!
