//! Zobrist hashing of misere positions, with keys from a fixed SplitMix64
//! sequence so that hashes are the same in every process.
use vstd::prelude::*;
use crate::occupancy::{Occupancy, CELL_COUNT};
use crate::splitmix::{mix, splitmix64};

verus! {

/// Seed of the key sequence.
pub const KEY_SEED: u64 = 0xC1F6_9D2A;

/// The `n`th value of the key sequence: `KEY_SEED` mixed `n` times.
pub open spec fn key_chain(n: nat) -> u64
    decreases n,
{
    if n == 0 {
        KEY_SEED
    } else {
        mix(key_chain((n - 1) as nat))
    }
}

/// XOR of the keys of the filled cells among `0..n`.
pub open spec fn xor_cells(keys: Seq<u64>, occ: Occupancy, n: int) -> u64
    decreases n,
{
    if n <= 0 {
        0
    } else if occ.filled(n - 1) {
        xor_cells(keys, occ, n - 1) ^ keys[n - 1]
    } else {
        xor_cells(keys, occ, n - 1)
    }
}

/// One key per cell and one for the side to move.
#[derive(Clone)]
pub struct ZobristKeys {
    pub squares: [u64; 100],
    pub side: u64,
}

impl ZobristKeys {
    /// Cell `i` gets `key_chain(i + 1)` and the side `key_chain(101)`.
    pub fn new() -> (r: Self)
        ensures
            forall|i: int| 0 <= i < 100 ==> r.squares@[i] == key_chain((i + 1) as nat),
            r.side == key_chain(101),
    {
        let mut squares = [0u64; 100];
        let mut seed: u64 = KEY_SEED;
        let mut i: usize = 0;
        while i < CELL_COUNT
            invariant
                i <= 100,
                seed == key_chain(i as nat),
                forall|j: int| 0 <= j < i ==> squares@[j] == key_chain((j + 1) as nat),
            decreases 100 - i,
        {
            seed = splitmix64(seed);
            squares[i] = seed;
            i = i + 1;
        }
        seed = splitmix64(seed);
        ZobristKeys { squares, side: seed }
    }

    pub open spec fn hash_of(&self, occ: Occupancy, side_to_move: u8) -> u64 {
        let h = xor_cells(self.squares@, occ, 100);
        if side_to_move != 0 {
            h ^ self.side
        } else {
            h
        }
    }

    /// Hash of a position, computed from scratch.
    pub fn hash(&self, occ: Occupancy, side_to_move: u8) -> (r: u64)
        ensures
            r == self.hash_of(occ, side_to_move),
    {
        let mut h: u64 = 0;
        let mut idx: usize = 0;
        while idx < CELL_COUNT
            invariant
                idx <= 100,
                h == xor_cells(self.squares@, occ, idx as int),
            decreases 100 - idx,
        {
            if occ.is_set(idx) {
                h = h ^ self.squares[idx];
            }
            idx = idx + 1;
        }
        if side_to_move != 0 {
            h = h ^ self.side;
        }
        h
    }
}

} // verus!
