//! Zobrist hashing of domino positions.
use vstd::prelude::*;
use crate::bitboard::{bit_set, domino_bits, is_legal_anchor, second_cell, Side};
use crate::splitmix::{mix, splitmix64};

verus! {

/// Relies on getrandom::getrandom: it fills the buffer from the system's
/// random source or reports an error; nothing is known of the bytes.
#[verifier::external_body]
fn random_word() -> (r: Option<u64>) {
    let mut bytes = [0u8; 8];
    match getrandom::getrandom(&mut bytes) {
        Ok(()) => Some(u64::from_le_bytes(bytes)),
        Err(_) => None,
    }
}

impl Default for ZobristKeys {
    /// Keys from `ZobristKeys::new`.
    fn default() -> (r: ZobristKeys)
        ensures
            r.square_keys@.len() == 64,
    {
        ZobristKeys::new()
    }
}

/// XOR of the keys of the filled cells among `0..n`.
pub open spec fn xor_filled(keys: Seq<u64>, occupied: u64, n: int) -> u64
    decreases n,
{
    if n <= 0 {
        0
    } else if bit_set(occupied, (n - 1) as u64) {
        xor_filled(keys, occupied, n - 1) ^ keys[n - 1]
    } else {
        xor_filled(keys, occupied, n - 1)
    }
}

/// Hash of a position: the keys of all filled cells, and the side key when
/// the horizontal side is to move.
pub open spec fn position_hash(keys: Seq<u64>, side_key: u64, occupied: u64, side: Side) -> u64 {
    let h = xor_filled(keys, occupied, 64);
    match side {
        Side::Vertical => h,
        Side::Horizontal => h ^ side_key,
    }
}

/// One random key per cell and one for the side to move.
pub struct ZobristKeys {
    pub square_keys: [u64; 64],
    pub side_key: u64,
}

impl ZobristKeys {
    /// Keys drawn from the system's random source; a key whose draw fails
    /// comes from `deterministic_key` of its cell (64 for the side key).
    pub fn new() -> (r: Self) {
        let mut keys = ZobristKeys { square_keys: [0u64; 64], side_key: 0 };
        let mut i: usize = 0;
        while i < 64
            invariant
                i <= 64,
            decreases 64 - i,
        {
            let k = match random_word() {
                Some(w) => w,
                None => Self::deterministic_key(i as u64),
            };
            keys.square_keys[i] = k;
            i = i + 1;
        }
        keys.side_key = match random_word() {
            Some(w) => w,
            None => Self::deterministic_key(64),
        };
        keys
    }

    /// Fallback key for `seed`.
    fn deterministic_key(seed: u64) -> (r: u64)
        ensures
            r == mix(seed),
    {
        splitmix64(seed)
    }

    pub open spec fn hash_of(&self, occupied: u64, side: Side) -> u64 {
        position_hash(self.square_keys@, self.side_key, occupied, side)
    }

    /// Hash of a position, computed from scratch.
    pub fn hash(&self, occupied: u64, side: Side) -> (r: u64)
        ensures
            r == self.hash_of(occupied, side),
    {
        let mut h: u64 = 0;
        let mut i: u64 = 0;
        while i < 64
            invariant
                i <= 64,
                h == xor_filled(self.square_keys@, occupied, i as int),
            decreases 64 - i,
        {
            if (occupied >> i) & 1u64 == 1u64 {
                h = h ^ self.square_keys[i as usize];
            }
            i = i + 1;
        }
        match side {
            Side::Vertical => h,
            Side::Horizontal => h ^ self.side_key,
        }
    }

    /// Hash after `side` plays at `anchor`, from the hash before: XORs in
    /// the keys of both covered cells and toggles the side key.
    pub fn update_hash(&self, hash: u64, anchor: u8, side: Side) -> (r: u64)
        requires
            second_cell(anchor as int, side) < 64,
        ensures
            r == hash ^ self.square_keys@[anchor as int] ^ self.square_keys@[second_cell(
                anchor as int,
                side,
            )] ^ self.side_key,
    {
        let second = crate::bitboard::get_second_cell(anchor, side);
        let h = hash ^ self.square_keys[anchor as usize] ^ self.square_keys[second as usize];
        h ^ self.side_key
    }
}

/// Filling one empty cell `a` XORs its key into the filled-cell hash of
/// every prefix that contains it.
pub proof fn lemma_xor_fill_cell(keys: Seq<u64>, occupied: u64, a: u64, n: int)
    requires
        a < 64,
        n <= 64,
        !bit_set(occupied, a),
    ensures
        xor_filled(keys, occupied | (1u64 << a), n) == if n > a {
            xor_filled(keys, occupied, n) ^ keys[a as int]
        } else {
            xor_filled(keys, occupied, n)
        },
    decreases n,
{
    if n > 0 {
        lemma_xor_fill_cell(keys, occupied, a, n - 1);
        let i = (n - 1) as u64;
        assert(bit_set(occupied | (1u64 << a), i) <==> (bit_set(occupied, i) || i == a)) by {
            assert(((occupied | (1u64 << a)) >> i) & 1u64 == 1u64 <==> ((occupied >> i) & 1u64
                == 1u64 || i == a)) by (bit_vector)
                requires
                    a < 64,
                    i < 64,
            ;
        }
        let x = xor_filled(keys, occupied, n - 1);
        let k = keys[a as int];
        let y = keys[n - 1];
        assert((x ^ k) ^ y == (x ^ y) ^ k) by (bit_vector);
    }
}

/// The incremental hash agrees with hashing the position after the move
/// from scratch, for every legal move.
pub proof fn lemma_update_hash_consistent(keys: ZobristKeys, occupied: u64, anchor: u8, side: Side)
    requires
        is_legal_anchor(occupied, side, anchor as u64),
    ensures
        keys.hash_of(occupied | domino_bits(anchor as u64, side), side.flip()) == keys.hash_of(
            occupied,
            side,
        ) ^ keys.square_keys@[anchor as int] ^ keys.square_keys@[second_cell(anchor as int, side)]
            ^ keys.side_key,
{
    let a = anchor as u64;
    let s = second_cell(anchor as int, side) as u64;
    let ks = keys.square_keys@;
    let once = occupied | (1u64 << a);
    assert(occupied | domino_bits(a, side) == once | (1u64 << s)) by {
        match side {
            Side::Vertical => {
                assert(occupied | ((1u64 << a) | ((1u64 << a) << 8u64)) == (occupied | (1u64 << a))
                    | (1u64 << (a + 8) as u64)) by (bit_vector)
                    requires
                        a < 56,
                ;
            },
            Side::Horizontal => {
                assert(occupied | ((1u64 << a) | ((1u64 << a) << 1u64)) == (occupied | (1u64 << a))
                    | (1u64 << (a + 1) as u64)) by (bit_vector)
                    requires
                        a < 63,
                ;
            },
        }
    }
    assert(!bit_set(once, s)) by {
        assert(((occupied | (1u64 << a)) >> s) & 1u64 == 1u64 <==> ((occupied >> s) & 1u64 == 1u64
            || s == a)) by (bit_vector)
            requires
                a < 64,
                s < 64,
        ;
    }
    lemma_xor_fill_cell(ks, occupied, a, 64);
    lemma_xor_fill_cell(ks, once, s, 64);
    let x = xor_filled(ks, occupied, 64);
    let ka = ks[a as int];
    let kb = ks[s as int];
    let sk = keys.side_key;
    assert(((x ^ ka) ^ kb) ^ sk == x ^ ka ^ kb ^ sk) by (bit_vector);
    assert((x ^ ka) ^ kb == (x ^ sk) ^ ka ^ kb ^ sk) by (bit_vector);
}

} // verus!
