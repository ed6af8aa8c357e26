//! The long-lived domino engine: a transposition table and Zobrist keys
//! that persist across searches, and a search generation counter.
use vstd::prelude::*;
use crate::bitboard::{self, is_legal_anchor, legal_count, Side};
use crate::domino_eval::{self, evaluation, MATE_SCORE};
use crate::domino_search::{table_sound, value, SearchResult, Searcher};
use crate::domino_tt::{is_power_of_two, TranspositionTable};
use crate::domino_zobrist::ZobristKeys;

verus! {

/// Largest table size, as a power of two: about a million entries.
pub const MAX_TT_BITS: u32 = 20;

/// The board of two 32-bit halves, the low half holding cells 0 to 31.
pub open spec fn board_of(occupied_low: u32, occupied_high: u32) -> u64 {
    ((occupied_high as u64) * 0x1_0000_0000u64 + occupied_low as u64) as u64
}

/// Side 0 is vertical; any other value is horizontal.
pub open spec fn side_of(side: u8) -> Side {
    if side == 0 {
        Side::Vertical
    } else {
        Side::Horizontal
    }
}

/// Joins two 32-bit halves into a board.
pub fn board_from_halves(occupied_low: u32, occupied_high: u32) -> (r: u64)
    ensures
        r == board_of(occupied_low, occupied_high),
{
    let h = occupied_high as u64;
    let l = occupied_low as u64;
    assert((h << 32u64) | l == h * 0x1_0000_0000u64 + l) by (bit_vector)
        requires
            h < 0x1_0000_0000u64,
            l < 0x1_0000_0000u64,
    ;
    (h << 32u64) | l
}

/// The side for a side number.
pub fn side_from_number(side: u8) -> (r: Side)
    ensures
        r == side_of(side),
{
    if side == 0 {
        Side::Vertical
    } else {
        Side::Horizontal
    }
}

/// `2^min(bits, 20)`: the table size for a requested number of bits.
pub fn table_size(bits: u32) -> (r: usize)
    ensures
        r == size_for_bits(
            if bits < MAX_TT_BITS {
                bits as nat
            } else {
                MAX_TT_BITS as nat
            },
        ),
        1 <= r <= 0x10_0000,
        is_power_of_two(r as nat),
{
    let bits = if bits < MAX_TT_BITS {
        bits
    } else {
        MAX_TT_BITS
    };
    let mut size: usize = 1;
    let mut i: u32 = 0;
    while i < bits
        invariant
            i <= bits <= MAX_TT_BITS,
            size == size_for_bits(i as nat),
        decreases bits - i,
    {
        proof {
            lemma_size_for_bits_monotone((i + 1) as nat, 20);
            lemma_size_for_twenty_bits();
        }
        size = size * 2;
        i = i + 1;
    }
    proof {
        lemma_size_for_bits_monotone(bits as nat, 20);
        lemma_size_for_twenty_bits();
        lemma_size_for_bits_power(bits as nat);
    }
    size
}

/// The clock always reads one and the same time, short of the largest.
pub open spec fn steady_clock<F: Fn() -> u64>(now: &F) -> bool {
    exists|t: u64| t < u64::MAX && #[trigger] reads_only(now, t)
}

/// Every reading of the clock is `t`.
pub open spec fn reads_only<F: Fn() -> u64>(now: &F, t: u64) -> bool {
    forall|x: u64| call_ensures(*now, (), x) ==> x == t
}

/// Engine state kept between searches.
pub struct DominorioEngine {
    tt: TranspositionTable,
    zobrist: ZobristKeys,
    search_age: u8,
}

impl DominorioEngine {
    pub closed spec fn wf(&self) -> bool {
        &&& self.tt.wf()
        &&& table_sound(self.tt.slots())
    }

    /// Generation of the last search; 0 after construction or a clear.
    pub closed spec fn age(&self) -> u8 {
        self.search_age
    }

    /// Number of table entries.
    pub closed spec fn table_len(&self) -> nat {
        self.tt.slots().len()
    }

    /// An engine with `2^min(tt_size_bits, 20)` table entries and fresh keys.
    pub fn new(tt_size_bits: u32) -> (r: Self)
        ensures
            r.wf(),
            r.age() == 0,
            r.table_len() == size_for_bits(
                if tt_size_bits < MAX_TT_BITS {
                    tt_size_bits as nat
                } else {
                    MAX_TT_BITS as nat
                },
            ),
    {
        let tt_size = table_size(tt_size_bits);
        proof {
            let bits = if tt_size_bits < MAX_TT_BITS {
                tt_size_bits as nat
            } else {
                MAX_TT_BITS as nat
            };
            lemma_size_for_bits_power(bits);
        }
        let tt = TranspositionTable::new(tt_size);
        proof {
            lemma_least_power_of_two(tt.slots().len(), tt_size as nat);
        }
        DominorioEngine { tt, zobrist: ZobristKeys::new(), search_age: 0 }
    }

    /// Empties the table and restarts the generation count.
    pub fn clear_tt(&mut self)
        requires
            old(self).wf(),
        ensures
            final(self).wf(),
            final(self).age() == 0,
            final(self).table_len() == old(self).table_len(),
    {
        self.tt.clear();
        self.search_age = 0;
    }

    /// Searches the position of the board halves and side number, under the
    /// next search generation, until `time_budget_ms` after the clock's
    /// current reading or `max_depth`.
    pub fn search<F: Fn() -> u64>(
        &mut self,
        occupied_low: u32,
        occupied_high: u32,
        side: u8,
        time_budget_ms: u64,
        max_depth: u32,
        top_n: u32,
        score_delta: i32,
        now: &F,
    ) -> (r: SearchResult)
        requires
            old(self).wf(),
            call_requires(*now, ()),
        ensures
            final(self).wf(),
            final(self).age() == (old(self).age() + 1) % 256,
            r.depth_reached <= max_depth,
            forall|m: u8|
                r.best_move == Some(m) ==> is_legal_anchor(
                    board_of(occupied_low, occupied_high),
                    side_of(side),
                    m as u64,
                ),
            legal_count(board_of(occupied_low, occupied_high), side_of(side), 64) == 0
                ==> r.best_move is None && r.score == -MATE_SCORE,
            steady_clock(now) && time_budget_ms > 0 && legal_count(
                board_of(occupied_low, occupied_high),
                side_of(side),
                64,
            ) > 0 ==> r.depth_reached == max_depth && (max_depth >= 1 ==> r.best_move is Some),
            top_n == 0 && r.depth_reached > 0 ==> r.score == value(
                board_of(occupied_low, occupied_high),
                side_of(side),
                r.depth_reached as nat,
                0,
            ),
    {
        let occupied = board_from_halves(occupied_low, occupied_high);
        let side = side_from_number(side);
        self.search_age = self.search_age.wrapping_add(1);
        let start = now();
        let deadline = start.saturating_add(time_budget_ms);
        proof {
            if steady_clock(now) && time_budget_ms > 0 {
                let t = choose|t: u64| t < u64::MAX && reads_only(now, t);
                assert(start == t);
                assert(crate::domino_search::clock_before(now, deadline));
            }
        }
        let mut searcher = Searcher::new(&mut self.tt, self.search_age, deadline, max_depth);
        searcher.iterative_deepening(&mut self.tt, &self.zobrist, occupied, side, top_n, score_delta, now)
    }

    /// Number of legal moves of the side to move.
    pub fn count_moves(&self, occupied_low: u32, occupied_high: u32, side: u8) -> (r: u32)
        ensures
            r == legal_count(board_of(occupied_low, occupied_high), side_of(side), 64),
    {
        let occupied = board_from_halves(occupied_low, occupied_high);
        let side = side_from_number(side);
        bitboard::count_moves(occupied, side)
    }

    /// The side to move has no legal move.
    pub fn is_game_over(&self, occupied_low: u32, occupied_high: u32, side: u8) -> (r: bool)
        ensures
            r == (legal_count(board_of(occupied_low, occupied_high), side_of(side), 64) == 0),
    {
        self.count_moves(occupied_low, occupied_high, side) == 0
    }

    /// Static evaluation for the side to move.
    pub fn evaluate(&self, occupied_low: u32, occupied_high: u32, side: u8) -> (r: i32)
        ensures
            r == evaluation(board_of(occupied_low, occupied_high), side_of(side)),
    {
        let occupied = board_from_halves(occupied_low, occupied_high);
        let side = side_from_number(side);
        domino_eval::evaluate(occupied, side)
    }
}

/// `2^bits`.
pub open spec fn size_for_bits(bits: nat) -> nat
    decreases bits,
{
    if bits == 0 {
        1
    } else {
        2 * size_for_bits((bits - 1) as nat)
    }
}

proof fn lemma_size_for_bits_monotone(a: nat, b: nat)
    requires
        a <= b,
    ensures
        1 <= size_for_bits(a) <= size_for_bits(b),
    decreases b,
{
    if b > a {
        lemma_size_for_bits_monotone(a, (b - 1) as nat);
    } else if a > 0 {
        lemma_size_for_bits_monotone((a - 1) as nat, (a - 1) as nat);
    }
}

proof fn lemma_size_for_twenty_bits()
    ensures
        size_for_bits(20) == 0x10_0000,
{
    reveal_with_fuel(size_for_bits, 21);
}

pub proof fn lemma_size_for_bits_power(bits: nat)
    ensures
        is_power_of_two(size_for_bits(bits)),
    decreases bits,
{
    if bits > 0 {
        lemma_size_for_bits_power((bits - 1) as nat);
        lemma_size_for_bits_monotone((bits - 1) as nat, (bits - 1) as nat);
        assert(size_for_bits(bits) / 2 == size_for_bits((bits - 1) as nat));
    }
}

/// Of two powers of two `n >= p` with `n / 2 < p`, `n` is `p`.
proof fn lemma_least_power_of_two(n: nat, p: nat)
    requires
        is_power_of_two(n),
        is_power_of_two(p),
        n >= p,
        n == 1 || n / 2 < p,
    ensures
        n == p,
    decreases p,
{
    if p > 1 {
        lemma_least_power_of_two(n / 2, p / 2);
    }
}

} // verus!
