//! The long-lived misere engine: a transposition table and Zobrist keys
//! that persist across searches, and a search generation counter.
use vstd::prelude::*;
use crate::domino_engine::{size_for_bits, steady_clock, table_size, MAX_TT_BITS};
use crate::misere_search::{
    clock_before, scores_bounded, table_sound, value, SearchResult, Searcher, MATE, MAX_DEPTH,
};
use crate::misere_tt::TranspositionTable;
use crate::misere_zobrist::ZobristKeys;
use crate::occupancy::{dynamic_moves, Occupancy};

verus! {

/// Engine state kept between searches.
pub struct QuelhasEngine {
    tt: TranspositionTable,
    zobrist: ZobristKeys,
    age: u8,
}

impl QuelhasEngine {
    pub closed spec fn wf(&self) -> bool {
        &&& self.tt.wf()
        &&& scores_bounded(self.tt.slots())
        &&& table_sound(self.tt.slots())
    }

    /// Generation of the last search; 0 after construction or a clear.
    pub closed spec fn generation(&self) -> u8 {
        self.age
    }

    /// Number of table entries.
    pub closed spec fn table_len(&self) -> nat {
        self.tt.slots().len()
    }

    /// An engine with `2^min(tt_size_bits, 20)` table entries.
    pub fn new(tt_size_bits: u32) -> (r: Self)
        ensures
            r.wf(),
            r.generation() == 0,
            r.table_len() == size_for_bits(
                if tt_size_bits < MAX_TT_BITS {
                    tt_size_bits as nat
                } else {
                    MAX_TT_BITS as nat
                },
            ),
    {
        let tt = TranspositionTable::new(table_size(tt_size_bits));
        QuelhasEngine { tt, zobrist: ZobristKeys::new(), age: 0 }
    }

    /// Empties the table and restarts the generation count.
    pub fn clear_tt(&mut self)
        requires
            old(self).wf(),
        ensures
            final(self).wf(),
            final(self).generation() == 0,
            final(self).table_len() == old(self).table_len(),
    {
        self.tt.clear();
        self.age = 0;
    }

    /// Searches the position of the four board words and the side to move
    /// (0 vertical, 1 horizontal), under the next search generation, until
    /// `time_budget_ms` after the clock's current reading or `max_depth`.
    pub fn search<F: Fn() -> u64>(
        &mut self,
        low_lo: u32,
        low_hi: u32,
        high_lo: u32,
        high_hi: u32,
        side: u8,
        time_budget_ms: u64,
        max_depth: u32,
        top_n: u32,
        score_delta: i32,
        now: &F,
    ) -> (r: SearchResult)
        requires
            old(self).wf(),
            call_requires(*now, ()),
            side <= 1,
        ensures
            final(self).wf(),
            final(self).generation() == (old(self).generation() + 1) % 256,
            ({
                let occ = Occupancy {
                    low: (low_hi as int * 0x1_0000_0000 + low_lo as int) as u64,
                    high: (high_hi as int * 0x1_0000_0000 + high_lo as int) as u64,
                };
                &&& forall|m: u16| r.best_move == Some(m) ==> dynamic_moves(occ, side).contains(m)
                &&& dynamic_moves(occ, side).len() == 0 ==> r.best_move is None && r.score == -MATE
                &&& steady_clock(now) && time_budget_ms > 0 && dynamic_moves(occ, side).len() > 0
                    && max_depth >= 1 ==> r.best_move is Some && (r.depth_reached == if max_depth
                    < MAX_DEPTH {
                    max_depth
                } else {
                    MAX_DEPTH
                } || r.score >= MATE - 1000)
                &&& r.depth_reached > 0 ==> r.score == value(occ, side, r.depth_reached as nat, 0)
            }),
    {
        let occ = Occupancy::from_u32_parts(low_lo, low_hi, high_lo, high_hi);
        self.age = self.age.wrapping_add(1);
        let start = now();
        let deadline = start.saturating_add(time_budget_ms);
        proof {
            if steady_clock(now) && time_budget_ms > 0 {
                let t = choose|t: u64| t < u64::MAX && crate::domino_engine::reads_only(now, t);
                assert(start == t);
                assert(clock_before(now, deadline));
            }
        }
        let mut searcher = Searcher::new(self.age, deadline, max_depth);
        searcher.iterative_deepening(&mut self.tt, &self.zobrist, occ, side, top_n, score_delta, now)
    }
}

} // verus!
