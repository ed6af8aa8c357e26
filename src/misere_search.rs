//! Iterative-deepening principal-variation search for the misere game,
//! with aspiration windows, a transposition table, killer moves and a
//! history table. The clock is a function handed to the search that
//! returns the current time in milliseconds.
use vstd::prelude::*;
use crate::misere_eval::{
    cheap_move_score, cheap_score, div_toward_zero, div_toward_zero_exec, evaluate_misere,
    misere_evaluation,
};
use crate::misere_tt::{find, Spot, TTEntry, TranspositionTable};
use crate::misere_zobrist::ZobristKeys;
use crate::occupancy::{
    applied, apply_move, decode_move, dynamic_moves, generate_moves_dynamic, move_fields, move_in_range,
    EncMove, Occupancy,
};
use crate::ordering::{firsts, lemma_firsts_multiset, pick_near_best, sort_by_score_desc};

verus! {

broadcast use {vstd::seq_lib::group_to_multiset_ensures, vstd::multiset::group_multiset_axioms};

/// Bound on every search score.
pub const INF: i32 = 1_000_000;

/// Score of a position whose side to move has no move, and so wins.
pub const MATE: i32 = 900_000;

/// Size of the history table.
pub const HISTORY_SIZE: usize = 4096;

/// Deepest search: far beyond the longest game, 50 moves.
pub const MAX_DEPTH: u32 = 1000;

/// Counters of one search.
pub struct SearchStats {
    pub nodes: u64,
    pub tt_hits: u64,
    pub tt_probes: u64,
}

/// Outcome of a search.
pub struct SearchResult {
    pub best_move: Option<EncMove>,
    pub depth_reached: u32,
    pub nodes_searched: u64,
    pub tt_hits: u64,
    pub tt_probes: u64,
    pub score: i32,
}

/// The clock never reads `deadline` or later.
pub open spec fn clock_before<F: Fn() -> u64>(now: &F, deadline: u64) -> bool {
    forall|t: u64| call_ensures(*now, (), t) ==> t < deadline
}

/// Every stored score lies within the search bounds.
pub open spec fn scores_bounded(slots: Seq<TTEntry>) -> bool {
    forall|i: int| 0 <= i < slots.len() ==> -INF <= #[trigger] slots[i].score <= INF
}

/// Every move in `moves` stays on the board.
pub open spec fn moves_in_range(moves: Seq<u16>) -> bool {
    forall|k: int| 0 <= k < moves.len() ==> move_in_range(#[trigger] moves[k])
}

/// `a + b`, clamped to the `i32` range.
fn saturating_add_i32(a: i32, b: i32) -> (r: i32)
    ensures
        r == if a + b > i32::MAX {
            i32::MAX as int
        } else if a + b < i32::MIN {
            i32::MIN as int
        } else {
            a + b
        },
{
    let s = a as i64 + b as i64;
    if s > i32::MAX as i64 {
        i32::MAX
    } else if s < i32::MIN as i64 {
        i32::MIN
    } else {
        s as i32
    }
}

/// The full window of the search: one wider than the score bounds, so
/// that every score lies strictly inside it.
pub const FULL_LOW: i32 = -INF - 1;

pub const FULL_HIGH: i32 = INF + 1;

/// The depth-limited negamax value of a misere position `ply` plies below
/// the root: a side without a move wins (`MATE - ply`); at depth 0 the
/// static evaluation; otherwise the best negated value of the positions
/// after each considered move.
pub open spec fn value(occ: Occupancy, side: u8, depth: nat, ply: int) -> int
    decreases depth, 2nat, 0nat,
{
    if dynamic_moves(occ, side).len() == 0 {
        MATE - ply
    } else if depth == 0 {
        misere_evaluation(occ, side)
    } else {
        best_of(occ, side, (depth - 1) as nat, ply, dynamic_moves(occ, side))
    }
}

/// The greatest `reply` over the moves `ms` (at least `-INF`).
pub open spec fn best_of(occ: Occupancy, side: u8, d: nat, ply: int, ms: Seq<u16>) -> int
    decreases d + 1, 1nat, ms.len(),
{
    if ms.len() == 0 {
        -INF as int
    } else {
        let b = best_of(occ, side, d, ply, ms.drop_last());
        let f = -value(applied(occ, ms.last()), (1 - side) as u8, d, ply + 1);
        if f > b {
            f
        } else {
            b
        }
    }
}

/// The value of move `m` for the mover at depth `d` below.
pub open spec fn reply(occ: Occupancy, side: u8, d: nat, ply: int, m: u16) -> int {
    -value(applied(occ, m), (1 - side) as u8, d, ply + 1)
}

/// `r` is what alpha-beta owes for true value `v` in the window
/// `(alpha, beta)`.
pub open spec fn within_window(r: int, alpha: int, beta: int, v: int) -> bool {
    &&& r <= alpha ==> v <= r
    &&& r >= beta ==> v >= r
    &&& alpha < r < beta ==> r == v
}

/// A stored entry says of the value of its position what its flag claims.
pub open spec fn entry_sound(e: TTEntry) -> bool {
    match e.position {
        Some(p) => {
            let v = value(p.occ, p.side, e.depth as nat, p.ply as int);
            &&& e.flag == 0 ==> v == e.score
            &&& e.flag == 1 ==> v >= e.score
            &&& e.flag == 2 ==> v <= e.score
        },
        None => true,
    }
}

/// Every entry of the table is sound.
pub open spec fn table_sound(slots: Seq<TTEntry>) -> bool {
    forall|i: int| 0 <= i < slots.len() ==> entry_sound(#[trigger] slots[i])
}

/// `best_of` is at least `-INF` and every `reply`, and is `-INF` or the
/// reply of one of the moves.
pub proof fn lemma_best_of_facts(occ: Occupancy, side: u8, d: nat, ply: int, ms: Seq<u16>)
    ensures
        best_of(occ, side, d, ply, ms) >= -INF,
        forall|k: int|
            0 <= k < ms.len() ==> reply(occ, side, d, ply, #[trigger] ms[k]) <= best_of(
                occ,
                side,
                d,
                ply,
                ms,
            ),
        best_of(occ, side, d, ply, ms) == -INF || exists|k: int|
            0 <= k < ms.len() && reply(occ, side, d, ply, #[trigger] ms[k]) == best_of(
                occ,
                side,
                d,
                ply,
                ms,
            ),
    decreases ms.len(),
{
    if ms.len() > 0 {
        let m = ms.last();
        lemma_best_of_facts(occ, side, d, ply, ms.drop_last());
        let b = best_of(occ, side, d, ply, ms);
        assert forall|k: int| 0 <= k < ms.len() implies reply(occ, side, d, ply, #[trigger] ms[k]) <= b by {
            if k < ms.len() - 1 {
                assert(ms[k] == ms.drop_last()[k]);
            }
        }
        if b != -INF {
            if b == reply(occ, side, d, ply, m) {
                assert(reply(occ, side, d, ply, ms[ms.len() - 1]) == b);
            } else {
                let k = choose|k: int|
                    0 <= k < ms.drop_last().len() && reply(occ, side, d, ply, ms.drop_last()[k])
                        == best_of(occ, side, d, ply, ms.drop_last());
                assert(ms[k] == ms.drop_last()[k]);
            }
        }
    }
}

/// `best_of` is at most any bound of all replies that is at least `-INF`.
pub proof fn lemma_best_of_at_most(occ: Occupancy, side: u8, d: nat, ply: int, ms: Seq<u16>, b: int)
    requires
        b >= -INF,
        forall|k: int| 0 <= k < ms.len() ==> reply(occ, side, d, ply, #[trigger] ms[k]) <= b,
    ensures
        best_of(occ, side, d, ply, ms) <= b,
    decreases ms.len(),
{
    if ms.len() > 0 {
        assert forall|k: int| 0 <= k < ms.drop_last().len() implies reply(
            occ,
            side,
            d,
            ply,
            #[trigger] ms.drop_last()[k],
        ) <= b by {
            assert(ms.drop_last()[k] == ms[k]);
        }
        lemma_best_of_at_most(occ, side, d, ply, ms.drop_last(), b);
        assert(reply(occ, side, d, ply, ms[ms.len() - 1]) <= b);
    }
}

/// From what every move's reply is bounded by, and one move that reaches a
/// score, the value of a position follows.
proof fn lemma_value_from_moves(
    occ: Occupancy,
    side: u8,
    d: nat,
    ply: int,
    ms: Seq<u16>,
    seen: Seq<u16>,
    best: int,
)
    requires
        ms.to_multiset() == seen.to_multiset(),
        best >= -INF,
        forall|k: int| 0 <= k < seen.len() ==> reply(occ, side, d, ply, #[trigger] seen[k]) <= best,
    ensures
        best_of(occ, side, d, ply, ms) <= best,
        forall|k: int|
            0 <= k < seen.len() ==> reply(occ, side, d, ply, #[trigger] seen[k]) <= best_of(
                occ,
                side,
                d,
                ply,
                ms,
            ),
{
    lemma_best_of_facts(occ, side, d, ply, ms);
    assert forall|k: int| 0 <= k < ms.len() implies reply(occ, side, d, ply, #[trigger] ms[k]) <= best by {
        let x = ms[k];
        assert(ms.contains(x));
        assert(seen.to_multiset().count(x) > 0);
        assert(seen.contains(x));
    }
    lemma_best_of_at_most(occ, side, d, ply, ms, best);
    assert forall|k: int| 0 <= k < seen.len() implies reply(occ, side, d, ply, #[trigger] seen[k])
        <= best_of(occ, side, d, ply, ms) by {
        let x = seen[k];
        assert(seen.contains(x));
        assert(ms.to_multiset().count(x) > 0);
        assert(ms.contains(x));
    }
}

/// `cands` are at most `top_n` considered moves with their cheap scores,
/// best first, and `m` is one of them within `delta` of the first.
pub open spec fn cheap_pick(
    cands: Seq<(u16, i32)>,
    top_n: u32,
    delta: i32,
    m: u16,
    occ: Occupancy,
    side: u8,
) -> bool {
    &&& 0 < cands.len() <= top_n
    &&& crate::ordering::sorted_desc(cands)
    &&& forall|i: int|
        0 <= i < cands.len() ==> #[trigger] cands[i].1 == cheap_score(occ, cands[i].0, side)
            && dynamic_moves(occ, side).contains(cands[i].0)
    &&& exists|i: int| 0 <= i < cands.len() && cands[i].0 == m && cands[0].1 - cands[i].1 <= delta
}

/// Some list of candidates shows `m` to be a fair randomized pick.
pub open spec fn some_cheap_pick(top_n: u32, delta: i32, m: u16, occ: Occupancy, side: u8) -> bool {
    exists|cands: Seq<(u16, i32)>| #[trigger] cheap_pick(cands, top_n, delta, m, occ, side)
}

/// `x` clamped to the `i32` range.
pub open spec fn clamp_i32(x: int) -> int {
    if x > i32::MAX {
        i32::MAX as int
    } else if x < i32::MIN {
        i32::MIN as int
    } else {
        x
    }
}

/// Search priority of a move: `i32::MAX` for the table's move, so that it
/// always comes first; for the others, 600000 or 450000 for the first or
/// second killer, plus the history score, minus ten per cell, and from
/// depth 6 on a tenth of the cheap one-ply score (within 50000 either way),
/// each sum clamped to the `i32` range and the total kept below
/// `i32::MAX`.
pub open spec fn priority(
    history: Seq<i32>,
    killers: [u16; 2],
    occ: Occupancy,
    side: u8,
    depth: usize,
    mv: u16,
    tt_best: u16,
) -> int {
    let p0 = (if mv == killers[0] {
        600_000int
    } else if mv == killers[1] {
        450_000int
    } else {
        0
    });
    let p1 = clamp_i32(p0 + history[(mv as usize & 4095usize) as int]);
    let p2 = clamp_i32(p1 - move_fields(mv).1 * 10);
    let p3 = if depth >= 6 {
        let c = div_toward_zero(cheap_score(occ, mv, side), 10);
        let c = if c < -50_000 {
            -50_000
        } else if c > 50_000 {
            50_000
        } else {
            c
        };
        clamp_i32(p2 + c)
    } else {
        p2
    };
    if mv == tt_best {
        i32::MAX as int
    } else if p3 == i32::MAX {
        (i32::MAX - 1) as int
    } else {
        p3
    }
}

/// `moves` is in non-increasing priority.
pub open spec fn by_priority(
    moves: Seq<u16>,
    history: Seq<i32>,
    killers: [u16; 2],
    occ: Occupancy,
    side: u8,
    depth: usize,
    tt_best: u16,
) -> bool {
    forall|i: int, j: int|
        0 <= i < j < moves.len() ==> priority(history, killers, occ, side, depth, moves[i], tt_best)
            >= priority(history, killers, occ, side, depth, moves[j], tt_best)
}

/// The table's move as the ordering sees it (0 when there is none).
pub open spec fn tt_move_code(tt_best: Option<u16>) -> u16 {
    match tt_best {
        Some(m) => m,
        None => 0,
    }
}

fn time_up(now_ms: u64, deadline_ms: u64) -> (r: bool)
    ensures
        r == (now_ms >= deadline_ms),
{
    now_ms >= deadline_ms
}

/// State of one search; the table and the keys are lent to each call.
pub struct Searcher {
    age: u8,
    deadline_ms: u64,
    max_depth: u32,
    stats: SearchStats,
    killers: Vec<[u16; 2]>,
    history: Vec<i32>,
    aborted: bool,
}

impl Searcher {
    pub closed spec fn wf(&self) -> bool {
        &&& self.history@.len() == HISTORY_SIZE
        &&& self.max_depth <= MAX_DEPTH
    }

    pub closed spec fn deadline(&self) -> u64 {
        self.deadline_ms
    }

    pub closed spec fn generation(&self) -> u8 {
        self.age
    }

    pub closed spec fn depth_limit(&self) -> u32 {
        self.max_depth
    }

    /// The node count and the table statistics.
    pub closed spec fn counters(&self) -> (u64, u64, u64) {
        (self.stats.nodes, self.stats.tt_hits, self.stats.tt_probes)
    }

    /// The deadline passed during the current depth.
    pub closed spec fn is_aborted(&self) -> bool {
        self.aborted
    }

    closed spec fn same_settings(&self, other: &Searcher) -> bool {
        &&& self.age == other.age
        &&& self.deadline_ms == other.deadline_ms
        &&& self.max_depth == other.max_depth
    }

    /// A search of generation `age` that stops at `deadline_ms` or after
    /// `max_depth` plies (at most `MAX_DEPTH`).
    pub fn new(age: u8, deadline_ms: u64, max_depth: u32) -> (r: Self)
        ensures
            r.wf(),
            r.generation() == age,
            r.deadline() == deadline_ms,
            r.depth_limit() == if max_depth < MAX_DEPTH {
                max_depth
            } else {
                MAX_DEPTH
            },
            r.counters() == (0u64, 0u64, 0u64),
            !r.is_aborted(),
    {
        let mut history: Vec<i32> = Vec::new();
        let mut i: usize = 0;
        while i < HISTORY_SIZE
            invariant
                i <= HISTORY_SIZE,
                history@.len() == i,
            decreases HISTORY_SIZE - i,
        {
            history.push(0);
            i = i + 1;
        }
        Searcher {
            age,
            deadline_ms,
            max_depth: if max_depth < MAX_DEPTH {
                max_depth
            } else {
                MAX_DEPTH
            },
            stats: SearchStats { nodes: 0, tt_hits: 0, tt_probes: 0 },
            killers: Vec::new(),
            history,
            aborted: false,
        }
    }

    /// See `priority`.
    fn move_priority(
        &self,
        occ: Occupancy,
        side: u8,
        depth: usize,
        mv: EncMove,
        tt_best: u16,
        killers: [u16; 2],
    ) -> (r: i32)
        requires
            self.wf(),
            side <= 1,
            move_in_range(mv),
        ensures
            r == priority(self.history@, killers, occ, side, depth, mv, tt_best),
    {
        let mut p: i32 = 0;
        if mv == killers[0] {
            p = p + 600_000;
        } else if mv == killers[1] {
            p = p + 450_000;
        }
        let idx = (mv as usize) & 4095;
        assert(idx < 4096) by (bit_vector)
            requires
                idx == (mv as usize) & 4095,
        ;
        let h = self.history[idx];
        p = saturating_add_i32(p, h);
        let (_start, len, _o) = decode_move(mv);
        p = saturating_add_i32(p, -((len as i32) * 10));
        if depth >= 6 {
            let c = div_toward_zero_exec(cheap_move_score(occ, mv, side), 10);
            let c = if c < -50_000 {
                -50_000
            } else if c > 50_000 {
                50_000
            } else {
                c
            };
            p = saturating_add_i32(p, c);
        }
        if mv == tt_best {
            i32::MAX
        } else if p == i32::MAX {
            i32::MAX - 1
        } else {
            p
        }
    }

    /// The killers of `depth` after `order_moves` or `record_cutoff` made
    /// room for it.
    closed spec fn killers_at(&self, depth: usize) -> [u16; 2] {
        self.killers@[depth as int]
    }

    /// Puts the moves in search order, by non-increasing `priority`.
    fn order_moves(
        &mut self,
        occ: Occupancy,
        side: u8,
        depth: usize,
        moves: &mut Vec<EncMove>,
        tt_best: Option<EncMove>,
    )
        requires
            old(self).wf(),
            side <= 1,
            depth <= MAX_DEPTH,
            moves_in_range(old(moves)@),
        ensures
            final(self).wf(),
            final(self).same_settings(old(self)),
            final(self).stats == old(self).stats,
            final(self).aborted == old(self).aborted,
            final(self).history@ == old(self).history@,
            final(moves)@.to_multiset() == old(moves)@.to_multiset(),
            final(self).killers@.len() > depth,
            by_priority(
                final(moves)@,
                final(self).history@,
                final(self).killers_at(depth),
                occ,
                side,
                depth,
                tt_move_code(tt_best),
            ),
            moves_in_range(final(moves)@),
    {
        let tt_best_u16: u16 = match tt_best {
            Some(m) => m,
            None => 0,
        };
        if self.killers.len() <= depth {
            self.killers.resize(depth + 1, [0, 0]);
        }
        let killers = self.killers[depth];
        let mut scored: Vec<(EncMove, i32)> = Vec::new();
        let mut i: usize = 0;
        while i < moves.len()
            invariant
                self.wf(),
                side <= 1,
                i <= moves@.len(),
                moves_in_range(moves@),
                scored@.len() == i,
                forall|k: int|
                    0 <= k < i ==> (#[trigger] scored@[k]).0 == moves@[k] && scored@[k].1
                        == priority(self.history@, killers, occ, side, depth, moves@[k], tt_best_u16),
            decreases moves@.len() - i,
        {
            let mv = moves[i];
            let p = self.move_priority(occ, side, depth, mv, tt_best_u16, killers);
            scored.push((mv, p));
            i = i + 1;
        }
        let sorted = sort_by_score_desc(&scored);
        let ghost given = moves@;
        proof {
            assert(firsts(scored@) =~= given);
            lemma_firsts_multiset(sorted@, scored@);
        }
        let mut j: usize = 0;
        while j < sorted.len()
            invariant
                j <= sorted@.len(),
                sorted@.len() == given.len(),
                moves@.len() == given.len(),
                forall|k: int| 0 <= k < j ==> #[trigger] moves@[k] == sorted@[k].0,
            decreases sorted@.len() - j,
        {
            let e = sorted[j];
            moves.set(j, e.0);
            j = j + 1;
        }
        proof {
            assert(moves@ =~= firsts(sorted@));
            assert forall|k: int| 0 <= k < sorted@.len() implies (#[trigger] sorted@[k]).1 == priority(
                self.history@,
                killers,
                occ,
                side,
                depth,
                sorted@[k].0,
                tt_best_u16,
            ) && move_in_range(sorted@[k].0) by {
                let e = sorted@[k];
                assert(sorted@.contains(e));
                assert(sorted@.to_multiset().count(e) > 0);
                assert(scored@.contains(e));
                let w = choose|w: int| 0 <= w < scored@.len() && scored@[w] == e;
                assert(given[w] == e.0);
            }
        }
    }

    /// Records a cutoff by `mv` at `depth`: unless it already is the first
    /// killer of the depth, it becomes the first and the old first becomes
    /// the second; its history score grows by `200 * depth^2` (saturating).
    fn record_cutoff(&mut self, depth: usize, mv: EncMove)
        requires
            old(self).wf(),
            depth <= MAX_DEPTH,
        ensures
            final(self).wf(),
            final(self).same_settings(old(self)),
            final(self).stats == old(self).stats,
            final(self).aborted == old(self).aborted,
            final(self).killers@.len() > depth,
            ({
                let before = if depth < old(self).killers@.len() {
                    old(self).killers@[depth as int]
                } else {
                    [0u16, 0u16]
                };
                final(self).killers_at(depth) == if before[0] != mv {
                    [mv, before[0]]
                } else {
                    before
                }
            }),
            ({
                let idx = (mv as usize & 4095usize) as int;
                final(self).history@ == old(self).history@.update(
                    idx,
                    clamp_i32(old(self).history@[idx] + 200 * depth * depth) as i32,
                )
            }),
    {
        if self.killers.len() <= depth {
            self.killers.resize(depth + 1, [0, 0]);
        }
        let k = self.killers[depth];
        if k[0] != mv {
            self.killers.set(depth, [mv, k[0]]);
        }
        let idx = (mv as usize) & 4095;
        assert(idx < 4096) by (bit_vector)
            requires
                idx == (mv as usize) & 4095,
        ;
        assert(depth * depth <= 1000 * 1000) by (nonlinear_arith)
            requires
                depth <= 1000,
        ;
        let bonus = (depth as i32) * (depth as i32) * 200;
        assert(bonus == 200 * depth * depth) by (nonlinear_arith)
            requires
                bonus == depth * depth * 200,
        ;
        let h = self.history[idx];
        self.history.set(idx, saturating_add_i32(h, bonus));
    }

    /// The mover's score of the move leading to `child`, searched in the
    /// window `(alpha, beta)`: with the full window for the first move; for
    /// the others with a null window first, searched again with the full
    /// window only when that lands strictly inside it.
    fn child_score<F: Fn() -> u64>(
        &mut self,
        tt: &mut TranspositionTable,
        zobrist: &ZobristKeys,
        child: Occupancy,
        opp: u8,
        depth: i32,
        alpha: i32,
        beta: i32,
        ply: i32,
        first: bool,
        now: &F,
    ) -> (r: i32)
        requires
            old(self).wf(),
            !old(self).aborted,
            old(tt).wf(),
            scores_bounded(old(tt).slots()),
            table_sound(old(tt).slots()),
            call_requires(*now, ()),
            opp <= 1,
            0 <= depth,
            1 <= ply,
            ply + depth <= MAX_DEPTH,
            -2 * INF <= alpha < beta <= 2 * INF,
        ensures
            final(self).wf(),
            final(tt).wf(),
            scores_bounded(final(tt).slots()),
            table_sound(final(tt).slots()),
            final(self).same_settings(old(self)),
            -INF <= r <= INF,
            clock_before(now, old(self).deadline_ms) ==> !final(self).aborted,
            !final(self).aborted ==> ({
                let f = -value(child, opp, depth as nat, ply as int);
                &&& r <= alpha ==> f <= r
                &&& r >= beta ==> f >= r
                &&& alpha < r < beta ==> f == r
            }),
        decreases depth + 1, 0nat,
    {
        if first {
            -self.negamax(tt, zobrist, child, opp, depth, -beta, -alpha, ply, now)
        } else {
            let c = self.negamax(tt, zobrist, child, opp, depth, -alpha - 1, -alpha, ply, now);
            if self.aborted {
                return 0;
            }
            let narrow = -c;
            if narrow > alpha && narrow < beta {
                -self.negamax(tt, zobrist, child, opp, depth, -beta, -alpha, ply, now)
            } else {
                narrow
            }
        }
    }

    /// Negamax with principal-variation search below the root. Once the
    /// deadline has passed it sets the abort flag and returns 0 without
    /// storing; otherwise its result is what `within_window` owes for the
    /// position's `value`: a side with no move scores `MATE - ply` (it wins
    /// the misere game) and a leaf its static evaluation. A table entry is
    /// reused only for the very position, ply and depth it was stored for.
    #[verifier::rlimit(100)]
    fn negamax<F: Fn() -> u64>(
        &mut self,
        tt: &mut TranspositionTable,
        zobrist: &ZobristKeys,
        occ: Occupancy,
        side: u8,
        depth: i32,
        alpha: i32,
        beta: i32,
        ply: i32,
        now: &F,
    ) -> (r: i32)
        requires
            old(self).wf(),
            !old(self).aborted,
            old(tt).wf(),
            scores_bounded(old(tt).slots()),
            table_sound(old(tt).slots()),
            call_requires(*now, ()),
            side <= 1,
            0 <= depth,
            0 <= ply,
            ply + depth <= MAX_DEPTH,
            -2 * INF <= alpha < beta <= 2 * INF,
        ensures
            final(self).wf(),
            final(tt).wf(),
            scores_bounded(final(tt).slots()),
            table_sound(final(tt).slots()),
            final(self).same_settings(old(self)),
            -INF <= r <= INF,
            final(self).aborted ==> r == 0,
            clock_before(now, old(self).deadline_ms) ==> !final(self).aborted,
            !final(self).aborted ==> within_window(
                r as int,
                alpha as int,
                beta as int,
                value(occ, side, depth as nat, ply as int),
            ),
            !final(self).aborted && dynamic_moves(occ, side).len() == 0 ==> r == MATE - ply,
            !final(self).aborted && dynamic_moves(occ, side).len() > 0 && depth == 0 ==> r
                == misere_evaluation(occ, side),
        decreases depth, 1nat,
    {
        self.stats.nodes = self.stats.nodes.wrapping_add(1);
        if (self.stats.nodes & 2047u64) == 0 && time_up(now(), self.deadline_ms) {
            self.aborted = true;
            return 0;
        }
        let mut moves = generate_moves_dynamic(occ, side);
        if moves.len() == 0 {
            return MATE - ply;
        }
        if depth == 0 {
            return evaluate_misere(occ, side);
        }
        let ghost d1 = (depth - 1) as nat;
        let ghost all = moves@;
        let key = zobrist.hash(occ, side);
        self.stats.tt_probes = self.stats.tt_probes.wrapping_add(1);
        let mut tt_best: Option<EncMove> = None;
        match tt.probe(key) {
            Some(entry) => {
                self.stats.tt_hits = self.stats.tt_hits.wrapping_add(1);
                tt_best = Some(entry.best_move);
            },
            None => {},
        }
        match tt.probe_position(key, occ, side, ply, depth) {
            Some(entry) => {
                proof {
                    let b = crate::domino_tt::bucket(key, tt.slots().len());
                    assert(entry_sound(tt.slots()[b]));
                    assert(-INF <= tt.slots()[b].score <= INF);
                }
                if entry.flag == 0 {
                    return entry.score;
                } else if entry.flag == 1 {
                    if entry.score >= beta {
                        return entry.score;
                    }
                } else if entry.flag == 2 {
                    if entry.score <= alpha {
                        return entry.score;
                    }
                }
            },
            None => {},
        }
        self.order_moves(occ, side, depth as usize, &mut moves, tt_best);
        proof {
            assert(moves@.len() == all.len()) by {
                assert(moves@.to_multiset().len() == all.to_multiset().len());
            }
        }
        let alpha_orig = alpha;
        let mut alpha = alpha;
        let mut best_score: i32 = -2 * INF - 1;
        let mut best_move: EncMove = moves[0];
        let opp = 1u8 - side;
        let mut first = true;
        let mut cut = false;
        let mut i: usize = 0;
        while i < moves.len() && !cut
            invariant
                self.wf(),
                !self.aborted,
                tt.wf(),
                scores_bounded(tt.slots()),
                table_sound(tt.slots()),
                self.same_settings(old(self)),
                call_requires(*now, ()),
                clock_before(now, old(self).deadline_ms) ==> !self.aborted,
                side <= 1,
                opp == 1 - side,
                1 <= depth,
                0 <= ply,
                ply + depth <= MAX_DEPTH,
                d1 == depth - 1,
                -2 * INF <= alpha_orig < beta <= 2 * INF,
                alpha == if best_score > alpha_orig {
                    best_score
                } else {
                    alpha_orig
                },
                i <= moves@.len(),
                first == (i == 0),
                i > 0 ==> -INF <= best_score <= INF,
                i == 0 ==> best_score == -2 * INF - 1,
                moves_in_range(moves@),
                !cut ==> alpha < beta,
                !cut ==> forall|k: int|
                    0 <= k < i ==> reply(occ, side, d1, ply as int, #[trigger] moves@[k]) <= best_score,
                !cut && best_score > alpha_orig ==> exists|k: int|
                    0 <= k < i && reply(occ, side, d1, ply as int, #[trigger] moves@[k]) == best_score,
                cut ==> i > 0 && best_score >= beta && exists|k: int|
                    0 <= k < i && reply(occ, side, d1, ply as int, #[trigger] moves@[k]) >= best_score,
            decreases moves@.len() - i + if cut {
                0int
            } else {
                1int
            },
        {
            if time_up(now(), self.deadline_ms) {
                self.aborted = true;
                return 0;
            }
            let mv = moves[i];
            let child = apply_move(occ, mv);
            let ghost f = reply(occ, side, d1, ply as int, mv);
            let score = self.child_score(tt, zobrist, child, opp, depth - 1, alpha, beta, ply + 1, first, now);
            if self.aborted {
                return 0;
            }
            first = false;
            proof {
                assert(score >= beta ==> f >= score);
                assert(score <= alpha ==> f <= score);
                assert(alpha < score < beta ==> f == score);
            }
            let ghost prev_best = best_score;
            if score > best_score {
                best_score = score;
                best_move = mv;
            }
            if score > alpha {
                alpha = score;
            }
            if alpha >= beta {
                self.record_cutoff(depth as usize, mv);
                cut = true;
                proof {
                    assert(reply(occ, side, d1, ply as int, moves@[i as int]) >= best_score);
                }
            } else {
                proof {
                    assert(reply(occ, side, d1, ply as int, moves@[i as int]) <= best_score);
                    if best_score > alpha_orig && best_score != prev_best {
                        assert(reply(occ, side, d1, ply as int, moves@[i as int]) == best_score);
                    }
                }
            }
            i = i + 1;
        }
        proof {
            let v = value(occ, side, depth as nat, ply as int);
            assert(v == best_of(occ, side, d1, ply as int, all));
            lemma_best_of_facts(occ, side, d1, ply as int, all);
            if cut {
                let k = choose|k: int|
                    0 <= k < i && reply(occ, side, d1, ply as int, moves@[k]) >= best_score;
                let x = moves@[k];
                assert(moves@.contains(x));
                assert(all.to_multiset().count(x) > 0);
                assert(all.contains(x));
            } else {
                lemma_value_from_moves(occ, side, d1, ply as int, all, moves@, best_score as int);
            }
        }
        let flag: u8 = if best_score <= alpha_orig {
            2
        } else if best_score >= beta {
            1
        } else {
            0
        };
        let new_entry = TTEntry {
            key,
            depth: (depth % 256) as u8,
            score: best_score,
            flag,
            best_move,
            age: self.age,
            position: Some(Spot { occ, side, ply }),
        };
        if depth <= 255 {
            let ghost before = tt.slots();
            proof {
                assert(entry_sound(new_entry));
            }
            tt.store(new_entry);
            proof {
                assert forall|j: int| 0 <= j < tt.slots().len() implies entry_sound(
                    #[trigger] tt.slots()[j],
                ) && -INF <= tt.slots()[j].score <= INF by {
                    assert(tt.slots()[j] == before[j] || tt.slots()[j] == new_entry);
                    if tt.slots()[j] == before[j] {
                        assert(entry_sound(before[j]));
                    }
                }
            }
        }
        best_score
    }

    /// One pass over the root moves at depth `d` in the window
    /// `(alpha, beta)`, each move scored by `child_score`. Returns the best
    /// score and its move, which `within_window` relates to the root's
    /// value; sets the abort flag when the deadline passes.
    fn root_pass<F: Fn() -> u64>(
        &mut self,
        tt: &mut TranspositionTable,
        zobrist: &ZobristKeys,
        occ: Occupancy,
        side: u8,
        d: u32,
        root_moves: &Vec<EncMove>,
        alpha: i32,
        beta: i32,
        now: &F,
    ) -> (r: (i32, EncMove))
        requires
            old(self).wf(),
            !old(self).aborted,
            old(tt).wf(),
            scores_bounded(old(tt).slots()),
            table_sound(old(tt).slots()),
            call_requires(*now, ()),
            side <= 1,
            1 <= d <= MAX_DEPTH,
            root_moves@.len() > 0,
            moves_in_range(root_moves@),
            root_moves@.to_multiset() == dynamic_moves(occ, side).to_multiset(),
            -INF - 1200 <= alpha < beta <= INF + 1200,
        ensures
            final(self).wf(),
            final(tt).wf(),
            scores_bounded(final(tt).slots()),
            table_sound(final(tt).slots()),
            final(self).same_settings(old(self)),
            root_moves@.contains(r.1),
            clock_before(now, old(self).deadline_ms) ==> !final(self).aborted,
            !final(self).aborted ==> -INF <= r.0 <= INF && within_window(
                r.0 as int,
                alpha as int,
                beta as int,
                value(occ, side, d as nat, 0),
            ) && (alpha < r.0 < beta ==> reply(occ, side, (d - 1) as nat, 0, r.1) == r.0),
    {
        let ghost d1 = (d - 1) as nat;
        let ghost all = dynamic_moves(occ, side);
        proof {
            assert(all.len() == root_moves@.len()) by {
                assert(all.to_multiset().len() == root_moves@.to_multiset().len());
            }
        }
        let opp = 1u8 - side;
        let mut alpha_i = alpha;
        let mut best_move = root_moves[0];
        let mut best_score: i32 = -2 * INF - 1;
        let mut first = true;
        let mut cut = false;
        let mut j: usize = 0;
        while j < root_moves.len() && !cut
            invariant
                self.wf(),
                !self.aborted,
                tt.wf(),
                scores_bounded(tt.slots()),
                table_sound(tt.slots()),
                self.same_settings(old(self)),
                call_requires(*now, ()),
                clock_before(now, old(self).deadline_ms) ==> !self.aborted,
                side <= 1,
                opp == 1 - side,
                1 <= d <= MAX_DEPTH,
                d1 == d - 1,
                moves_in_range(root_moves@),
                root_moves@.contains(best_move),
                -INF - 1200 <= alpha < beta <= INF + 1200,
                alpha_i == if best_score > alpha {
                    best_score
                } else {
                    alpha
                },
                j <= root_moves@.len(),
                first == (j == 0),
                j > 0 ==> -INF <= best_score <= INF,
                j == 0 ==> best_score == -2 * INF - 1,
                !cut && best_score > alpha ==> reply(occ, side, d1, 0, best_move) == best_score,
                !cut ==> alpha_i < beta,
                !cut ==> forall|k: int|
                    0 <= k < j ==> reply(occ, side, d1, 0, #[trigger] root_moves@[k]) <= best_score,
                cut ==> j > 0 && best_score >= beta && reply(occ, side, d1, 0, best_move) >= best_score,
            decreases root_moves@.len() - j + if cut {
                0int
            } else {
                1int
            },
        {
            if time_up(now(), self.deadline_ms) {
                self.aborted = true;
                return (best_score, best_move);
            }
            let mv = root_moves[j];
            let child = apply_move(occ, mv);
            let score = self.child_score(tt, zobrist, child, opp, (d - 1) as i32, alpha_i, beta, 1, first, now);
            if self.aborted {
                return (best_score, best_move);
            }
            first = false;
            proof {
                let f = reply(occ, side, d1, 0, mv);
                assert(score >= beta ==> f >= score);
                assert(score <= alpha_i ==> f <= score);
                assert(alpha_i < score < beta ==> f == score);
            }
            if score > best_score {
                best_score = score;
                best_move = mv;
            }
            if score > alpha_i {
                alpha_i = score;
            }
            if alpha_i >= beta {
                cut = true;
            } else {
                proof {
                    assert(reply(occ, side, d1, 0, root_moves@[j as int]) <= best_score);
                }
            }
            j = j + 1;
        }
        proof {
            let v = value(occ, side, d as nat, 0);
            assert(v == best_of(occ, side, d1, 0, all));
            lemma_best_of_facts(occ, side, d1, 0, all);
            assert(all.contains(best_move)) by {
                assert(root_moves@.to_multiset().count(best_move) > 0);
            }
            if !cut {
                lemma_value_from_moves(occ, side, d1, 0, all, root_moves@, best_score as int);
            }
        }
        (best_score, best_move)
    }

    /// Searches depth 1, 2, ... up to the depth limit, each depth first in
    /// an aspiration window around the previous score and, when the score
    /// falls outside it, again with the full window, whose move is then
    /// reported. A depth counts only when it completes before the deadline;
    /// the search stops early once a winning score is found. With
    /// `top_n > 0`, the move may then be drawn among the first `top_n` root
    /// moves whose cheap score is within `score_delta` of the best of them
    /// (see `pick_near_best`), with the position's hash as entropy.
    pub fn iterative_deepening<F: Fn() -> u64>(
        &mut self,
        tt: &mut TranspositionTable,
        zobrist: &ZobristKeys,
        occ: Occupancy,
        side: u8,
        top_n: u32,
        score_delta: i32,
        now: &F,
    ) -> (r: SearchResult)
        requires
            old(self).wf(),
            old(tt).wf(),
            scores_bounded(old(tt).slots()),
            table_sound(old(tt).slots()),
            call_requires(*now, ()),
            side <= 1,
        ensures
            final(self).wf(),
            final(tt).wf(),
            scores_bounded(final(tt).slots()),
            table_sound(final(tt).slots()),
            r.depth_reached <= old(self).depth_limit(),
            forall|m: EncMove| r.best_move == Some(m) ==> dynamic_moves(occ, side).contains(m),
            dynamic_moves(occ, side).len() == 0 ==> r.best_move is None && r.score == -MATE
                && r.depth_reached == 0 && final(tt).slots() == old(tt).slots(),
            dynamic_moves(occ, side).len() > 0 && r.depth_reached > 0 ==> r.best_move is Some,
            dynamic_moves(occ, side).len() > 0 && clock_before(now, old(self).deadline())
                && old(self).depth_limit() >= 1 ==> r.depth_reached >= 1 && (r.depth_reached
                == old(self).depth_limit() || r.score >= MATE - 1000),
            r.depth_reached > 0 ==> r.score == value(occ, side, r.depth_reached as nat, 0),
            forall|m: EncMove|
                top_n == 0 && r.depth_reached > 0 && r.best_move == Some(m) ==> reply(
                    occ,
                    side,
                    (r.depth_reached - 1) as nat,
                    0,
                    m,
                ) == r.score,
            top_n > 0 && r.depth_reached > 0 ==> r.best_move is Some && (reply(
                occ,
                side,
                (r.depth_reached - 1) as nat,
                0,
                r.best_move.unwrap(),
            ) == r.score || some_cheap_pick(top_n, score_delta, r.best_move.unwrap(), occ, side)),
    {
        let mut best_move: Option<EncMove> = None;
        let mut best_score: i32 = -INF;
        let mut depth_reached: u32 = 0;
        let mut window: i32 = 120;
        let mut root_moves = generate_moves_dynamic(occ, side);
        if root_moves.len() == 0 {
            return SearchResult {
                best_move: None,
                depth_reached: 0,
                nodes_searched: 0,
                tt_hits: self.stats.tt_hits,
                tt_probes: self.stats.tt_probes,
                score: -MATE,
            };
        }
        let ghost all = root_moves@;
        self.order_moves(occ, side, 1, &mut root_moves, None);
        proof {
            assert forall|k: int| 0 <= k < root_moves@.len() implies all.contains(
                #[trigger] root_moves@[k],
            ) by {
                assert(root_moves@.contains(root_moves@[k]));
                assert(root_moves@.to_multiset().count(root_moves@[k]) > 0);
            }
            assert(root_moves@.len() == all.len()) by {
                assert(root_moves@.to_multiset().len() == all.to_multiset().len());
            }
        }
        let ghost mut searched: u16 = 0;
        let mut depth: u32 = 0;
        let mut stopped = false;
        while depth < self.max_depth && !stopped
            invariant
                self.wf(),
                tt.wf(),
                scores_bounded(tt.slots()),
                self.same_settings(old(self)),
                self.max_depth <= MAX_DEPTH,
                call_requires(*now, ()),
                side <= 1,
                all == dynamic_moves(occ, side),
                all.len() > 0,
                root_moves@.len() == all.len(),
                root_moves@.to_multiset() == all.to_multiset(),
                table_sound(tt.slots()),
                depth_reached > 0 ==> best_move == Some(searched) && best_score == value(
                    occ,
                    side,
                    depth_reached as nat,
                    0,
                ) && reply(occ, side, (depth_reached - 1) as nat, 0, searched) == best_score,
                moves_in_range(root_moves@),
                forall|k: int| 0 <= k < root_moves@.len() ==> all.contains(#[trigger] root_moves@[k]),
                depth <= self.max_depth,
                depth_reached == depth,
                60 <= window <= 1200,
                -INF <= best_score <= INF,
                stopped ==> !clock_before(now, old(self).deadline_ms) || (best_score >= MATE - 1000
                    && depth_reached >= 1),
                forall|m: EncMove| best_move == Some(m) ==> all.contains(m),
                depth_reached > 0 ==> best_move is Some,
            decreases self.max_depth - depth + if stopped {
                0int
            } else {
                1int
            },
        {
            self.aborted = false;
            if time_up(now(), self.deadline_ms) {
                stopped = true;
            } else {
                let d = depth + 1;
                let (alpha, beta) = if d == 1 {
                    (FULL_LOW, FULL_HIGH)
                } else {
                    (best_score - window, best_score + window)
                };
                let (mut iter_score, mut iter_move) = self.root_pass(
                    tt,
                    zobrist,
                    occ,
                    side,
                    d,
                    &root_moves,
                    alpha,
                    beta,
                    now,
                );
                if self.aborted || time_up(now(), self.deadline_ms) {
                    stopped = true;
                } else {
                    if d > 1 && (iter_score <= alpha || iter_score >= beta) {
                        window = if window * 2 < 1200 {
                            window * 2
                        } else {
                            1200
                        };
                        let (s2, m2) = self.root_pass(
                            tt,
                            zobrist,
                            occ,
                            side,
                            d,
                            &root_moves,
                            FULL_LOW,
                            FULL_HIGH,
                            now,
                        );
                        if self.aborted || time_up(now(), self.deadline_ms) {
                            stopped = true;
                        }
                        iter_score = s2;
                        iter_move = m2;
                    } else if d > 1 {
                        let shrunk = window * 3 / 4;
                        window = if shrunk > 60 {
                            shrunk
                        } else {
                            60
                        };
                    }
                    if !stopped {
                        proof {
                            let w = choose|w: int| 0 <= w < root_moves@.len() && root_moves@[w] == iter_move;
                            assert(all.contains(root_moves@[w]));
                        }
                        proof {
                            searched = iter_move;
                        }
                        depth = d;
                        best_score = iter_score;
                        best_move = Some(iter_move);
                        depth_reached = d;
                        let mut pos: usize = 0;
                        while pos < root_moves.len() && root_moves[pos] != iter_move
                            invariant
                                pos <= root_moves@.len(),
                            decreases root_moves@.len() - pos,
                        {
                            pos = pos + 1;
                        }
                        if pos > 0 && pos < root_moves.len() {
                            let ghost before = root_moves@;
                            let m = root_moves.remove(pos);
                            root_moves.insert(0, m);
                            proof {
                                assert(root_moves@.to_multiset() =~= all.to_multiset()) by {
                                    assert(before.remove(pos as int).to_multiset() == before.to_multiset().remove(m));
                                    assert(before.to_multiset().count(m) > 0) by {
                                        assert(before.contains(m));
                                    }
                                    assert(before.to_multiset() =~= before.to_multiset().remove(m).insert(m));
                                }
                                assert forall|k: int| 0 <= k < root_moves@.len() implies all.contains(
                                    #[trigger] root_moves@[k],
                                ) && move_in_range(root_moves@[k]) by {
                                    if k == 0 {
                                        assert(root_moves@[k] == before[pos as int]);
                                    } else if k <= pos {
                                        assert(root_moves@[k] == before[k - 1]);
                                    } else {
                                        assert(root_moves@[k] == before[k]);
                                    }
                                }
                            }
                        }
                        if best_score >= MATE - 1000 {
                            stopped = true;
                        }
                    }
                }
            }
        }
        if top_n > 0 && root_moves.len() > 1 {
            let k: usize = if (top_n as usize) < root_moves.len() {
                top_n as usize
            } else {
                root_moves.len()
            };
            let mut scored: Vec<(EncMove, i32)> = Vec::new();
            let mut i: usize = 0;
            while i < k
                invariant
                    k <= root_moves@.len(),
                    i <= k,
                    side <= 1,
                    moves_in_range(root_moves@),
                    scored@.len() == i,
                    forall|q: int|
                        0 <= q < i ==> (#[trigger] scored@[q]).0 == root_moves@[q] && -1_000_000
                            <= scored@[q].1 <= 700_000 && scored@[q].1 == cheap_score(
                            occ,
                            scored@[q].0,
                            side,
                        ),
                decreases k - i,
            {
                let m = root_moves[i];
                scored.push((m, cheap_move_score(occ, m, side)));
                i = i + 1;
            }
            let ranked = sort_by_score_desc(&scored);
            proof {
                assert forall|q: int| 0 <= q < ranked@.len() implies -100_000_000 <= #[trigger] ranked@[q].1
                    <= 100_000_000 && all.contains(ranked@[q].0) by {
                    let e = ranked@[q];
                    assert(ranked@.contains(e));
                    assert(ranked@.to_multiset().count(e) > 0);
                    assert(scored@.contains(e));
                    let w = choose|w: int| 0 <= w < scored@.len() && scored@[w] == e;
                    assert(all.contains(root_moves@[w]));
                }
            }
            let top = ranked[0];
            let h = zobrist.hash(occ, side);
            match pick_near_best(&ranked, k as u32, top.1, score_delta, h) {
                Some(c) => {
                    proof {
                        let near = crate::ordering::near_best(ranked@, k as int, top.1, score_delta);
                        crate::ordering::lemma_near_best_contained(ranked@, k as int, top.1, score_delta);
                        let idx = (h as int) % (near.len() as int);
                        assert(c == near[idx]);
                        assert(0 <= idx < near.len());
                        assert(top.1 - near[idx].1 <= score_delta && exists|j: int|
                            0 <= j < k && j < ranked@.len() && ranked@[j] == near[idx]);
                        let j = choose|j: int| 0 <= j < k && j < ranked@.len() && ranked@[j] == c;
                        assert(all.contains(ranked@[j].0));
                        assert forall|q: int| 0 <= q < ranked@.len() implies #[trigger] ranked@[q].1
                            == cheap_score(occ, ranked@[q].0, side) && all.contains(ranked@[q].0) by {
                            let e = ranked@[q];
                            assert(ranked@.contains(e));
                            assert(ranked@.to_multiset().count(e) > 0);
                            assert(scored@.contains(e));
                            let w = choose|w: int| 0 <= w < scored@.len() && scored@[w] == e;
                            assert(all.contains(root_moves@[w]));
                        }
                        assert(ranked@[j].0 == c.0 && ranked@[0].1 - ranked@[j].1 <= score_delta);
                        assert(cheap_pick(ranked@, top_n, score_delta, c.0, occ, side));
                        assert(some_cheap_pick(top_n, score_delta, c.0, occ, side));
                    }
                    best_move = Some(c.0);
                },
                None => {},
            }
        }
        SearchResult {
            best_move,
            depth_reached,
            nodes_searched: self.stats.nodes,
            tt_hits: self.stats.tt_hits,
            tt_probes: self.stats.tt_probes,
            score: best_score,
        }
    }
}

} // verus!
