//! Iterative-deepening alpha-beta search for the domino game.
//!
//! The clock is a function handed to the search that returns the current
//! time in milliseconds; the search polls it every 1024 nodes and abandons
//! the depth in progress once the deadline has passed.
use vstd::prelude::*;
use crate::bitboard::{
    apply_move, count_moves, domino_bits, generate_moves, is_legal_anchor, legal_anchors, legal_count,
    lemma_legal_anchors, Side,
};
use crate::domino_eval::{evaluate, evaluation, ordering_score, score_move_for_ordering, INF, MATE_SCORE};
use crate::domino_tt::{Placement, TTEntry, TTFlag, TranspositionTable};
use crate::domino_zobrist::ZobristKeys;
use crate::ordering::{firsts, lemma_firsts_multiset, pick_near_best, sort_by_score_desc, sorted_desc};

verus! {

broadcast use {vstd::seq_lib::group_to_multiset_ensures, vstd::multiset::group_multiset_axioms};

/// Search priority of a domino move at `ply`: 10000000 for the table's
/// move plus 1000000 for a killer move of the ply; a move with neither gets
/// its `ordering_score`.
pub open spec fn move_rank(
    killers: Seq<(Option<u8>, Option<u8>)>,
    occupied: u64,
    side: Side,
    tt_move: Option<u8>,
    ply: usize,
    mv: u8,
) -> int {
    let bonus = (if tt_move == Some(mv) {
        10_000_000int
    } else {
        0
    }) + (if ply < KILLER_PLIES && (killers[ply as int].0 == Some(mv) || killers[ply as int].1
        == Some(mv)) {
        1_000_000int
    } else {
        0
    });
    if bonus == 0 {
        ordering_score(occupied, mv, side)
    } else {
        bonus
    }
}

/// Outcome of a search.
pub struct SearchResult {
    /// The chosen anchor; none when the side to move has no move or no
    /// depth completed.
    pub best_move: Option<u8>,
    pub score: i32,
    /// Deepest fully searched depth.
    pub depth_reached: u32,
    pub nodes_searched: u64,
    pub tt_hits: u64,
    pub tt_probes: u64,
}

/// Plies that keep killer moves.
pub const KILLER_PLIES: usize = 64;

/// The clock never reads `deadline` or later.
pub open spec fn clock_before<F: Fn() -> u64>(now: &F, deadline: u64) -> bool {
    forall|t: u64| call_ensures(*now, (), t) ==> t < deadline
}

/// Score of a lost position `ply` plies below the root: later losses score
/// higher. A game has at most 32 moves, so plies are counted up to 64.
pub open spec fn mated_score(ply: u32) -> int {
    -MATE_SCORE + if ply < 64 {
        ply as int
    } else {
        64
    }
}

/// The depth-limited negamax value of a position `ply` plies below the
/// root: a side without a move is mated; at depth 0 the static evaluation;
/// otherwise the best negated value of the positions after each legal move.
pub open spec fn value(occupied: u64, side: Side, depth: nat, ply: u32) -> int
    decreases depth, 2nat, 0nat,
{
    if legal_count(occupied, side, 64) == 0 {
        mated_score(ply)
    } else if depth == 0 {
        evaluation(occupied, side)
    } else {
        best_of(occupied, side, (depth - 1) as nat, ply, legal_anchors(occupied, side, 64))
    }
}

/// The greatest `reply` over the moves `ms` (at least `-INF`).
pub open spec fn best_of(occupied: u64, side: Side, d: nat, ply: u32, ms: Seq<u8>) -> int
    decreases d + 1, 1nat, ms.len(),
{
    if ms.len() == 0 {
        -INF as int
    } else {
        let b = best_of(occupied, side, d, ply, ms.drop_last());
        let f = -value(
            occupied | domino_bits(ms.last() as u64, side),
            side.flip(),
            d,
            (ply + 1) as u32,
        );
        if f > b {
            f
        } else {
            b
        }
    }
}

/// The value of move `m` for the mover: the negated value, at depth `d`,
/// of the position after it.
pub open spec fn reply(occupied: u64, side: Side, d: nat, ply: u32, m: u8) -> int {
    -value(occupied | domino_bits(m as u64, side), side.flip(), d, (ply + 1) as u32)
}

/// `r` is what alpha-beta owes for true value `v` in the window
/// `(alpha, beta)`: an upper bound at or below alpha, a lower bound at or
/// above beta, and `v` itself in between.
pub open spec fn within_window(r: int, alpha: int, beta: int, v: int) -> bool {
    &&& r <= alpha ==> v <= r
    &&& r >= beta ==> v >= r
    &&& alpha < r < beta ==> r == v
}

/// A stored entry says of the value of the position it was stored for
/// what its flag claims.
pub open spec fn entry_sound(e: TTEntry) -> bool {
    match e.position {
        Some(p) => e.depth > 0 ==> {
            let v = value(p.occupied, p.side, e.depth as nat, p.ply);
            &&& -INF <= e.score <= INF
            &&& match e.flag {
                TTFlag::Exact => v == e.score,
                TTFlag::Lower => v >= e.score,
                TTFlag::Upper => v <= e.score,
            }
        },
        None => true,
    }
}

/// Every entry of the table is sound.
pub open spec fn table_sound(slots: Seq<TTEntry>) -> bool {
    forall|i: int| 0 <= i < slots.len() ==> entry_sound(#[trigger] slots[i])
}

/// Values lie within the search bounds.
pub proof fn lemma_value_bounds(occupied: u64, side: Side, depth: nat, ply: u32)
    ensures
        -INF <= value(occupied, side, depth, ply) <= INF,
    decreases depth, 2nat, 0nat,
{
    if legal_count(occupied, side, 64) == 0 {
    } else if depth == 0 {
        crate::domino_eval::lemma_evaluation_bounds(occupied, side);
    } else {
        lemma_best_of_facts(occupied, side, (depth - 1) as nat, ply, legal_anchors(occupied, side, 64));
    }
}

/// `best_of` is at least `-INF` and every `reply`, at most `INF`, and is
/// `-INF` or the reply of one of the moves.
pub proof fn lemma_best_of_facts(occupied: u64, side: Side, d: nat, ply: u32, ms: Seq<u8>)
    ensures
        -INF <= best_of(occupied, side, d, ply, ms) <= INF,
        forall|k: int|
            0 <= k < ms.len() ==> reply(occupied, side, d, ply, #[trigger] ms[k]) <= best_of(
                occupied,
                side,
                d,
                ply,
                ms,
            ),
        best_of(occupied, side, d, ply, ms) == -INF || exists|k: int|
            0 <= k < ms.len() && reply(occupied, side, d, ply, #[trigger] ms[k]) == best_of(
                occupied,
                side,
                d,
                ply,
                ms,
            ),
    decreases d + 1, 1nat, ms.len(),
{
    if ms.len() > 0 {
        let m = ms.last();
        lemma_best_of_facts(occupied, side, d, ply, ms.drop_last());
        lemma_value_bounds(occupied | domino_bits(m as u64, side), side.flip(), d, (ply + 1) as u32);
        let b = best_of(occupied, side, d, ply, ms);
        assert forall|k: int| 0 <= k < ms.len() implies reply(occupied, side, d, ply, #[trigger] ms[k])
            <= b by {
            if k < ms.len() - 1 {
                assert(ms[k] == ms.drop_last()[k]);
            }
        }
        if b != -INF {
            if b == reply(occupied, side, d, ply, m) {
                assert(reply(occupied, side, d, ply, ms[ms.len() - 1]) == b);
            } else {
                let k = choose|k: int|
                    0 <= k < ms.drop_last().len() && reply(occupied, side, d, ply, ms.drop_last()[k])
                        == best_of(occupied, side, d, ply, ms.drop_last());
                assert(ms[k] == ms.drop_last()[k]);
            }
        }
    }
}

/// `best_of` is at most any bound of all replies that is at least `-INF`.
pub proof fn lemma_best_of_at_most(occupied: u64, side: Side, d: nat, ply: u32, ms: Seq<u8>, b: int)
    requires
        b >= -INF,
        forall|k: int| 0 <= k < ms.len() ==> reply(occupied, side, d, ply, #[trigger] ms[k]) <= b,
    ensures
        best_of(occupied, side, d, ply, ms) <= b,
    decreases ms.len(),
{
    if ms.len() > 0 {
        assert forall|k: int| 0 <= k < ms.drop_last().len() implies reply(
            occupied,
            side,
            d,
            ply,
            #[trigger] ms.drop_last()[k],
        ) <= b by {
            assert(ms.drop_last()[k] == ms[k]);
        }
        lemma_best_of_at_most(occupied, side, d, ply, ms.drop_last(), b);
        assert(reply(occupied, side, d, ply, ms[ms.len() - 1]) <= b);
    }
}

/// `cands` are at most `top_n` legal moves with their ordering scores, best
/// first, and `m` is one of them within `delta` of the first.
pub open spec fn cheap_pick(
    cands: Seq<(u8, i32)>,
    top_n: u32,
    delta: i32,
    m: u8,
    occupied: u64,
    side: Side,
) -> bool {
    &&& 0 < cands.len() <= top_n
    &&& sorted_desc(cands)
    &&& forall|i: int|
        0 <= i < cands.len() ==> #[trigger] cands[i].1 == ordering_score(occupied, cands[i].0, side)
            && is_legal_anchor(occupied, side, cands[i].0 as u64)
    &&& exists|i: int| 0 <= i < cands.len() && cands[i].0 == m && cands[0].1 - cands[i].1 <= delta
}

/// Two killer moves per ply: moves that recently caused a cutoff there.
struct KillerMoves {
    moves: Vec<(Option<u8>, Option<u8>)>,
}

fn holds(slot: Option<u8>, mv: u8) -> (r: bool)
    ensures
        r == (slot == Some(mv)),
{
    match slot {
        Some(m) => m == mv,
        None => false,
    }
}

impl KillerMoves {
    spec fn wf(&self) -> bool {
        self.moves@.len() == KILLER_PLIES
    }

    fn new() -> (r: Self)
        ensures
            r.wf(),
            forall|p: int| 0 <= p < KILLER_PLIES ==> r.moves@[p] == (None::<u8>, None::<u8>),
    {
        let mut moves: Vec<(Option<u8>, Option<u8>)> = Vec::new();
        let mut i: usize = 0;
        while i < KILLER_PLIES
            invariant
                i <= KILLER_PLIES,
                moves@.len() == i,
                forall|p: int| 0 <= p < i ==> moves@[p] == (None::<u8>, None::<u8>),
            decreases KILLER_PLIES - i,
        {
            moves.push((None, None));
            i = i + 1;
        }
        KillerMoves { moves }
    }

    /// Makes `mv` the first killer of `ply`, moving the old first one to
    /// second place, unless it already is the first.
    fn add(&mut self, ply: usize, mv: u8)
        requires
            old(self).wf(),
        ensures
            final(self).wf(),
            final(self).moves@ == if ply < KILLER_PLIES && old(self).moves@[ply as int].0 != Some(
                mv,
            ) {
                old(self).moves@.update(ply as int, (Some(mv), old(self).moves@[ply as int].0))
            } else {
                old(self).moves@
            },
    {
        if ply < KILLER_PLIES {
            let slot = self.moves[ply];
            if !holds(slot.0, mv) {
                self.moves.set(ply, (Some(mv), slot.0));
            }
        }
    }

    fn is_killer(&self, ply: usize, mv: u8) -> (r: bool)
        requires
            self.wf(),
        ensures
            r == (ply < KILLER_PLIES && (self.moves@[ply as int].0 == Some(mv)
                || self.moves@[ply as int].1 == Some(mv))),
    {
        if ply < KILLER_PLIES {
            let slot = self.moves[ply];
            holds(slot.0, mv) || holds(slot.1, mv)
        } else {
            false
        }
    }
}

/// State of one search: node count, killer moves, deadline and the abort
/// flag. The table and the keys are lent to each call.
pub struct Searcher {
    age: u8,
    deadline: u64,
    max_depth: u32,
    nodes: u64,
    killers: KillerMoves,
    aborted: bool,
}

impl Searcher {
    pub closed spec fn wf(&self) -> bool {
        self.killers.wf()
    }

    pub closed spec fn deadline_ms(&self) -> u64 {
        self.deadline
    }

    pub closed spec fn depth_limit(&self) -> u32 {
        self.max_depth
    }

    pub closed spec fn is_aborted(&self) -> bool {
        self.aborted
    }

    closed spec fn same_settings(&self, other: &Searcher) -> bool {
        &&& self.age == other.age
        &&& self.deadline == other.deadline
        &&& self.max_depth == other.max_depth
    }

    /// A search of generation `age` that stops at `deadline` or after
    /// `max_depth` plies; resets the table's statistics.
    pub fn new(tt: &mut TranspositionTable, age: u8, deadline: u64, max_depth: u32) -> (r: Self)
        requires
            old(tt).wf(),
        ensures
            r.wf(),
            r.deadline_ms() == deadline,
            r.depth_limit() == max_depth,
            !r.is_aborted(),
            final(tt).wf(),
            final(tt).slots() == old(tt).slots(),
            final(tt).hit_count() == 0,
            final(tt).probe_count() == 0,
    {
        tt.reset_stats();
        Searcher { age, deadline, max_depth, nodes: 0, killers: KillerMoves::new(), aborted: false }
    }

    /// Every 1024 nodes, reads the clock; sets the abort flag and answers
    /// true once the deadline has passed.
    fn check_time<F: Fn() -> u64>(&mut self, now: &F) -> (r: bool)
        requires
            call_requires(*now, ()),
        ensures
            final(self).aborted == (old(self).aborted || r),
            final(self).nodes == old(self).nodes,
            final(self).killers == old(self).killers,
            final(self).same_settings(old(self)),
            clock_before(now, old(self).deadline) ==> !r,
    {
        if self.nodes & 1023u64 == 0 {
            let current = now();
            if current >= self.deadline {
                self.aborted = true;
                return true;
            }
        }
        false
    }

    /// Negamax with alpha-beta pruning below the root. Returns 0 once the
    /// search is aborted; otherwise a result that `within_window` relates
    /// to the position's `value`: a lost position scores `mated_score(ply)`
    /// and a leaf its static evaluation. A table entry is reused only for
    /// the very position, ply and depth it was stored for.
    fn negamax<F: Fn() -> u64>(
        &mut self,
        tt: &mut TranspositionTable,
        zobrist: &ZobristKeys,
        occupied: u64,
        side: Side,
        hash: u64,
        depth: u32,
        alpha: i32,
        beta: i32,
        ply: u32,
        now: &F,
    ) -> (r: i32)
        requires
            old(self).wf(),
            !old(self).aborted,
            old(tt).wf(),
            table_sound(old(tt).slots()),
            call_requires(*now, ()),
            -INF <= alpha < beta <= INF,
            ply + depth <= u32::MAX,
        ensures
            final(self).wf(),
            final(tt).wf(),
            table_sound(final(tt).slots()),
            final(self).same_settings(old(self)),
            -INF <= r <= INF,
            clock_before(now, old(self).deadline) ==> !final(self).aborted,
            final(self).aborted ==> r == 0,
            !final(self).aborted ==> within_window(
                r as int,
                alpha as int,
                beta as int,
                value(occupied, side, depth as nat, ply),
            ),
            !final(self).aborted && legal_count(occupied, side, 64) == 0 ==> r == mated_score(ply),
            !final(self).aborted && legal_count(occupied, side, 64) > 0 && depth == 0 ==> r
                == evaluation(occupied, side),
        decreases depth,
    {
        self.nodes = self.nodes.wrapping_add(1);
        if self.check_time(now) {
            return 0;
        }
        let my_moves = count_moves(occupied, side);
        if my_moves == 0 {
            let p: i32 = if ply < 64 {
                ply as i32
            } else {
                64
            };
            return -MATE_SCORE + p;
        }
        if depth == 0 {
            return evaluate(occupied, side);
        }
        let ghost v = value(occupied, side, depth as nat, ply);
        let ghost d1 = (depth - 1) as nat;
        let ghost la = legal_anchors(occupied, side, 64);
        assert(v == best_of(occupied, side, d1, ply, la));
        let tt_move = tt.get_tt_move(hash);
        match tt.probe_position(hash, occupied, side, ply, depth) {
            Some(entry) => {
                proof {
                    let b = crate::domino_tt::bucket(hash, old(tt).slots().len());
                    assert(entry_sound(old(tt).slots()[b]));
                }
                let score = entry.score as i32;
                match entry.flag {
                    TTFlag::Exact => {
                        return score;
                    },
                    TTFlag::Lower => {
                        if score >= beta {
                            return score;
                        }
                    },
                    TTFlag::Upper => {
                        if score <= alpha {
                            return score;
                        }
                    },
                }
            },
            None => {},
        }
        let moves = generate_moves(occupied, side);
        proof {
            lemma_legal_anchors(occupied, side, 64);
        }
        let ordered = self.order_moves(occupied, &moves, side, tt_move, ply as usize);
        let mut best_move: Option<u8> = None;
        let mut best_score: i32 = -INF;
        let alpha_start = alpha;
        let mut alpha = alpha;
        let mut cut = false;
        let mut i: usize = 0;
        while i < ordered.len() && !cut
            invariant
                self.wf(),
                !self.aborted,
                tt.wf(),
                table_sound(tt.slots()),
                self.same_settings(old(self)),
                call_requires(*now, ()),
                clock_before(now, old(self).deadline) ==> !self.aborted,
                -INF <= alpha_start < beta <= INF,
                alpha == if best_score > alpha_start {
                    best_score
                } else {
                    alpha_start
                },
                -INF <= best_score <= INF,
                ply + depth <= u32::MAX,
                depth >= 1,
                d1 == depth - 1,
                i <= ordered@.len(),
                forall|k: int|
                    0 <= k < ordered@.len() ==> is_legal_anchor(occupied, side, #[trigger] ordered@[k] as u64),
                !cut ==> alpha < beta,
                !cut ==> forall|k: int|
                    0 <= k < i ==> reply(occupied, side, d1, ply, #[trigger] ordered@[k]) <= best_score,
                !cut && best_score > alpha_start ==> exists|k: int|
                    0 <= k < i && reply(occupied, side, d1, ply, #[trigger] ordered@[k]) == best_score,
                cut ==> best_score >= beta && exists|k: int|
                    0 <= k < i && reply(occupied, side, d1, ply, #[trigger] ordered@[k]) >= best_score,
            decreases ordered@.len() - i + if cut {
                0int
            } else {
                1int
            },
        {
            let mv = ordered[i];
            assert(is_legal_anchor(occupied, side, ordered@[i as int] as u64));
            let new_occupied = apply_move(occupied, mv, side);
            let new_hash = zobrist.update_hash(hash, mv, side);
            proof {
                assert(new_occupied == occupied | domino_bits(mv as u64, side));
            }
            let child = self.negamax(
                tt,
                zobrist,
                new_occupied,
                side.opposite(),
                new_hash,
                depth - 1,
                -beta,
                -alpha,
                ply + 1,
                now,
            );
            if self.aborted {
                return 0;
            }
            let score = -child;
            let ghost f = reply(occupied, side, d1, ply, mv);
            let ghost prev_best = best_score;
            proof {
                assert(f == -value(new_occupied, side.flip(), d1, (ply + 1) as u32));
                assert(score >= beta ==> f >= score);
                assert(score <= alpha ==> f <= score);
                assert(alpha < score < beta ==> f == score);
            }
            if score > best_score {
                best_score = score;
                best_move = Some(mv);
            }
            if score > alpha {
                alpha = score;
            }
            if alpha >= beta {
                self.killers.add(ply as usize, mv);
                cut = true;
                proof {
                    assert(reply(occupied, side, d1, ply, ordered@[i as int]) >= best_score);
                }
            } else {
                proof {
                    assert(reply(occupied, side, d1, ply, ordered@[i as int]) <= best_score);
                    if best_score > alpha_start && best_score != prev_best {
                        assert(reply(occupied, side, d1, ply, ordered@[i as int]) == best_score);
                    }
                }
            }
            i = i + 1;
        }
        proof {
            lemma_best_of_facts(occupied, side, d1, ply, la);
            assert(ordered@.len() == la.len()) by {
                assert(ordered@.to_multiset().len() == la.to_multiset().len());
            }
            if cut {
                let k = choose|k: int|
                    0 <= k < i && reply(occupied, side, d1, ply, ordered@[k]) >= best_score;
                let x = ordered@[k];
                assert(ordered@.contains(x));
                assert(la.to_multiset().count(x) > 0);
                assert(la.contains(x));
                let w = choose|w: int| 0 <= w < la.len() && la[w] == x;
                assert(v >= best_score);
            } else {
                assert forall|k: int| 0 <= k < la.len() implies reply(
                    occupied,
                    side,
                    d1,
                    ply,
                    #[trigger] la[k],
                ) <= best_score by {
                    let x = la[k];
                    assert(la.contains(x));
                    assert(ordered@.to_multiset().count(x) > 0);
                    assert(ordered@.contains(x));
                }
                lemma_best_of_at_most(occupied, side, d1, ply, la, best_score as int);
                if best_score > alpha_start {
                    let k = choose|k: int|
                        0 <= k < i && reply(occupied, side, d1, ply, ordered@[k]) == best_score;
                    let x = ordered@[k];
                    assert(ordered@.contains(x));
                    assert(la.to_multiset().count(x) > 0);
                    assert(la.contains(x));
                }
            }
        }
        let flag = if best_score <= alpha_start {
            TTFlag::Upper
        } else if best_score >= beta {
            TTFlag::Lower
        } else {
            TTFlag::Exact
        };
        if depth <= 255 {
            let e = TTEntry {
                key: hash,
                best_move: match best_move {
                    Some(m) => m,
                    None => 255,
                },
                depth: depth as u8,
                flag,
                age: self.age,
                score: best_score as i16,
                position: Some(Placement { occupied, side, ply }),
            };
            proof {
                assert(entry_sound(e));
            }
            let ghost before = tt.slots();
            tt.store_entry(e);
            proof {
                assert forall|j: int| 0 <= j < tt.slots().len() implies entry_sound(
                    #[trigger] tt.slots()[j],
                ) by {
                    assert(tt.slots()[j] == before[j] || tt.slots()[j] == e);
                    if tt.slots()[j] == before[j] {
                        assert(entry_sound(before[j]));
                    }
                }
            }
        }
        best_score
    }

    /// The moves in search order: the table's move first, then killer moves,
    /// then by `score_move_for_ordering`.
    fn order_moves(
        &self,
        occupied: u64,
        moves: &Vec<u8>,
        side: Side,
        tt_move: Option<u8>,
        ply: usize,
    ) -> (r: Vec<u8>)
        requires
            self.wf(),
            forall|k: int| 0 <= k < moves@.len() ==> #[trigger] moves@[k] < 64,
        ensures
            r@.len() == moves@.len(),
            r@.to_multiset() == moves@.to_multiset(),
            forall|k: int| 0 <= k < r@.len() ==> moves@.contains(#[trigger] r@[k]),
            forall|i: int, j: int|
                0 <= i < j < r@.len() ==> move_rank(self.killers.moves@, occupied, side, tt_move, ply, r@[i])
                    >= move_rank(self.killers.moves@, occupied, side, tt_move, ply, r@[j]),
    {
        let mut scored: Vec<(u8, i32)> = Vec::new();
        let mut i: usize = 0;
        while i < moves.len()
            invariant
                self.wf(),
                i <= moves@.len(),
                forall|k: int| 0 <= k < moves@.len() ==> #[trigger] moves@[k] < 64,
                scored@.len() == i,
                forall|k: int|
                    0 <= k < i ==> (#[trigger] scored@[k]).0 == moves@[k] && scored@[k].1 == move_rank(
                        self.killers.moves@,
                        occupied,
                        side,
                        tt_move,
                        ply,
                        moves@[k],
                    ),
            decreases moves@.len() - i,
        {
            let mv = moves[i];
            let mut score: i32 = 0;
            if holds(tt_move, mv) {
                score = score + 10_000_000;
            }
            if self.killers.is_killer(ply, mv) {
                score = score + 1_000_000;
            }
            if score == 0 {
                score = score_move_for_ordering(occupied, mv, side);
            }
            scored.push((mv, score));
            i = i + 1;
        }
        let sorted = sort_by_score_desc(&scored);
        proof {
            assert(firsts(scored@) =~= moves@);
            lemma_firsts_multiset(sorted@, scored@);
        }
        let mut r: Vec<u8> = Vec::new();
        let mut j: usize = 0;
        while j < sorted.len()
            invariant
                j <= sorted@.len(),
                sorted@.len() == moves@.len(),
                scored@.len() == moves@.len(),
                sorted@.to_multiset() == scored@.to_multiset(),
                forall|k: int| 0 <= k < scored@.len() ==> (#[trigger] scored@[k]).0 == moves@[k],
                r@.len() == j,
                forall|k: int| 0 <= k < j ==> moves@.contains(#[trigger] r@[k]),
                forall|k: int| 0 <= k < j ==> #[trigger] r@[k] == sorted@[k].0,
            decreases sorted@.len() - j,
        {
            let e = sorted[j];
            assert(scored@.contains(e)) by {
                assert(sorted@.contains(e));
                assert(sorted@.to_multiset().count(e) > 0);
            }
            proof {
                let w = choose|w: int| 0 <= w < scored@.len() && scored@[w] == e;
                assert(moves@[w] == e.0);
            }
            r.push(e.0);
            j = j + 1;
        }
        proof {
            assert(r@ =~= firsts(sorted@));
            assert forall|k: int| 0 <= k < sorted@.len() implies (#[trigger] sorted@[k]).1 == move_rank(
                self.killers.moves@,
                occupied,
                side,
                tt_move,
                ply,
                sorted@[k].0,
            ) by {
                let e = sorted@[k];
                assert(sorted@.contains(e));
                assert(sorted@.to_multiset().count(e) > 0);
                assert(scored@.contains(e));
            }
        }
        r
    }

    /// One depth at the root: every legal move is searched with the full
    /// window, after ordering by the previous depth's ranking `prev` and the
    /// ordering heuristic. Returns the best score and the moves with their
    /// scores, best first; with no legal move, the mated score and no moves.
    fn search_root<F: Fn() -> u64>(
        &mut self,
        tt: &mut TranspositionTable,
        zobrist: &ZobristKeys,
        occupied: u64,
        side: Side,
        depth: u32,
        prev: &Vec<(u8, i32)>,
        now: &F,
    ) -> (r: (i32, u8, Vec<(u8, i32)>))
        requires
            old(self).wf(),
            !old(self).aborted,
            old(tt).wf(),
            table_sound(old(tt).slots()),
            call_requires(*now, ()),
            depth >= 1,
            prev@.len() <= 64,
        ensures
            final(self).wf(),
            final(tt).wf(),
            table_sound(final(tt).slots()),
            final(self).same_settings(old(self)),
            -INF <= r.0 <= INF,
            clock_before(now, old(self).deadline) ==> !final(self).aborted,
            r.2@.len() <= 64,
            forall|k: int|
                0 <= k < r.2@.len() ==> is_legal_anchor(occupied, side, (#[trigger] r.2@[k]).0 as u64)
                    && -32768 <= r.2@[k].1 <= 32768,
            !final(self).aborted && legal_count(occupied, side, 64) > 0 ==> {
                &&& r.0 == value(occupied, side, depth as nat, 0)
                &&& is_legal_anchor(occupied, side, r.1 as u64)
                &&& r.0 > -INF ==> reply(occupied, side, (depth - 1) as nat, 0, r.1) == r.0
            },
            legal_count(occupied, side, 64) == 0 ==> r.0 == -MATE_SCORE && r.2@.len() == 0
                && !final(self).aborted && final(tt).slots() == old(tt).slots(),
            !final(self).aborted && legal_count(occupied, side, 64) > 0 ==> {
                &&& r.2@.len() == legal_count(occupied, side, 64)
                &&& firsts(r.2@).to_multiset() == legal_anchors(occupied, side, 64).to_multiset()
                &&& sorted_desc(r.2@)
                &&& forall|k: int| 0 <= k < r.2@.len() ==> (#[trigger] r.2@[k]).1 <= r.0
                &&& r.0 == if r.2@[0].1 > -INF {
                    r.2@[0].1 as int
                } else {
                    -INF as int
                }
            },
    {
        let moves = generate_moves(occupied, side);
        proof {
            lemma_legal_anchors(occupied, side, 64);
        }
        if moves.len() == 0 {
            return (-MATE_SCORE, 0, Vec::new());
        }
        let mut scored: Vec<(u8, i32)> = Vec::new();
        let mut i: usize = 0;
        while i < moves.len()
            invariant
                i <= moves@.len(),
                moves@ == legal_anchors(occupied, side, 64),
                forall|k: int|
                    0 <= k < moves@.len() ==> #[trigger] moves@[k] < 64 && is_legal_anchor(
                        occupied,
                        side,
                        moves@[k] as u64,
                    ),
                scored@.len() == i,
                forall|k: int|
                    0 <= k < i ==> (#[trigger] scored@[k]).0 == moves@[k] && -7000 <= scored@[k].1
                        <= 100000,
            decreases moves@.len() - i,
        {
            let mv = moves[i];
            scored.push((mv, score_move_for_ordering(occupied, mv, side)));
            i = i + 1;
        }
        let mut p: usize = 0;
        while p < prev.len()
            invariant
                p <= prev@.len(),
                prev@.len() <= 64,
                scored@.len() == moves@.len(),
                forall|k: int|
                    0 <= k < scored@.len() ==> (#[trigger] scored@[k]).0 == moves@[k] && -7000
                        <= scored@[k].1 <= 100000 + 1_000_000 * p,
            decreases prev@.len() - p,
        {
            let mv = prev[p].0;
            let mut q: usize = 0;
            while q < scored.len() && scored[q].0 != mv
                invariant
                    q <= scored@.len(),
                decreases scored@.len() - q,
            {
                q = q + 1;
            }
            if q < scored.len() {
                let e = scored[q];
                scored.set(q, (e.0, e.1 + 1_000_000 - (p as i32) * 1000));
            }
            p = p + 1;
        }
        let ordered = sort_by_score_desc(&scored);
        let ghost d1 = (depth - 1) as nat;
        let ghost la = legal_anchors(occupied, side, 64);
        let mut alpha: i32 = -INF;
        let beta: i32 = INF;
        let mut ranked: Vec<(u8, i32)> = Vec::new();
        let mut best_mv: u8 = ordered[0].0;
        proof {
            let e = ordered@[0];
            assert(ordered@.contains(e));
            assert(ordered@.to_multiset().count(e) > 0);
            assert(scored@.contains(e));
            let w = choose|w: int| 0 <= w < scored@.len() && scored@[w] == e;
            assert(moves@[w] == e.0);
            assert(la.contains(e.0));
        }
        let mut j: usize = 0;
        while j < ordered.len()
            invariant
                self.wf(),
                !self.aborted,
                tt.wf(),
                self.same_settings(old(self)),
                call_requires(*now, ()),
                clock_before(now, old(self).deadline) ==> !self.aborted,
                depth >= 1,
                j <= ordered@.len(),
                ordered@.len() == moves@.len(),
                moves@.len() <= 64,
                moves@.len() == legal_count(occupied, side, 64),
                moves@.len() > 0,
                ordered@.to_multiset() == scored@.to_multiset(),
                scored@.len() == moves@.len(),
                forall|k: int| 0 <= k < scored@.len() ==> (#[trigger] scored@[k]).0 == moves@[k],
                forall|k: int|
                    0 <= k < moves@.len() ==> is_legal_anchor(occupied, side, #[trigger] moves@[k] as u64),
                -INF <= alpha <= INF,
                beta == INF,
                table_sound(tt.slots()),
                d1 == depth - 1,
                moves@ == la,
                is_legal_anchor(occupied, side, best_mv as u64),
                la.contains(best_mv),
                alpha > -INF ==> reply(occupied, side, d1, 0, best_mv) == alpha,
                forall|k: int| 0 <= k < j ==> reply(occupied, side, d1, 0, #[trigger] ordered@[k].0) <= alpha,
                ranked@.len() == j,
                forall|k: int| 0 <= k < j ==> (#[trigger] ranked@[k]).0 == ordered@[k].0,
                alpha == -INF || exists|k: int| 0 <= k < j && ranked@[k].1 == alpha,
                forall|k: int|
                    0 <= k < j ==> is_legal_anchor(occupied, side, (#[trigger] ranked@[k]).0 as u64)
                        && -32768 <= ranked@[k].1 <= alpha,
            decreases ordered@.len() - j,
        {
            let e = ordered[j];
            proof {
                assert(ordered@.contains(e));
                assert(ordered@.to_multiset().count(e) > 0);
                assert(scored@.contains(e));
                let w = choose|w: int| 0 <= w < scored@.len() && scored@[w] == e;
                assert(moves@[w] == e.0);
            }
            let mv = e.0;
            proof {
                let w = choose|w: int| 0 <= w < scored@.len() && scored@[w] == e;
                assert(la[w] == mv);
            }
            let new_occupied = apply_move(occupied, mv, side);
            let hash = zobrist.hash(new_occupied, side.opposite());
            let a: i32 = if alpha < INF {
                alpha
            } else {
                INF - 1
            };
            let child = self.negamax(
                tt,
                zobrist,
                new_occupied,
                side.opposite(),
                hash,
                depth - 1,
                -beta,
                -a,
                1,
                now,
            );
            if self.aborted {
                return (alpha, best_mv, ranked);
            }
            let score = -child;
            proof {
                let f = reply(occupied, side, d1, 0, mv);
                assert(new_occupied == occupied | domino_bits(mv as u64, side));
                lemma_value_bounds(new_occupied, side.flip(), d1, 1);
                assert(f <= INF && f >= -INF);
                assert(score <= alpha ==> f <= score);
                assert(score > alpha ==> f == score);
            }
            let ghost prev_alpha = alpha;
            let ghost prev_ranked = ranked@;
            ranked.push((mv, score));
            if score > alpha {
                alpha = score;
                best_mv = mv;
            }
            proof {
                if alpha == score {
                    assert(ranked@[j as int].1 == alpha);
                } else if alpha != -INF {
                    let k = choose|k: int| 0 <= k < j && prev_ranked[k].1 == prev_alpha;
                    assert(ranked@[k] == prev_ranked[k]);
                    assert(ranked@[k].1 == alpha);
                }
            }
            j = j + 1;
        }
        let sorted = sort_by_score_desc(&ranked);
        proof {
            let v = value(occupied, side, depth as nat, 0);
            assert(v == best_of(occupied, side, d1, 0, la));
            lemma_best_of_facts(occupied, side, d1, 0, la);
            assert(ordered@.len() == la.len());
            assert forall|k: int| 0 <= k < la.len() implies reply(occupied, side, d1, 0, #[trigger] la[k])
                <= alpha by {
                let e = scored@[k];
                assert(scored@.contains(e));
                assert(scored@.to_multiset().count(e) > 0);
                assert(ordered@.contains(e));
                let q = choose|q: int| 0 <= q < ordered@.len() && ordered@[q] == e;
                assert(reply(occupied, side, d1, 0, ordered@[q].0) <= alpha);
            }
            lemma_best_of_at_most(occupied, side, d1, 0, la, alpha as int);

        }
        proof {
            assert(firsts(scored@) =~= moves@);
            lemma_firsts_multiset(ordered@, scored@);
            assert(firsts(ranked@) =~= firsts(ordered@));
            lemma_firsts_multiset(sorted@, ranked@);
            if alpha != -INF {
                let k = choose|k: int| 0 <= k < ranked@.len() && ranked@[k].1 == alpha;
                let e = ranked@[k];
                assert(ranked@.contains(e));
                assert(ranked@.to_multiset().count(e) > 0);
                assert(sorted@.contains(e));
                let w = choose|w: int| 0 <= w < sorted@.len() && sorted@[w] == e;
                assert(sorted@[0].1 >= e.1);
            }
            let f = sorted@[0];
            assert(sorted@.contains(f));
            assert(sorted@.to_multiset().count(f) > 0);
            assert(ranked@.contains(f));
        }
        proof {
            assert forall|k: int| 0 <= k < sorted@.len() implies is_legal_anchor(
                occupied,
                side,
                (#[trigger] sorted@[k]).0 as u64,
            ) && -32768 <= sorted@[k].1 <= alpha by {
                let e = sorted@[k];
                assert(sorted@.contains(e));
                assert(sorted@.to_multiset().count(e) > 0);
                assert(ranked@.contains(e));
            }
        }
        (alpha, best_mv, sorted)
    }

    /// Searches depth 1, 2, ... up to the depth limit, keeping the result of
    /// the last depth that completed before the deadline. With `top_n > 0`,
    /// the move may then be drawn among the first `top_n` moves of that
    /// depth whose score is within `score_delta` of the best score (see
    /// `pick_near_best`), with the node count as entropy.
    pub fn iterative_deepening<F: Fn() -> u64>(
        &mut self,
        tt: &mut TranspositionTable,
        zobrist: &ZobristKeys,
        occupied: u64,
        side: Side,
        top_n: u32,
        score_delta: i32,
        now: &F,
    ) -> (r: SearchResult)
        requires
            old(self).wf(),
            old(tt).wf(),
            table_sound(old(tt).slots()),
            call_requires(*now, ()),
        ensures
            final(self).wf(),
            final(tt).wf(),
            table_sound(final(tt).slots()),
            r.depth_reached <= old(self).depth_limit(),
            r.tt_hits == final(tt).hit_count(),
            r.tt_probes == final(tt).probe_count(),
            forall|m: u8| r.best_move == Some(m) ==> is_legal_anchor(occupied, side, m as u64),
            legal_count(occupied, side, 64) == 0 ==> r.best_move is None && r.score == -MATE_SCORE
                && r.depth_reached == 0 && final(tt).slots() == old(tt).slots(),
            legal_count(occupied, side, 64) > 0 && r.depth_reached > 0 ==> r.best_move is Some,
            legal_count(occupied, side, 64) > 0 && clock_before(now, old(self).deadline_ms())
                ==> r.depth_reached == old(self).depth_limit(),
            top_n == 0 && r.depth_reached > 0 ==> r.score == value(
                occupied,
                side,
                r.depth_reached as nat,
                0,
            ),
            forall|m: u8|
                top_n == 0 && r.depth_reached > 0 && r.best_move == Some(m) && r.score > -INF
                    ==> reply(occupied, side, (r.depth_reached - 1) as nat, 0, m) == r.score,
            forall|m: u8|
                top_n > 0 && r.depth_reached > 0 && r.best_move == Some(m) ==> (r.score == value(
                    occupied,
                    side,
                    r.depth_reached as nat,
                    0,
                ) && (r.score > -INF ==> reply(occupied, side, (r.depth_reached - 1) as nat, 0, m)
                    == r.score)) || exists|cands: Seq<(u8, i32)>|
                    #[trigger] cheap_pick(cands, top_n, score_delta, m, occupied, side),
    {
        if count_moves(occupied, side) == 0 {
            return SearchResult {
                best_move: None,
                score: -MATE_SCORE,
                depth_reached: 0,
                nodes_searched: self.nodes,
                tt_hits: tt.hits(),
                tt_probes: tt.probes(),
            };
        }
        let mut best_move: Option<u8> = None;
        let mut best_score: i32 = -INF;
        let mut depth_reached: u32 = 0;
        let mut root_moves: Vec<(u8, i32)> = Vec::new();
        let ghost mut searched: u8 = 0;
        let mut depth: u32 = 0;
        let mut stopped = false;
        while depth < self.max_depth && !stopped
            invariant
                self.wf(),
                tt.wf(),
                self.same_settings(old(self)),
                call_requires(*now, ()),
                depth <= self.max_depth,
                depth_reached <= depth,
                stopped ==> !clock_before(now, old(self).deadline),
                !stopped ==> depth_reached == depth,
                -INF <= best_score <= INF,
                root_moves@.len() <= 64,
                table_sound(tt.slots()),
                legal_count(occupied, side, 64) > 0,
                depth_reached > 0 ==> best_move == Some(searched) && best_score == value(
                    occupied,
                    side,
                    depth_reached as nat,
                    0,
                ) && (best_score > -INF ==> reply(occupied, side, (depth_reached - 1) as nat, 0, searched)
                    == best_score),
                forall|k: int|
                    0 <= k < root_moves@.len() ==> is_legal_anchor(
                        occupied,
                        side,
                        (#[trigger] root_moves@[k]).0 as u64,
                    ) && -32768 <= root_moves@[k].1 <= 32768,
                forall|m: u8| best_move == Some(m) ==> is_legal_anchor(occupied, side, m as u64),
                legal_count(occupied, side, 64) > 0 && depth_reached > 0 ==> best_move is Some
                    && root_moves@.len() > 0,
            decreases self.max_depth - depth + if stopped {
                0int
            } else {
                1int
            },
        {
            self.aborted = false;
            let (score, mv, ranked) = self.search_root(
                tt,
                zobrist,
                occupied,
                side,
                depth + 1,
                &root_moves,
                now,
            );
            if self.aborted {
                stopped = true;
            } else {
                depth = depth + 1;
                depth_reached = depth;
                best_score = score;
                root_moves = ranked;
                best_move = Some(mv);
                proof {
                    searched = mv;
                }
            }
        }
        if top_n > 0 && root_moves.len() > 0 {
            let k: usize = if (top_n as usize) < root_moves.len() {
                top_n as usize
            } else {
                root_moves.len()
            };
            let mut scored: Vec<(u8, i32)> = Vec::new();
            let mut i: usize = 0;
            while i < k
                invariant
                    k <= root_moves@.len(),
                    i <= k,
                    forall|q: int|
                        0 <= q < root_moves@.len() ==> is_legal_anchor(
                            occupied,
                            side,
                            (#[trigger] root_moves@[q]).0 as u64,
                        ),
                    scored@.len() == i,
                    forall|q: int|
                        0 <= q < i ==> (#[trigger] scored@[q]).0 == root_moves@[q].0 && -7000
                            <= scored@[q].1 <= 100000 && scored@[q].1 == ordering_score(
                            occupied,
                            scored@[q].0,
                            side,
                        ),
                decreases k - i,
            {
                let m = root_moves[i].0;
                assert(is_legal_anchor(occupied, side, root_moves@[i as int].0 as u64));
                scored.push((m, score_move_for_ordering(occupied, m, side)));
                i = i + 1;
            }
            let ranked = sort_by_score_desc(&scored);
            proof {
                assert forall|q: int| 0 <= q < ranked@.len() implies -100_000_000 <= #[trigger] ranked@[q].1
                    <= 100_000_000 && is_legal_anchor(occupied, side, ranked@[q].0 as u64) by {
                    let e = ranked@[q];
                    assert(ranked@.contains(e));
                    assert(ranked@.to_multiset().count(e) > 0);
                    assert(scored@.contains(e));
                    let w = choose|w: int| 0 <= w < scored@.len() && scored@[w] == e;
                    assert(is_legal_anchor(occupied, side, root_moves@[w].0 as u64));
                }
            }
            let top = ranked[0];
            match pick_near_best(&ranked, k as u32, top.1, score_delta, self.nodes) {
                Some(c) => {
                    proof {
                        let near = crate::ordering::near_best(ranked@, k as int, top.1, score_delta);
                        crate::ordering::lemma_near_best_contained(ranked@, k as int, top.1, score_delta);
                        let idx = (self.nodes as int) % (near.len() as int);
                        assert(c == near[idx]);
                        assert(0 <= idx < near.len());
                        assert(top.1 - near[idx].1 <= score_delta && exists|j: int|
                            0 <= j < k && j < ranked@.len() && ranked@[j] == near[idx]);
                        let j = choose|j: int| 0 <= j < k && j < ranked@.len() && ranked@[j] == c;
                        assert(is_legal_anchor(occupied, side, ranked@[j].0 as u64));
                    }
                    proof {
                        let near = crate::ordering::near_best(ranked@, k as int, top.1, score_delta);
                        let idx = (self.nodes as int) % (near.len() as int);
                        let j = choose|j: int| 0 <= j < k && j < ranked@.len() && ranked@[j] == c;
                        assert forall|q: int| 0 <= q < ranked@.len() implies #[trigger] ranked@[q].1
                            == ordering_score(occupied, ranked@[q].0, side) && is_legal_anchor(
                            occupied,
                            side,
                            ranked@[q].0 as u64,
                        ) by {
                            let e = ranked@[q];
                            assert(ranked@.contains(e));
                            assert(ranked@.to_multiset().count(e) > 0);
                            assert(scored@.contains(e));
                        }
                        assert(ranked@[j].0 == c.0 && ranked@[0].1 - ranked@[j].1 <= score_delta);
                        assert(cheap_pick(ranked@, top_n, score_delta, c.0, occupied, side));
                    }
                    best_move = Some(c.0);
                    let mut q: usize = 0;
                    while q < root_moves.len() && root_moves[q].0 != c.0
                        invariant
                            q <= root_moves@.len(),
                        decreases root_moves@.len() - q,
                    {
                        q = q + 1;
                    }
                    if q < root_moves.len() {
                        best_score = root_moves[q].1;
                    }
                },
                None => {},
            }
        }
        SearchResult {
            best_move,
            score: best_score,
            depth_reached,
            nodes_searched: self.nodes,
            tt_hits: tt.hits(),
            tt_probes: tt.probes(),
        }
    }
}

} // verus!
