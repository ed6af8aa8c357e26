//! Static evaluation of domino positions, from the side to move.
use vstd::prelude::*;
use crate::bitboard::{
    apply_move, bit_set, count_moves, domino_bits, legal_count, Side,
};

verus! {

/// Bound on every search score.
pub const INF: i32 = 30000;

/// Score of a position whose side to move has lost.
pub const MATE_SCORE: i32 = 29000;

/// Cell at position `pos` of line `line`: lines are columns for the vertical
/// side and rows for the horizontal side.
pub open spec fn cell_at(side: Side, line: int, pos: int) -> int {
    match side {
        Side::Vertical => pos * 8 + line,
        Side::Horizontal => line * 8 + pos,
    }
}

/// Number of empty cells directly before position `pos` of a line.
pub open spec fn run_before(occupied: u64, side: Side, line: int, pos: int) -> nat
    decreases pos,
{
    if pos <= 0 {
        0
    } else if !bit_set(occupied, cell_at(side, line, pos - 1) as u64) {
        run_before(occupied, side, line, pos - 1) + 1
    } else {
        0
    }
}

/// Position `pos` closes the run before it: it is the end of the line or a
/// filled cell.
pub open spec fn closes_run(occupied: u64, side: Side, line: int, pos: int) -> bool {
    pos == 8 || bit_set(occupied, cell_at(side, line, pos) as u64)
}

/// Weight of a maximal empty run of `len` cells: the dominoes it surely
/// holds (`len / 2`), or, for a corridor count, its cells beyond two.
pub open spec fn run_weight(len: nat, corridor: bool) -> nat {
    if corridor {
        if len >= 3 {
            (len - 2) as nat
        } else {
            0
        }
    } else {
        len / 2
    }
}

/// Sum of the weights of the runs closed at positions `0..pos` of a line.
pub open spec fn line_weight(occupied: u64, side: Side, line: int, pos: int, corridor: bool) -> nat
    decreases pos,
{
    if pos <= 0 {
        0
    } else {
        line_weight(occupied, side, line, pos - 1, corridor) + if closes_run(
            occupied,
            side,
            line,
            pos - 1,
        ) {
            run_weight(run_before(occupied, side, line, pos - 1), corridor)
        } else {
            0
        }
    }
}

/// Sum of the run weights over the lines `0..lines`.
pub open spec fn board_weight(occupied: u64, side: Side, lines: int, corridor: bool) -> nat
    decreases lines,
{
    if lines <= 0 {
        0
    } else {
        board_weight(occupied, side, lines - 1, corridor) + line_weight(
            occupied,
            side,
            lines - 1,
            9,
            corridor,
        )
    }
}

/// Dominoes that `side` can surely still place: half of every empty run in
/// its orientation, rounded down.
pub open spec fn safe_moves(occupied: u64, side: Side) -> nat {
    board_weight(occupied, side, 8, false)
}

/// Cells beyond two in every empty run of three or more in the orientation
/// of `side`.
pub open spec fn corridors(occupied: u64, side: Side) -> nat {
    board_weight(occupied, side, 8, true)
}

/// The static score of a position for the side to move.
pub open spec fn evaluation(occupied: u64, side: Side) -> int {
    let my_moves = legal_count(occupied, side, 64);
    let opp_moves = legal_count(occupied, side.flip(), 64);
    if my_moves == 0 {
        -MATE_SCORE
    } else if opp_moves == 0 {
        MATE_SCORE as int
    } else {
        my_moves * 10 - opp_moves * 15 + safe_moves(occupied, side) * 20 - safe_moves(
            occupied,
            side.flip(),
        ) * 25 - corridors(occupied, side.flip()) * 10
    }
}

proof fn lemma_run_before_bound(occupied: u64, side: Side, line: int, pos: int)
    requires
        pos >= 0,
    ensures
        run_before(occupied, side, line, pos) <= pos,
    decreases pos,
{
    if pos > 0 {
        lemma_run_before_bound(occupied, side, line, pos - 1);
    }
}

proof fn lemma_line_weight_bound(occupied: u64, side: Side, line: int, pos: int, corridor: bool)
    requires
        0 <= pos <= 9,
    ensures
        line_weight(occupied, side, line, pos, corridor) <= 8 * pos,
    decreases pos,
{
    if pos > 0 {
        lemma_line_weight_bound(occupied, side, line, pos - 1, corridor);
        lemma_run_before_bound(occupied, side, line, pos - 1);
    }
}

proof fn lemma_board_weight_bound(occupied: u64, side: Side, lines: int, corridor: bool)
    requires
        lines >= 0,
    ensures
        board_weight(occupied, side, lines, corridor) <= 72 * lines,
    decreases lines,
{
    if lines > 0 {
        lemma_board_weight_bound(occupied, side, lines - 1, corridor);
        lemma_line_weight_bound(occupied, side, lines - 1, 9, corridor);
    }
}

/// Every static score lies strictly within the search bounds.
pub proof fn lemma_evaluation_bounds(occupied: u64, side: Side)
    ensures
        -INF < evaluation(occupied, side) < INF,
{
    crate::bitboard::lemma_legal_anchors(occupied, side, 64);
    crate::bitboard::lemma_legal_anchors(occupied, side.flip(), 64);
    lemma_board_weight_bound(occupied, side, 8, false);
    lemma_board_weight_bound(occupied, side.flip(), 8, false);
    lemma_board_weight_bound(occupied, side.flip(), 8, true);
}

fn cell_index(side: Side, line: u64, pos: u64) -> (r: u64)
    requires
        line < 8,
        pos < 8,
    ensures
        r == cell_at(side, line as int, pos as int),
        r < 64,
{
    match side {
        Side::Vertical => pos * 8 + line,
        Side::Horizontal => line * 8 + pos,
    }
}

fn weight_of(len: u32, corridor: bool) -> (r: u32)
    ensures
        r == run_weight(len as nat, corridor),
        r <= len,
{
    if corridor {
        if len >= 3 {
            len - 2
        } else {
            0
        }
    } else {
        len / 2
    }
}

fn sum_run_weights(occupied: u64, side: Side, corridor: bool) -> (r: u32)
    ensures
        r == board_weight(occupied, side, 8, corridor),
        r <= 576,
{
    let mut total: u32 = 0;
    let mut line: u64 = 0;
    while line < 8
        invariant
            line <= 8,
            total == board_weight(occupied, side, line as int, corridor),
            total <= 72 * line,
        decreases 8 - line,
    {
        let ghost start = total;
        let mut run: u32 = 0;
        let mut pos: u64 = 0;
        while pos < 8
            invariant
                line < 8,
                pos <= 8,
                start == board_weight(occupied, side, line as int, corridor),
                start <= 72 * line,
                run == run_before(occupied, side, line as int, pos as int),
                run <= pos,
                total == start + line_weight(occupied, side, line as int, pos as int, corridor),
                total <= start + 8 * pos,
            decreases 8 - pos,
        {
            let idx = cell_index(side, line, pos);
            assert(((occupied >> idx) & 1u64 == 0u64) == !((occupied >> idx) & 1u64 == 1u64))
                by (bit_vector);
            assert(closes_run(occupied, side, line as int, pos as int) == bit_set(occupied, idx));
            if (occupied >> idx) & 1u64 == 0u64 {
                run = run + 1;
            } else {
                total = total + weight_of(run, corridor);
                run = 0;
            }
            pos = pos + 1;
        }
        total = total + weight_of(run, corridor);
        line = line + 1;
    }
    total
}

/// Dominoes that `side` can surely still place (see `safe_moves`).
pub fn count_safe_moves(occupied: u64, side: Side) -> (r: u32)
    ensures
        r == safe_moves(occupied, side),
        r <= 576,
{
    sum_run_weights(occupied, side, false)
}

/// Corridor cells left to `opponent_side` (see `corridors`).
pub fn count_corridors(occupied: u64, opponent_side: Side) -> (r: u32)
    ensures
        r == corridors(occupied, opponent_side),
        r <= 576,
{
    sum_run_weights(occupied, opponent_side, true)
}

/// Static score of the position for `side`, the side to move: positive
/// favours the mover.
pub fn evaluate(occupied: u64, side: Side) -> (r: i32)
    ensures
        r == evaluation(occupied, side),
        -INF < r < INF,
{
    let my_moves = count_moves(occupied, side) as i32;
    let opp_moves = count_moves(occupied, side.opposite()) as i32;
    if my_moves == 0 {
        return -MATE_SCORE;
    }
    if opp_moves == 0 {
        return MATE_SCORE;
    }
    let mobility = my_moves * 10 - opp_moves * 15;
    let my_safe = count_safe_moves(occupied, side) as i32;
    let opp_safe = count_safe_moves(occupied, side.opposite()) as i32;
    let safe = my_safe * 20 - opp_safe * 25;
    let corridor_penalty = count_corridors(occupied, side.opposite()) as i32 * 10;
    mobility + safe - corridor_penalty
}

/// Ordering score of the cell distance from the board's centre.
pub open spec fn centre_distance(anchor: int) -> int {
    let row = anchor / 8;
    let col = anchor % 8;
    (if row >= 3 { row - 3 } else { 3 - row }) + (if col >= 4 { col - 4 } else { 4 - col })
}

/// Ordering score of a move (higher is searched first).
pub open spec fn ordering_score(occupied: u64, anchor: u8, side: Side) -> int {
    let after = occupied | domino_bits(anchor as u64, side);
    let opp_after = legal_count(after, side.flip(), 64);
    if opp_after == 0 {
        100000
    } else {
        -opp_after * 100 + legal_count(after, side, 64) * 50 - centre_distance(anchor as int) * 5
    }
}

/// Ordering heuristic: a move that leaves the opponent without moves comes
/// first; otherwise fewer opponent moves, more own moves and a central
/// anchor score higher.
pub fn score_move_for_ordering(occupied: u64, anchor: u8, side: Side) -> (r: i32)
    requires
        anchor < 64,
    ensures
        r == ordering_score(occupied, anchor, side),
        -7000 <= r <= 100000,
{
    let new_occupied = apply_move(occupied, anchor, side);
    let opp_side = side.opposite();
    let opp_moves_after = count_moves(new_occupied, opp_side) as i32;
    if opp_moves_after == 0 {
        return 100000;
    }
    let my_moves_after = count_moves(new_occupied, side) as i32;
    let mut score = -opp_moves_after * 100 + my_moves_after * 50;
    let row = anchor / 8;
    let col = anchor % 8;
    let dr: i32 = if row >= 3 { row as i32 - 3 } else { 3 - row as i32 };
    let dc: i32 = if col >= 4 { col as i32 - 4 } else { 4 - col as i32 };
    let center_dist = dr + dc;
    score = score - center_dist * 5;
    score
}

} // verus!
