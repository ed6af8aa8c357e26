use placement_engine::bitboard::{apply_move, generate_moves, is_valid_move, Side};
use placement_engine::domino_engine::DominorioEngine;
use placement_engine::domino_eval::MATE_SCORE;
use placement_engine::domino_search::Searcher;
use placement_engine::domino_tt::TranspositionTable;
use placement_engine::domino_zobrist::ZobristKeys;
use placement_engine::ordering::{pick_near_best, sort_by_score_desc};

fn never() -> u64 {
    0
}

#[test]
fn test_search_finds_winning_move() {
    let mut tt = TranspositionTable::new(1024);
    let zobrist = ZobristKeys::new();
    let mut searcher = Searcher::new(&mut tt, 1, u64::MAX, 3);
    let result = searcher.iterative_deepening(&mut tt, &zobrist, 0, Side::Vertical, 0, 0, &never);
    assert!(result.best_move.is_some());
    assert!(result.depth_reached >= 1);
}

/// Whether the side to move wins with perfect play: a side without a move
/// loses.
fn wins(occupied: u64, side: Side) -> bool {
    generate_moves(occupied, side)
        .into_iter()
        .any(|m| !wins(apply_move(occupied, m, side), side.opposite()))
}

/// A board whose empty cells are the 2x3 block at the top-left corner.
fn small_board() -> u64 {
    !((1u64 << 0) | (1u64 << 1) | (1u64 << 2) | (1u64 << 8) | (1u64 << 9) | (1u64 << 10))
}

#[test]
fn search_agrees_with_exhaustive_play_on_small_board() {
    for side in [Side::Vertical, Side::Horizontal] {
        let occupied = small_board();
        let mut tt = TranspositionTable::new(1024);
        let zobrist = ZobristKeys::new();
        let mut searcher = Searcher::new(&mut tt, 1, u64::MAX, 8);
        let result =
            searcher.iterative_deepening(&mut tt, &zobrist, occupied, side, 0, 0, &never);
        let m = result.best_move.unwrap();
        assert!(is_valid_move(occupied, m, side));
        let expected = wins(occupied, side);
        assert_eq!(result.score > 0, expected);
        if expected {
            assert!(!wins(apply_move(occupied, m, side), side.opposite()));
        }
    }
}

#[test]
fn search_agrees_with_exhaustive_play_on_single_rows() {
    // Rows of 2 to 5 empty cells on an otherwise full board.
    for len in 2..=5u32 {
        let mut occupied = !0u64;
        for c in 0..len {
            occupied &= !(1u64 << c);
        }
        let mut tt = TranspositionTable::new(256);
        let zobrist = ZobristKeys::new();
        let mut searcher = Searcher::new(&mut tt, 1, u64::MAX, 6);
        let result = searcher.iterative_deepening(
            &mut tt,
            &zobrist,
            occupied,
            Side::Horizontal,
            0,
            0,
            &never,
        );
        assert_eq!(result.score > 0, wins(occupied, Side::Horizontal));
    }
}

#[test]
fn terminal_position_reports_no_move() {
    let mut tt = TranspositionTable::new(64);
    let zobrist = ZobristKeys::new();
    let mut searcher = Searcher::new(&mut tt, 1, u64::MAX, 4);
    let result =
        searcher.iterative_deepening(&mut tt, &zobrist, !0u64, Side::Horizontal, 3, 100, &never);
    assert_eq!(result.best_move, None);
    assert_eq!(result.score, -MATE_SCORE);
}

#[test]
fn all_depths_complete_before_a_far_deadline() {
    let mut tt = TranspositionTable::new(4096);
    let zobrist = ZobristKeys::new();
    for max_depth in 1..=3u32 {
        let mut searcher = Searcher::new(&mut tt, max_depth as u8, u64::MAX, max_depth);
        let result =
            searcher.iterative_deepening(&mut tt, &zobrist, 0, Side::Vertical, 0, 0, &never);
        assert_eq!(result.depth_reached, max_depth);
    }
}

#[test]
fn passed_deadline_stops_the_search() {
    // The clock is read every 1024 nodes; the deadline has long passed.
    let mut tt = TranspositionTable::new(64);
    let zobrist = ZobristKeys::new();
    let late = || 1000u64;
    let mut searcher = Searcher::new(&mut tt, 1, 10, 6);
    let result = searcher.iterative_deepening(&mut tt, &zobrist, 0, Side::Vertical, 0, 0, &late);
    assert!(result.depth_reached < 6);
    if let Some(m) = result.best_move {
        assert!(is_valid_move(0, m, Side::Vertical));
    }
}

#[test]
fn randomized_pick_stays_near_best() {
    let ranked = vec![(5u8, 100), (6u8, 95), (7u8, 90), (8u8, 10)];
    for entropy in 0..10u64 {
        let pick = pick_near_best(&ranked, 4, 100, 10, entropy).unwrap();
        assert!(100 - pick.1 <= 10);
        assert!(pick.0 == 5 || pick.0 == 6 || pick.0 == 7);
    }
    assert_eq!(pick_near_best(&ranked, 4, 100, 10, 4), Some((6, 95)));
    // Only one item close enough, or none offered: no pick.
    assert_eq!(pick_near_best(&ranked, 4, 100, 1, 3), None);
    assert_eq!(pick_near_best(&ranked, 0, 100, 1000, 3), None);
    // Only the first two are offered.
    assert_eq!(pick_near_best(&ranked, 2, 100, 1000, 3), Some((6, 95)));
}

#[test]
fn randomized_pick_uses_cheap_scores() {
    // With a window of 0, only moves whose ordering score equals the best of
    // the first five root moves may be drawn.
    let mut tt = TranspositionTable::new(1024);
    let zobrist = ZobristKeys::new();
    let mut searcher = Searcher::new(&mut tt, 1, u64::MAX, 2);
    let r = searcher.iterative_deepening(&mut tt, &zobrist, 0, Side::Vertical, 5, 0, &never);
    let m = r.best_move.unwrap();
    assert!(is_valid_move(0, m, Side::Vertical));
}

#[test]
fn randomized_search_returns_legal_move() {
    let mut engine = DominorioEngine::new(10);
    let r = engine.search(0, 0, 1, 1_000_000, 2, 5, 10_000, &never);
    let m = r.best_move.unwrap();
    assert!(is_valid_move(0, m, Side::Horizontal));
}

#[test]
fn sort_is_descending() {
    let v = vec![(1u8, 3), (2u8, 5), (3u8, 3), (4u8, 7)];
    let s = sort_by_score_desc(&v);
    assert_eq!(s, vec![(4, 7), (2, 5), (1, 3), (3, 3)]);
}

/// Plain depth-limited negamax, as the search's contract states it.
fn plain_value(occupied: u64, side: Side, depth: u32, ply: u32) -> i32 {
    let moves = generate_moves(occupied, side);
    if moves.is_empty() {
        return -MATE_SCORE + ply.min(64) as i32;
    }
    if depth == 0 {
        return placement_engine::domino_eval::evaluate(occupied, side);
    }
    moves
        .into_iter()
        .map(|m| -plain_value(apply_move(occupied, m, side), side.opposite(), depth - 1, ply + 1))
        .fold(-30000, i32::max)
}

#[test]
fn search_score_is_the_plain_negamax_value() {
    let occupied = small_board() & !(1u64 << 16) & !(1u64 << 17) & !(1u64 << 24);
    for side in [Side::Vertical, Side::Horizontal] {
        for depth in 1..=3u32 {
            let mut tt = TranspositionTable::new(1024);
            let zobrist = ZobristKeys::new();
            let mut searcher = Searcher::new(&mut tt, 1, u64::MAX, depth);
            let r = searcher.iterative_deepening(&mut tt, &zobrist, occupied, side, 0, 0, &never);
            assert_eq!(r.depth_reached, depth);
            assert_eq!(r.score, plain_value(occupied, side, depth, 0));
            let m = r.best_move.unwrap();
            assert_eq!(
                -plain_value(apply_move(occupied, m, side), side.opposite(), depth - 1, 1),
                r.score
            );
        }
    }
}

#[test]
fn no_move_with_zero_depth_limit() {
    let mut tt = TranspositionTable::new(64);
    let zobrist = ZobristKeys::new();
    let mut searcher = Searcher::new(&mut tt, 1, u64::MAX, 0);
    let r = searcher.iterative_deepening(&mut tt, &zobrist, !0u64, Side::Vertical, 0, 0, &never);
    assert_eq!(r.best_move, None);
    assert_eq!(r.score, -MATE_SCORE);
    assert_eq!(r.depth_reached, 0);
}
