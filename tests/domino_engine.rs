use placement_engine::domino_engine::{board_from_halves, side_from_number, table_size, DominorioEngine};
use placement_engine::domino_eval::MATE_SCORE;
use placement_engine::bitboard::Side;

#[test]
fn test_engine_creation() {
    let engine = DominorioEngine::new(16);
    assert_eq!(engine.count_moves(0, 0, 0), 56);
    assert_eq!(engine.count_moves(0, 0, 1), 56);
}

#[test]
fn test_game_over() {
    let engine = DominorioEngine::new(16);
    assert!(!engine.is_game_over(0, 0, 0));
    assert!(!engine.is_game_over(0, 0, 1));
}

#[test]
fn full_board_is_over() {
    let mut engine = DominorioEngine::new(4);
    assert!(engine.is_game_over(u32::MAX, u32::MAX, 0));
    assert_eq!(engine.evaluate(u32::MAX, u32::MAX, 1), -MATE_SCORE);
    let r = engine.search(u32::MAX, u32::MAX, 0, 1000, 3, 0, 0, &|| 0u64);
    assert_eq!(r.best_move, None);
    assert_eq!(r.score, -MATE_SCORE);
    engine.clear_tt();
}

#[test]
fn board_halves_and_sides() {
    assert_eq!(board_from_halves(1, 2), (2u64 << 32) | 1);
    assert_eq!(side_from_number(0), Side::Vertical);
    assert_eq!(side_from_number(1), Side::Horizontal);
    assert_eq!(side_from_number(7), Side::Horizontal);
    assert_eq!(table_size(3), 8);
    assert_eq!(table_size(40), 1 << 20);
}

#[test]
fn steady_clock_completes_every_depth() {
    let mut engine = DominorioEngine::new(12);
    let r = engine.search(0, 0, 0, 10, 3, 0, 0, &|| 5u64);
    assert_eq!(r.depth_reached, 3);
    assert!(r.best_move.is_some());
}
