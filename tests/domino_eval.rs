use placement_engine::bitboard::Side;
use placement_engine::domino_eval::{
    count_corridors, count_safe_moves, evaluate, score_move_for_ordering, MATE_SCORE,
};

#[test]
fn test_empty_board_eval() {
    // Mobility 56*10 - 56*15, safe moves 32*20 - 32*25, and 8 rows of 6
    // corridor cells at 10 each.
    let score = evaluate(0, Side::Vertical);
    assert_eq!(score, -280 - 160 - 480);
}

#[test]
fn test_winning_position() {
    let occupied = !0u64;
    let score = evaluate(occupied, Side::Vertical);
    assert!(score <= -MATE_SCORE + 100);
}

#[test]
fn test_safe_moves() {
    let vertical_safe = count_safe_moves(0, Side::Vertical);
    let horizontal_safe = count_safe_moves(0, Side::Horizontal);
    assert_eq!(vertical_safe, 32);
    assert_eq!(horizontal_safe, 32);
}

#[test]
fn corridors_of_empty_and_split_rows() {
    assert_eq!(count_corridors(0, Side::Horizontal), 48);
    // A filled cell in the middle of row 0 splits it into runs of 3 and 4.
    let occupied = 1u64 << 3;
    assert_eq!(count_corridors(occupied, Side::Horizontal), 42 + 1 + 2);
    assert_eq!(count_safe_moves(occupied, Side::Horizontal), 28 + 1 + 2);
}

#[test]
fn opponent_without_moves_is_a_win() {
    // Only a vertical pair is left: the horizontal side has no move.
    let occupied = !((1u64 << 0) | (1u64 << 8));
    assert_eq!(evaluate(occupied, Side::Vertical), MATE_SCORE);
    assert_eq!(evaluate(occupied, Side::Horizontal), -MATE_SCORE);
}

#[test]
fn ordering_scores() {
    // Taking the last vertical pair leaves the opponent without moves.
    let occupied = !((1u64 << 0) | (1u64 << 8));
    assert_eq!(score_move_for_ordering(occupied, 0, Side::Vertical), 100000);
    // Empty board, central vertical domino at 27: 52 horizontal and 53
    // vertical moves remain; distance 1 from the centre.
    assert_eq!(score_move_for_ordering(0, 27, Side::Vertical), -52 * 100 + 53 * 50 - 5);
}
