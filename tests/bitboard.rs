use placement_engine::bitboard::{
    anchor_to_coords, apply_move, coords_to_anchor, count_moves, generate_moves,
    generate_moves_bb, get_second_cell, is_valid_move, Side, FILE_H, RANK_8,
};

#[test]
fn test_empty_board_moves() {
    assert_eq!(count_moves(0, Side::Vertical), 56);
    assert_eq!(count_moves(0, Side::Horizontal), 56);
}

#[test]
fn test_apply_move_vertical() {
    let occupied = 0u64;
    let anchor = 0;
    let new_occupied = apply_move(occupied, anchor, Side::Vertical);
    assert_eq!(new_occupied, (1u64 << 0) | (1u64 << 8));
}

#[test]
fn test_apply_move_horizontal() {
    let occupied = 0u64;
    let anchor = 0;
    let new_occupied = apply_move(occupied, anchor, Side::Horizontal);
    assert_eq!(new_occupied, (1u64 << 0) | (1u64 << 1));
}

#[test]
fn test_vertical_edge_case() {
    let moves = generate_moves_bb(0, Side::Vertical);
    assert_eq!(moves & RANK_8, 0);
}

#[test]
fn test_horizontal_edge_case() {
    let moves = generate_moves_bb(0, Side::Horizontal);
    assert_eq!(moves & FILE_H, 0);
}

#[test]
fn test_blocking() {
    let occupied = (1u64 << 0) | (1u64 << 8);
    let v_moves = count_moves(occupied, Side::Vertical);
    assert_eq!(v_moves, 54);
    let h_moves = count_moves(occupied, Side::Horizontal);
    assert_eq!(h_moves, 54);
}

#[test]
fn test_move_validity() {
    let occupied = (1u64 << 27) | (1u64 << 35);
    assert!(!is_valid_move(occupied, 27, Side::Vertical));
    assert!(!is_valid_move(occupied, 27, Side::Horizontal));
    assert!(is_valid_move(occupied, 28, Side::Vertical));
    assert!(is_valid_move(occupied, 28, Side::Horizontal));
}

#[test]
fn move_list_matches_count() {
    let occupied = (1u64 << 27) | (1u64 << 35) | (1u64 << 0);
    for side in [Side::Vertical, Side::Horizontal] {
        let moves = generate_moves(occupied, side);
        assert_eq!(moves.len() as u32, count_moves(occupied, side));
        for w in moves.windows(2) {
            assert!(w[0] < w[1]);
        }
        for m in moves {
            assert!(is_valid_move(occupied, m, side));
        }
    }
}

#[test]
fn empty_board_move_list_ends() {
    let v = generate_moves(0, Side::Vertical);
    assert_eq!(v.first(), Some(&0));
    assert_eq!(v.last(), Some(&55));
    let h = generate_moves(0, Side::Horizontal);
    assert_eq!(h.len(), 56);
    assert!(!h.contains(&7));
    assert_eq!(h.last(), Some(&62));
}

#[test]
fn full_board_has_no_moves() {
    assert_eq!(count_moves(!0u64, Side::Vertical), 0);
    assert_eq!(count_moves(!0u64, Side::Horizontal), 0);
    assert!(generate_moves(!0u64, Side::Horizontal).is_empty());
}

#[test]
fn vertical_domino_on_last_row_keeps_only_anchor() {
    assert_eq!(apply_move(0, 60, Side::Vertical), 1u64 << 60);
}

#[test]
fn coordinates_round_trip() {
    assert_eq!(anchor_to_coords(27), (3, 3));
    assert_eq!(anchor_to_coords(63), (7, 7));
    assert_eq!(coords_to_anchor(3, 3), 27);
    assert_eq!(coords_to_anchor(7, 7), 63);
    assert_eq!(get_second_cell(27, Side::Vertical), 35);
    assert_eq!(get_second_cell(27, Side::Horizontal), 28);
    assert_eq!(Side::Vertical.opposite(), Side::Horizontal);
    assert_eq!(Side::Horizontal.opposite(), Side::Vertical);
}
