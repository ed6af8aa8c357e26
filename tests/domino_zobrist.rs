use placement_engine::bitboard::{apply_move, Side};
use placement_engine::domino_zobrist::ZobristKeys;

#[test]
fn test_empty_board_hash() {
    let keys = ZobristKeys::new();
    let h1 = keys.hash(0, Side::Vertical);
    let h2 = keys.hash(0, Side::Horizontal);
    assert_ne!(h1, h2);
    assert_eq!(h1, keys.hash(0, Side::Vertical));
}

#[test]
fn test_incremental_hash() {
    let keys = ZobristKeys::new();
    let occupied = (1u64 << 27) | (1u64 << 35);
    let h1 = keys.hash(occupied, Side::Horizontal);
    let h0 = keys.hash(0, Side::Vertical);
    let h2 = keys.update_hash(h0, 27, Side::Vertical);
    assert_eq!(h1, h2);
}

#[test]
fn incremental_hash_agrees_for_horizontal_moves() {
    let keys = ZobristKeys::new();
    let occupied = (1u64 << 27) | (1u64 << 35);
    let after = apply_move(occupied, 12, Side::Horizontal);
    let h = keys.update_hash(keys.hash(occupied, Side::Horizontal), 12, Side::Horizontal);
    assert_eq!(h, keys.hash(after, Side::Vertical));
}

#[test]
fn hash_is_xor_of_filled_keys() {
    let keys = ZobristKeys::new();
    let occupied = (1u64 << 3) | (1u64 << 63);
    assert_eq!(keys.hash(0, Side::Vertical), 0);
    assert_eq!(
        keys.hash(occupied, Side::Horizontal),
        keys.square_keys[3] ^ keys.square_keys[63] ^ keys.side_key
    );
}

#[test]
fn keys_are_not_all_equal() {
    let keys = ZobristKeys::new();
    assert!(keys.square_keys.iter().any(|&k| k != keys.square_keys[0]));
}
