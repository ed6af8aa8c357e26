use placement_engine::occupancy::{
    apply_move, decode_move, encode_move, estimate_moves_from_runs, extract_runs,
    generate_all_moves, generate_candidate_moves, generate_moves_dynamic, Occupancy, Run,
};

/// Every cell filled but those listed.
fn board_with_empty(cells: &[usize]) -> Occupancy {
    let mut occ = Occupancy { low: u64::MAX, high: (1u64 << 36) - 1 };
    for &c in cells {
        if c < 64 {
            occ.low &= !(1u64 << c);
        } else {
            occ.high &= !(1u64 << (c - 64));
        }
    }
    occ
}

#[test]
fn set_and_query_cells() {
    let mut occ = Occupancy::default();
    assert!(!occ.is_set(5));
    occ.set(5);
    occ.set(70);
    assert!(occ.is_set(5));
    assert!(occ.is_set(70));
    assert!(!occ.is_set(69));
    assert_eq!(occ, Occupancy { low: 1 << 5, high: 1 << 6 });
}

#[test]
fn words_make_a_board() {
    let occ = Occupancy::from_u32_parts(1, 2, 3, 4);
    assert_eq!(occ.low, (2u64 << 32) | 1);
    assert_eq!(occ.high, (4u64 << 32) | 3);
}

#[test]
fn encoding_round_trip() {
    for start in [0u8, 1, 57, 99, 127] {
        for len in [2u8, 5, 10, 15] {
            for orient in [0u8, 1] {
                let m = encode_move(start, len, orient);
                assert_eq!(decode_move(m), (start, len, orient));
            }
        }
    }
    assert_eq!(encode_move(3, 2, 1), 3 + 2 * 128 + 2048);
    assert_eq!(decode_move(0x0fff), (127, 15, 1));
}

#[test]
fn move_fills_its_cells() {
    let occ = Occupancy::default();
    let v = apply_move(occ, encode_move(12, 3, 0));
    assert!(v.is_set(12) && v.is_set(22) && v.is_set(32));
    assert!(!v.is_set(42) && !v.is_set(13));
    let h = apply_move(occ, encode_move(62, 4, 1));
    for c in 62..66 {
        assert!(h.is_set(c));
    }
    assert!(!h.is_set(66));
    assert_eq!(h.low, (1u64 << 62) | (1u64 << 63));
    assert_eq!(h.high, 0b11);
}

#[test]
fn runs_of_empty_board() {
    let occ = Occupancy::default();
    for orient in [0u8, 1] {
        let runs = extract_runs(occ, orient);
        assert_eq!(runs.len(), 10);
        for (i, r) in runs.iter().enumerate() {
            assert_eq!(r.len, 10);
            assert_eq!(r.orient, orient);
            let start = if orient == 0 { i } else { i * 10 };
            assert_eq!(r.start as usize, start);
        }
        assert_eq!(estimate_moves_from_runs(&runs), 450);
    }
}

#[test]
fn short_runs_are_skipped() {
    // Row 0: cells 0-2 and 4 empty; everything else filled.
    let occ = board_with_empty(&[0, 1, 2, 4]);
    let h = extract_runs(occ, 1);
    assert_eq!(h.len(), 1);
    assert_eq!((h[0].start, h[0].len, h[0].orient), (0, 3, 1));
    assert!(extract_runs(occ, 0).is_empty());
    assert!(generate_moves_dynamic(occ, 0).is_empty());
}

#[test]
fn estimate_sums_pairs() {
    let runs = [
        Run { start: 0, len: 3, orient: 1 },
        Run { start: 10, len: 10, orient: 1 },
        Run { start: 0, len: 0, orient: 1 },
    ];
    assert_eq!(estimate_moves_from_runs(&runs), 3 + 45);
    let many = vec![Run { start: 0, len: 255, orient: 0 }; 200_000];
    assert_eq!(estimate_moves_from_runs(&many), u32::MAX);
}

#[test]
fn all_moves_of_a_run() {
    let occ = board_with_empty(&[0, 1, 2]);
    let moves = generate_all_moves(occ, 1);
    assert_eq!(
        moves,
        vec![encode_move(0, 2, 1), encode_move(1, 2, 1), encode_move(0, 3, 1)]
    );
    assert_eq!(generate_moves_dynamic(occ, 1), moves);
    assert_eq!(generate_all_moves(Occupancy::default(), 0).len(), 450);
}

#[test]
fn candidate_moves_of_a_long_run() {
    let occ = Occupancy::default();
    let moves = generate_candidate_moves(occ, 1);
    assert_eq!(moves.len(), 160);
    let first: Vec<(u8, u8)> = moves[..16]
        .iter()
        .map(|&m| {
            let (s, l, _) = decode_move(m);
            (s, l)
        })
        .collect();
    assert_eq!(
        first,
        vec![
            (0, 2), (8, 2), (0, 3), (7, 3), (0, 10), (0, 9), (1, 9), (4, 2),
            (0, 4), (2, 2), (2, 3), (2, 4), (5, 2), (5, 3), (5, 4), (7, 2),
        ]
    );
    // The estimate of 450 exceeds the limit: candidates only.
    assert_eq!(generate_moves_dynamic(occ, 1), moves);
}

#[test]
fn short_runs_give_all_their_moves_as_candidates() {
    let occ = board_with_empty(&[20, 21, 22, 23]);
    assert_eq!(generate_candidate_moves(occ, 1), generate_all_moves(occ, 1));
    assert_eq!(generate_candidate_moves(occ, 1).len(), 6);
}
