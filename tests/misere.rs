use placement_engine::misere_engine::QuelhasEngine;
use placement_engine::misere_eval::{cheap_move_score, evaluate_misere, Metrics};
use placement_engine::misere_search::{Searcher, MATE};
use placement_engine::misere_tt::{TTEntry, TranspositionTable};
use placement_engine::misere_zobrist::ZobristKeys;
use placement_engine::occupancy::{apply_move, encode_move, generate_moves_dynamic, Occupancy};
use placement_engine::splitmix::splitmix64;

fn never() -> u64 {
    0
}

fn board_with_empty(cells: &[usize]) -> Occupancy {
    let mut occ = Occupancy { low: u64::MAX, high: (1u64 << 36) - 1 };
    for &c in cells {
        if c < 64 {
            occ.low &= !(1u64 << c);
        } else {
            occ.high &= !(1u64 << (c - 64));
        }
    }
    occ
}

#[test]
fn empty_board_evaluation() {
    // Ten runs of ten each way, none exclusive: 10 * 30 for the opponent's
    // runs, minus 10 * 10 for the mover's.
    assert_eq!(evaluate_misere(Occupancy::default(), 0), 200);
    assert_eq!(evaluate_misere(Occupancy::default(), 1), 200);
}

#[test]
fn exclusive_run_evaluation() {
    let occ = board_with_empty(&[0, 1, 2]);
    // Horizontal: one exclusive run of 3 (50 + 225 + 150, efficiency 10).
    assert_eq!(evaluate_misere(occ, 1), 435);
}

#[test]
fn emptying_the_opponent_loses_at_once() {
    let occ = board_with_empty(&[0, 1, 2]);
    assert_eq!(cheap_move_score(occ, encode_move(0, 2, 1), 1), -1_000_000);
}

#[test]
fn cheap_score_is_child_evaluation() {
    let occ = Occupancy::default();
    let m = encode_move(0, 2, 1);
    let child = apply_move(occ, m);
    assert_eq!(cheap_move_score(occ, m, 1), -evaluate_misere(child, 0));
}

/// Whether the side to move wins the misere game with perfect play over the
/// considered moves: a side without a move wins.
fn wins(occ: Occupancy, side: u8) -> bool {
    let moves = generate_moves_dynamic(occ, side);
    moves.is_empty() || moves.into_iter().any(|m| !wins(apply_move(occ, m), 1 - side))
}

#[test]
fn search_agrees_with_exhaustive_play() {
    let boards = [
        board_with_empty(&[0, 1, 2]),
        board_with_empty(&[0, 1, 2, 3]),
        board_with_empty(&[0, 1, 10, 11]),
        board_with_empty(&[0, 1, 2, 10, 11, 12]),
    ];
    for occ in boards {
        for side in [0u8, 1] {
            if generate_moves_dynamic(occ, side).is_empty() {
                continue;
            }
            let mut tt = TranspositionTable::new(1024);
            let keys = ZobristKeys::new();
            let mut searcher = Searcher::new(1, u64::MAX, 10);
            let r = searcher.iterative_deepening(&mut tt, &keys, occ, side, 0, 0, &never);
            let expected = wins(occ, side);
            assert_eq!(r.score > 0, expected);
            let m = r.best_move.unwrap();
            assert!(generate_moves_dynamic(occ, side).contains(&m));
            if expected {
                assert!(!wins(apply_move(occ, m), 1 - side));
            }
        }
    }
}

#[test]
fn misere_terminal_position_reports_no_move() {
    let mut tt = TranspositionTable::new(16);
    let keys = ZobristKeys::new();
    let mut searcher = Searcher::new(1, u64::MAX, 5);
    let full = board_with_empty(&[]);
    let r = searcher.iterative_deepening(&mut tt, &keys, full, 0, 2, 100, &never);
    assert_eq!(r.best_move, None);
    assert_eq!(r.score, -MATE);
    assert_eq!(r.depth_reached, 0);
}

#[test]
fn depths_complete_before_a_far_deadline() {
    let occ = board_with_empty(&[0, 1, 2, 3, 4, 5, 20, 21, 22, 23, 24, 30, 40, 50]);
    for max_depth in 1..=3u32 {
        let mut tt = TranspositionTable::new(1024);
        let keys = ZobristKeys::new();
        let mut searcher = Searcher::new(1, u64::MAX, max_depth);
        let r = searcher.iterative_deepening(&mut tt, &keys, occ, 1, 0, 0, &never);
        assert!(r.depth_reached == max_depth || r.score >= MATE - 1000);
    }
}

#[test]
fn randomized_root_move_is_legal() {
    let mut engine = QuelhasEngine::new(12);
    let r = engine.search(0, 0, 0, 0, 0, 1_000_000, 2, 4, 1_000_000, &never);
    let m = r.best_move.unwrap();
    assert!(generate_moves_dynamic(Occupancy::default(), 0).contains(&m));
    engine.clear_tt();
}

#[test]
fn keys_follow_the_mixing_sequence() {
    let keys = ZobristKeys::new();
    let first = splitmix64(0xC1F6_9D2A);
    assert_eq!(keys.squares[0], first);
    assert_eq!(keys.squares[1], splitmix64(first));
    let occ = board_with_empty(&[]);
    let mut h = 0u64;
    for k in keys.squares.iter() {
        h ^= k;
    }
    assert_eq!(keys.hash(occ, 0), h);
    assert_eq!(keys.hash(occ, 1), h ^ keys.side);
    assert_eq!(keys.hash(Occupancy::default(), 0), 0);
}

#[test]
fn splitmix_value() {
    assert_eq!(splitmix64(0), 0xE220_A839_7B1D_CDAF);
}

#[test]
fn misere_table_policy() {
    let mut tt = TranspositionTable::new(16);
    let e = |key: u64, depth: u8, age: u8, best_move: u16| TTEntry {
        key,
        depth,
        score: 7,
        flag: 0,
        best_move,
        age,
        position: None,
    };
    tt.store(e(0x35, 3, 1, 10));
    tt.store(e(0x35, 5, 1, 20));
    assert_eq!(tt.probe(0x35).unwrap().best_move, 20);
    tt.store(e(0x35, 2, 1, 30));
    assert_eq!(tt.probe(0x35).unwrap().best_move, 20);
    tt.store(e(0x35, 1, 2, 40));
    assert_eq!(tt.probe(0x35).unwrap().best_move, 40);
    // Same bucket, another key: not returned.
    assert!(tt.probe(0x45).is_none());
    tt.clear();
    assert!(tt.probe(0x35).is_none());
}

#[test]
fn default_metrics_are_zero() {
    let m = Metrics::default();
    assert_eq!((m.min, m.max, m.min_excl, m.max_excl), (0, 0, 0, 0));
}

#[test]
fn misere_terminal_search_leaves_table_alone() {
    let mut tt = TranspositionTable::new(16);
    tt.store(TTEntry { key: 9, depth: 4, score: 3, flag: 0, best_move: 7, age: 1, position: None });
    let keys = ZobristKeys::new();
    let mut searcher = Searcher::new(2, u64::MAX, 5);
    let r = searcher.iterative_deepening(&mut tt, &keys, board_with_empty(&[]), 1, 0, 0, &never);
    assert_eq!(r.best_move, None);
    assert_eq!(tt.probe(9).unwrap().best_move, 7);
}

#[test]
fn misere_engine_completes_depths_with_steady_clock() {
    let mut engine = QuelhasEngine::new(12);
    let occ = board_with_empty(&[0, 1, 2, 3, 4, 5, 20, 21, 22]);
    let r = engine.search(
        occ.low as u32,
        (occ.low >> 32) as u32,
        occ.high as u32,
        (occ.high >> 32) as u32,
        1,
        50,
        3,
        0,
        0,
        &|| 7u64,
    );
    assert!(r.best_move.is_some());
    assert!(r.depth_reached == 3 || r.score >= MATE - 1000);
}

/// Plain depth-limited negamax over the considered moves.
fn plain_value(occ: Occupancy, side: u8, depth: u32, ply: i32) -> i32 {
    let moves = generate_moves_dynamic(occ, side);
    if moves.is_empty() {
        return MATE - ply;
    }
    if depth == 0 {
        return evaluate_misere(occ, side);
    }
    moves
        .into_iter()
        .map(|m| -plain_value(apply_move(occ, m), 1 - side, depth - 1, ply + 1))
        .fold(-1_000_000, i32::max)
}

#[test]
fn misere_score_is_the_plain_negamax_value() {
    let occ = board_with_empty(&[0, 1, 2, 3, 10, 11, 20, 21, 22]);
    for side in [0u8, 1] {
        for depth in 1..=3u32 {
            let mut tt = TranspositionTable::new(1024);
            let keys = ZobristKeys::new();
            let mut searcher = Searcher::new(1, u64::MAX, depth);
            let r = searcher.iterative_deepening(&mut tt, &keys, occ, side, 0, 0, &never);
            assert!(r.depth_reached >= 1);
            let d = r.depth_reached;
            assert_eq!(r.score, plain_value(occ, side, d, 0));
            let m = r.best_move.unwrap();
            assert_eq!(-plain_value(apply_move(occ, m), 1 - side, d - 1, 1), r.score);
        }
    }
}
