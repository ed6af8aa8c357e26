use placement_engine::domino_tt::{TTEntry, TTFlag, TranspositionTable};

#[test]
fn test_tt_store_probe() {
    let mut tt = TranspositionTable::new(1024);
    let key = 0x123456789ABCDEF0;
    tt.store(key, Some(27), 5, TTFlag::Exact, 100, 1);
    let entry = tt.probe(key).unwrap();
    assert_eq!(entry.best_move, 27);
    assert_eq!(entry.depth, 5);
    assert_eq!(entry.score, 100);
    assert_eq!(entry.flag, TTFlag::Exact);
}

#[test]
fn test_tt_miss() {
    let mut tt = TranspositionTable::new(1024);
    assert!(tt.probe(0x123456789ABCDEF0).is_none());
}

#[test]
fn test_tt_replacement() {
    let mut tt = TranspositionTable::new(1024);
    let key = 0x123456789ABCDEF0;
    tt.store(key, Some(10), 3, TTFlag::Exact, 50, 1);
    tt.store(key, Some(20), 5, TTFlag::Exact, 100, 1);
    let entry = tt.probe(key).unwrap();
    assert_eq!(entry.best_move, 20);
    assert_eq!(entry.depth, 5);
}

#[test]
fn shallower_store_of_same_generation_is_dropped() {
    let mut tt = TranspositionTable::new(1024);
    let key = 0x123456789ABCDEF0;
    tt.store(key, Some(20), 5, TTFlag::Exact, 100, 1);
    tt.store(key, Some(10), 3, TTFlag::Lower, 50, 1);
    let entry = tt.probe(key).unwrap();
    assert_eq!(entry.best_move, 20);
    assert_eq!(entry.depth, 5);
}

#[test]
fn new_generation_replaces_deeper_entry() {
    let mut tt = TranspositionTable::new(1024);
    let key = 0x123456789ABCDEF0;
    tt.store(key, Some(20), 9, TTFlag::Exact, 100, 1);
    tt.store(key, None, 2, TTFlag::Upper, -7, 2);
    let entry = tt.probe(key).unwrap();
    assert_eq!(entry.best_move, 255);
    assert_eq!(entry.depth, 2);
    assert_eq!(entry.flag, TTFlag::Upper);
    assert_eq!(entry.score, -7);
    assert_eq!(tt.get_tt_move(key), None);
}

#[test]
fn colliding_key_is_not_trusted() {
    let mut tt = TranspositionTable::new(1024);
    let key = 0x123456789ABCDEF0;
    tt.store(key, Some(27), 5, TTFlag::Exact, 100, 1);
    // Same low bits, another key.
    assert!(tt.probe(key ^ (1u64 << 40)).is_none());
    assert_eq!(tt.get_tt_move(key ^ (1u64 << 40)), None);
    assert_eq!(tt.get_tt_move(key), Some(27));
}

#[test]
fn statistics_and_clear() {
    let mut tt = TranspositionTable::new(1000);
    let key = 42u64;
    tt.store(key, Some(1), 1, TTFlag::Exact, 0, 1);
    assert!(tt.probe(key).is_some());
    assert!(tt.probe(key + 1).is_none());
    assert_eq!(tt.probes(), 2);
    assert_eq!(tt.hits(), 1);
    tt.reset_stats();
    assert_eq!(tt.probes(), 0);
    assert_eq!(tt.hits(), 0);
    assert!(tt.probe(key).is_some());
    tt.clear();
    assert_eq!(tt.probes(), 0);
    assert!(tt.probe(key).is_none());
}

#[test]
fn default_entry_is_empty() {
    let e = TTEntry::default();
    assert_eq!(e.key, 0);
    assert_eq!(e.best_move, 255);
    assert_eq!(e.depth, 0);
    assert_eq!(e.flag, TTFlag::Exact);
}

#[test]
fn small_table_rounds_up_to_power_of_two() {
    let tt = TranspositionTable::new(3);
    let mut tt2 = tt;
    tt2.store(5, Some(1), 1, TTFlag::Exact, 0, 1);
    assert!(tt2.probe(5).is_some());
    assert!(tt2.probe(5 + 4).is_none());
}
