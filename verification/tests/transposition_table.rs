use connect_four_solver::transposition_table::TranspositionTable;
use connect_four_solver::ConnectFour;

#[test]
fn cache_hit() {
    let position = ConnectFour::from_move_list("5655663642443");
    let score = 15;

    // 131101 is the next prime after 131073, which is the smallest valid
    // capacity for the transposition table to work correctly.
    let mut cache = TranspositionTable::new(131101);
    cache.put(position.encode(), score);

    assert_eq!(cache.get(position.encode()), Some(score));
}

#[test]
fn cache_miss() {
    let position = ConnectFour::from_move_list("5655663642443");
    let other_position = ConnectFour::from_move_list("5655663642442");
    let score = 15;

    let mut cache = TranspositionTable::new(131101);
    cache.put(position.encode(), score);

    assert_eq!(cache.get(other_position.encode()), None);
}

#[test]
fn fresh_table_misses_every_key() {
    // Even a key whose low 32 bits are all zero must miss on a fresh
    // table: the empty slot marker can never equal a stored partial key.
    let cache = TranspositionTable::new(131101);
    assert_eq!(cache.get(0), None);
    assert_eq!(cache.get(1u64 << 35), None);
    assert_eq!(cache.get((7u64 << 32) * 131101), None);
}

#[test]
fn newer_entry_evicts_older_on_the_same_slot() {
    let mut cache = TranspositionTable::new(131101);
    let key = 42u64;
    let colliding = 42u64 + 131101;
    cache.put(key, 3);
    cache.put(colliding, -5);
    assert_eq!(cache.get(colliding), Some(-5));
    assert_eq!(cache.get(key), None);
}
