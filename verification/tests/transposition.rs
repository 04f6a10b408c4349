use remote_colonies::mcts::transposition_table::{ApproxTable, PROBE_LIMIT};

#[test]
fn table_has_the_next_power_of_two_slots() {
    for (asked, slots) in
        [(0, 1), (1, 1), (2, 2), (3, 4), (4, 4), (5, 8), (1000, 1024), (1024, 1024), (1025, 2048)]
    {
        let table = ApproxTable::new(asked);
        assert_eq!(table.capacity(), slots, "asked for {asked}");
        assert_eq!(table.len(), 0);
    }
}

#[test]
fn table_with_slots_has_exactly_that_many() {
    assert_eq!(ApproxTable::with_slots(0).capacity(), 0);
    assert_eq!(ApproxTable::with_slots(7).capacity(), 7);
}

#[test]
fn lookup_finds_what_was_inserted() {
    let mut table = ApproxTable::new(64);
    assert_eq!(table.lookup(10), None);
    assert_eq!(table.insert(10, 3), None);
    assert_eq!(table.lookup(10), Some(3));
    assert_eq!(table.insert(74, 4), None);
    assert_eq!(table.lookup(74), Some(4));
    assert_eq!(table.lookup(10), Some(3));
    assert_eq!(table.lookup(138), None);
    assert_eq!(table.len(), 2);
}

#[test]
fn insert_keeps_the_first_value_of_a_key() {
    let mut table = ApproxTable::new(16);
    assert_eq!(table.insert(5, 1), None);
    assert_eq!(table.insert(5, 2), Some(1));
    assert_eq!(table.lookup(5), Some(1));
    assert_eq!(table.len(), 1);
}

#[test]
fn key_zero_is_a_key_like_any_other() {
    let mut table = ApproxTable::new(8);
    assert_eq!(table.lookup(0), None);
    assert_eq!(table.insert(0, 9), None);
    assert_eq!(table.lookup(0), Some(9));
}

#[test]
fn table_never_grows() {
    let mut table = ApproxTable::new(100);
    assert_eq!(table.capacity(), 128);
    for key in 0..100_000u64 {
        table.insert(key.wrapping_mul(0x9E37_79B9_7F4A_7C15), key as usize);
        assert_eq!(table.capacity(), 128);
        assert!(table.len() <= 128);
    }
    // saturated above two thirds: nothing new goes in
    assert_eq!(table.len(), 86);
    let before = table.len();
    assert_eq!(table.insert(123_456_789, 1), None);
    assert_eq!(table.lookup(123_456_789), None);
    assert_eq!(table.len(), before);
}

#[test]
fn colliding_keys_are_dropped_when_tries_run_out() {
    let mut table = ApproxTable::new(1024);
    let mut kept = 0;
    for n in 0..40u64 {
        let key = 7 + n * 1024;
        assert_eq!(table.insert(key, n as usize), None);
        if table.lookup(key) == Some(n as usize) {
            kept += 1;
        }
    }
    assert_eq!(kept, PROBE_LIMIT);
    assert_eq!(table.len(), PROBE_LIMIT);
    assert_eq!(table.lookup(7), Some(0));
    assert_eq!(table.lookup(7 + 15 * 1024), Some(15));
    assert_eq!(table.lookup(7 + 16 * 1024), None);
}

#[test]
fn table_without_slots_holds_nothing() {
    let mut table = ApproxTable::with_slots(0);
    assert_eq!(table.insert(1, 1), None);
    assert_eq!(table.lookup(1), None);
    assert_eq!(table.len(), 0);
}

#[test]
fn probing_steps_grow_by_one() {
    // keys 1, 9, 17 share slot 1 of 8; they land on 1, 2 and 4
    let mut table = ApproxTable::new(8);
    table.insert(1, 10);
    table.insert(9, 11);
    table.insert(17, 12);
    // slot 2 and slot 4 are taken, so keys at home there move on
    table.insert(2, 13);
    table.insert(4, 14);
    for (key, value) in [(1, 10), (9, 11), (17, 12), (2, 13), (4, 14)] {
        assert_eq!(table.lookup(key), Some(value));
    }
    assert_eq!(table.len(), 5);
}
