use nure_queue::lap::{one_lap_for, Laps};

#[test]
fn one_lap_for_values() {
    let cases: [(u64, u64); 10] = [
        (0, 2),
        (1, 2),
        (2, 4),
        (3, 4),
        (4, 8),
        (7, 8),
        (8, 16),
        (1023, 1024),
        (1024, 2048),
        (0x7fff_ffff_ffff_ffff, 0x8000_0000_0000_0000),
    ];
    for (cap, lap) in cases {
        assert_eq!(one_lap_for(cap), lap);
    }
    for cap in 1..5000u64 {
        assert_eq!(one_lap_for(cap), (cap + 1).next_power_of_two());
    }
}

#[test]
fn cursors_walk_round_the_buffer() {
    let laps = Laps::new(3);
    assert_eq!(laps.one_lap, 4);
    let mut cursor = 0;
    let mut seen = Vec::new();
    for _ in 0..7 {
        seen.push((cursor, laps.index(cursor), laps.lap(cursor)));
        cursor = laps.next(cursor);
    }
    assert_eq!(
        seen,
        vec![(0, 0, 0), (1, 1, 0), (2, 2, 0), (4, 0, 4), (5, 1, 4), (6, 2, 4), (8, 0, 8)]
    );
}

#[test]
fn cursors_wrap_around() {
    let laps = Laps::new(3);
    let last = u64::MAX - 1;
    assert_eq!(laps.index(last), 2);
    assert_eq!(laps.next(last), 0);
    assert_eq!(laps.ahead(last), 2);
    assert_eq!(laps.behind(2), last);
    assert_eq!(laps.ahead(5), 9);
    assert_eq!(laps.behind(9), 5);
    assert!(laps.full(last - 2, 0));
    assert_eq!(laps.occupied(last, 1), 2);
}

#[test]
fn occupied_counts_round_the_buffer() {
    let laps = Laps::new(3);
    assert_eq!(laps.occupied(0, 0), 0);
    assert_eq!(laps.occupied(0, 2), 2);
    assert_eq!(laps.occupied(0, 4), 3);
    assert_eq!(laps.occupied(2, 5), 2);
    assert_eq!(laps.occupied(2, 4), 1);
    assert!(laps.full(1, 5));
    assert!(!laps.full(1, 4));
}

#[test]
fn nth_slot_goes_round() {
    let laps = Laps::new(5);
    let slots: Vec<usize> = (0..5).map(|i| laps.nth_slot(8 + 3, i)).collect();
    assert_eq!(slots, vec![3, 4, 0, 1, 2]);
}

#[test]
fn measure_needs_a_steady_tail() {
    let laps = Laps::new(3);
    assert_eq!(laps.measure(5, 2, 5), Some(2));
    assert_eq!(laps.measure(5, 2, 6), None);
}

#[test]
fn holds_only_cursors_of_slots() {
    let laps = Laps::new(5);
    for c in 0..32 {
        assert_eq!(laps.holds(c), c % 8 < 5);
    }
}

#[test]
fn narrow_cursors_wrap_around() {
    let laps = Laps::within(3, 0xffff_ffff);
    assert_eq!(laps.one_lap, 4);
    let last = 0xffff_fffe;
    assert_eq!(laps.index(last), 2);
    assert_eq!(laps.next(last), 0);
    assert_eq!(laps.ahead(last), 2);
    assert_eq!(laps.behind(2), last);
    assert!(laps.full(last - 2, 0));
    assert!(laps.holds(last));
    assert!(!laps.holds(last + 1));
    assert!(!laps.holds(0x1_0000_0000));
    assert_eq!(Laps::new(3), Laps::within(3, u64::MAX));
    for cap in 1..8 {
        let laps = Laps::within(cap, 31);
        let mut cursor = 0;
        for p in 0..100 {
            assert_eq!(laps.index(cursor), p % cap);
            assert_eq!(laps.behind(laps.ahead(cursor)), cursor);
            cursor = laps.next(cursor);
            assert!(cursor <= 31);
        }
    }
}
