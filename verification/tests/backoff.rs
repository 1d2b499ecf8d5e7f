use nure_queue::backoff::{relax, Backoff, Rest};

#[test]
fn spin_hints_double_up_to_sixty_four() {
    let mut b = Backoff::new();
    let mut seen = Vec::new();
    for _ in 0..10 {
        seen.push(b.next_spin(false));
    }
    let hints: Vec<u32> = vec![1, 2, 4, 8, 16, 32, 64, 64, 64, 64];
    let expected: Vec<Rest> = hints.into_iter().map(Rest::Hints).collect();
    assert_eq!(seen, expected);
}

#[test]
fn snooze_hints_double_up_to_two_hundred_fifty_six() {
    let mut b = Backoff::new();
    let mut seen = Vec::new();
    for _ in 0..12 {
        seen.push(b.next_snooze(false));
    }
    let hints: Vec<u32> = vec![1, 2, 4, 8, 16, 32, 64, 128, 256, 256, 256, 256];
    let expected: Vec<Rest> = hints.into_iter().map(Rest::Hints).collect();
    assert_eq!(seen, expected);
}

#[test]
fn yields_past_the_threshold() {
    let mut b = Backoff::new();
    for i in 0..7 {
        assert_eq!(b.next_spin(true), Rest::Hints(1 << i));
    }
    assert_eq!(b.next_spin(true), Rest::Yield);
    assert_eq!(b.next_spin(true), Rest::Yield);
    assert_eq!(b.next_snooze(true), Rest::Hints(128));
    assert_eq!(b.next_snooze(true), Rest::Hints(256));
    assert_eq!(b.next_snooze(true), Rest::Yield);
    assert_eq!(b.next_snooze(false), Rest::Hints(256));
}

#[test]
fn spinning_and_snoozing_grow_the_same_count() {
    let mut b = Backoff::new();
    assert_eq!(b.spin(), 1);
    assert_eq!(b.snooze(), 2);
    assert_eq!(b.spin(), 4);
    assert_eq!(b.next_spin(false), Rest::Hints(8));
    for _ in 0..20 {
        b.snooze();
    }
    assert_eq!(b.spin(), 64);
    assert_eq!(b.snooze(), 256);
    assert_eq!(b.next_snooze(true), Rest::Yield);
    assert_eq!(b.next_spin(false), Rest::Hints(64));
}

#[test]
fn relax_issues_every_hint() {
    assert_eq!(relax(0), 0);
    assert_eq!(relax(256), 256);
}
