use nexus_core::HybridLogicalClock;

#[test]
fn test_hlc_roundtrip() {
    let hlc = HybridLogicalClock::now();
    let timestamp = hlc.to_timestamp();
    let hlc2 = HybridLogicalClock::from_timestamp(timestamp);

    assert_eq!(hlc, hlc2);
}

#[test]
fn test_hlc_increment() {
    let mut hlc = HybridLogicalClock::now();
    let initial = hlc.to_timestamp();

    hlc.increment(None);
    assert!(hlc.to_timestamp() >= initial, "HLC should advance after increment");

    for _ in 0..5 {
        let before = hlc.to_timestamp();
        hlc.increment(None);
        assert!(hlc.to_timestamp() >= before, "Each increment should advance or maintain HLC");
    }

    let mut hlc1 = HybridLogicalClock::now();
    let hlc2 = HybridLogicalClock::now();

    let before = hlc1.to_timestamp();
    hlc1.increment(Some(hlc2));

    assert!(hlc1.to_timestamp() >= before, "Syncing with remote time should advance HLC");
    assert!(hlc1.to_timestamp() >= hlc2.to_timestamp(), "After sync, local HLC should be >= remote");
}

#[test]
fn packs_physical_and_counter() {
    let h = HybridLogicalClock::new(1_000, 7);
    assert_eq!(h.physical_time(), 1_000);
    assert_eq!(h.counter(), 7);
    assert_eq!(h.timestamp, 1_000 * 65536 + 7);
    assert_eq!(h.to_timestamp(), 65_536_007);
}

#[test]
fn physical_time_kept_modulo_48_bits() {
    let h = HybridLogicalClock::new((1u64 << 48) + 5, 1);
    assert_eq!(h.physical_time(), 5);
    assert_eq!(h.counter(), 1);
}

#[test]
fn signed_form_round_trips_high_values() {
    let h = HybridLogicalClock { timestamp: u64::MAX - 3 };
    assert_eq!(h.to_timestamp(), -4);
    assert_eq!(HybridLogicalClock::from_timestamp(-4), h);
}

#[test]
fn tick_with_wall_clock_ahead_resets_counter() {
    let mut h = HybridLogicalClock::new(100, 9);
    h.tick_at(250, None);
    assert_eq!(h.physical_time(), 250);
    assert_eq!(h.counter(), 0);
}

#[test]
fn tick_with_same_physical_increments_counter() {
    let mut h = HybridLogicalClock::new(100, 9);
    h.tick_at(50, None);
    assert_eq!(h.physical_time(), 100);
    assert_eq!(h.counter(), 10);
}

#[test]
fn tick_counter_overflow_moves_physical_on() {
    let mut h = HybridLogicalClock::new(100, 65535);
    h.tick_at(100, None);
    assert_eq!(h.physical_time(), 101);
    assert_eq!(h.counter(), 0);
}

#[test]
fn tick_at_top_of_range_saturates() {
    let mut h = HybridLogicalClock { timestamp: u64::MAX };
    h.tick_at(0, None);
    assert_eq!(h.timestamp, u64::MAX);
}

#[test]
fn tick_with_remote_takes_larger_counter() {
    let mut h = HybridLogicalClock::new(500, 3);
    let remote = HybridLogicalClock::new(500, 8);
    h.tick_at(10, Some(remote));
    assert_eq!(h.physical_time(), 500);
    assert_eq!(h.counter(), 9);
}

#[test]
fn tick_with_remote_ahead_follows_remote() {
    let mut h = HybridLogicalClock::new(500, 3);
    let remote = HybridLogicalClock::new(700, 4);
    h.tick_at(600, Some(remote));
    assert_eq!(h.physical_time(), 700);
    assert_eq!(h.counter(), 5);
    assert!(h > remote);
}

#[test]
fn successive_ticks_strictly_increase() {
    let mut h = HybridLogicalClock::new(1_000, 0);
    let mut prev = h;
    for wall in [900u64, 1_000, 1_000, 1_001, 5, 2_000, 2_000] {
        h.tick_at(wall, None);
        assert!(h > prev);
        prev = h;
    }
}
