//! The fixed-interval event clocks.

use orbit_logistics::timer::TickTimer;

#[test]
fn timer_fires_when_the_interval_is_crossed() {
    let mut t = TickTimer::new(1000);
    assert_eq!(t.tick(500), 0);
    assert_eq!(t.elapsed_ms(), 500);
    assert_eq!(t.tick(600), 1);
    assert_eq!(t.elapsed_ms(), 100);
}

#[test]
fn timer_carries_the_overshoot_and_batches_whole_periods() {
    let mut t = TickTimer::new(1000);
    assert_eq!(t.tick(2500), 2);
    assert_eq!(t.elapsed_ms(), 500);
    assert_eq!(t.tick(499), 0);
    assert_eq!(t.elapsed_ms(), 999);
    assert_eq!(t.tick(1), 1);
    assert_eq!(t.elapsed_ms(), 0);
}

#[test]
fn timer_keeps_its_interval() {
    let mut t = TickTimer::new(500);
    assert_eq!(t.interval_ms(), 500);
    t.tick(1234);
    assert_eq!(t.interval_ms(), 500);
}
