//! The simulation clock.

use ferrite::sim::clock::{Clock, SimClock};

#[test]
fn new_clock_starts_at_tick_zero() {
    let clock = SimClock::new();

    assert_eq!(clock.now(), 0);
}

#[test]
fn advancing_zero_ticks_does_not_change_time() {
    let mut clock = SimClock::new();

    clock.advance(0);

    assert_eq!(clock.now(), 0);
}

#[test]
fn advances_are_monotonic_and_additive() {
    let mut clock = SimClock::new();

    clock.advance(1);
    assert_eq!(clock.now(), 1);

    clock.advance(41);
    assert_eq!(clock.now(), 42);
}
