//! Tests of the reference-counter discipline: the increment/decrement
//! protocol, the last-owner decision, and the overflow guard.

use shared_arc::count::{overflow_risk, RefCount};

#[test]
fn fresh_counter_then_full_protocol() {
    let mut counter = RefCount::fresh();
    assert_eq!(counter.current(), 1);
    counter.increment();
    counter.increment();
    assert_eq!(counter.current(), 3);
    assert!(!counter.decrement());
    assert!(!counter.decrement());
    assert_eq!(counter.current(), 1);
    assert!(counter.decrement());
    assert_eq!(counter.current(), 0);
}

#[test]
fn decrement_of_sole_owner_is_last() {
    let mut counter = RefCount::fresh();
    assert!(counter.decrement());
}

#[test]
fn guard_boundary() {
    assert!(!overflow_risk(1));
    assert!(!overflow_risk(usize::MAX / 2));
    assert!(overflow_risk(usize::MAX / 2 + 1));
    assert!(overflow_risk(usize::MAX));
}

#[test]
fn fresh_counter_is_far_from_overflow() {
    let counter = RefCount::fresh();
    assert!(!counter.would_overflow());
}
