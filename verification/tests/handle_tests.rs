//! Tests of the shared-ownership handle: value access, clone/drop
//! accounting, and single deallocation, observed through a payload type
//! whose destructor bumps a shared counter.

use shared_arc::handle::Arc;
use std::sync::atomic::{AtomicUsize, Ordering};

struct Payload {
    value: u64,
    drops: std::sync::Arc<AtomicUsize>,
}

impl Drop for Payload {
    fn drop(&mut self) {
        self.drops.fetch_add(1, Ordering::SeqCst);
    }
}

fn payload(value: u64) -> (Payload, std::sync::Arc<AtomicUsize>) {
    let drops = std::sync::Arc::new(AtomicUsize::new(0));
    (Payload { value, drops: drops.clone() }, drops)
}

#[test]
fn access_returns_constructed_value() {
    let h = Arc::new(7u64);
    assert_eq!(*h.access(), 7);
}

#[test]
fn access_through_clones_returns_constructed_value() {
    let h1 = Arc::new(String::from("shared"));
    let h2 = h1.clone();
    let h3 = h2.clone();
    assert_eq!(h1.access().as_str(), "shared");
    assert_eq!(h2.access().as_str(), "shared");
    assert_eq!(h3.access().as_str(), "shared");
}

#[test]
fn scenario_clone_drop_access_then_free() {
    let (p, drops) = payload(42);
    let h1 = Arc::new(p);
    let h2 = h1.clone();
    drop(h1);
    assert_eq!(drops.load(Ordering::SeqCst), 0);
    assert_eq!(h2.access().value, 42);
    drop(h2);
    assert_eq!(drops.load(Ordering::SeqCst), 1);
}

#[test]
fn clone_n_drop_all_frees_exactly_once() {
    let (p, drops) = payload(9);
    let original = Arc::new(p);
    let mut clones = Vec::new();
    for _i in 0usize..10 {
        clones.push(original.clone());
    }
    drop(original);
    assert_eq!(drops.load(Ordering::SeqCst), 0);
    while let Some(handle) = clones.pop() {
        assert_eq!(handle.access().value, 9);
        let live_before: usize = clones.len();
        drop(handle);
        let expected: usize = if live_before == 0 { 1 } else { 0 };
        assert_eq!(drops.load(Ordering::SeqCst), expected);
    }
    assert_eq!(drops.load(Ordering::SeqCst), 1);
}

#[test]
fn single_handle_drop_frees_exactly_once() {
    let (p, drops) = payload(1);
    let h = Arc::new(p);
    assert_eq!(drops.load(Ordering::SeqCst), 0);
    drop(h);
    assert_eq!(drops.load(Ordering::SeqCst), 1);
}

#[test]
fn interleaved_clones_and_drops_free_exactly_once() {
    let (p, drops) = payload(5);
    let original = Arc::new(p);
    let mut held: Vec<Arc<Payload>> = Vec::new();
    for round in 0usize..8 {
        let seed = original.clone();
        let local = seed.clone();
        assert_eq!(local.access().value, 5);
        drop(seed);
        if round % 2 == 0 {
            held.push(local);
        }
    }
    assert_eq!(drops.load(Ordering::SeqCst), 0);
    drop(original);
    assert_eq!(drops.load(Ordering::SeqCst), 0);
    held.clear();
    assert_eq!(drops.load(Ordering::SeqCst), 1);
}
