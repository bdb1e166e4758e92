//! Tests of the ownership-count protocol, played through `replay`: the
//! reported number of deallocations and final count for concrete schedules
//! of clone and drop operations.

use shared_arc::protocol::{replay, HandleOp};

fn shares(n: usize) -> Vec<HandleOp> {
    let mut ops = Vec::new();
    for _i in 0usize..n {
        ops.push(HandleOp::Share);
    }
    ops
}

fn releases(n: usize) -> Vec<HandleOp> {
    let mut ops = Vec::new();
    for _i in 0usize..n {
        ops.push(HandleOp::Release);
    }
    ops
}

#[test]
fn empty_schedule_leaves_sole_owner() {
    assert_eq!(replay(&Vec::new()), Some((0, 1)));
}

#[test]
fn clone_then_two_drops_frees_once() {
    let ops = vec![HandleOp::Share, HandleOp::Release, HandleOp::Release];
    assert_eq!(replay(&ops), Some((1, 0)));
}

#[test]
fn sole_drop_frees_once() {
    assert_eq!(replay(&releases(1)), Some((1, 0)));
}

#[test]
fn clones_alone_never_free() {
    assert_eq!(replay(&shares(5)), Some((0, 6)));
}

#[test]
fn n_clones_then_all_drops_free_exactly_once() {
    let mut ops = shares(10);
    ops.extend(releases(11));
    assert_eq!(replay(&ops), Some((1, 0)));
}

#[test]
fn n_clones_then_all_but_one_drop_never_free() {
    let mut ops = shares(10);
    ops.extend(releases(10));
    assert_eq!(replay(&ops), Some((0, 1)));
}

#[test]
fn interleaved_schedule_frees_only_at_the_end() {
    let ops = vec![
        HandleOp::Share,
        HandleOp::Release,
        HandleOp::Share,
        HandleOp::Share,
        HandleOp::Release,
        HandleOp::Release,
        HandleOp::Release,
    ];
    assert_eq!(replay(&ops), Some((1, 0)));
}

#[test]
fn operation_after_last_drop_is_no_history() {
    let ops = vec![HandleOp::Release, HandleOp::Release];
    assert_eq!(replay(&ops), None);
}

#[test]
fn clone_after_last_drop_is_no_history() {
    let ops = vec![HandleOp::Release, HandleOp::Share];
    assert_eq!(replay(&ops), None);
}
