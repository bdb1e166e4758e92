//! The ownership-count protocol, modelled explicitly: the shared cell's
//! state, the clone and drop transitions, and the laws that the protocol
//! guarantees over every interleaving of handle operations.
//!
//! The count's atomicity means that, however many threads clone and drop
//! handles, their operations take effect one at a time; a run of the system
//! is therefore a sequence of operations, and the laws below quantify over
//! all such sequences.

use vstd::prelude::*;

verus! {

/// One operation performed by a live handle on its shared cell.
#[derive(Clone, Copy)]
pub enum HandleOp {
    /// A handle clone: one more owner of the cell.
    Share,
    /// A handle drop: one owner gone; the last one deallocates the cell.
    Release,
}

/// The state of one shared cell: its reference count, and whether its
/// storage has been deallocated.
pub struct CellState {
    /// The reference count. Under the protocol it equals the number of live
    /// handles referencing the cell.
    pub count: nat,
    /// Whether the cell has been deallocated (the value dropped and the
    /// backing memory freed).
    pub freed: bool,
}

/// The cell right after construction: exactly one owner, storage live.
pub open spec fn initial() -> CellState {
    CellState { count: 1, freed: false }
}

/// Whether a handle may perform `op` on a cell in state `state`: the
/// operation is issued by some live handle, so the cell is not freed and
/// the count is positive.
pub open spec fn enabled(state: CellState, op: HandleOp) -> bool {
    !state.freed && state.count >= 1
}

/// The cell's state after one operation: a clone increments the count; a
/// drop decrements it, and the drop that takes the count from one to zero
/// deallocates the cell.
pub open spec fn step(state: CellState, op: HandleOp) -> CellState {
    match op {
        HandleOp::Share => CellState { count: state.count + 1, freed: false },
        HandleOp::Release => if state.count == 1 {
            CellState { count: 0, freed: true }
        } else {
            CellState { count: (state.count - 1) as nat, freed: false }
        },
    }
}

/// The cell's state after a whole sequence of operations.
pub open spec fn run(state: CellState, ops: Seq<HandleOp>) -> CellState
    decreases ops.len(),
{
    if ops.len() == 0 {
        state
    } else {
        run(step(state, ops[0]), ops.drop_first())
    }
}

/// Whether every operation of the sequence is performed on a live cell by a
/// live handle. Every real schedule of handle operations satisfies this:
/// an operation only ever comes from a handle that still exists.
pub open spec fn trace_enabled(state: CellState, ops: Seq<HandleOp>) -> bool
    decreases ops.len(),
{
    ops.len() == 0 || (enabled(state, ops[0]) && trace_enabled(step(state, ops[0]), ops.drop_first()))
}

/// How many operations of the sequence are clones.
pub open spec fn count_shares(ops: Seq<HandleOp>) -> nat
    decreases ops.len(),
{
    if ops.len() == 0 {
        0
    } else {
        (if ops[0] is Share { 1nat } else { 0nat }) + count_shares(ops.drop_first())
    }
}

/// How many operations of the sequence are drops.
pub open spec fn count_releases(ops: Seq<HandleOp>) -> nat
    decreases ops.len(),
{
    if ops.len() == 0 {
        0
    } else {
        (if ops[0] is Release { 1nat } else { 0nat }) + count_releases(ops.drop_first())
    }
}

/// How many operations of the sequence deallocate the cell: the drops that
/// observe a pre-decrement count of one.
pub open spec fn count_frees(state: CellState, ops: Seq<HandleOp>) -> nat
    decreases ops.len(),
{
    if ops.len() == 0 {
        0
    } else {
        (if ops[0] is Release && state.count == 1 { 1nat } else { 0nat })
            + count_frees(step(state, ops[0]), ops.drop_first())
    }
}

/// A state the protocol can actually be in: freed exactly when no owner is
/// left. Construction establishes it and every step preserves it.
pub open spec fn consistent(state: CellState) -> bool {
    state.freed == (state.count == 0)
}

proof fn lemma_run_accounting(state: CellState, ops: Seq<HandleOp>)
    requires
        trace_enabled(state, ops),
        consistent(state),
    ensures
        consistent(run(state, ops)),
        run(state, ops).count + count_releases(ops) == state.count + count_shares(ops),
        count_frees(state, ops) == (if !state.freed && run(state, ops).freed { 1nat } else { 0nat }),
    decreases ops.len(),
{
    if ops.len() > 0 {
        let next = step(state, ops[0]);
        assert(consistent(next)) by {
            match ops[0] {
                HandleOp::Share => {
                    assert(next.count == state.count + 1);
                },
                HandleOp::Release => {
                    assert(next.count == if state.count == 1 {
                        0nat
                    } else {
                        (state.count - 1) as nat
                    });
                },
            }
        }
        let rest = ops.drop_first();
        assert(enabled(state, ops[0]));
        assert(trace_enabled(next, rest));
        assert(count_frees(state, ops) == (if ops[0] is Release && state.count == 1 {
            1nat
        } else {
            0nat
        }) + count_frees(next, rest));
        assert(run(state, ops) == run(next, rest));
        lemma_run_accounting(next, rest);
        if ops[0] is Release && state.count == 1 {
            assert(next.freed);
            assert(rest.len() == 0);
            assert(run(next, rest) == next);
        }
    }
}

/// The count is exact bookkeeping: after any schedule of clone and drop
/// operations, the reference count equals the number of handles ever created
/// (one at construction, plus one per clone) minus the number dropped, and
/// the cell stands deallocated exactly when that number has reached zero.
pub proof fn lemma_count_accounting(ops: Seq<HandleOp>)
    requires
        trace_enabled(initial(), ops),
    ensures
        run(initial(), ops).count + count_releases(ops) == 1 + count_shares(ops),
        run(initial(), ops).freed == (run(initial(), ops).count == 0),
{
    lemma_run_accounting(initial(), ops);
}

/// The value is deallocated exactly once, and only once every handle is
/// gone: over any schedule of handle operations, no deallocation happens
/// while a handle is live, at most one happens ever, and one does happen
/// as soon as the drops have caught up with the creations (no leak).
pub proof fn lemma_freed_exactly_once(ops: Seq<HandleOp>)
    requires
        trace_enabled(initial(), ops),
    ensures
        count_frees(initial(), ops) <= 1,
        count_frees(initial(), ops) == 1 <==> count_releases(ops) == 1 + count_shares(ops),
        run(initial(), ops).freed <==> count_releases(ops) == 1 + count_shares(ops),
{
    lemma_run_accounting(initial(), ops);
}

proof fn lemma_trace_prefix(state: CellState, ops: Seq<HandleOp>, i: int)
    requires
        trace_enabled(state, ops),
        0 <= i <= ops.len(),
    ensures
        trace_enabled(state, ops.take(i)),
    decreases ops.len(),
{
    if i > 0 && ops.len() > 0 {
        assert(ops.take(i).drop_first() =~= ops.drop_first().take(i - 1));
        lemma_trace_prefix(step(state, ops[0]), ops.drop_first(), i - 1);
    }
}

/// While any handle is live, the cell is not freed and the count is the
/// exact number of live handles: at every point of any schedule, the count
/// equals the handles created so far (one at construction, plus the clones)
/// minus the handles dropped so far, and the cell stands deallocated only
/// at a point where that number is zero. In particular the count is never
/// zero while a live handle exists, however clones and drops interleave.
pub proof fn lemma_prefix_invariant(ops: Seq<HandleOp>, i: int)
    requires
        trace_enabled(initial(), ops),
        0 <= i <= ops.len(),
    ensures
        trace_enabled(initial(), ops.take(i)),
        run(initial(), ops.take(i)).count + count_releases(ops.take(i)) == 1 + count_shares(
            ops.take(i),
        ),
        run(initial(), ops.take(i)).freed <==> count_releases(ops.take(i)) == 1 + count_shares(
            ops.take(i),
        ),
        count_releases(ops.take(i)) < 1 + count_shares(ops.take(i)) ==> !run(
            initial(),
            ops.take(i),
        ).freed && run(initial(), ops.take(i)).count >= 1,
{
    lemma_trace_prefix(initial(), ops, i);
    lemma_run_accounting(initial(), ops.take(i));
}

proof fn lemma_all_shares(state: CellState, n: nat)
    requires
        !state.freed,
        state.count >= 1,
    ensures
        trace_enabled(state, Seq::new(n, |i: int| HandleOp::Share)),
        run(state, Seq::new(n, |i: int| HandleOp::Share)).count == state.count + n,
        !run(state, Seq::new(n, |i: int| HandleOp::Share)).freed,
        count_frees(state, Seq::new(n, |i: int| HandleOp::Share)) == 0,
    decreases n,
{
    let ops = Seq::new(n, |i: int| HandleOp::Share);
    if n > 0 {
        assert(ops.drop_first() =~= Seq::new((n - 1) as nat, |i: int| HandleOp::Share));
        lemma_all_shares(step(state, ops[0]), (n - 1) as nat);
    }
}

proof fn lemma_all_releases(state: CellState, k: nat)
    requires
        !state.freed,
        state.count >= 1,
        k <= state.count,
    ensures
        trace_enabled(state, Seq::new(k, |i: int| HandleOp::Release)),
        run(state, Seq::new(k, |i: int| HandleOp::Release)).count == state.count - k,
        run(state, Seq::new(k, |i: int| HandleOp::Release)).freed == (k == state.count),
        count_frees(state, Seq::new(k, |i: int| HandleOp::Release)) == (if k == state.count {
            1nat
        } else {
            0nat
        }),
    decreases k,
{
    let ops = Seq::new(k, |i: int| HandleOp::Release);
    if k > 0 {
        assert(ops[0] == HandleOp::Release);
        assert(ops.drop_first() =~= Seq::new((k - 1) as nat, |i: int| HandleOp::Release));
        if state.count > 1 {
            lemma_all_releases(step(state, ops[0]), (k - 1) as nat);
        } else {
            assert(k == 1);
            assert(ops.drop_first().len() == 0);
            assert(run(step(state, ops[0]), ops.drop_first()) == step(state, ops[0]));
            assert(trace_enabled(step(state, ops[0]), ops.drop_first()));
            assert(count_frees(step(state, ops[0]), ops.drop_first()) == 0);
        }
    }
}

proof fn lemma_run_append(state: CellState, a: Seq<HandleOp>, b: Seq<HandleOp>)
    requires
        trace_enabled(state, a),
        trace_enabled(run(state, a), b),
    ensures
        trace_enabled(state, a + b),
        run(state, a + b) == run(run(state, a), b),
        count_frees(state, a + b) == count_frees(state, a) + count_frees(run(state, a), b),
    decreases a.len(),
{
    if a.len() == 0 {
        assert(a + b =~= b);
    } else {
        assert((a + b).drop_first() =~= a.drop_first() + b);
        assert((a + b)[0] == a[0]);
        lemma_run_append(step(state, a[0]), a.drop_first(), b);
    }
}

/// The schedule of one thread of ownership: `n` clones, then a drop of all
/// `n + 1` handles.
pub open spec fn shares_then_releases(n: nat) -> Seq<HandleOp> {
    Seq::new(n, |i: int| HandleOp::Share) + Seq::new(n + 1, |i: int| HandleOp::Release)
}

/// Cloning `n` times and then dropping all `n + 1` handles (the original
/// plus the clones) deallocates the cell exactly once: at the last drop,
/// and at no earlier point.
pub proof fn lemma_share_n_release_all(n: nat)
    ensures
        trace_enabled(initial(), shares_then_releases(n)),
        run(initial(), shares_then_releases(n)).freed,
        count_frees(initial(), shares_then_releases(n)) == 1,
        count_frees(
            initial(),
            shares_then_releases(n).take(shares_then_releases(n).len() - 1),
        ) == 0,
{
    let shares = Seq::new(n, |i: int| HandleOp::Share);
    let all_rels = Seq::new(n + 1, |i: int| HandleOp::Release);
    let most_rels = Seq::new(n, |i: int| HandleOp::Release);
    lemma_all_shares(initial(), n);
    let mid = run(initial(), shares);
    lemma_all_releases(mid, n + 1);
    lemma_run_append(initial(), shares, all_rels);
    lemma_all_releases(mid, n);
    lemma_run_append(initial(), shares, most_rels);
    assert(shares_then_releases(n).take(shares_then_releases(n).len() - 1) =~= shares + most_rels);
}

/// Whether every clone in the schedule is guarded: a clone only happens
/// while the pre-increment count is at most `cap`; on a larger count the
/// guard terminates the process instead of incrementing.
pub open spec fn trace_guarded(state: CellState, ops: Seq<HandleOp>, cap: nat) -> bool
    decreases ops.len(),
{
    ops.len() == 0 || ((ops[0] is Share ==> state.count <= cap) && trace_guarded(
        step(state, ops[0]),
        ops.drop_first(),
        cap,
    ))
}

proof fn lemma_guarded_prefix(state: CellState, ops: Seq<HandleOp>, cap: nat, i: int)
    requires
        trace_guarded(state, ops, cap),
        0 <= i <= ops.len(),
    ensures
        trace_guarded(state, ops.take(i), cap),
    decreases ops.len(),
{
    if i > 0 && ops.len() > 0 {
        assert(ops.take(i).drop_first() =~= ops.drop_first().take(i - 1));
        lemma_guarded_prefix(step(state, ops[0]), ops.drop_first(), cap, i - 1);
    }
}

proof fn lemma_guard_bound(state: CellState, ops: Seq<HandleOp>, cap: nat)
    requires
        trace_enabled(state, ops),
        trace_guarded(state, ops, cap),
        state.count <= cap + 1,
    ensures
        run(state, ops).count <= cap + 1,
    decreases ops.len(),
{
    if ops.len() > 0 {
        lemma_guard_bound(step(state, ops[0]), ops.drop_first(), cap);
    }
}

/// The clone-time guard prevents counter wraparound: if every clone in the
/// schedule is guarded by `cap`, the count never exceeds `cap + 1` at any
/// point, so a machine counter whose range reaches `cap + 1` is always
/// exact and never silently wraps to a small value while handles are live.
pub proof fn lemma_guard_bounds_count(ops: Seq<HandleOp>, cap: nat, i: int)
    requires
        trace_enabled(initial(), ops),
        trace_guarded(initial(), ops, cap),
        0 <= i <= ops.len(),
    ensures
        run(initial(), ops.take(i)).count <= cap + 1,
{
    lemma_trace_prefix(initial(), ops, i);
    lemma_guarded_prefix(initial(), ops, cap, i);
    lemma_guard_bound(initial(), ops.take(i), cap);
}

proof fn lemma_enabled_at(state: CellState, ops: Seq<HandleOp>, i: int)
    requires
        trace_enabled(state, ops),
        0 <= i < ops.len(),
    ensures
        enabled(run(state, ops.take(i)), ops[i]),
    decreases ops.len(),
{
    if i == 0 {
        assert(ops.take(0) =~= Seq::<HandleOp>::empty());
    } else {
        assert(ops.take(i).drop_first() =~= ops.drop_first().take(i - 1));
        lemma_enabled_at(step(state, ops[0]), ops.drop_first(), i - 1);
    }
}

proof fn lemma_guarded_at(state: CellState, ops: Seq<HandleOp>, cap: nat, i: int)
    requires
        trace_guarded(state, ops, cap),
        0 <= i < ops.len(),
        ops[i] is Share,
    ensures
        run(state, ops.take(i)).count <= cap,
    decreases ops.len(),
{
    if i == 0 {
        assert(ops.take(0) =~= Seq::<HandleOp>::empty());
    } else {
        assert(ops.take(i).drop_first() =~= ops.drop_first().take(i - 1));
        lemma_guarded_at(step(state, ops[0]), ops.drop_first(), cap, i - 1);
    }
}

proof fn lemma_run_snoc(state: CellState, ops: Seq<HandleOp>, op: HandleOp)
    requires
        trace_enabled(state, ops),
        enabled(run(state, ops), op),
    ensures
        trace_enabled(state, ops + seq![op]),
        run(state, ops + seq![op]) == step(run(state, ops), op),
        count_frees(state, ops + seq![op]) == count_frees(state, ops) + (
        if op is Release && run(state, ops).count == 1 {
            1nat
        } else {
            0nat
        }),
{
    let single = seq![op];
    assert(single.drop_first() =~= Seq::<HandleOp>::empty());
    assert(trace_enabled(step(run(state, ops), op), single.drop_first()));
    assert(run(step(run(state, ops), op), single.drop_first()) == step(run(state, ops), op));
    assert(count_frees(step(run(state, ops), op), single.drop_first()) == 0);
    lemma_run_append(state, ops, single);
}

proof fn lemma_guarded_snoc(state: CellState, ops: Seq<HandleOp>, op: HandleOp, cap: nat)
    requires
        trace_guarded(state, ops, cap),
        op is Share ==> run(state, ops).count <= cap,
    ensures
        trace_guarded(state, ops + seq![op], cap),
    decreases ops.len(),
{
    let whole = ops + seq![op];
    if ops.len() == 0 {
        assert(run(state, ops) == state);
        assert(whole.drop_first() =~= Seq::<HandleOp>::empty());
        assert(whole[0] == op);
        assert(trace_guarded(step(state, op), whole.drop_first(), cap));
    } else {
        assert(whole[0] == ops[0]);
        assert(whole.drop_first() =~= ops.drop_first() + seq![op]);
        lemma_guarded_snoc(step(state, ops[0]), ops.drop_first(), op, cap);
    }
}

/// Plays a schedule of handle operations against one freshly constructed
/// cell and reports what the protocol did: how many of the drops
/// deallocated the cell, and the final reference count. `None` exactly when
/// the schedule is no real history of a cell — an operation after every
/// handle is gone — or when the clone-time overflow guard fires, where a
/// handle terminates the process instead of continuing to count.
pub fn replay(schedule: &Vec<HandleOp>) -> (outcome: Option<(usize, usize)>)
    ensures
        outcome matches Some(report) ==> trace_enabled(initial(), schedule@) && trace_guarded(
            initial(),
            schedule@,
            (usize::MAX / 2) as nat,
        ) && report.0 == count_frees(initial(), schedule@) && report.1 == run(
            initial(),
            schedule@,
        ).count,
        outcome is None ==> !trace_enabled(initial(), schedule@) || !trace_guarded(
            initial(),
            schedule@,
            (usize::MAX / 2) as nat,
        ),
{
    let mut counter = crate::count::RefCount::fresh();
    let mut frees: usize = 0;
    let mut i: usize = 0;
    while i < schedule.len()
        invariant
            i <= schedule@.len(),
            trace_enabled(initial(), schedule@.take(i as int)),
            trace_guarded(initial(), schedule@.take(i as int), (usize::MAX / 2) as nat),
            counter.count() == run(initial(), schedule@.take(i as int)).count,
            frees == count_frees(initial(), schedule@.take(i as int)),
            frees <= i,
        decreases schedule@.len() - i,
    {
        let op = schedule[i];
        let ghost prefix = schedule@.take(i as int);
        let ghost mid = run(initial(), prefix);
        proof {
            lemma_run_accounting(initial(), prefix);
        }
        if counter.current() == 0 {
            proof {
                if trace_enabled(initial(), schedule@) {
                    lemma_enabled_at(initial(), schedule@, i as int);
                    assert(run(initial(), schedule@.take(i as int)).count >= 1);
                }
            }
            return None;
        }
        proof {
            assert(enabled(mid, op));
            lemma_run_snoc(initial(), prefix, op);
            assert(schedule@.take(i as int + 1) =~= prefix + seq![op]);
        }
        match op {
            HandleOp::Share => {
                if counter.would_overflow() {
                    proof {
                        if trace_guarded(initial(), schedule@, (usize::MAX / 2) as nat) {
                            lemma_guarded_at(
                                initial(),
                                schedule@,
                                (usize::MAX / 2) as nat,
                                i as int,
                            );
                        }
                    }
                    return None;
                }
                proof {
                    lemma_guarded_snoc(initial(), prefix, op, (usize::MAX / 2) as nat);
                }
                counter.increment();
            },
            HandleOp::Release => {
                proof {
                    lemma_guarded_snoc(initial(), prefix, op, (usize::MAX / 2) as nat);
                }
                let was_last = counter.decrement();
                if was_last {
                    frees = frees + 1;
                }
            },
        }
        i = i + 1;
    }
    proof {
        assert(schedule@.take(schedule@.len() as int) =~= schedule@);
    }
    Some((frees, counter.current()))
}

} // verus!
