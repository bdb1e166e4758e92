//! The shared cell's reference counter, as a verified sequential type: the
//! increment/decrement discipline that clone and drop follow, including the
//! overflow guard and the deallocation decision.

use vstd::prelude::*;

verus! {

/// The clone-time guard: once the pre-increment count exceeds half the
/// representable range, another increment risks silent wraparound, which
/// would allow premature deallocation while handles are live; a caller must
/// treat this as an unrecoverable violation and terminate the process
/// rather than increment.
pub fn overflow_risk(count: usize) -> (risk: bool)
    ensures
        risk == (count > usize::MAX / 2),
{
    count > usize::MAX / 2
}

/// The reference count of one shared cell. Under the ownership protocol its
/// value equals the number of live handles referencing the cell.
pub struct RefCount {
    count: usize,
}

impl RefCount {
    /// The current count.
    pub closed spec fn count(&self) -> usize {
        self.count
    }

    /// The counter of a freshly allocated cell: exactly one owner, the
    /// handle returned by construction.
    pub fn fresh() -> (counter: RefCount)
        ensures
            counter.count() == 1,
    {
        RefCount { count: 1 }
    }

    /// The counter's current value.
    pub fn current(&self) -> (value: usize)
        ensures
            value == self.count(),
    {
        self.count
    }

    /// The clone-time guard applied to this counter's current value.
    pub fn would_overflow(&self) -> (risk: bool)
        ensures
            risk == (self.count() > usize::MAX / 2),
    {
        overflow_risk(self.count)
    }

    /// One more owner (a handle clone). Inputs on which the guard fires are
    /// excluded: the protocol terminates the process there instead.
    pub fn increment(&mut self)
        requires
            old(self).count() <= usize::MAX / 2,
        ensures
            final(self).count() == old(self).count() + 1,
    {
        self.count = self.count + 1;
    }

    /// One owner gone (a handle drop). Returns whether the departing handle
    /// was the last owner, in which case it must deallocate the cell: the
    /// decision rule is that deallocation happens exactly when the
    /// pre-decrement count was one.
    pub fn decrement(&mut self) -> (was_last: bool)
        requires
            old(self).count() >= 1,
        ensures
            final(self).count() == old(self).count() - 1,
            was_last == (old(self).count() == 1),
    {
        let was_last: bool = self.count == 1;
        self.count = self.count - 1;
        was_last
    }
}

} // verus!
