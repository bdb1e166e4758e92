//! A thread-safe, shared-ownership smart pointer: a heap-allocated value
//! paired with an atomic reference count, shared by many owning handles and
//! freed exactly once, when the last handle disappears.
//!
//! - [`handle`] holds the user-facing [`handle::Arc`] handle: construction,
//!   clone (share ownership) and read access, each with its contract.
//! - [`count`] holds the reference-counter discipline the handles follow:
//!   the increment/decrement protocol, the last-owner decision that triggers
//!   deallocation, and the overflow guard.
//! - [`protocol`] models the whole ownership protocol over arbitrary
//!   schedules of clones and drops, and proves its laws: the count is exact
//!   bookkeeping of the live handles, the cell is deallocated exactly once
//!   and only after the last drop, and the guarded count never wraps.

pub mod count;
pub mod handle;
pub mod protocol;
