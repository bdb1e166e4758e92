//! The user-facing owning handle.
//!
//! The shared cell — one heap block holding the atomic reference count and
//! the owned value — is carried by `std::sync::Arc`, whose construction,
//! clone and dereference come specified by vstd; each handle owns one unit
//! of the cell's count. The counting discipline behind those operations is
//! spelled out and proved in [`crate::count`] and [`crate::protocol`].

use vstd::prelude::*;

verus! {

/// A shared-ownership handle: each live `Arc` owns one unit of the reference
/// count of a single heap cell holding the shared value.
pub struct Arc<T> {
    cell: std::sync::Arc<T>,
}

impl<T> Arc<T> {
    /// The value held by the shared cell this handle points to.
    pub closed spec fn value(&self) -> T {
        *self.cell
    }

    /// Allocates a fresh shared cell holding `data`, with a reference count
    /// of one; the returned handle is the unique initial owner.
    pub fn new(data: T) -> (handle: Arc<T>)
        ensures
            handle.value() == data,
    {
        Arc { cell: std::sync::Arc::new(data) }
    }

    /// Read-only access to the shared value. The borrow cannot outlive the
    /// handle it was derived from, so the cell is live for its whole span.
    pub fn access(&self) -> (value: &T)
        ensures
            *value == self.value(),
    {
        &*self.cell
    }
}

impl<T> Clone for Arc<T> {
    /// A new handle owning one more unit of the same cell's reference count.
    /// The count increment happens atomically; the cell cannot be freed while
    /// the new handle is alive.
    fn clone(&self) -> (handle: Self)
        ensures
            handle.value() == self.value(),
    {
        Arc { cell: self.cell.clone() }
    }
}

} // verus!
