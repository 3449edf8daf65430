//! The snapshot cell: one published value, replaced whole by `swap`.

use vstd::prelude::*;
use vstd::rwlock::RwLock;

verus! {

/// Holds the active snapshot. A reader copies the whole snapshot out and a
/// writer replaces it whole, so a read never sees a mix of two snapshots:
/// every value a read returns satisfies whatever invariant every published
/// value satisfies, which is fixed when the cell is made.
///
/// The snapshot sits behind a reader-writer lock: readers share it, a swap
/// holds it only for the exchange of the two values.
#[verifier::reject_recursive_types(T)]
pub struct RcuCell<T> {
    active: RwLock<T, spec_fn(T) -> bool>,
}

/// A snapshot taken out of the cell by [`RcuCell::swap`], not yet released.
/// The reclamation policy decides when to release it with `reclaim`; the
/// snapshot is a plain value, so dropping a `Retired` releases it too.
pub struct Retired<T> {
    snapshot: T,
}

impl<T> Retired<T> {
    /// The retired snapshot.
    pub closed spec fn view(&self) -> T {
        self.snapshot
    }

    /// Releases the retired snapshot.
    pub fn reclaim(self) {
    }
}

impl<T> RcuCell<T> {
    /// The invariant that every snapshot of this cell satisfies.
    pub closed spec fn snapshot_invariant(&self) -> spec_fn(T) -> bool {
        self.active.pred()
    }

    /// Whether `value` may be held by this cell.
    pub open spec fn admits(&self, value: T) -> bool {
        (self.snapshot_invariant())(value)
    }
}

impl<T: Copy> RcuCell<T> {
    /// Makes a cell holding `value` that takes any snapshot.
    pub fn new(value: T) -> (cell: Self)
        ensures
            forall|v: T| cell.admits(v),
    {
        RcuCell { active: RwLock::new(value, Ghost(|v: T| true)) }
    }

    /// Makes a cell holding `value` whose snapshots all satisfy `inv`.
    pub fn with_invariant(value: T, Ghost(inv): Ghost<spec_fn(T) -> bool>) -> (cell: Self)
        requires
            inv(value),
        ensures
            cell.snapshot_invariant() == inv,
    {
        RcuCell { active: RwLock::new(value, Ghost(inv)) }
    }

    /// Copies the current snapshot out.
    pub fn read(&self) -> (value: T)
        ensures
            self.admits(value),
    {
        let handle = self.active.acquire_read();
        let value = *handle.borrow();
        handle.release_read();
        value
    }

    /// Publishes `value` as the new snapshot and returns the one it replaced.
    pub fn swap(&self, value: T) -> (retired: Retired<T>)
        requires
            self.admits(value),
        ensures
            self.admits(retired@),
    {
        let (old, handle) = self.active.acquire_write();
        handle.release_write(value);
        Retired { snapshot: old }
    }
}

} // verus!
