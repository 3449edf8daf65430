//! The same handle API over the `arc-swap` crate, which releases replaced
//! snapshots itself once no reader holds them.

use std::sync::Arc;
use vstd::prelude::*;
use arc_swap::ArcSwap;

verus! {

/// One `ArcSwap` slot, kept opaque: its strategy type lives in a private
/// module of `arc-swap` and cannot be declared.
#[verifier::external_body]
#[verifier::reject_recursive_types(T)]
struct Slot<T> {
    inner: ArcSwap<T>,
}

/// Calls `ArcSwap::from_pointee`: a new slot holding `value`. Which value a
/// later load sees depends on the stores made meanwhile from any thread, so
/// nothing is stated of it.
#[verifier::external_body]
fn slot_from_pointee<T>(value: T) -> Slot<T> {
    Slot { inner: ArcSwap::from_pointee(value) }
}

/// Calls `ArcSwapAny::store` with `value` put in a new `Arc`: replaces the
/// slot's value. The slot is shared, so nothing is stated of what later loads
/// see.
#[verifier::external_body]
fn slot_store<T>(slot: &Slot<T>, value: T) {
    slot.inner.store(Arc::new(value))
}

/// Calls `ArcSwapAny::load` and copies the value out of the guard. The value
/// is whatever the slot held at that moment, which depends on other threads;
/// nothing is stated of it.
#[verifier::external_body]
fn slot_load<T: Copy>(slot: &Slot<T>) -> T {
    **slot.inner.load()
}

/// The write end. `update` takes `&mut self` like the atomic-pointer store.
#[verifier::reject_recursive_types(T)]
pub struct Writer<T> {
    shared: Arc<Slot<T>>,
}

/// The read end. Clonable; `read` copies the snapshot out.
#[verifier::reject_recursive_types(T)]
pub struct Reader<T> {
    shared: Arc<Slot<T>>,
}

impl<T> Writer<T> {
    /// Whether `self` writes the slot that `reader` reads.
    pub closed spec fn pairs_with(&self, reader: &Reader<T>) -> bool {
        self.shared == reader.shared
    }
}

impl<T> Reader<T> {
    /// Whether `self` and `other` read the same slot.
    pub closed spec fn same_slot(&self, other: &Reader<T>) -> bool {
        self.shared == other.shared
    }
}

/// Creates a store backed by `ArcSwap`: a writer and a reader of one slot
/// holding `initial`.
pub fn store<T: Copy>(initial: T) -> (ends: (Writer<T>, Reader<T>))
    ensures
        ends.0.pairs_with(&ends.1),
{
    let shared = Arc::new(slot_from_pointee(initial));
    (Writer { shared: shared.clone() }, Reader { shared })
}

impl<T: Copy> Writer<T> {
    /// Publishes `value` as the new snapshot.
    pub fn update(&mut self, value: T)
        ensures
            *final(self) == *old(self),
    {
        slot_store(&self.shared, value)
    }
}

impl<T: Copy> Reader<T> {
    /// Copies the current snapshot out.
    pub fn read(&self) -> T {
        slot_load(&self.shared)
    }
}

impl<T> Clone for Reader<T> {
    fn clone(&self) -> (other: Self)
        ensures
            other.same_slot(self),
    {
        Reader { shared: self.shared.clone() }
    }
}

} // verus!
