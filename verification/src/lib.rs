//! Read-copy-update configuration store: snapshot reads of one published
//! value, updates that replace it whole, and a grace-period policy for
//! releasing the snapshots that updates retire.
//!
//! Layering:
//!
//! - [`RcuCell`]: the mechanism. A reader copies out the whole current
//!   snapshot; a writer replaces it whole and gets the old one back as a
//!   [`Retired`].
//! - [`store`]: the policy. A [`Publisher`] swaps snapshots in and queues the
//!   retired ones, stamped with the time they left the cell, on a bounded
//!   channel; a [`Reclaimer`] releases each one only once it is a grace
//!   period old.
//! - [`arcswap`]: the same handle API over the `arc-swap` crate.
//! - [`spsc`]: the reclaim channel, a bounded first-in first-out queue over
//!   the [`ring`] buffer.
pub mod arcswap;
mod cell;
pub mod ring;
pub mod spsc;
pub mod store;

pub use cell::{RcuCell, Retired};
pub use store::{
    Publisher, Reader, Reclaimer, ReclaimerAction, Stamped, store_parts, store_parts_with_invariant,
};
