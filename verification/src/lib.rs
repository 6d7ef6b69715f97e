//! Retention / garbage-collection layer of a versioned key-value ledger store.
//!
//! A background pruner reclaims storage for versions older than a configurable
//! retention window while guaranteeing that reads of still-retained versions are
//! never disturbed, and that stopping at any point leaves the store in a safe
//! (possibly under-pruned, never over-pruned or corrupted) state.
//!
//! - [`store::StateStore`] models the versioned store: copy-on-write leaf nodes,
//!   a stale-node index, and the persisted progress watermark.
//! - [`worker::Worker`] consumes pruning commands, coalesces them (shutdown wins,
//!   otherwise the greatest requested target), and deletes stale data in atomic
//!   batches.
//! - [`controller::Pruner`] owns the retention policy and the command queue and
//!   exposes the commit-path triggers `wake` and `wake_and_wait`.
//! - [`laws`] states and proves the library-wide retention laws.

use vstd::prelude::*;

pub mod controller;
pub mod laws;
pub mod store;
pub mod worker;

pub use controller::Pruner;
pub use store::{LeafNode, RootHash, StaleNodeIndexEntry, StateStore};
pub use worker::{Command, Worker};

verus! {

/// A monotonically increasing identifier of a committed ledger state.
pub type Version = u64;

/// Everything that can go wrong in the retention layer.
///
/// `RootNotFound` is the expected, non-fatal outcome of reading a root whose
/// version has already been pruned (or was never committed): "data no longer
/// retained", distinct from "address never written", which reads as `Ok(None)`.
/// `ChannelClosed` is returned when the commit path tries to enqueue a command
/// after the worker has stopped.
#[derive(Clone, Copy, Debug, PartialEq, Eq, Structural)]
pub enum Error {
    RootNotFound,
    ChannelClosed,
}

} // verus!
