//! Shared progress and cancel beacon of the improvement loop. An
//! `Arc<ProgressBeacon>` is written by the solver thread and read by an
//! outside observer. Every access is relaxed: a read returns some value a
//! writer stored, and nothing more is promised, so no contract here speaks
//! of the values read back.

use std::sync::atomic::{AtomicBool, AtomicU64, Ordering};
use std::sync::Arc;
use vstd::prelude::*;

verus! {

/// Lock-free progress and cancel channel.
#[derive(Debug)]
pub struct ProgressBeacon {
    iter: AtomicU64,
    placement_count: AtomicU64,
    best_score: AtomicU64,
    feasible: AtomicBool,
    cancel_requested: AtomicBool,
}

impl Default for ProgressBeacon {
    /// An empty beacon: all counters zero, flags clear.
    fn default() -> Self {
        ProgressBeacon {
            iter: AtomicU64::new(0),
            placement_count: AtomicU64::new(0),
            best_score: AtomicU64::new(0),
            feasible: AtomicBool::new(false),
            cancel_requested: AtomicBool::new(false),
        }
    }
}

impl ProgressBeacon {
    /// An empty beacon (all counters zero, flags clear), shared through an
    /// `Arc`.
    pub fn new() -> Arc<ProgressBeacon> {
        Arc::new(ProgressBeacon::default())
    }

    /// Store the iteration counter, placement count, best score and
    /// feasibility of the running incumbent.
    pub fn record(&self, iter: u64, placement_count: u64, best_score: u64, feasible: bool) {
        self.iter.store(iter, Ordering::Relaxed);
        self.placement_count.store(placement_count, Ordering::Relaxed);
        self.best_score.store(best_score, Ordering::Relaxed);
        self.feasible.store(feasible, Ordering::Relaxed);
    }

    /// Whether an observer has requested cancellation.
    pub fn cancel_requested(&self) -> bool {
        self.cancel_requested.load(Ordering::Relaxed)
    }

    /// Set the cancel flag. Idempotent.
    pub fn request_cancel(&self) {
        self.cancel_requested.store(true, Ordering::Relaxed);
    }

    /// The most recently stored iteration counter.
    pub fn iter_snapshot(&self) -> u64 {
        self.iter.load(Ordering::Relaxed)
    }

    /// The most recently stored placement count.
    pub fn placement_count_snapshot(&self) -> u64 {
        self.placement_count.load(Ordering::Relaxed)
    }

    /// The most recently stored best score.
    pub fn best_score_snapshot(&self) -> u64 {
        self.best_score.load(Ordering::Relaxed)
    }

    /// Whether the running incumbent was feasible at the last store.
    pub fn feasible_snapshot(&self) -> bool {
        self.feasible.load(Ordering::Relaxed)
    }
}

} // verus!
