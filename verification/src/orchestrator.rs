//! Decisions of the task orchestration loop.
//!
//! The orchestrator fans one collection unit out per pool per new block and
//! drains completions without blocking block detection.  The surrounding
//! runtime performs the spawning and the bounded polling; this module holds
//! the decisions: when to stop polling, how each outcome is classified, and
//! how many units are still pending.

use crate::address::Address;
use vstd::prelude::*;

verus! {

/// Why a collection unit failed.
pub enum UnitError {
    /// The pool snapshot could not be fetched.
    Snapshot,
    /// No sampled candidate yielded a defined quote.
    Math,
    /// The result record could not be persisted.
    Persist,
}

/// The classified outcome of one collection unit.
pub enum CollectionOutcome {
    Success { block: u64, pool: Address },
    SnapshotError,
    MathError,
    PersistError,
}

/// One observation made while polling for finished units.
pub enum DrainEvent {
    /// No unit finished within the per-poll bound.
    Timeout,
    /// No units remain pending.
    Empty,
    /// A unit's execution itself failed to run to completion.
    JoinFailed,
    /// A unit ran to completion but its work failed.
    UnitFailed(UnitError),
    /// A unit completed its pool at its block.
    UnitCompleted(u64, Address),
}

/// What the drain loop does next.
pub enum DrainAction {
    /// Hand control back to the caller so it can re-check for a new block.
    StopPolling,
    /// Poll for another finished unit.
    ContinuePolling,
}

/// Tracks how many collection units are in flight and decides when the
/// drain loop hands control back.
pub struct TaskOrchestrator {
    pending: u64,
}

impl TaskOrchestrator {
    /// How many units are still in flight.
    pub closed spec fn pending(&self) -> u64 {
        self.pending
    }

    pub fn new() -> (r: TaskOrchestrator)
        ensures
            r.pending() == 0,
    {
        TaskOrchestrator { pending: 0 }
    }

    /// Accounts for one spawn wave: one unit per pool.  The count saturates
    /// rather than wrap if it ever reaches the counter's ceiling.
    pub fn spawn_wave(&mut self, pool_count: u64)
        ensures
            old(self).pending() + pool_count <= u64::MAX ==> final(self).pending() == old(
                self,
            ).pending() + pool_count,
            old(self).pending() + pool_count > u64::MAX ==> final(self).pending() == u64::MAX,
    {
        if pool_count <= u64::MAX - self.pending {
            self.pending = self.pending + pool_count;
        } else {
            self.pending = u64::MAX;
        }
    }

    /// Decides on one poll observation: stop exactly when no unit finished
    /// within the bound or none remain, else account for the finished unit
    /// and poll again.
    pub fn drain_step(&mut self, event: &DrainEvent) -> (r: DrainAction)
        ensures
            (event is Timeout || event is Empty) <==> r is StopPolling,
            (event is Timeout || event is Empty) ==> final(self).pending() == old(self).pending(),
            !(event is Timeout || event is Empty) ==> final(self).pending() == (
            if old(self).pending() > 0 {
                old(self).pending() - 1
            } else {
                0
            }),
    {
        match event {
            DrainEvent::Timeout => DrainAction::StopPolling,
            DrainEvent::Empty => DrainAction::StopPolling,
            _ => {
                if self.pending > 0 {
                    self.pending = self.pending - 1;
                }
                DrainAction::ContinuePolling
            },
        }
    }
}

/// Classifies a poll observation: every finished unit yields exactly one
/// outcome, and the two stop conditions yield none.
pub fn classify(event: &DrainEvent) -> (r: Option<CollectionOutcome>)
    ensures
        match event {
            DrainEvent::Timeout => r is None,
            DrainEvent::Empty => r is None,
            DrainEvent::JoinFailed => r is None,
            DrainEvent::UnitFailed(e) => match e {
                UnitError::Snapshot => r == Some(CollectionOutcome::SnapshotError),
                UnitError::Math => r == Some(CollectionOutcome::MathError),
                UnitError::Persist => r == Some(CollectionOutcome::PersistError),
            },
            DrainEvent::UnitCompleted(block, pool) => {
                &&& r is Some
                &&& r->0 matches CollectionOutcome::Success { block: b, pool: p } && b == block
                    && p@ == pool@
            },
        },
{
    match event {
        DrainEvent::Timeout => None,
        DrainEvent::Empty => None,
        DrainEvent::JoinFailed => None,
        DrainEvent::UnitFailed(e) => match e {
            UnitError::Snapshot => Some(CollectionOutcome::SnapshotError),
            UnitError::Math => Some(CollectionOutcome::MathError),
            UnitError::Persist => Some(CollectionOutcome::PersistError),
        },
        DrainEvent::UnitCompleted(block, pool) => Some(
            CollectionOutcome::Success { block: *block, pool: pool.duplicate() },
        ),
    }
}

} // verus!
