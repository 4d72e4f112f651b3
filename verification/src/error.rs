//! Error taxonomy of the scheduler.

use vstd::prelude::*;

verus! {

/// A unit-level error: what a single work unit, or a borrow or store lookup
/// made on its behalf, can report.
#[derive(Clone, Copy, Debug, PartialEq, Eq, Structural)]
pub enum Error {
    /// A runtime borrow conflicted with an active borrow. Unreachable through
    /// a well-formed schedule; kept as a defect signal for direct registry
    /// users.
    AccessDenied,
    /// A unit declared a required side resource that the context does not
    /// supply.
    MissingResource { id: u64 },
    /// A component type outside the capability set of the `SubWorld` that was
    /// asked for it.
    UnauthorizedComponent { component: u64 },
    /// The entity exists but lacks the requested component.
    NotFound { component: u64 },
    /// The entity identifier is stale or unknown.
    NoSuchEntity,
    /// The unit's own reported failure, by its error code.
    Failed { code: u64 },
}

/// The aggregated error that a schedule execution reports.
#[derive(Clone, Debug)]
pub enum ScheduleError {
    /// One or more units of the batch that stopped the schedule failed; each
    /// failure carries the index of the unit in declaration order.
    UnitFailures { failures: Vec<(usize, Error)> },
    /// Applying the deferred commands failed at the given record index.
    DrainFailed { record: usize },
}

} // verus!
