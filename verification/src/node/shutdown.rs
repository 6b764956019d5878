//! When a client stops, and how long it waits for what is under way.
use crate::clock::span_nanos;
use std::time::Duration;
use vstd::prelude::*;

verus! {

/// How long, in milliseconds, replies may drain after the run time is over.
pub const CLIENT_DRAIN_GRACE: u64 = 10_000;

/// How long, in milliseconds, the records have to be written after a shutdown.
pub const METRICS_GRACE: u64 = 200;

/// Why a client stops.
#[derive(Clone, Copy, Debug, PartialEq, Eq, Structural)]
pub enum ShutdownReason {
    /// The configured run time is over.
    DurationElapsed,
    /// A signal asked for it.
    Signal,
}

/// Whether the run time of a client is limited. One with a duration of zero runs until a signal
/// comes.
pub fn has_time_limit(run_duration: Duration) -> (limited: bool)
    ensures
        limited == (span_nanos(run_duration) > 0),
{
    run_duration.as_nanos() > 0
}

/// How long, in milliseconds, a client waits before the records are closed, and how long after.
pub fn shutdown_pauses(reason: ShutdownReason) -> (pauses: (u64, u64))
    ensures
        pauses.0 == (if reason == ShutdownReason::DurationElapsed {
            CLIENT_DRAIN_GRACE
        } else {
            0
        }),
        pauses.1 == METRICS_GRACE,
        reason == ShutdownReason::DurationElapsed ==> pauses == (10_000u64, 200u64),
        reason == ShutdownReason::Signal ==> pauses == (0u64, 200u64),
{
    match reason {
        ShutdownReason::DurationElapsed => (CLIENT_DRAIN_GRACE, METRICS_GRACE),
        ShutdownReason::Signal => (0, METRICS_GRACE),
    }
}

} // verus!
