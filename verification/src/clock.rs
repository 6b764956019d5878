//! Points in time and the distances between them.
use std::time::{Duration, Instant, SystemTime};
use vstd::prelude::*;

verus! {

/// A point on the wall clock.
#[verifier::external_type_specification]
#[verifier::external_body]
pub struct ExSystemTime(SystemTime);

/// A point on the monotonic clock.
#[verifier::external_type_specification]
#[verifier::external_body]
pub struct ExInstant(Instant);

/// The length of a span of time in nanoseconds.
pub uninterp spec fn span_nanos(span: Duration) -> nat;

/// Where a point on the wall clock lies, in nanoseconds after the Unix epoch.
pub uninterp spec fn unix_nanos(time: SystemTime) -> int;

/// Where a point on the monotonic clock lies, in nanoseconds after a point that is the same
/// for all.
pub uninterp spec fn monotonic_nanos(instant: Instant) -> int;

/// `Duration::from_secs`: a span of that many whole seconds.
pub assume_specification[ Duration::from_secs ](secs: u64) -> (span: Duration)
    ensures
        span_nanos(span) == secs * 1_000_000_000,
;

/// `Duration::as_nanos`: the number of nanoseconds in the span, which is a `u128`.
pub assume_specification[ Duration::as_nanos ](span: &Duration) -> (nanos: u128)
    ensures
        nanos == span_nanos(*span),
;

/// `Instant::checked_duration_since`: the time from `earlier` to `instant`. It gives none only
/// where `earlier` is the later of the two, and no time at all where it does not tell two that
/// stand the other way round apart.
pub assume_specification[ Instant::checked_duration_since ](
    instant: &Instant,
    earlier: Instant,
) -> (span: Option<Duration>)
    ensures
        match span {
            Some(d) => span_nanos(d) == clamped(
                monotonic_nanos(*instant) - monotonic_nanos(earlier),
            ),
            None => monotonic_nanos(earlier) > monotonic_nanos(*instant),
        },
;

/// The time from the Unix epoch to `time`, unless `time` is before the epoch.
///
/// Calls `SystemTime::duration_since` with `UNIX_EPOCH`, which gives the time that has passed
/// between the two, and fails where the epoch is the later one.
#[verifier::external_body]
pub(crate) fn since_unix_epoch(time: SystemTime) -> (span: Option<Duration>)
    ensures
        match span {
            Some(d) => span_nanos(d) == unix_nanos(time),
            None => unix_nanos(time) < 0,
        },
{
    time.duration_since(std::time::UNIX_EPOCH).ok()
}

/// A signed number of nanoseconds with every negative one taken as zero.
pub open spec fn clamped(nanos: int) -> nat {
    if nanos < 0 {
        0
    } else {
        nanos as nat
    }
}

/// The nanoseconds from `earlier` to `later`, or zero where they stand the other way round.
pub fn nanos_between(earlier: Instant, later: Instant) -> (nanos: u128)
    ensures
        nanos == clamped(monotonic_nanos(later) - monotonic_nanos(earlier)),
{
    match later.checked_duration_since(earlier) {
        Some(span) => span.as_nanos(),
        None => 0,
    }
}

/// The time between two points is the larger of zero and their distance. So it only counts forward:
/// of two points, the time from one to the other is zero in at least one direction, and the
/// distance in the other.
pub proof fn law_time_between(earlier: int, later: int)
    ensures
        clamped(later - earlier) >= 0,
        clamped(later - earlier) >= later - earlier,
        clamped(later - earlier) == 0 || clamped(earlier - later) == 0,
        clamped(later - earlier) - clamped(earlier - later) == later - earlier,
{
}

} // verus!
