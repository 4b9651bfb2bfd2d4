//! Monotonic time as the rest of the library sees it.

use vstd::prelude::*;

verus! {

#[verifier::external_type_specification]
#[verifier::external_body]
pub struct ExInstant(std::time::Instant);

/// `std::time::Instant::now`: the current instant. Nothing is claimed of it: it is whatever the
/// system clock gives.
#[verifier::external_body]
pub(crate) fn now() -> std::time::Instant {
    std::time::Instant::now()
}

/// `==` on `std::time::Instant`, whose `PartialEq` is derived from its fields: two instants are
/// equal exactly when they are the same value.
#[verifier::external_body]
pub(crate) fn instant_eq(a: &std::time::Instant, b: &std::time::Instant) -> (r: bool)
    ensures
        r == (*a == *b),
{
    *a == *b
}

/// `std::time::Instant::saturating_duration_since`: the time from `earlier` to `later`, zero when
/// `earlier` is not before `later`. Instants and durations have no plain value here, so nothing
/// is claimed of the result.
#[verifier::external_body]
fn saturating_duration_since(later: std::time::Instant, earlier: std::time::Instant) -> std::time::Duration {
    later.saturating_duration_since(earlier)
}

/// `std::time::Duration::as_millis`: the whole milliseconds in the duration. A duration has no
/// plain value here, so nothing is claimed of the result.
#[verifier::external_body]
pub(crate) fn as_millis(duration: std::time::Duration) -> u128 {
    duration.as_millis()
}

/// `std::time::Duration::as_nanos`: the whole nanoseconds in the duration. A duration has no
/// plain value here, so nothing is claimed of the result.
#[verifier::external_body]
pub(crate) fn as_nanos(duration: std::time::Duration) -> u128 {
    duration.as_nanos()
}

/// Whole nanoseconds from `earlier` to `later` (zero when `earlier` is not before `later`),
/// capped at `u64::MAX`.
pub fn nanos_since(later: std::time::Instant, earlier: std::time::Instant) -> u64 {
    let ns = as_nanos(saturating_duration_since(later, earlier));
    saturate_u64(ns)
}

/// Whole milliseconds from `earlier` to `later` (zero when `earlier` is not before `later`),
/// capped at `u64::MAX`.
pub fn millis_since(later: std::time::Instant, earlier: std::time::Instant) -> u64 {
    let ms = as_millis(saturating_duration_since(later, earlier));
    saturate_u64(ms)
}

/// A monotonic clock read in whole milliseconds since it was made.
pub struct MonotonicClock {
    start: std::time::Instant,
}

impl MonotonicClock {
    /// A clock that starts now.
    pub fn new() -> Self {
        MonotonicClock { start: now() }
    }

    /// Whole milliseconds since the clock was made, capped at `u64::MAX`. What they are is the
    /// system clock's to say.
    pub fn millis(&self) -> u64 {
        millis_since(now(), self.start)
    }

    /// Whole nanoseconds since the clock was made, capped at `u64::MAX`. What they are is the
    /// system clock's to say.
    pub fn nanos(&self) -> u64 {
        nanos_since(now(), self.start)
    }
}

/// A count of time units held in a `u64`, saturating at `u64::MAX`.
pub fn saturate_u64(ms: u128) -> (r: u64)
    ensures
        r == if ms > u64::MAX { u64::MAX as int } else { ms as int },
{
    if ms > u64::MAX as u128 {
        u64::MAX
    } else {
        ms as u64
    }
}

} // verus!
