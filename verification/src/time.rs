//! Trusted surface over std's monotonic clock, used only to report how long
//! a policy took to compute. Nothing is promised of a clock reading.

use vstd::prelude::*;

verus! {

/// Relies on std's `Instant`: an opaque monotonic time stamp.
#[verifier::external_type_specification]
#[verifier::external_body]
pub struct ExInstant(std::time::Instant);

/// Relies on `Instant::now`; the reading depends on the machine and the
/// moment, so nothing is promised of it.
#[verifier::external_body]
pub(crate) fn instant_now() -> std::time::Instant {
    std::time::Instant::now()
}

/// Relies on `Instant::elapsed`; the reading depends on the moment, so
/// nothing is promised of it.
#[verifier::external_body]
pub(crate) fn instant_elapsed(start: &std::time::Instant) -> std::time::Duration {
    start.elapsed()
}

/// Relies on `Duration::as_nanos`, truncated to a machine word.
#[verifier::external_body]
pub(crate) fn duration_nanos(d: &std::time::Duration) -> u64 {
    d.as_nanos() as u64
}

} // verus!
