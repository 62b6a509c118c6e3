//! Trusted boundary to the std clock.  The search polls it to honour its
//! real-time budget; nothing is promised of the values it returns.

use vstd::prelude::*;

verus! {

#[verifier::external_type_specification]
#[verifier::external_body]
pub struct ExInstant(std::time::Instant);

/// Relies on std's `Instant::now` for the current monotonic instant.
#[verifier::external_body]
pub(crate) fn clock_now() -> std::time::Instant {
    std::time::Instant::now()
}

/// Relies on std's `Instant::elapsed`: the time since the instant was
/// created.
#[verifier::external_body]
pub(crate) fn clock_elapsed(t: &std::time::Instant) -> std::time::Duration {
    t.elapsed()
}

/// Relies on std's `Duration::as_millis`: the duration in whole
/// milliseconds.
#[verifier::external_body]
pub(crate) fn duration_millis(d: &std::time::Duration) -> u128 {
    d.as_millis()
}

} // verus!
