//! The clock the search reads to know when to stop deepening.
use vstd::prelude::*;
use std::time::{Duration, Instant};

verus! {

/// `std::time::Instant`, carried through the search as an opaque value.
#[verifier::external_type_specification]
#[verifier::external_body]
pub struct ExInstant(Instant);

/// Calls `Instant::now`. The current time depends on the machine and the
/// moment of the call, so nothing is claimed of it.
#[verifier::external_body]
pub(crate) fn instant_now() -> Instant {
    Instant::now()
}

/// Calls `Instant - Instant` (the time from `earlier` to `later`, zero where
/// `earlier` is the later one). Nothing is claimed of the result, which
/// depends on when the instants were taken.
#[verifier::external_body]
pub(crate) fn time_between(later: Instant, earlier: Instant) -> Duration {
    later - earlier
}

/// Calls `Duration::as_millis`: the whole milliseconds in `d`. `Duration` is
/// opaque here, so nothing is claimed of the number.
#[verifier::external_body]
pub(crate) fn as_millis(d: Duration) -> u128 {
    d.as_millis()
}

} // verus!
