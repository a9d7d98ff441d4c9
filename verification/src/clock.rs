//! The monotonic clock that work deadlines are measured against.
use std::time::Instant;

use vstd::prelude::*;

verus! {

/// A reading of the standard library's monotonic clock.
#[verifier::external_type_specification]
#[verifier::external_body]
pub struct ExInstant(Instant);

/// `a >= b` on clock readings (`PartialOrd::ge`). Readings are opaque here,
/// so nothing is stated of the result.
#[verifier::external_body]
fn at_or_after(a: Instant, b: Instant) -> bool {
    a >= b
}

/// `a > b` on clock readings (`PartialOrd::gt`); nothing is stated of the
/// result.
#[verifier::external_body]
fn after(a: Instant, b: Instant) -> bool {
    a > b
}

/// The clock has reached `deadline`. It depends on when it is called, so
/// nothing is stated of the result.
pub(crate) fn deadline_reached(deadline: Instant) -> bool {
    at_or_after(now(), deadline)
}

/// The clock has passed `deadline`; nothing is stated of the result, for
/// the same reason.
pub(crate) fn deadline_passed(deadline: Instant) -> bool {
    after(now(), deadline)
}

/// `Instant::now()`: the current reading of the monotonic clock.
#[verifier::external_body]
pub(crate) fn now() -> Instant {
    Instant::now()
}

/// `Instant::elapsed` in whole microseconds, cut to 64 bits. It depends on
/// when it is called, so nothing is stated of the result.
#[verifier::external_body]
pub(crate) fn elapsed_micros(started: &Instant) -> u64 {
    started.elapsed().as_micros() as u64
}

} // verus!
