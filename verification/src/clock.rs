//! A monotonic clock, used by the searches that stop after a time budget.

use vstd::prelude::*;

verus! {

/// `std::time::Instant`, carried through the library as an opaque value.
#[verifier::external_type_specification]
#[verifier::external_body]
pub struct ExInstant(std::time::Instant);

/// Calls `std::time::Instant::now`.
/// The result depends on the machine's clock, so nothing is stated of it.
#[verifier::external_body]
pub(crate) fn instant_now() -> std::time::Instant {
    std::time::Instant::now()
}

/// Calls `std::time::Instant::elapsed` and converts the `Duration` to whole
/// nanoseconds. The result depends on the machine's clock, so nothing is
/// stated of it.
#[verifier::external_body]
pub(crate) fn elapsed_nanos(start: &std::time::Instant) -> u128 {
    start.elapsed().as_nanos()
}

} // verus!
