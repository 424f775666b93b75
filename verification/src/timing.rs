//! How long steps take, as `std::time` measures it.

use std::time::Instant;

use vstd::prelude::*;

verus! {

/// `std::time::Instant`, a reading of the monotonic clock.
#[verifier::external_type_specification]
#[verifier::external_body]
pub struct ExInstant(Instant);

/// `Instant::now`: the clock's reading. Nothing is claimed of it.
#[verifier::external_body]
pub(crate) fn clock_reading() -> Instant {
    Instant::now()
}

/// `Instant::elapsed`, in whole microseconds. Nothing is claimed of it.
#[verifier::external_body]
pub(crate) fn elapsed_us(start: &Instant) -> u64 {
    start.elapsed().as_micros() as u64
}

} // verus!
