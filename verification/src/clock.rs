//! The monotonic clock that key expiry is measured against.

use std::time::{Duration, Instant};
use vstd::prelude::*;

verus! {

#[verifier::external_type_specification]
#[verifier::external_body]
pub struct ExInstant(Instant);

/// `Instant::now`: the current instant. It depends on when it is called, so
/// nothing is promised of it.
pub assume_specification[ Instant::now ]() -> (r: Instant);

/// `Instant::elapsed`: the time that has passed since `origin`. It depends on
/// when it is called, so nothing is promised of it.
pub assume_specification[ Instant::elapsed ](origin: &Instant) -> (r: Duration);

/// `Duration::as_nanos`: the whole nanoseconds in `d`. A `Duration` is
/// opaque here, so nothing is stated of the count.
pub assume_specification[ Duration::as_nanos ](d: &Duration) -> (r: u128);

/// A count of nanoseconds as a `u64`, or `u64::MAX` when it does not fit.
pub open spec fn saturated_nanos(ns: u128) -> u64 {
    if ns > u64::MAX as u128 {
        u64::MAX
    } else {
        ns as u64
    }
}

} // verus!
