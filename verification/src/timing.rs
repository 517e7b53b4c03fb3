//! The clock.

use std::time::{Duration, Instant};
use vstd::prelude::*;

verus! {

/// The instants of `std::time`.
#[verifier::external_type_specification]
#[verifier::external_body]
pub struct ExInstant(Instant);

/// `Instant::now` reads the clock; nothing is claimed of what it shows.
pub assume_specification[ Instant::now ]() -> (now: Instant)
;

/// `Instant::elapsed` reads the clock; nothing is claimed of how much time has passed.
pub assume_specification[ Instant::elapsed ](start: &Instant) -> (passed: Duration)
;

/// `Duration::as_nanos` counts nanoseconds; nothing is claimed of how many a duration has.
pub assume_specification[ Duration::as_nanos ](duration: &Duration) -> (nanos: u128)
;

/// A number, as far as it can be counted.
fn counted_nanos(nanos: u128) -> (n: u64)
    ensures
        n == if nanos <= u64::MAX {
            nanos as u64
        } else {
            u64::MAX
        },
{
    if nanos <= 0xffff_ffff_ffff_ffff {
        nanos as u64
    } else {
        0xffff_ffff_ffff_ffff
    }
}

/// The nanoseconds since `start`, of which nothing is known in advance.
pub(crate) fn nanos_since(start: &Instant) -> (nanos: u64) {
    counted_nanos(start.elapsed().as_nanos())
}

/// Whether at least `millis` milliseconds make up `nanos` nanoseconds.
pub fn reaches_millis(nanos: u64, millis: u64) -> (b: bool)
    ensures
        b == (nanos / 1_000_000 >= millis),
{
    nanos / 1_000_000 >= millis
}

} // verus!
