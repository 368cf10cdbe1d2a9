//! The monotonic clock.
//!
//! Times are nanoseconds on a clock that a value starts when it is made. What the clock
//! shows is not known to the proofs: each operation that reads it hands the reading to one
//! that takes the time as an argument and is exact for every time.
use vstd::prelude::*;

verus! {

/// A reading of the monotonic clock of the standard library.
#[verifier::external_type_specification]
#[verifier::external_body]
pub struct ExInstant(std::time::Instant);

/// Calls `std::time::Instant::now`. Nothing is claimed of the reading.
#[verifier::external_body]
pub(crate) fn clock_start() -> (r: std::time::Instant) {
    std::time::Instant::now()
}

/// Calls `std::time::Instant::elapsed`: the nanoseconds since `start`. Nothing is claimed
/// of the number, which depends on the moment of the call.
#[verifier::external_body]
pub(crate) fn nanos_since(start: &std::time::Instant) -> (r: u128) {
    start.elapsed().as_nanos()
}

/// The whole milliseconds in a number of nanoseconds.
pub open spec fn millis(nanos: int) -> u64 {
    (nanos / 1_000_000) as u64
}

/// The time from `earlier` to `later`, none if `later` comes first.
pub open spec fn span(earlier: int, later: int) -> int {
    if later >= earlier {
        later - earlier
    } else {
        0
    }
}

/// The nanoseconds from `earlier` to `later`, zero if `later` comes first.
pub fn elapsed(earlier: u128, later: u128) -> (r: u128)
    ensures
        r == span(earlier as int, later as int),
{
    if later >= earlier {
        later - earlier
    } else {
        0
    }
}

/// The whole milliseconds in a number of nanoseconds.
pub fn to_millis(nanos: u128) -> (r: u64)
    ensures
        r == millis(nanos as int),
{
    #[verifier::truncate]
    let ms: u64 = (nanos / 1_000_000) as u64;
    ms
}

/// A number of nanoseconds lies between its milliseconds and the next; the time to a moment
/// that came first is none, and otherwise it leads there.
pub proof fn law_times_are_measured_forward(nanos: int, earlier: int, later: int)
    requires
        0 <= nanos < 1_000_000 * 0x1_0000_0000_0000_0000,
    ensures
        millis(nanos) * 1_000_000 <= nanos < (millis(nanos) + 1) * 1_000_000,
        later <= earlier ==> span(earlier, later) == 0,
        later >= earlier ==> earlier + span(earlier, later) == later,
{
}

} // verus!
