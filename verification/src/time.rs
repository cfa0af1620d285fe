//! Time, as nanoseconds since a start.

use vstd::prelude::*;

verus! {

/// A second, in nanoseconds.
pub const SECOND: u128 = 1_000_000_000;

/// The longest time that can pass, in nanoseconds: the longest
/// `std::time::Duration`.
pub const LONGEST: u128 = 18_446_744_073_709_551_615_999_999_999;

/// A moment of the monotonic clock.
#[verifier::external_type_specification]
#[verifier::external_body]
pub struct ExInstant(std::time::Instant);

/// `std::time::Instant::now`. Nothing is claimed of the moment.
#[verifier::external_body]
fn current_moment() -> (now: std::time::Instant) {
    std::time::Instant::now()
}

/// `std::time::Instant::elapsed`, in nanoseconds: what has passed since a
/// moment, which is no longer than the longest duration.
#[verifier::external_body]
fn nanoseconds_since(start: &std::time::Instant) -> (nanoseconds: u128)
    ensures
        nanoseconds <= LONGEST,
{
    start.elapsed().as_nanos()
}

/// Counts the time since it was made.
#[derive(Debug, Clone, Copy)]
pub struct Stopwatch {
    start: std::time::Instant,
}

impl Stopwatch {
    /// A stopwatch that starts now.
    pub fn new() -> (stopwatch: Self) {
        Stopwatch { start: current_moment() }
    }

    /// The nanoseconds since it was made, which is up to the clock of the
    /// machine.
    pub fn elapsed(&self) -> (nanoseconds: u128)
        ensures
            nanoseconds <= LONGEST,
    {
        nanoseconds_since(&self.start)
    }
}

} // verus!
