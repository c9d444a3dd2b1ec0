use rand::Rng;
use std::time::Duration;
use vstd::prelude::*;

verus! {

/// The length of a duration in nanoseconds, as `Duration::as_nanos` gives it.
pub uninterp spec fn duration_as_nanos(d: Duration) -> u128;

/// Calls `Duration::as_nanos`, which gives the exact length of a duration in
/// nanoseconds; the contract only names that result.
#[verifier::external_body]
fn nanos(d: &Duration) -> (n: u128)
    ensures
        n == duration_as_nanos(*d),
{
    d.as_nanos()
}

/// Calls `rand::Rng::gen_range` on `min..=max` with the thread-local generator.
/// The contract claims that the result lies in the range (durations are ordered
/// by their length in nanoseconds; `gen_range` returns a value of the range it
/// is given, and panics only on an empty range, which `requires` rules out), and
/// that a range of one duration gives that duration. Which value of a longer
/// range comes back is left open.
#[verifier::external_body]
fn random_duration_between(min: Duration, max: Duration) -> (d: Duration)
    requires
        duration_as_nanos(min) <= duration_as_nanos(max),
    ensures
        duration_as_nanos(min) <= duration_as_nanos(d) <= duration_as_nanos(max),
        duration_as_nanos(min) == duration_as_nanos(max) ==> d == min,
{
    rand::thread_rng().gen_range(min..=max)
}

/// Calls `rand::Rng::gen_range` on `0..bound` with the thread-local generator:
/// the result is below the bound, and `gen_range` panics only on an empty range,
/// which `requires` rules out. Which value comes back is left open.
#[verifier::external_body]
pub(crate) fn random_below(bound: u64) -> (n: u64)
    requires
        bound > 0,
    ensures
        n < bound,
{
    rand::thread_rng().gen_range(0..bound)
}

/// Calls `Duration::from_millis`, which gives a duration of exactly `millis`
/// milliseconds.
#[verifier::external_body]
pub(crate) fn duration_from_millis(millis: u64) -> (d: Duration)
    ensures
        duration_as_nanos(d) == millis * 1_000_000,
{
    Duration::from_millis(millis)
}

/// A range of durations from which timeouts are drawn at random.
#[derive(Debug, Copy, Clone)]
pub struct TimeWindow {
    min_duration: Duration,
    max_duration: Duration,
}

impl TimeWindow {
    /// The shortest duration of the window.
    pub closed spec fn shortest(self) -> Duration {
        self.min_duration
    }

    /// The longest duration of the window.
    pub closed spec fn longest(self) -> Duration {
        self.max_duration
    }

    /// The window is not empty.
    pub open spec fn is_nonempty(self) -> bool {
        duration_as_nanos(self.shortest()) <= duration_as_nanos(self.longest())
    }

    pub fn new(min_duration: Duration, max_duration: Duration) -> (w: Self)
        ensures
            w.shortest() == min_duration,
            w.longest() == max_duration,
    {
        Self { min_duration, max_duration }
    }

    /// Whether the window holds any duration at all.
    pub fn is_valid(&self) -> (valid: bool)
        ensures
            valid == self.is_nonempty(),
    {
        nanos(&self.min_duration) <= nanos(&self.max_duration)
    }

    /// A duration drawn at random from the window, bounds included.
    pub fn pick(&self) -> (d: Duration)
        requires
            self.is_nonempty(),
        ensures
            duration_as_nanos(self.shortest()) <= duration_as_nanos(d),
            duration_as_nanos(d) <= duration_as_nanos(self.longest()),
            duration_as_nanos(self.shortest()) == duration_as_nanos(self.longest()) ==> d
                == self.shortest(),
    {
        random_duration_between(self.min_duration, self.max_duration)
    }
}

} // verus!
