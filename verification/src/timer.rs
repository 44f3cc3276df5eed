//! A stopwatch with a time limit, for budgeting a search.

use vstd::prelude::*;
use std::time::{Duration, Instant};

verus! {

#[verifier::external_type_specification]
#[verifier::external_body]
pub struct ExInstant(Instant);

/// Calls `std::time::Instant::now`.  The clock is outside the proof, so
/// nothing is claimed of the instant that comes back.
#[verifier::external_body]
fn instant_now() -> Instant {
    Instant::now()
}

/// Calls `std::time::Instant::elapsed`: the time since `beg`.  It depends on
/// the clock, so nothing is claimed of it.
#[verifier::external_body]
fn instant_elapsed(beg: &Instant) -> Duration {
    beg.elapsed()
}

/// Calls `std::time::Duration::as_nanos`: the whole length in nanoseconds.
/// The duration is opaque here, so nothing is claimed of the number.
#[verifier::external_body]
fn duration_as_nanos(d: &Duration) -> u128 {
    d.as_nanos()
}

/// Calls `std::time::Duration::as_millis`: the whole length in
/// milliseconds.  The duration is opaque here, so nothing is claimed of the
/// number.
#[verifier::external_body]
fn duration_as_millis(d: &Duration) -> u128 {
    d.as_millis()
}

/// Nanoseconds in a millisecond.
pub const NANOS_PER_MILLI: u128 = 1_000_000;

/// Whether `elapsed_ns` nanoseconds reach a limit of `limit_ms`
/// milliseconds.
pub fn limit_reached(elapsed_ns: u128, limit_ms: u64) -> (r: bool)
    ensures
        r == (elapsed_ns >= limit_ms * 1_000_000),
{
    elapsed_ns >= limit_ms as u128 * NANOS_PER_MILLI
}

/// Whether `elapsed_ns` nanoseconds reach half of a limit of `limit_ms`
/// milliseconds.
pub fn half_limit_reached(elapsed_ns: u128, limit_ms: u64) -> (r: bool)
    ensures
        r == (elapsed_ns >= limit_ms * 1_000_000 / 2),
{
    elapsed_ns >= limit_ms as u128 * NANOS_PER_MILLI / 2
}

/// A start instant and a time limit in milliseconds.
pub struct Timer {
    beg: Instant,
    limit_ms: u64,
}

impl Timer {
    /// The time limit, in milliseconds.
    pub closed spec fn limit(&self) -> u64 {
        self.limit_ms
    }

    /// Starts now, with no time allowed.
    pub fn new() -> (t: Timer)
        ensures
            t.limit() == 0,
    {
        Timer { beg: instant_now(), limit_ms: 0 }
    }

    /// Starts now, with `limit` milliseconds allowed.
    pub fn from_millis(limit: u32) -> (t: Timer)
        ensures
            t.limit() == limit,
    {
        Timer { beg: instant_now(), limit_ms: limit as u64 }
    }

    /// Whether the time since the start has reached the limit; always so
    /// with no time allowed.
    pub fn time_up(&self) -> (r: bool)
        ensures
            self.limit() == 0 ==> r,
    {
        let e = duration_as_nanos(&instant_elapsed(&self.beg));
        limit_reached(e, self.limit_ms)
    }

    /// Whether the time since the start has reached half the limit; always
    /// so with no time allowed.
    pub fn time_up_2x(&self) -> (r: bool)
        ensures
            self.limit() == 0 ==> r,
    {
        let e = duration_as_nanos(&instant_elapsed(&self.beg));
        half_limit_reached(e, self.limit_ms)
    }

    /// The whole milliseconds since the start.
    pub fn duration(&self) -> u128 {
        duration_as_millis(&instant_elapsed(&self.beg))
    }
}

} // verus!
