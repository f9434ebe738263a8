//! A stopwatch over the monotonic clock.

use vstd::prelude::*;
use std::time::{Duration, Instant};

verus! {

/// A moment of the monotonic clock. Nothing is known of its value.
#[verifier::external_type_specification]
#[verifier::external_body]
pub struct ExInstant(std::time::Instant);

/// Trusted: `Instant::now`. The moment depends on the clock, so nothing is
/// claimed of it.
#[verifier::external_body]
fn now() -> Instant {
    Instant::now()
}

/// Trusted: `Instant::elapsed`. The time that has passed depends on the
/// clock, so nothing is claimed of it.
#[verifier::external_body]
fn elapsed_since(start: &Instant) -> Duration {
    start.elapsed()
}

/// A stopwatch: it is running from a call of `start` to the next call of
/// `stop` or `reset`.
#[derive(Debug)]
pub struct Stopwatch {
    start_instant: Option<Instant>,
}

impl Stopwatch {
    /// Whether the stopwatch has been started and not stopped since.
    pub closed spec fn running(&self) -> bool {
        self.start_instant is Some
    }

    /// A stopwatch that is not running.
    pub fn new() -> (stopwatch: Stopwatch)
        ensures
            !stopwatch.running(),
    {
        Stopwatch { start_instant: None }
    }

    /// Starts the stopwatch, or starts it anew.
    pub fn start(&mut self)
        ensures
            final(self).running(),
    {
        self.start_instant = Some(now());
    }

    /// Stops the stopwatch. Returns the time since it was started, or nothing
    /// where it was not running.
    pub fn stop(&mut self) -> (elapsed: Option<Duration>)
        ensures
            !final(self).running(),
            elapsed is Some <==> old(self).running(),
    {
        let elapsed = match &self.start_instant {
            Some(start) => Some(elapsed_since(start)),
            None => None,
        };
        self.start_instant = None;
        elapsed
    }

    /// Whether the stopwatch is running.
    pub fn is_running(&self) -> (running: bool)
        ensures
            running == self.running(),
    {
        self.start_instant.is_some()
    }

    /// Puts the stopwatch back to the state in which it is not running.
    pub fn reset(&mut self)
        ensures
            !final(self).running(),
    {
        self.start_instant = None;
    }
}

} // verus!
