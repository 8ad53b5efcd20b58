//! The injected wall-clock capability: the search polls it cooperatively
//! for its deadline. Callers may substitute a deterministic clock.

use vstd::prelude::*;

verus! {

/// A source of wall-clock time in milliseconds. Nothing is promised of the
/// values it hands out: the solver states what holds of every outcome.
pub trait Clock {
    fn now_ms(&mut self) -> u64;
}

/// The host's real clock.
pub struct SystemClock;

/// Relies on std::time::SystemTime::now and duration_since(UNIX_EPOCH):
/// wall-clock milliseconds since the Unix epoch, zero when the system
/// clock reads before the epoch.
#[verifier::external_body]
fn wall_clock_ms() -> u64 {
    match std::time::SystemTime::now().duration_since(std::time::UNIX_EPOCH) {
        Ok(d) => d.as_millis() as u64,
        Err(_) => 0,
    }
}

impl Clock for SystemClock {
    fn now_ms(&mut self) -> u64 {
        wall_clock_ms()
    }
}

/// A deterministic clock for tests: hands out the given instants in order,
/// then repeats the last one (zero when none was given).
pub struct ManualClock {
    pub times: Vec<u64>,
    pub next: usize,
}

impl ManualClock {
    pub fn new(times: Vec<u64>) -> (r: ManualClock)
        ensures
            r.times@ == times@,
            r.next == 0,
    {
        ManualClock { times, next: 0 }
    }
}

impl Clock for ManualClock {
    fn now_ms(&mut self) -> u64 {
        if self.next < self.times.len() {
            let t = self.times[self.next];
            self.next = self.next + 1;
            t
        } else if self.times.len() > 0 {
            self.times[self.times.len() - 1]
        } else {
            0
        }
    }
}

} // verus!
