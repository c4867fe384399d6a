//! Wall-clock timestamps.

use std::time::{Duration, SystemTime};
use vstd::prelude::*;

verus! {

/// A point on the system clock.
#[verifier::external_type_specification]
#[verifier::external_body]
pub struct ExSystemTime(SystemTime);

/// `SystemTime::now`: the system clock; nothing is promised of its reading.
pub assume_specification[ SystemTime::now ]() -> SystemTime;

/// `Duration::as_millis`: the whole milliseconds of a span; nothing is
/// promised of their number, which depends on the machine's clock.
pub assume_specification[ Duration::as_millis ](d: &Duration) -> u128;

/// `SystemTime::duration_since` the UNIX epoch; `None` for a clock before the
/// epoch. Nothing is promised: the reading depends on the machine's clock.
#[verifier::external_body]
fn since_epoch(t: &SystemTime) -> (r: Option<Duration>) {
    t.duration_since(SystemTime::UNIX_EPOCH).ok()
}

/// Clock readings that never go backwards: if the wall clock does (an
/// adjustment, a suspended machine), or cannot be read, the last valid
/// timestamp is returned instead.
#[derive(Debug, Clone, Copy)]
pub struct MonotonicClock {
    /// The last timestamp handed out.
    pub last_valid: u64,
}

impl Default for MonotonicClock {
    fn default() -> (r: Self)
        ensures
            r.last_valid == 0,
    {
        MonotonicClock { last_valid: 0 }
    }
}

impl MonotonicClock {
    pub fn new() -> (r: Self)
        ensures
            r.last_valid == 0,
    {
        MonotonicClock { last_valid: 0 }
    }

    /// The timestamp for a reading of the wall clock.
    pub fn clamp(&mut self, reading: Option<u64>) -> (r: u64)
        ensures
            r == (match reading {
                Some(ts) => if ts > old(self).last_valid {
                    ts
                } else {
                    old(self).last_valid
                },
                None => old(self).last_valid,
            }),
            final(self).last_valid == r,
    {
        match reading {
            Some(ts) => {
                if ts > self.last_valid {
                    self.last_valid = ts;
                }
            },
            None => {},
        }
        self.last_valid
    }
}

/// Current UNIX timestamp in milliseconds. It is never below an earlier one
/// of the same clock.
pub fn current_timestamp_millis(clock: &mut MonotonicClock) -> (r: u64)
    ensures
        r >= old(clock).last_valid,
        final(clock).last_valid == r,
{
    let now = SystemTime::now();
    let reading = match since_epoch(&now) {
        Some(d) => Some(d.as_millis() as u64),
        None => None,
    };
    clock.clamp(reading)
}

} // verus!
