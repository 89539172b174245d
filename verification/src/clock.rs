//! Readings of the machine's clocks.
use vstd::prelude::*;

verus! {

/// `std::time::Instant`, carried as an opaque value.
#[verifier::external_type_specification]
#[verifier::external_body]
pub struct ExInstant(std::time::Instant);

/// `std::time::Instant::now`. A clock reading: nothing is claimed of it.
#[verifier::external_body]
fn instant() -> (r: std::time::Instant) {
    std::time::Instant::now()
}

/// `std::time::Instant::elapsed`, in nanoseconds. A clock reading: nothing is claimed of it.
#[verifier::external_body]
fn nanos_since(epoch: &std::time::Instant) -> (r: u128) {
    epoch.elapsed().as_nanos()
}

/// `std::time::SystemTime`, carried as an opaque value.
#[verifier::external_type_specification]
#[verifier::external_body]
pub struct ExSystemTime(std::time::SystemTime);

/// `std::time::SystemTime::now`. A clock reading: nothing is claimed of it.
#[verifier::external_body]
fn system_time() -> (r: std::time::SystemTime) {
    std::time::SystemTime::now()
}

/// `std::time::SystemTime::duration_since` the Unix epoch, in whole seconds, or `None` where the
/// reading stands before it. The reading is opaque, so that nothing is claimed of the result.
#[verifier::external_body]
fn unix_secs(reading: &std::time::SystemTime) -> (r: Option<u64>) {
    reading.duration_since(std::time::UNIX_EPOCH).ok().map(|d| d.as_secs())
}

/// A monotonic clock that counts nanoseconds from when it was started.
pub struct Clock {
    epoch: std::time::Instant,
    last: u128,
}

impl Clock {
    /// The last reading, in nanoseconds since the start; zero before the first one.
    pub closed spec fn time(&self) -> u128 {
        self.last
    }

    /// Starts a clock.
    pub fn start() -> (r: Clock)
        ensures
            r.time() == 0,
    {
        Clock { epoch: instant(), last: 0 }
    }

    /// Nanoseconds since the clock was started. A reading is never before an earlier one.
    pub fn now(&mut self) -> (r: u128)
        ensures
            r == final(self).time(),
            final(self).time() >= old(self).time(),
    {
        let reading: u128 = nanos_since(&self.epoch);
        if reading > self.last {
            self.last = reading;
        }
        self.last
    }
}

/// The time stamp for a reading of the wall clock: its seconds, and zero for a clock that stands
/// before the Unix epoch. A reading past the range of the stamp gives the last stamp.
pub fn stamp(reading: Option<u64>) -> (r: i64)
    ensures
        r == (match reading {
            Some(s) => if s <= i64::MAX {
                s as int
            } else {
                i64::MAX as int
            },
            None => 0,
        }),
{
    match reading {
        Some(s) => if s <= i64::MAX as u64 {
            s as i64
        } else {
            i64::MAX
        },
        None => 0,
    }
}

/// The current Unix time in seconds, zero where the clock stands before the epoch.
pub fn now_secs() -> (r: i64)
    ensures
        r >= 0,
{
    stamp(unix_secs(&system_time()))
}

} // verus!
