//! Time as plain numbers of nanoseconds.

use vstd::prelude::*;

verus! {

/// `std::time::Instant`, a reading of the monotonic clock of the machine.
#[verifier::external_type_specification]
#[verifier::external_body]
pub struct ExInstant(std::time::Instant);

/// `std::time::Instant::now`: reads the clock. Nothing is said of the reading.
pub assume_specification[ std::time::Instant::now ]() -> (now: std::time::Instant)
;

/// `std::time::Instant::elapsed`, in nanoseconds: the time since `origin`.
/// Nothing is said of how long that is.
#[verifier::external_body]
fn nanos_since(origin: &std::time::Instant) -> u128 {
    origin.elapsed().as_nanos()
}

/// A span of time.
#[derive(Clone, Copy, Debug, PartialEq, Eq)]
pub struct Duration {
    pub nanos: u128,
}

/// A moment, as the time that has passed since some origin.
#[derive(Clone, Copy, Debug, PartialEq, Eq)]
pub struct Instant {
    pub nanos: u128,
}

impl Duration {
    pub fn from_secs(secs: u64) -> (d: Self)
        ensures
            d.nanos == secs * 1_000_000_000,
    {
        Duration { nanos: secs as u128 * 1_000_000_000 }
    }

    pub fn from_millis(millis: u64) -> (d: Self)
        ensures
            d.nanos == millis * 1_000_000,
    {
        Duration { nanos: millis as u128 * 1_000_000 }
    }
}

impl Instant {
    /// The moment `d` later, or the last moment that can be told apart.
    pub fn after(self, d: Duration) -> (later: Self)
        ensures
            later.nanos == if self.nanos + d.nanos <= u128::MAX {
                self.nanos + d.nanos
            } else {
                u128::MAX as int
            },
    {
        Instant { nanos: self.nanos.saturating_add(d.nanos) }
    }

    /// Time from `earlier` to this moment: none when `earlier` is later.
    pub open spec fn since(self, earlier: Self) -> nat {
        if self.nanos >= earlier.nanos {
            (self.nanos - earlier.nanos) as nat
        } else {
            0
        }
    }

    /// Time from `earlier` to this moment: none when `earlier` is later.
    pub fn duration_since(self, earlier: Self) -> (d: Duration)
        ensures
            d.nanos == self.since(earlier),
    {
        Duration { nanos: self.nanos.saturating_sub(earlier.nanos) }
    }
}

/// `std::sync::OnceLock`, a cell that is written once.
#[verifier::external_type_specification]
#[verifier::external_body]
#[verifier::reject_recursive_types(T)]
pub struct ExOnceLock<T>(std::sync::OnceLock<T>);

/// `OnceLock::new` of std: a cell that is not written yet.
pub assume_specification<T>[ std::sync::OnceLock::<T>::new ]() -> (cell: std::sync::OnceLock<T>)
;

/// `OnceLock::get` of std: what the cell holds, or `None` if it is not written
/// yet. Others may write it at any time, so nothing is said of which.
pub assume_specification<T>[ std::sync::OnceLock::<T>::get ](
    cell: &std::sync::OnceLock<T>,
) -> (value: Option<&T>)
;

/// `OnceLock::set` of std: writes the cell, or gives the value back if it is
/// written. Others may write it at any time, so nothing is said of which.
pub assume_specification<T>[ std::sync::OnceLock::<T>::set ](
    cell: &std::sync::OnceLock<T>,
    value: T,
) -> (r: Result<(), T>)
;

/// The clone of a `OnceLock` of std: a cell that holds a clone of what the first
/// one holds at that time.
pub assume_specification<T: Clone>[ <std::sync::OnceLock<T> as Clone>::clone ](
    cell: &std::sync::OnceLock<T>,
) -> (copy: std::sync::OnceLock<T>)
;

/// A clock that tells the time since it was first read.
#[derive(Clone, Debug)]
pub struct Clock {
    origin: std::sync::OnceLock<std::time::Instant>,
}

impl Clock {
    /// Nothing was read for the clock yet.
    pub closed spec fn is_new(&self) -> bool {
        call_ensures(std::sync::OnceLock::<std::time::Instant>::new, (), self.origin)
    }

    /// The moment is one that the machine gives for the time since the first
    /// reading of this clock: the beginning, where there is no reading.
    pub closed spec fn shows(&self, at: Instant) -> bool {
        exists|origin: Option<&std::time::Instant>| #[trigger]
            call_ensures(
                std::sync::OnceLock::<std::time::Instant>::get,
                (&self.origin,),
                origin,
            ) && match origin {
                Some(origin) => call_ensures(nanos_since, (origin,), at.nanos),
                None => at.nanos == 0,
            }
    }

    /// The time in nanoseconds is that between two readings of this clock.
    pub open spec fn measures(&self, ns: u128) -> bool {
        exists|from: Instant, to: Instant| #[trigger]
            self.shows(from) && #[trigger] self.shows(to) && ns == to.since(from)
    }

    /// A clock that counts from its first reading. The clock of the machine is
    /// not read here.
    pub fn start() -> (clock: Self)
        ensures
            clock.is_new(),
    {
        Clock { origin: std::sync::OnceLock::new() }
    }

    /// The present moment, counted from the first reading of the clock.
    pub fn now(&self) -> (at: Instant)
        ensures
            self.shows(at),
    {
        if self.origin.get().is_none() {
            let _ = self.origin.set(std::time::Instant::now());
        }
        let origin = self.origin.get();
        match origin {
            Some(start) => Instant { nanos: nanos_since(start) },
            None => Instant { nanos: 0 },
        }
    }
}

/// `std::time::SystemTime::elapsed`, of the Unix epoch and in seconds: the time
/// of day, or `None` if the clock is set to an earlier time. Nothing is said
/// of the reading.
#[verifier::external_body]
fn seconds_since_epoch() -> Option<u64> {
    std::time::UNIX_EPOCH.elapsed().ok().map(|d| d.as_secs())
}

/// The reading is one that the machine gives for the time since the Unix epoch.
pub closed spec fn epoch_reading(reading: Option<u64>) -> bool {
    call_ensures(seconds_since_epoch, (), reading)
}

/// The seconds that a reading tells: zero if the clock is set to a time before
/// the Unix epoch.
pub open spec fn seconds_told(reading: Option<u64>) -> u64 {
    match reading {
        Some(secs) => secs,
        None => 0,
    }
}

/// Seconds since the Unix epoch, or zero if the clock is set to an earlier
/// time.
pub fn unix_seconds() -> (seconds: u64)
    ensures
        exists|reading: Option<u64>|
            #[trigger] epoch_reading(reading) && seconds == seconds_told(reading),
{
    let reading = seconds_since_epoch();
    assert(epoch_reading(reading));
    match reading {
        Some(secs) => secs,
        None => 0,
    }
}

} // verus!
