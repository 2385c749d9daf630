//! Where wall time enters: everything else in the library is clock-free.

use std::time::{Duration, SystemTime, SystemTimeError};
use vstd::prelude::*;

verus! {

/// A reading of the system clock.
#[verifier::external_type_specification]
#[verifier::external_body]
pub struct ExSystemTime(SystemTime);

/// The error of a clock that reads before the time asked about.
#[verifier::external_type_specification]
#[verifier::external_body]
pub struct ExSystemTimeError(SystemTimeError);

/// `SystemTime::now`: whatever the clock says; nothing is claimed of it.
#[verifier::external_body]
pub(crate) fn system_now() -> SystemTime {
    SystemTime::now()
}

/// `SystemTime::duration_since` the Unix epoch: nothing is claimed of it.
#[verifier::external_body]
pub(crate) fn since_epoch(time: SystemTime) -> Result<Duration, SystemTimeError> {
    time.duration_since(SystemTime::UNIX_EPOCH)
}

/// `Duration::as_nanos`: nothing is claimed of the number.
#[verifier::external_body]
pub(crate) fn whole_nanos(span: &Duration) -> u128 {
    span.as_nanos()
}

/// The time that a reading stands for: nanoseconds since the Unix epoch, the
/// highest number where that is too many, and zero where the clock reads
/// before the epoch.
pub open spec fn reading_ns(nanos: Option<u128>) -> u64 {
    match nanos {
        Some(nanos) => if nanos > u64::MAX {
            u64::MAX
        } else {
            nanos as u64
        },
        None => 0,
    }
}

/// The time that a reading of the clock stands for, in nanoseconds since the
/// Unix epoch; `None` is a clock that reads before it.
pub fn clamp_reading(nanos: Option<u128>) -> (ns: u64)
    ensures
        ns == reading_ns(nanos),
{
    match nanos {
        Some(nanos) => if nanos > u64::MAX as u128 {
            u64::MAX
        } else {
            nanos as u64
        },
        None => 0,
    }
}

/// The system clock can give this reading: the time of a call, taken from the
/// epoch, in whole nanoseconds, or none where it lies before the epoch.
pub closed spec fn clock_gave(nanos: Option<u128>) -> bool {
    exists|at: SystemTime, read: Result<Duration, SystemTimeError>|
        {
            &&& #[trigger] call_ensures(system_now, (), at)
            &&& #[trigger] call_ensures(since_epoch, (at,), read)
            &&& match read {
                Ok(span) => nanos is Some && call_ensures(whole_nanos, (&span,), nanos->0),
                Err(_) => nanos is None,
            }
        }
}

/// Nanoseconds since the Unix epoch, from the system clock: what
/// [`clamp_reading`] makes of the reading that the clock gave.
pub fn now_ns() -> (ns: u64)
    ensures
        exists|nanos: Option<u128>| #[trigger] clock_gave(nanos) && ns == reading_ns(nanos),
{
    let at = system_now();
    let read = since_epoch(at);
    let ghost given = read;
    match read {
        Ok(span) => {
            let nanos = whole_nanos(&span);
            assert(call_ensures(system_now, (), at) && call_ensures(since_epoch, (at,), given));
            assert(clock_gave(Some(nanos)));
            clamp_reading(Some(nanos))
        },
        Err(_) => {
            assert(call_ensures(system_now, (), at) && call_ensures(since_epoch, (at,), given));
            assert(clock_gave(None));
            clamp_reading(None)
        },
    }
}

} // verus!
