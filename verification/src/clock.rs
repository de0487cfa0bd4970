//! The system clock, and what the store makes of its readings.

use vstd::prelude::*;

verus! {

/// `std::time::SystemTime`, a reading of the system clock: carried from
/// one call to the next, nothing is read from it.
#[verifier::external_type_specification]
#[verifier::external_body]
pub struct ExSystemTime(std::time::SystemTime);

/// `std::time::SystemTimeError`, the error of a reading taken before the
/// epoch: told apart from a duration, nothing is read from it.
#[verifier::external_type_specification]
#[verifier::external_body]
pub struct ExSystemTimeError(std::time::SystemTimeError);

/// `SystemTime::now`: a reading of the system clock. Nothing is claimed of
/// it.
#[verifier::external_body]
pub(crate) fn system_now() -> std::time::SystemTime {
    std::time::SystemTime::now()
}

/// `SystemTime::duration_since`, measured from `UNIX_EPOCH`: how long after
/// the epoch the reading was taken, or the error that it was taken before.
/// Nothing is claimed of it.
#[verifier::external_body]
pub(crate) fn since_epoch(t: &std::time::SystemTime) -> Result<
    std::time::Duration,
    std::time::SystemTimeError,
> {
    t.duration_since(std::time::UNIX_EPOCH)
}

/// `Duration::as_millis`: the whole milliseconds of a duration. Nothing is
/// claimed of it.
#[verifier::external_body]
pub(crate) fn whole_millis(d: &std::time::Duration) -> u128 {
    d.as_millis()
}

/// The timestamp that stands for a clock reading, given in milliseconds
/// since the epoch: 0 for a clock that stands before the epoch, the greatest
/// timestamp for a reading beyond it.
pub open spec fn stamp_of(reading: Option<u128>) -> i64 {
    match reading {
        None => 0,
        Some(ms) => if ms > i64::MAX {
            i64::MAX
        } else {
            ms as i64
        },
    }
}

/// Makes a timestamp of a clock reading.
pub fn reading_to_stamp(reading: Option<u128>) -> (r: i64)
    ensures
        r == stamp_of(reading),
        r >= 0,
{
    match reading {
        None => 0,
        Some(ms) => if ms > 0x7fff_ffff_ffff_ffffu128 {
            i64::MAX
        } else {
            ms as i64
        },
    }
}

/// What a timestamp is as seconds since the epoch and nanoseconds within
/// the second. A time before the epoch has such parts only where it falls
/// on a whole second.
pub open spec fn parts_of(ms: i64) -> Option<(i64, u32)> {
    if ms >= 0 {
        Some(((ms / 1000) as i64, ((ms % 1000) * 1_000_000) as u32))
    } else if (-ms) % 1000 == 0 {
        Some(((-((-ms) / 1000)) as i64, 0u32))
    } else {
        None
    }
}

/// Splits a timestamp into seconds and nanoseconds.
pub fn timestamp_parts(ms: i64) -> (r: Option<(i64, u32)>)
    ensures
        r == parts_of(ms),
{
    if ms >= 0 {
        let rest: i64 = ms % 1000;
        Some((ms / 1000, (rest * 1_000_000) as u32))
    } else if ms == i64::MIN {
        assert((-(i64::MIN as int)) % 1000 == 808) by (nonlinear_arith);
        None
    } else {
        let m: i64 = -ms;
        if m % 1000 == 0 {
            Some((-(m / 1000), 0))
        } else {
            None
        }
    }
}

} // verus!
