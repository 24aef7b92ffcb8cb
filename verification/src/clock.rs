//! The clock and the durations of std.

use std::time::{Duration, UNIX_EPOCH};
use vstd::prelude::*;

verus! {

/// The whole seconds of a duration.
pub uninterp spec fn duration_secs(duration: Duration) -> u64;

/// `Duration::from_secs`: the duration of that many whole seconds.
#[verifier::external_body]
pub(crate) fn duration_from_secs(secs: u64) -> (duration: Duration)
    ensures
        duration_secs(duration) == secs,
{
    Duration::from_secs(secs)
}

/// `Duration::as_secs`: the whole seconds of the duration.
#[verifier::external_body]
pub(crate) fn duration_as_secs(duration: &Duration) -> (secs: u64)
    ensures
        secs == duration_secs(*duration),
{
    duration.as_secs()
}

/// The whole milliseconds of a duration.
pub uninterp spec fn duration_millis(duration: Duration) -> u128;

/// `Duration::as_millis`: the whole milliseconds of the duration.
#[verifier::external_body]
pub(crate) fn duration_as_millis(duration: &Duration) -> (millis: u128)
    ensures
        millis == duration_millis(*duration),
{
    duration.as_millis()
}

/// `SystemTime::elapsed` of the Unix epoch: the time since the epoch, or
/// `None` where the clock stands before it. Nothing is known of the value.
#[verifier::external_body]
pub(crate) fn epoch_elapsed() -> Option<Duration> {
    UNIX_EPOCH.elapsed().ok()
}

/// The timestamp that a reading of the clock stands for: the whole
/// milliseconds of the time since the Unix epoch, cut to 64 bits, and zero
/// where the clock stands before the epoch.
pub open spec fn timestamp_of(elapsed: Option<Duration>) -> u64 {
    match elapsed {
        Some(since) => duration_millis(since) as u64,
        None => 0,
    }
}

/// The timestamp that a reading of the clock stands for.
pub fn millis_since_epoch(elapsed: Option<Duration>) -> (millis: u64)
    ensures
        millis == timestamp_of(elapsed),
{
    match elapsed {
        Some(since) => {
            let millis: u128 = duration_as_millis(&since);
            #[verifier::truncate]
            (millis as u64)
        },
        None => 0,
    }
}

/// The time of the call as a timestamp: the clock is read once, and the
/// result is the timestamp that its reading stands for.
pub(crate) fn now_millis() -> (millis: u64)
    ensures
        exists|elapsed: Option<Duration>| millis == #[trigger] timestamp_of(elapsed),
{
    millis_since_epoch(epoch_elapsed())
}

} // verus!
