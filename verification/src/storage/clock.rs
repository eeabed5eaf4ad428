//! The wall clock, as far as the store reads it: the time since the Unix
//! epoch that stamps records and names files.

use std::time::Duration;
use std::time::SystemTime;
use std::time::SystemTimeError;
use vstd::prelude::*;

verus! {

#[verifier::external_type_specification]
#[verifier::external_body]
pub struct ExSystemTime(SystemTime);

#[verifier::external_type_specification]
#[verifier::external_body]
pub struct ExSystemTimeError(SystemTimeError);

/// `SystemTime::now`: the current reading of the system clock. Nothing is
/// claimed of it.
pub assume_specification[ SystemTime::now ]() -> (t: SystemTime)
;

/// `SystemTime::duration_since`: the time elapsed from `earlier` to `t`, or
/// an error where `earlier` is the later of the two. Nothing is claimed of it.
pub assume_specification[ SystemTime::duration_since ](t: &SystemTime, earlier: SystemTime) -> (r:
    Result<Duration, SystemTimeError>)
;

/// `Duration::as_nanos`: the whole duration in nanoseconds. Nothing is
/// claimed of the number.
pub assume_specification[ Duration::as_nanos ](d: &Duration) -> (n: u128)
;

/// `Duration::as_micros`: the whole duration in microseconds. Nothing is
/// claimed of the number.
pub assume_specification[ Duration::as_micros ](d: &Duration) -> (n: u128)
;

/// The Unix epoch as a point in time.
#[verifier::external_body]
fn unix_epoch() -> (t: SystemTime) {
    std::time::UNIX_EPOCH
}

/// Nanoseconds since the Unix epoch; 0 where the clock reads earlier than that.
pub fn now_nanos() -> (n: u128) {
    let now = SystemTime::now();
    match now.duration_since(unix_epoch()) {
        Ok(elapsed) => elapsed.as_nanos(),
        Err(_) => 0,
    }
}

/// Microseconds since the Unix epoch; 0 where the clock reads earlier than that.
pub fn now_micros() -> (n: u128) {
    let now = SystemTime::now();
    match now.duration_since(unix_epoch()) {
        Ok(elapsed) => elapsed.as_micros(),
        Err(_) => 0,
    }
}

} // verus!
