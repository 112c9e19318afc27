//! The system clock, read in milliseconds since the Unix epoch.

use vstd::prelude::*;
use std::time::{Duration, SystemTime, SystemTimeError};

verus! {

/// `std::time::SystemTime`, carried through as an opaque value.
#[verifier::external_type_specification]
#[verifier::external_body]
pub struct ExSystemTime(SystemTime);

/// `std::time::SystemTimeError`, carried through as an opaque value.
#[verifier::external_type_specification]
#[verifier::external_body]
pub struct ExSystemTimeError(SystemTimeError);

/// `SystemTime::now`: the current time of the system clock. Nothing is
/// stated of the value, which depends on when the call is made.
#[verifier::external_body]
fn system_time_now() -> SystemTime {
    SystemTime::now()
}

/// `SystemTime::duration_since(UNIX_EPOCH)`: how long after the Unix epoch
/// `t` is, or an error when `t` is before it. Nothing is stated of the
/// result: the time it reads is opaque to the library.
#[verifier::external_body]
fn duration_since_epoch(t: &SystemTime) -> Result<Duration, SystemTimeError> {
    t.duration_since(std::time::UNIX_EPOCH)
}

/// `Duration::as_millis`: the whole milliseconds in `d`. Nothing is stated
/// of the value, as the duration is opaque to the library.
#[verifier::external_body]
fn duration_millis(d: &Duration) -> u128 {
    d.as_millis()
}

/// Milliseconds since the Unix epoch by the system clock, cut to 64 bits;
/// 0 when the clock is set before the epoch.
pub fn now_unix_ms() -> u64 {
    let now = system_time_now();
    match duration_since_epoch(&now) {
        Ok(elapsed) => {
            let millis = duration_millis(&elapsed);
            #[verifier::truncate]
            (millis as u64)
        },
        Err(_) => 0,
    }
}

} // verus!
