//! Reading the system clock.  What the clock says depends on when it is read,
//! so nothing is promised of it; every function of the library that needs the
//! time has a sibling that takes it as an argument and is specified exactly.
use vstd::prelude::*;
use std::time::{Duration, SystemTime, UNIX_EPOCH};

verus! {

#[verifier::external_type_specification]
#[verifier::external_body]
pub struct ExSystemTime(SystemTime);

/// Calls `SystemTime::now`.  The current time is not a function of anything
/// the library holds, so nothing is stated of it.
#[verifier::external_body]
fn system_now() -> SystemTime {
    SystemTime::now()
}

/// Calls `SystemTime::duration_since` with the Unix epoch; `None` stands for
/// the error it returns when `t` lies before the epoch.  Nothing is stated of
/// the duration: it depends on the opaque `t`.
#[verifier::external_body]
fn since_epoch(t: &SystemTime) -> Option<Duration> {
    t.duration_since(UNIX_EPOCH).ok()
}

/// Calls `Duration::as_secs`.  The duration is opaque here, so nothing is
/// stated of the number of whole seconds it holds.
#[verifier::external_body]
fn whole_seconds(d: &Duration) -> u64 {
    d.as_secs()
}

/// Seconds since the Unix epoch, or 0 when the clock reads earlier than it.
pub fn now_timestamp() -> u64 {
    let t = system_now();
    match since_epoch(&t) {
        Some(d) => whole_seconds(&d),
        None => 0,
    }
}

}
