//! The time of day.
use std::time::{SystemTime, UNIX_EPOCH};
use vstd::prelude::*;

verus! {

#[verifier::external_type_specification]
#[verifier::external_body]
pub struct ExSystemTime(SystemTime);

/// `std::time::SystemTime::now`: the time that the machine has, which may be any.
#[verifier::external_body]
fn system_time() -> (t: SystemTime) {
    SystemTime::now()
}

/// The whole seconds from the Unix epoch to some time. Nothing, where the time lies
/// before the epoch.
pub uninterp spec fn epoch_seconds(t: SystemTime) -> Option<u64>;

/// Whether so many seconds since the Unix epoch are what a time of day shows: 0, where
/// the time lies before the epoch.
pub open spec fn is_time(seconds: u64) -> bool {
    exists|t: SystemTime|
        seconds == match #[trigger] epoch_seconds(t) {
            Some(n) => n,
            None => 0,
        }
}

/// `std::time::SystemTime::duration_since` the Unix epoch, in whole seconds: the result
/// depends on the time alone. Nothing, where the time lies before the epoch.
#[verifier::external_body]
fn seconds_since_epoch(t: &SystemTime) -> (r: Option<u64>)
    ensures
        r == epoch_seconds(*t),
{
    match t.duration_since(UNIX_EPOCH) {
        Ok(d) => Some(d.as_secs()),
        Err(_) => None,
    }
}

/// The seconds since the Unix epoch, or 0 where the machine's clock is before it.
/// Which time that is, the machine says.
pub fn unix_seconds() -> (s: u64)
    ensures
        is_time(s),
{
    let t: SystemTime = system_time();
    match seconds_since_epoch(&t) {
        Some(s) => s,
        None => 0,
    }
}

} // verus!
