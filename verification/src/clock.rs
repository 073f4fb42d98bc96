//! The wall clock, the monotonic clock and random identifiers.

use std::time::{Instant, SystemTime, UNIX_EPOCH};
use vstd::prelude::*;

verus! {

/// Seconds since the Unix epoch.
/// Calls `SystemTime::now` and `duration_since(UNIX_EPOCH)`; nothing is
/// claimed of the result. A clock set before the epoch reads as 0.
#[verifier::external_body]
pub(crate) fn unix_now_secs() -> (t: u64) {
    match SystemTime::now().duration_since(UNIX_EPOCH) {
        Ok(d) => d.as_secs(),
        Err(_) => 0,
    }
}

/// Nanoseconds since the Unix epoch.
/// Calls `SystemTime::now` and `duration_since(UNIX_EPOCH)`, then
/// `Duration::as_nanos`; nothing is claimed of the result. A clock set
/// before the epoch reads as 0.
#[verifier::external_body]
pub(crate) fn unix_now_nanos() -> (t: u128) {
    match SystemTime::now().duration_since(UNIX_EPOCH) {
        Ok(d) => d.as_nanos(),
        Err(_) => 0,
    }
}

#[verifier::external_type_specification]
#[verifier::external_body]
pub struct ExInstant(Instant);

/// Reads the monotonic clock.
/// Calls `Instant::now`; nothing is claimed of the result.
#[verifier::external_body]
pub(crate) fn instant_now() -> (t: Instant) {
    Instant::now()
}

/// Whole seconds gone by since `t`.
/// Calls `Instant::elapsed` and `Duration::as_secs`; nothing is claimed of
/// the result.
#[verifier::external_body]
pub(crate) fn secs_since(t: &Instant) -> (s: u64) {
    t.elapsed().as_secs()
}

/// A fresh random (version 4) UUID in its hyphenated text form.
/// Calls `uuid::Uuid::new_v4` and formats it; the contract claims only the
/// length of the hyphenated form, 36 characters.
#[verifier::external_body]
pub(crate) fn new_uuid_text() -> (s: String)
    ensures
        s@.len() == 36,
{
    uuid::Uuid::new_v4().to_string()
}

} // verus!
