//! The wall clock, behind a trusted boundary. Expiry decisions take the
//! reading as an argument, so nothing downstream depends on what it returns.

use vstd::prelude::*;

verus! {

/// Relies on time::OffsetDateTime::now_utc and unix_timestamp: reads the wall
/// clock. Nothing can be promised of the value.
#[verifier::external_body]
fn unix_now() -> (r: i64) {
    time::OffsetDateTime::now_utc().unix_timestamp()
}

/// The current wall-clock reading as whole seconds, clamped at zero.
pub fn now_seconds() -> (r: u64) {
    let t = unix_now();
    if t < 0 {
        0
    } else {
        t as u64
    }
}

} // verus!
