//! Wall-clock time in milliseconds since the Unix epoch.

use std::time::{SystemTime, UNIX_EPOCH};

use vstd::prelude::*;

verus! {

/// Milliseconds since the Unix epoch (`SystemTime::now` measured from
/// `UNIX_EPOCH`, 0 when the clock reads earlier than the epoch).
/// Trusted: nothing is claimed of the value, which depends on the clock.
#[verifier::external_body]
pub(crate) fn now_millis() -> u64 {
    SystemTime::now().duration_since(UNIX_EPOCH).map(|d| d.as_millis() as u64).unwrap_or(0)
}

} // verus!
