//! The system clock.

use vstd::prelude::*;

verus! {

/// `SystemTime::elapsed` of `UNIX_EPOCH`: the seconds since 1970, or nothing when
/// the clock stands before that. What the clock shows is not stated.
#[verifier::external_body]
pub(crate) fn seconds_since_epoch() -> (r: Option<u64>) {
    match std::time::UNIX_EPOCH.elapsed() {
        Ok(passed) => Some(passed.as_secs()),
        Err(_) => None,
    }
}

} // verus!
