//! The one place the library reads the wall clock.

use vstd::prelude::*;

verus! {

/// Relies on `std::time::SystemTime::now` and `duration_since`: the current
/// wall-clock time in whole epoch seconds, negative when the clock stands
/// before the epoch and saturating at the representable range, so the call
/// returns on every clock setting.  Nothing is assumed about the value; the
/// clock may move arbitrarily between calls.
#[verifier::external_body]
pub(crate) fn now_epoch_seconds() -> i64 {
    match std::time::SystemTime::now().duration_since(std::time::UNIX_EPOCH) {
        Ok(d) => i64::try_from(d.as_secs()).unwrap_or(i64::MAX),
        Err(e) => i64::try_from(e.duration().as_secs()).map_or(i64::MIN, |s| -s),
    }
}

} // verus!
