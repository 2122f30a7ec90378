//! The wall clock.

use vstd::prelude::*;

verus! {

/// Relies on `std::time::SystemTime::now`: the current wall-clock time as
/// milliseconds since the Unix epoch. A clock standing before the epoch, or
/// one whose millisecond count does not fit an `i64`, reads as 0 instead of
/// failing, so the call never panics. Nothing is assumed of the value — the
/// clock may step in either direction between calls — and the engine clamps
/// it to keep its own timestamps monotone.
#[verifier::external_body]
pub(crate) fn now_millis() -> (r: i64) {
    match std::time::SystemTime::now().duration_since(std::time::UNIX_EPOCH) {
        Ok(d) => i64::try_from(d.as_millis()).unwrap_or(0),
        Err(_) => 0,
    }
}

} // verus!
