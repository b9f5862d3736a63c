//! Access to the system clock.
//!
//! The daemons time-gate envelopes against the wall clock. All validation
//! logic takes the current time as an explicit argument and is verified for
//! every value of it; only the single function below reads the clock itself.

use vstd::prelude::*;

verus! {

/// Relies on std::time::SystemTime::now: the seconds elapsed since the Unix
/// epoch, or zero if the clock reads earlier than the epoch. Nothing is
/// assumed of the value returned.
#[verifier::external_body]
pub fn current_unix_seconds() -> u64 {
    match std::time::SystemTime::now().duration_since(std::time::UNIX_EPOCH) {
        Ok(d) => d.as_secs(),
        Err(_) => 0,
    }
}

} // verus!
