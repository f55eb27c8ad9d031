//! The wall clock.

use vstd::prelude::*;

verus! {

/// The current time in whole seconds since the Unix epoch.
///
/// Calls `chrono::Utc::now` and takes the `timestamp` of what it returns.
/// Nothing is claimed of the seconds: they depend on when the call is made.
/// `Utc::now` does not return where the system clock is set before the
/// epoch.
#[verifier::external_body]
pub(crate) fn now() -> (seconds: i64) {
    chrono::Utc::now().timestamp()
}

} // verus!
