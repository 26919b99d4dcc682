//! The current time, from chrono.
use vstd::prelude::*;

verus! {

/// Relies on chrono's `Utc::now().timestamp()`: the seconds since the Unix epoch now.
#[verifier::external_body]
pub(crate) fn unix_now() -> (r: i64) {
    chrono::Utc::now().timestamp()
}

/// Relies on chrono's `Local::now()`: the seconds since the Unix epoch now, and the
/// local offset from UTC in seconds, which a `FixedOffset` keeps within a day.
#[verifier::external_body]
pub(crate) fn local_now() -> (r: (i64, i32))
    ensures
        -86400 < r.1 < 86400,
{
    let now = chrono::Local::now();
    (now.timestamp(), now.offset().local_minus_utc())
}

} // verus!
