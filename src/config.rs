use vstd::prelude::*;

verus! {

/// Epoch of the minute axis, 2021-06-23 00:00:00 UTC, in milliseconds.
pub const BASE_TIME: i64 = 1624377600000;

/// Milliseconds in one minute.
pub const MILLIS_IN_MIN: i64 = 60000;

} // verus!
