//! Instants, as nanoseconds since the Unix epoch. The library never reads the
//! clock itself: every operation that depends on the time takes the instant
//! as an argument.

use vstd::prelude::*;

verus! {

/// Nanoseconds in one second.
pub const NANOS_PER_SEC: i128 = 1_000_000_000;

/// Instants made of a whole number of seconds since the Unix epoch that fits
/// in `i64` and a fraction below one second, in nanoseconds. Every
/// `DateTime<Utc>` reading of the clock outside a leap second is one of them.
pub open spec fn in_clock_range(t: int) -> bool {
    i64::MIN * 1_000_000_000 <= t < (i64::MAX + 1) * 1_000_000_000
}

/// The instant `secs` seconds and `subsec_nanos` nanoseconds after the Unix
/// epoch, as a clock reading gives them (`DateTime::timestamp` and
/// `DateTime::timestamp_subsec_nanos`).
pub fn instant_from_parts(secs: i64, subsec_nanos: u32) -> (t: i128)
    requires
        subsec_nanos < 1_000_000_000,
    ensures
        t == secs * 1_000_000_000 + subsec_nanos,
        in_clock_range(t as int),
{
    (secs as i128) * NANOS_PER_SEC + (subsec_nanos as i128)
}

} // verus!
