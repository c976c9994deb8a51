//! Timestamps and durations.
//!
//! Every financial timestamp in this library is a UTC instant, held as a
//! whole number of nanoseconds since the Unix epoch; durations are whole
//! nanoseconds. Instants lie in the calendar's range, from the start of
//! year -262143 to the end of year 262142, and a duration spans at most
//! `i64::MAX` milliseconds either way. Conversion to and from calendar
//! types happens at the edge of the library, never inside it.

use vstd::prelude::*;

verus! {

/// A UTC instant: nanoseconds since 1970-01-01T00:00:00Z.
pub type Timestamp = i128;

/// A signed span of time, in nanoseconds.
pub type Duration = i128;

/// Nanoseconds in one second.
pub const NANOS_PER_SECOND: i128 = 1_000_000_000;

/// Nanoseconds in one day.
pub const NANOS_PER_DAY: i128 = 86_400_000_000_000;

/// The largest number of whole days a span may hold.
pub const MAX_DAYS: i64 = 106751991167;

/// The longest span either way: `i64::MAX` milliseconds.
pub const MAX_DURATION: i128 = 9_223_372_036_854_775_807_000_000;

/// The earliest instant: -262143-01-01T00:00:00Z.
pub const MIN_INSTANT: i128 = -8_334_601_315_200_000_000_000;

/// The latest instant: 262142-12-31T23:59:59.999999999Z.
pub const MAX_INSTANT: i128 = 8_210_266_876_799_999_999_999;

/// A span of `n` whole days.
pub fn days(n: i64) -> (d: Duration)
    requires
        -MAX_DAYS <= n <= MAX_DAYS,
    ensures
        d == n * NANOS_PER_DAY,
        -MAX_DURATION <= d <= MAX_DURATION,
{
    (n as i128) * NANOS_PER_DAY
}

} // verus!
