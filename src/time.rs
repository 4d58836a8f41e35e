//! Wall-clock instants attached to orders and events.
use vstd::prelude::*;

verus! {

/// An instant in UTC: whole seconds since the Unix epoch and the nanoseconds
/// past that second (a leap second may carry the nanoseconds past one billion).
#[derive(Clone, Copy, Debug, PartialEq, Eq, Structural)]
pub struct Timestamp {
    pub secs: i64,
    pub nanos: u32,
}

impl Timestamp {
    /// `self` is not later than `other`.
    pub open spec fn spec_le(self, other: Timestamp) -> bool {
        self.secs < other.secs || (self.secs == other.secs && self.nanos <= other.nanos)
    }

    /// Whether `self` is not later than `other`.
    pub fn le(&self, other: &Timestamp) -> (r: bool)
        ensures
            r == self.spec_le(*other),
    {
        self.secs < other.secs || (self.secs == other.secs && self.nanos <= other.nanos)
    }
}

/// Relies on chrono's `From<SystemTime> for DateTime<Utc>`, applied to
/// `std::time::SystemTime::now()`, for the current time, taken apart into
/// `DateTime::timestamp` and `DateTime::timestamp_subsec_nanos`. A clock set
/// before the Unix epoch gives negative seconds; chrono only fails on instants
/// beyond its range of about 262,000 years either side of the epoch. Nothing
/// is promised of the instant: the clock may be set back between two calls.
#[verifier::external_body]
pub(crate) fn clock_now() -> Timestamp {
    let now = chrono::DateTime::<chrono::Utc>::from(std::time::SystemTime::now());
    Timestamp { secs: now.timestamp(), nanos: now.timestamp_subsec_nanos() }
}

} // verus!
