//! Instants in UTC, held as plain numbers.

use vstd::prelude::*;

verus! {

/// Seconds either side of the Unix epoch that every instant of this library
/// stays within: about 253,000 years, inside what `chrono` can represent.
pub const SECS_LIMIT: i64 = 8_000_000_000_000;

/// Nanoseconds in a second.
pub const NANOS_PER_SEC: u32 = 1_000_000_000;

/// An instant: whole seconds since 1970-01-01 00:00:00 UTC (negative before)
/// and the nanoseconds past that second.
#[derive(Clone, Copy, Debug, PartialEq, Eq)]
pub struct Timestamp {
    pub secs: i64,
    pub nanos: u32,
}

impl Timestamp {
    /// The instant lies in the supported range and its nanoseconds are
    /// below one second.
    pub open spec fn wf(self) -> bool {
        -SECS_LIMIT <= self.secs <= SECS_LIMIT && self.nanos < NANOS_PER_SEC
    }

    /// Whether the instant is well formed.
    pub fn is_valid(&self) -> (r: bool)
        ensures
            r == self.wf(),
    {
        -SECS_LIMIT <= self.secs && self.secs <= SECS_LIMIT && self.nanos < NANOS_PER_SEC
    }

    /// `self` comes strictly after `other`.
    pub open spec fn later_than(self, other: Timestamp) -> bool {
        self.secs > other.secs || (self.secs == other.secs && self.nanos > other.nanos)
    }
}

/// How `chrono` writes the UTC instant `secs`, `nanos` (empty where it has
/// no such instant).
pub uninterp spec fn utc_text(secs: i64, nanos: u32) -> Seq<char>;

/// Relies on `chrono::DateTime::<Utc>::from_timestamp` and its `Display`
/// (`2015-05-15 00:00:00 UTC`): the text depends on the instant alone.
#[verifier::external_body]
pub(crate) fn render_utc(t: Timestamp) -> (r: String)
    ensures
        r@ == utc_text(t.secs, t.nanos),
{
    chrono::DateTime::from_timestamp(t.secs, t.nanos).map(|d| d.to_string()).unwrap_or_default()
}

} // verus!
