//! Points in time, kept as seconds and nanoseconds since the Unix epoch (UTC),
//! and the calls into chrono that read, render and sample them.
use vstd::prelude::*;

verus! {

/// Seconds since the epoch of 0000-01-01T00:00:00Z, the earliest instant RFC 2822 can render.
pub const RFC2822_MIN_SECS: i64 = -62167219200;

/// Seconds since the epoch of 9999-12-31T23:59:59Z, the latest instant RFC 2822 can render.
pub const RFC2822_MAX_SECS: i64 = 253402300799;

/// An instant: whole seconds since 1970-01-01T00:00:00Z and the nanoseconds past them.
#[derive(Clone, Copy, Debug, PartialEq, Eq, Structural)]
pub struct Timestamp {
    pub secs: i64,
    pub nanos: u32,
}

/// The order of instants: by seconds, then by nanoseconds.
pub open spec fn ts_le(a: Timestamp, b: Timestamp) -> bool {
    a.secs < b.secs || (a.secs == b.secs && a.nanos <= b.nanos)
}

impl Timestamp {
    /// Whether the instant falls in the years 0 to 9999, which RFC 2822 can
    /// render, with nanoseconds under one second, or under two seconds in the
    /// last second of a minute (a leap second).
    pub open spec fn representable(self) -> bool {
        &&& RFC2822_MIN_SECS <= self.secs <= RFC2822_MAX_SECS
        &&& (self.nanos < 1_000_000_000 || (self.nanos < 2_000_000_000 && (self.secs as int) % 60 == 59))
    }

    /// Whether `self` is no later than `other`.
    pub fn le(&self, other: &Timestamp) -> (r: bool)
        ensures
            r == ts_le(*self, *other),
    {
        self.secs < other.secs || (self.secs == other.secs && self.nanos <= other.nanos)
    }
}

/// What `chrono::DateTime::parse_from_rfc2822` reads from a text, as UTC seconds
/// and nanoseconds, when it accepts it.
pub uninterp spec fn rfc2822_parsed(s: Seq<char>) -> Option<(i64, u32)>;

/// What `chrono::DateTime::to_rfc2822` writes for the UTC instant of these
/// seconds and nanoseconds.
pub uninterp spec fn rfc2822_text_of(secs: i64, nanos: u32) -> Seq<char>;

/// Relies on `chrono::DateTime::parse_from_rfc2822`, taken to UTC through
/// `timestamp` and `timestamp_subsec_nanos`.
#[verifier::external_body]
pub(crate) fn parse_rfc2822(s: &str) -> (r: Option<Timestamp>)
    ensures
        match rfc2822_parsed(s@) {
            Some(p) => r == Some(Timestamp { secs: p.0, nanos: p.1 }),
            None => r is None,
        },
{
    match chrono::DateTime::parse_from_rfc2822(s) {
        Ok(d) => Some(Timestamp { secs: d.timestamp(), nanos: d.timestamp_subsec_nanos() }),
        Err(_) => None,
    }
}

/// Relies on `chrono::DateTime::from_timestamp`, which accepts every instant of
/// years 0 to 9999 with nanoseconds under one second (under two in a minute's
/// last second, a leap second), and on
/// `chrono::DateTime::to_rfc2822`, which renders such an instant on one line
/// (`Tue, 1 Jul 2003 10:52:37 +0000`).
#[verifier::external_body]
pub(crate) fn rfc2822_text(t: Timestamp) -> (r: String)
    requires
        t.representable(),
    ensures
        r@ == rfc2822_text_of(t.secs, t.nanos),
        forall|i: int| 0 <= i < r@.len() ==> r@[i] != '\n',
{
    match chrono::DateTime::from_timestamp(t.secs, t.nanos) {
        Some(d) => d.to_rfc2822(),
        None => String::new(),
    }
}

} // verus!
