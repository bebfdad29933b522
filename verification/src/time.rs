//! Wall-clock times, written by the `chrono` crate.

use vstd::prelude::*;
use chrono::TimeZone;

verus! {

/// A moment with the offset of the local clock from UTC.
#[derive(Clone, Copy, Debug, PartialEq, Eq, Structural)]
pub struct Stamp {
    /// Seconds since the epoch.
    pub seconds: i64,
    pub nanos: u32,
    /// Seconds by which the local clock is ahead of UTC.
    pub offset: i32,
}

// What `DateTime::to_rfc3339` writes of a moment at an offset.
pub uninterp spec fn rfc3339_text(seconds: i64, nanos: u32, offset: i32) -> Option<Seq<char>>;

// What `DateTime::format` writes of a moment at an offset by a pattern.
pub uninterp spec fn format_text(seconds: i64, nanos: u32, offset: i32, format: Seq<char>) -> Option<Seq<char>>;

/// `DateTime::to_rfc3339` of the moment at that offset, or none where `chrono` has no such
/// moment. The text depends on the three numbers alone; its layout is not stated here.
#[verifier::external_body]
fn rfc3339(seconds: i64, nanos: u32, offset: i32) -> (r: Option<String>)
    ensures
        r.deep_view() == rfc3339_text(seconds, nanos, offset),
{
    let zone = chrono::FixedOffset::east_opt(offset)?;
    Some(zone.timestamp_opt(seconds, nanos).single()?.to_rfc3339())
}

/// `DateTime::format` of the moment at that offset by the pattern, or none where `chrono` has no
/// such moment. The text depends on the three numbers and the pattern alone; what each part of the
/// pattern stands for is not stated here.
#[verifier::external_body]
fn formatted(seconds: i64, nanos: u32, offset: i32, format: &str) -> (r: Option<String>)
    requires
        format@ == "%Y%m%dT%H%M%S"@,
    ensures
        r.deep_view() == format_text(seconds, nanos, offset, format@),
{
    let zone = chrono::FixedOffset::east_opt(offset)?;
    Some(zone.timestamp_opt(seconds, nanos).single()?.format(format).to_string())
}

pub open spec fn started_text(t: Stamp) -> Seq<char> {
    match rfc3339_text(t.seconds, t.nanos, t.offset) {
        Some(s) => s,
        None => ""@,
    }
}

/// The date and the time of day to the second, without separators but for a `T` between them.
pub open spec fn stamp_text(t: Stamp) -> Seq<char> {
    match format_text(t.seconds, t.nanos, t.offset, "%Y%m%dT%H%M%S"@) {
        Some(s) => s,
        None => ""@,
    }
}

impl Stamp {
    /// The moment as reports write it.
    pub fn written(&self) -> (r: String)
        ensures
            r@ == started_text(*self),
    {
        match rfc3339(self.seconds, self.nanos, self.offset) {
            Some(s) => s,
            None => "".to_owned(),
        }
    }

    /// The moment as file names carry it.
    pub fn compact(&self) -> (r: String)
        ensures
            r@ == stamp_text(*self),
    {
        match formatted(self.seconds, self.nanos, self.offset, "%Y%m%dT%H%M%S") {
            Some(s) => s,
            None => "".to_owned(),
        }
    }
}

} // verus!
