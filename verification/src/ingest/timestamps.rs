//! The times that exchanges write.

use vstd::prelude::*;

verus! {

/// What `time` reads as an RFC 3339 moment: the seconds since the Unix epoch, and the nanoseconds
/// of the second.
pub uninterp spec fn rfc3339_moment(s: Seq<char>) -> Option<(i64, u32)>;

/// Reads a moment with `time::OffsetDateTime::parse` in the format `Rfc3339`, which depends on the
/// text alone, and takes its `unix_timestamp` and `nanosecond`. The format is that of RFC 3339 and
/// is not restated.
#[verifier::external_body]
fn parse_moment(s: &str) -> (r: Option<(i64, u32)>)
    ensures
        r == rfc3339_moment(s@),
{
    time::OffsetDateTime::parse(s, &time::format_description::well_known::Rfc3339)
        .ok()
        .map(|dt| (dt.unix_timestamp(), dt.nanosecond()))
}

/// A moment in unix milliseconds, in the low 64 bits where it is before the epoch.
pub open spec fn moment_value(moment: (i64, u32)) -> u64 {
    ((moment.0 * 1000 + moment.1 / 1_000_000) % 0x1_0000_0000_0000_0000) as u64
}

/// A moment in unix milliseconds, in the low 64 bits where it is before the epoch.
pub fn moment_ms(moment: (i64, u32)) -> (r: u64)
    ensures
        r == moment_value(moment),
{
    let signed: i128 = moment.0 as i128 * 1000 + (moment.1 / 1_000_000) as i128;
    let shifted: u128 = (signed + 1000 * 0x1_0000_0000_0000_0000) as u128;
    (shifted % 0x1_0000_0000_0000_0000) as u64
}

/// What a text says in unix milliseconds, if it is an RFC 3339 moment.
pub open spec fn rfc3339_ms(s: Seq<char>) -> Option<u64> {
    match rfc3339_moment(s) {
        Some(moment) => Some(moment_value(moment)),
        None => None,
    }
}

/// Reads an RFC 3339 moment as unix milliseconds.
pub fn parse_rfc3339_ms(s: &str) -> (r: Option<u64>)
    ensures
        r == rfc3339_ms(s@),
{
    match parse_moment(s) {
        Some(moment) => Some(moment_ms(moment)),
        None => None,
    }
}

/// The time that a text says, or another one where it says none.
pub open spec fn time_or(s: Seq<char>, fallback: u64) -> u64 {
    match rfc3339_ms(s) {
        Some(ms) => ms,
        None => fallback,
    }
}

/// The time that a text says, or another one where it says none.
pub fn parse_time_or(s: &str, fallback: u64) -> (r: u64)
    ensures
        r == time_or(s@, fallback),
{
    match parse_rfc3339_ms(s) {
        Some(ms) => ms,
        None => fallback,
    }
}

} // verus!
