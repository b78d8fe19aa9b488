//! Timestamps of dates written as text.

use vstd::prelude::*;

verus! {

/// The seconds since the start of 1970 at which a date and time written as
/// `YYYY-MM-DD hh:mm:ss` falls in UTC, as `chrono` reads it; nothing when
/// the text is not such a date and time.
pub uninterp spec fn utc_seconds(datetime: Seq<char>) -> Option<i64>;

/// Calls `chrono::NaiveDateTime::parse_from_str` with the format
/// `%Y-%m-%d %H:%M:%S` and reads the result as a UTC timestamp. Trusted: the
/// outcome is a function of the text alone, which the contract names
/// `utc_seconds`.
#[verifier::external_body]
pub(crate) fn parse_utc_seconds(datetime: &str) -> (res: Option<i64>)
    ensures
        res == utc_seconds(datetime@),
{
    match chrono::NaiveDateTime::parse_from_str(datetime, "%Y-%m-%d %H:%M:%S") {
        Ok(parsed) => Some(parsed.and_utc().timestamp()),
        Err(_) => None,
    }
}

/// A count of seconds as an unsigned timestamp: a count before 1970 wraps
/// around the top of the 64-bit range.
pub open spec fn timestamp_of(seconds: i64) -> u64 {
    if seconds >= 0 {
        seconds as u64
    } else {
        (seconds + 0x1_0000_0000_0000_0000) as u64
    }
}

/// Turns a count of seconds into an unsigned timestamp.
pub fn timestamp_from_seconds(seconds: i64) -> (timestamp: u64)
    ensures
        timestamp == timestamp_of(seconds),
{
    if seconds >= 0 {
        seconds as u64
    } else {
        let below: u64 = (-(seconds + 1)) as u64;
        u64::MAX - below
    }
}

/// The timestamp of a date and time written as `YYYY-MM-DD hh:mm:ss`, taken
/// as UTC. The text must be such a date and time.
pub fn gen_timestamp(datetime: &str) -> (timestamp: u64)
    requires
        utc_seconds(datetime@) is Some,
    ensures
        timestamp == timestamp_of(utc_seconds(datetime@)->Some_0),
{
    match parse_utc_seconds(datetime) {
        Some(seconds) => timestamp_from_seconds(seconds),
        None => vstd::pervasive::unreached(),
    }
}

/// The timestamp of a date and time written as `YYYY-MM-DD hh:mm:ss`, taken
/// as UTC, or nothing when the text is not such a date and time.
pub fn try_gen_timestamp(datetime: &str) -> (res: Option<u64>)
    ensures
        res == match utc_seconds(datetime@) {
            Some(seconds) => Some(timestamp_of(seconds)),
            None => None,
        },
{
    match parse_utc_seconds(datetime) {
        Some(_) => Some(gen_timestamp(datetime)),
        None => None,
    }
}

} // verus!
