//! Dates: from the text of a day to the second at which it starts.

use vstd::prelude::*;
use vstd::string::StringExecFns;
use chrono::TimeZone;
use chrono::Utc;
use crate::error::StoreError;

verus! {

/// The seconds from the Unix epoch to the instant that `text` denotes when
/// read by `format` as a date and time in UTC; none where `text` does not
/// read so.
pub uninterp spec fn utc_timestamp(text: Seq<char>, format: Seq<char>) -> Option<i64>;

/// `chrono`'s `ParseError`, the error of a text that does not read as a
/// date and time. Nothing is known of what it holds.
#[verifier::external_type_specification]
#[verifier::external_body]
pub struct ExParseError(chrono::format::ParseError);

/// `chrono`'s `TimeZone::datetime_from_str` on `Utc`, and of the instant it
/// gives the `timestamp`. The contract claims nothing but that the outcome
/// is a function of the two texts: the same text and format give the same
/// seconds, or fail alike.
#[verifier::external_body]
#[allow(deprecated)]
fn parse_utc(text: &str, format: &str) -> (r: Result<i64, chrono::format::ParseError>)
    ensures
        match r {
            Ok(seconds) => utc_timestamp(text@, format@) == Some(seconds),
            Err(_) => utc_timestamp(text@, format@) is None,
        },
{
    match Utc.datetime_from_str(text, format) {
        Ok(instant) => Ok(instant.timestamp()),
        Err(e) => Err(e),
    }
}

/// The start of the day `date_string` in UTC, in seconds from the Unix
/// epoch: the date is read as `YYYY-MM-DD`, at midnight.
pub open spec fn midnight(date_string: Seq<char>) -> Option<i64> {
    utc_timestamp(date_string + " 00:00:00"@, "%Y-%m-%d %H:%M:%S"@)
}

/// The start of the day `date_string` in UTC. `InvalidInput` where the text
/// is no date.
pub fn get_timestamp_from_str(date_string: &str) -> (r: Result<i64, StoreError>)
    ensures
        match r {
            Ok(seconds) => midnight(date_string@) == Some(seconds),
            Err(e) => e == StoreError::InvalidInput && midnight(date_string@) is None,
        },
{
    let text = String::from_str(date_string).concat(" 00:00:00");
    match parse_utc(text.as_str(), "%Y-%m-%d %H:%M:%S") {
        Ok(seconds) => Ok(seconds),
        Err(_) => Err(StoreError::InvalidInput),
    }
}

} // verus!
