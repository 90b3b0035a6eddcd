//! Dates of messages: a timestamp text is parsed by `chrono`, and the year
//! and the day of the year are kept.

use crate::model::Datestamp;
use chrono::format::ParseError;
use chrono::{Datelike, NaiveDateTime};
use vstd::prelude::*;

verus! {

/// `chrono::format::ParseError`, carried as an opaque value.
#[verifier::external_type_specification]
#[verifier::external_body]
pub struct ExParseError(ParseError);

/// The pattern of a message's timestamp: `YYYY.MM.DD HH:MM:SS`.
pub const DATE_FORMAT: &'static str = "%Y.%m.%d %H:%M:%S";

/// The year and the day of the year that `chrono` reads from `date` under the
/// pattern `format`, or nothing where it rejects the text.
pub uninterp spec fn parsed_day(date: Seq<char>, format: Seq<char>) -> Option<(i32, u32)>;

/// `NaiveDateTime::parse_from_str`, then `Datelike::year` and
/// `Datelike::ordinal` of the timestamp: the outcome is the one named
/// `parsed_day` for the same text and pattern, an error standing for nothing.
#[verifier::external_body]
pub(crate) fn parse_day(date: &str, format: &str) -> (r: Result<(i32, u32), ParseError>)
    ensures
        match r {
            Ok(day) => parsed_day(date@, format@) == Some(day),
            Err(_) => parsed_day(date@, format@).is_none(),
        },
{
    match NaiveDateTime::parse_from_str(date, format) {
        Ok(timestamp) => Ok((timestamp.year(), timestamp.ordinal())),
        Err(error) => Err(error),
    }
}

/// Why ingestion stopped.
#[derive(Debug, Clone, Copy, PartialEq, Eq)]
pub enum AppendError {
    /// A message's timestamp does not follow the pattern.
    MalformedDate,
}

/// The datestamp for a year and a day of the year, each cut to 16 bits.
pub open spec fn spec_datestamp_of(year: i32, ordinal: u32) -> Datestamp {
    Datestamp {
        year: #[verifier::truncate]
        (year as i16),
        day: #[verifier::truncate]
        (ordinal as u16),
    }
}

/// Builds the datestamp for a year and a day of the year.
pub fn datestamp_of(year: i32, ordinal: u32) -> (d: Datestamp)
    ensures
        d == spec_datestamp_of(year, ordinal),
        -32768 <= year <= 32767 ==> d.year == year,
        ordinal <= 65535 ==> d.day == ordinal,
{
    Datestamp {
        year: #[verifier::truncate]
        (year as i16),
        day: #[verifier::truncate]
        (ordinal as u16),
    }
}

/// The datestamp of a timestamp text, or the error where the text does not
/// follow the pattern.
pub open spec fn spec_parse_datestamp(date: Seq<char>) -> Result<Datestamp, AppendError> {
    match parsed_day(date, DATE_FORMAT@) {
        Some((year, ordinal)) => Ok(spec_datestamp_of(year, ordinal)),
        None => Err(AppendError::MalformedDate),
    }
}

/// Reads the datestamp of a timestamp text of the form `YYYY.MM.DD HH:MM:SS`.
pub fn parse_datestamp(date: &str) -> (r: Result<Datestamp, AppendError>)
    ensures
        r == spec_parse_datestamp(date@),
{
    match parse_day(date, DATE_FORMAT) {
        Ok((year, ordinal)) => Ok(datestamp_of(year, ordinal)),
        Err(_) => Err(AppendError::MalformedDate),
    }
}

} // verus!
