//! Instants as they travel in JSON: the text that JavaScript's
//! `Date.toJSON()` writes, with milliseconds and a trailing `Z`.

use crate::domain::Timestamp;
use vstd::prelude::*;

verus! {

/// Why an instant could not be written or read.
#[derive(Debug, Clone, Copy, PartialEq, Eq, Structural)]
pub enum TimeError {
    /// The instant lies outside the years that the calendar can express.
    OutOfRange,
    /// The text is no date and time with an offset from UTC.
    Malformed,
}

/// The text that chrono writes for the UTC instant `secs` seconds and `nanos`
/// nanoseconds after the epoch under the pattern `%Y-%m-%dT%H:%M:%S%.3fZ`;
/// `None` where chrono has no date for the instant.
pub uninterp spec fn utc_text(secs: i64, nanos: u32) -> Option<Seq<char>>;

/// The UTC instant that chrono reads from `text`, as seconds and nanoseconds
/// after the epoch; `None` where chrono rejects the text.
pub uninterp spec fn utc_instant(text: Seq<char>) -> Option<(i64, u32)>;

/// chrono's `ParseError`: why a text was rejected.  Nothing is read from it.
#[verifier::external_type_specification]
#[verifier::external_body]
pub struct ExParseError(chrono::ParseError);

/// Calls `chrono::DateTime::from_timestamp` and, on the instant it gives,
/// `chrono::NaiveDateTime::format`.  Trusted: the text written is
/// `utc_text` of the two numbers, and nothing is written exactly where
/// `from_timestamp` has no instant for them.
#[verifier::external_body]
pub(crate) fn format_utc(secs: i64, nanos: u32) -> (r: Option<String>)
    ensures
        utc_text(secs, nanos) == match r {
            Some(text) => Some(text@),
            None => None::<Seq<char>>,
        },
{
    match chrono::DateTime::from_timestamp(secs, nanos) {
        Some(dt) => Some(dt.naive_utc().format("%Y-%m-%dT%H:%M:%S%.3fZ").to_string()),
        None => None,
    }
}

/// Calls chrono's `FromStr` for `DateTime<Utc>`, which accepts a relaxed form
/// of RFC 3339.  Trusted: the instant read is `utc_instant` of the text, and
/// the call fails exactly where `utc_instant` is `None`.
#[verifier::external_body]
pub(crate) fn parse_utc(text: &str) -> (r: Result<Timestamp, chrono::ParseError>)
    ensures
        utc_instant(text@) == match r {
            Ok(t) => Some((t.secs, t.nanos)),
            Err(_) => None::<(i64, u32)>,
        },
{
    match text.parse::<chrono::DateTime<chrono::Utc>>() {
        Ok(dt) => Ok(Timestamp { secs: dt.timestamp(), nanos: dt.timestamp_subsec_nanos() }),
        Err(e) => Err(e),
    }
}

/// What writing an instant gives, from the text that chrono has for it.
pub open spec fn written(text: Option<Seq<char>>) -> Result<Seq<char>, TimeError> {
    match text {
        Some(t) => Ok(t),
        None => Err(TimeError::OutOfRange),
    }
}

/// What reading an instant gives, from the instant that chrono has read:
/// the instant cut down to the whole second.
pub open spec fn read(instant: Option<(i64, u32)>) -> Result<Timestamp, TimeError> {
    match instant {
        Some((secs, nanos)) => Ok(Timestamp { secs, nanos: 0 }),
        None => Err(TimeError::Malformed),
    }
}

/// The view of what `serialize` returns.
pub open spec fn text_of(r: Result<String, TimeError>) -> Result<Seq<char>, TimeError> {
    match r {
        Ok(s) => Ok(s@),
        Err(e) => Err(e),
    }
}

/// Turns the outcome of formatting into the outcome of `serialize`.
pub fn from_formatted(text: Option<String>) -> (r: Result<String, TimeError>)
    ensures
        text_of(r) == written(
            match text {
                Some(t) => Some(t@),
                None => None,
            },
        ),
{
    match text {
        Some(t) => Ok(t),
        None => Err(TimeError::OutOfRange),
    }
}

/// Turns the outcome of parsing into the outcome of `deserialize`: an
/// instant is cut down to the whole second, a failure becomes `Malformed`.
pub fn from_parsed(parsed: Result<Timestamp, chrono::ParseError>) -> (r: Result<
    Timestamp,
    TimeError,
>)
    ensures
        r == read(
            match parsed {
                Ok(t) => Some((t.secs, t.nanos)),
                Err(_) => None,
            },
        ),
{
    match parsed {
        Ok(t) => Ok(Timestamp { secs: t.secs, nanos: 0 }),
        Err(_) => Err(TimeError::Malformed),
    }
}

/// Writes an instant as `Date.toJSON()` does, milliseconds cut off, not
/// rounded.
pub fn serialize(dt: &Timestamp) -> (r: Result<String, TimeError>)
    ensures
        text_of(r) == written(utc_text(dt.secs, dt.nanos)),
{
    from_formatted(format_utc(dt.secs, dt.nanos))
}

/// Reads an instant from a date and time with an offset from UTC, and cuts
/// it down to the whole second.
pub fn deserialize(text: &str) -> (r: Result<Timestamp, TimeError>)
    ensures
        r == read(utc_instant(text@)),
{
    from_parsed(parse_utc(text))
}

} // verus!
