//! Optional instants as they travel in JSON: `null`, or the text of the
//! instant.

use crate::domain::Timestamp;
use crate::json_naive_date_time::{read, utc_instant, utc_text, written, TimeError};
use vstd::prelude::*;

verus! {

/// The view of what `serialize` returns.
pub open spec fn optional_text_of(r: Result<Option<String>, TimeError>) -> Result<
    Option<Seq<char>>,
    TimeError,
> {
    match r {
        Ok(Some(s)) => Ok(Some(s@)),
        Ok(None) => Ok(None),
        Err(e) => Err(e),
    }
}

/// Writes an optional instant: nothing for `None`, else the text of the
/// instant.
pub fn serialize(dt: &Option<Timestamp>) -> (r: Result<Option<String>, TimeError>)
    ensures
        optional_text_of(r) == match *dt {
            Some(t) => match written(utc_text(t.secs, t.nanos)) {
                Ok(s) => Ok(Some(s)),
                Err(e) => Err(e),
            },
            None => Ok(None),
        },
{
    match dt {
        Some(t) => match crate::json_naive_date_time::serialize(t) {
            Ok(s) => Ok(Some(s)),
            Err(e) => Err(e),
        },
        None => Ok(None),
    }
}

/// Reads an optional instant: `None` from nothing, else the instant of the
/// text.
pub fn deserialize(text: Option<&str>) -> (r: Result<Option<Timestamp>, TimeError>)
    ensures
        r == match text {
            Some(s) => match read(utc_instant(s@)) {
                Ok(t) => Ok::<Option<Timestamp>, TimeError>(Some(t)),
                Err(e) => Err(e),
            },
            None => Ok(None),
        },
{
    match text {
        Some(s) => match crate::json_naive_date_time::deserialize(s) {
            Ok(t) => Ok(Some(t)),
            Err(e) => Err(e),
        },
        None => Ok(None),
    }
}

} // verus!
