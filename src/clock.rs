//! Wall-clock time as milliseconds since the Unix epoch, and its display form.
use chrono::{DateTime, Utc};
use vstd::prelude::*;

verus! {

/// The display form (`day/month/year hour:minute:second.millis`, UTC) of the
/// instant `ms` milliseconds after the epoch, or `None` where chrono cannot
/// represent that instant.
pub uninterp spec fn timestamp_text(ms: int) -> Option<Seq<char>>;

/// Relies on chrono's `Utc::now`, read as whole milliseconds through
/// `DateTime::timestamp_millis`. Nothing is promised of the value.
#[verifier::external_body]
pub(crate) fn now_millis() -> (r: i64) {
    Utc::now().timestamp_millis()
}

/// Relies on chrono's `DateTime::from_timestamp_millis` and `format`: the text
/// depends on `ms` alone.
#[verifier::external_body]
pub(crate) fn format_timestamp(ms: i64) -> (r: Option<String>)
    ensures
        r matches Some(s) ==> timestamp_text(ms as int) == Some(s@),
        r is None ==> timestamp_text(ms as int) is None,
{
    match DateTime::<Utc>::from_timestamp_millis(ms) {
        Some(t) => Some(t.format("%d/%m/%Y %H:%M:%S.%3f").to_string()),
        None => None,
    }
}

} // verus!
