//! Timestamps and the fixed due-date format.
//!
//! All timestamps in the tracker are plain text in the fixed lexical
//! form `YYYY-MM-DD HH:MM`. Reading the clock and checking a candidate
//! due date against the format are done by the `chrono` crate; the
//! entry-time guard around the check is verified here.

use vstd::prelude::*;
use vstd::string::StringExecFns;

verus! {

/// Whether `chrono` accepts `s` under the fixed format
/// `%Y-%m-%d %H:%M`. It depends on the characters of `s` alone;
/// no definition is given here.
pub uninterp spec fn datetime_format_ok(s: Seq<char>) -> bool;

/// Relies on `chrono::NaiveDateTime::parse_from_str` with the format
/// string `"%Y-%m-%d %H:%M"`: whether the parse succeeds is a pure
/// function of `s`.
#[verifier::external_body]
pub(crate) fn parses_as_datetime(s: &str) -> (r: bool)
    ensures
        r == datetime_format_ok(s@),
{
    chrono::NaiveDateTime::parse_from_str(s, "%Y-%m-%d %H:%M").is_ok()
}

/// Relies on `chrono::Local::now` and `DateTime::format`: the current
/// local time rendered under the fixed format. The result depends on
/// the clock, so nothing is assumed about it.
#[verifier::external_body]
pub(crate) fn now_stamp() -> String {
    chrono::Local::now().format("%Y-%m-%d %H:%M").to_string()
}

/// The entry-time guard for a due date, applied to already-trimmed
/// input: empty input means "no due date", input in the fixed format is
/// kept, and anything else is dropped to "no due date" rather than
/// surfaced as an error.
pub fn validate_due_date(input: &str) -> (r: Option<String>)
    ensures
        match r {
            Some(s) => s@ == input@ && input@.len() > 0 && datetime_format_ok(input@),
            None => input@.len() == 0 || !datetime_format_ok(input@),
        },
{
    if input.is_empty() {
        None
    } else if parses_as_datetime(input) {
        Some(String::from_str(input))
    } else {
        None
    }
}

} // verus!
