//! Dates: the sort modes, the boundary date of a thread, and the two
//! textual forms of a timestamp.

use vstd::prelude::*;
use crate::text::same_str;
use crate::thread::{Thread, ThreadView};

verus! {

/// The order in which a query delivers its results.
#[derive(Clone, Copy, Debug, PartialEq, Eq, Structural)]
pub enum Sort {
    OldestFirst,
    NewestFirst,
    MessageID,
    Unsorted,
}

/// The sort mode that a name on the command line stands for.
pub open spec fn sort_named(name: Seq<char>) -> Option<Sort> {
    if name == "oldest"@ {
        Some(Sort::OldestFirst)
    } else if name == "newest"@ {
        Some(Sort::NewestFirst)
    } else if name == "message-id"@ {
        Some(Sort::MessageID)
    } else if name == "unsorted"@ {
        Some(Sort::Unsorted)
    } else {
        None
    }
}

/// Reads a sort mode by its name; `None` for any other word.
pub fn from_str(s: &str) -> (sort: Option<Sort>)
    ensures
        sort == sort_named(s@),
{
    if same_str(s, "oldest") {
        Some(Sort::OldestFirst)
    } else if same_str(s, "newest") {
        Some(Sort::NewestFirst)
    } else if same_str(s, "message-id") {
        Some(Sort::MessageID)
    } else if same_str(s, "unsorted") {
        Some(Sort::Unsorted)
    } else {
        None
    }
}

/// The boundary date of a thread: its oldest date when results come
/// oldest first, its newest date in every other mode.
pub open spec fn boundary(thread: ThreadView, sort: Sort) -> i64 {
    if sort == Sort::OldestFirst {
        thread.oldest_date
    } else {
        thread.newest_date
    }
}

/// The boundary date of `thread` under `sort`.
pub fn compare_time(thread: &Thread, sort: Sort) -> (date: i64)
    ensures
        date == boundary(thread@, sort),
{
    match sort {
        Sort::OldestFirst => thread.oldest_date,
        _ => thread.newest_date,
    }
}

/// `current` sorts strictly before `reference` in the direction of `sort`:
/// earlier when oldest first, later in every other mode.
pub open spec fn sorts_before(current: i64, reference: i64, sort: Sort) -> bool {
    if sort == Sort::OldestFirst {
        current < reference
    } else {
        current > reference
    }
}

/// Whether `current` sorts strictly before `reference` under `sort`.
pub fn compare_diff(current: i64, reference: i64, sort: Sort) -> (before: bool)
    ensures
        before == sorts_before(current, reference, sort),
{
    match sort {
        Sort::OldestFirst => current < reference,
        _ => current > reference,
    }
}

/// What chrono writes for the UTC date and time `date` seconds after the
/// Unix epoch under the strftime-style `format`; `None` where chrono has no
/// such date or rejects the format.
pub uninterp spec fn utc_text(date: i64, format: Seq<char>) -> Option<Seq<char>>;

/// What chrono-humanize writes, in its rough accuracy, for a moment `delta`
/// seconds away from the present (negative: in the past); `None` where
/// chrono cannot hold such a span.
pub uninterp spec fn relative_text(delta: i64) -> Option<Seq<char>>;

/// Formats a Unix timestamp as a UTC date with chrono:
/// `DateTime::from_timestamp(date, 0)`, then `format(date_format)` written
/// into a string. The result is `None` when the timestamp is out of
/// chrono's range or when writing fails on an invalid format; otherwise it
/// is the text that chrono produced, which depends on the two arguments
/// only.
#[verifier::external_body]
pub fn show_time(date: i64, date_format: &str) -> (text: Option<String>)
    ensures
        text.deep_view() == utc_text(date, date_format@),
{
    let moment = chrono::DateTime::from_timestamp(date, 0)?;
    let mut text = String::new();
    match moment.format(date_format).write_to(&mut text) {
        Ok(()) => Some(text),
        Err(_) => None,
    }
}

/// Words a span of `delta` seconds relative to now with chrono-humanize:
/// `HumanTime::from(TimeDelta)` shown with `Display`. The result is `None`
/// when chrono's `TimeDelta::try_seconds` refuses the span; otherwise it is
/// the text that chrono-humanize produced, which depends on `delta` only.
#[verifier::external_body]
pub(crate) fn humanize_span(delta: i64) -> (text: Option<String>)
    ensures
        text.deep_view() == relative_text(delta),
{
    let span = chrono::TimeDelta::try_seconds(delta)?;
    Some(chrono_humanize::HumanTime::from(span).to_string())
}

} // verus!
