//! Time stamps as they are shown.

use crate::text;
use chrono::{DateTime, FixedOffset};
use std::fmt::Write;
use vstd::prelude::*;

verus! {

/// A moment as `DateTime::format` writes it in a pattern: the moment in
/// milliseconds since the epoch, read that many seconds east of Greenwich.
pub uninterp spec fn civil_text(
    milliseconds: i64,
    offset_seconds: i32,
    pattern: Seq<char>,
) -> Option<Seq<char>>;

/// `DateTime::from_timestamp_millis`, taken to a fixed offset and formatted,
/// depends on the moment, the offset and the pattern alone. `FixedOffset::east_opt`
/// knows no offset of a day or more. Nothing is said here of how a date is
/// counted, nor of what a pattern means.
#[verifier::external_body]
fn civil_time(milliseconds: i64, offset_seconds: i32, pattern: &str) -> (r: Option<String>)
    ensures
        text::optional(r) == civil_text(milliseconds, offset_seconds, pattern@),
        !(-86_400 < offset_seconds < 86_400) ==> r is None,
{
    let offset = FixedOffset::east_opt(offset_seconds)?;
    let moment = DateTime::from_timestamp_millis(milliseconds)?;
    let mut shown = String::new();
    write!(shown, "{}", moment.with_timezone(&offset).format(pattern)).ok()?;
    Some(shown)
}

/// How a moment is shown at an offset: the day and the minute, as
/// `DD.MM.YYYY HH:MM`. A record without a moment, or with one that no calendar
/// reaches, shows none.
pub open spec fn shown_time(timestamp_ms: Option<u64>, offset_seconds: i32) -> Option<Seq<char>> {
    match timestamp_ms {
        None => None,
        Some(ms) => if ms > i64::MAX {
            None
        } else {
            civil_text(ms as i64, offset_seconds, "%d.%m.%Y %H:%M"@)
        },
    }
}

/// How a moment is shown at an offset from Greenwich.
pub fn format_timestamp_at_offset(timestamp_ms: Option<u64>, offset_seconds: i32) -> (r: Option<
    String,
>)
    ensures
        text::optional(r) == shown_time(timestamp_ms, offset_seconds),
        !(-86_400 < offset_seconds < 86_400) ==> r is None,
{
    match timestamp_ms {
        None => None,
        Some(ms) => {
            if ms > 0x7fff_ffff_ffff_ffff {
                None
            } else {
                civil_time(ms as i64, offset_seconds, "%d.%m.%Y %H:%M")
            }
        },
    }
}

/// A moment is shown by the day and the minute, or not at all where there is none or the
/// calendar does not reach it.
pub proof fn lemma_moment_is_shown_to_the_minute(timestamp_ms: Option<u64>, offset_seconds: i32)
    ensures
        timestamp_ms is None ==> shown_time(timestamp_ms, offset_seconds) is None,
        timestamp_ms matches Some(ms) ==> (ms <= i64::MAX ==> shown_time(
            timestamp_ms,
            offset_seconds,
        ) == civil_text(ms as i64, offset_seconds, "%d.%m.%Y %H:%M"@)) && (ms > i64::MAX
            ==> shown_time(timestamp_ms, offset_seconds) is None),
{
}

}
