//! When a record of a transcript was written.

use crate::agent::json;
use crate::agent::json::{member_text, JsonValue, JsonView};
use vstd::prelude::*;

verus! {

/// The moment that a text in the form of RFC 3339 names, in milliseconds since
/// the epoch; nothing for any other text.
pub uninterp spec fn rfc3339_moment(s: Seq<char>) -> Option<i64>;

/// Reads a moment with `chrono::DateTime::parse_from_rfc3339`, and counts its
/// milliseconds with `timestamp_millis`. Both go by the text alone.
#[verifier::external_body]
fn read_moment(s: &str) -> (r: Option<i64>)
    ensures
        r == rfc3339_moment(s@),
{
    chrono::DateTime::parse_from_rfc3339(s).ok().map(|moment| moment.timestamp_millis())
}

/// A moment that is not before the epoch.
pub open spec fn since_epoch(moment: Option<i64>) -> Option<u64> {
    match moment {
        Some(ms) => if ms >= 0 {
            Some(ms as u64)
        } else {
            None
        },
        None => None,
    }
}

/// When a record says it was written.
pub open spec fn recorded_at(record: JsonView) -> Option<u64> {
    match json::text_of(json::member(record, "timestamp"@)) {
        Some(s) => since_epoch(rfc3339_moment(s)),
        None => None,
    }
}

/// A moment that is not before the epoch.
pub fn epoch_ms(moment: Option<i64>) -> (r: Option<u64>)
    ensures
        r == since_epoch(moment),
{
    match moment {
        Some(ms) => {
            if ms >= 0 {
                Some(ms as u64)
            } else {
                None
            }
        },
        None => None,
    }
}

/// When a record says it was written.
pub fn record_timestamp_ms(record: &JsonValue) -> (r: Option<u64>)
    ensures
        r == recorded_at(record@),
{
    match member_text(record, "timestamp") {
        Some(s) => epoch_ms(read_moment(s)),
        None => None,
    }
}

/// A record was written when its time stamp says so, unless that is before the epoch or
/// cannot be read.
pub proof fn lemma_moment_of_a_record(record: JsonView, ms: u64)
    ensures
        recorded_at(record) == Some(ms) <==> ms <= i64::MAX && (json::member(
            record,
            "timestamp"@,
        ) matches Some(JsonView::Text(s)) && rfc3339_moment(s) == Some(ms as i64)),
{
}

}
