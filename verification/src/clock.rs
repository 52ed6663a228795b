//! Timestamps: parsing a work's creation time, and rendering the marker's
//! time for notifications.
//!
//! The actual calendar arithmetic is done by the `time` and `timeago`
//! crates; each call stands behind a trusted wrapper whose result is a
//! function of its arguments alone and is therefore given a name that the
//! rest of the library reasons with.

use crate::state::PersistedState;
use vstd::prelude::*;

verus! {

/// What `time`'s ISO-8601 parser makes of a creation-time string: the
/// instant as seconds since the epoch, or nothing when the string does not
/// parse.
pub uninterp spec fn iso_instant(s: Seq<char>) -> Option<i64>;

/// How the marker's instant reads in the fixed month/day hour:minute
/// notation at a given offset from UTC.
pub uninterp spec fn stamp_text(ts: i64, offset_seconds: i32) -> Seq<char>;

/// How long ago a duration of whole seconds is, in words.
pub uninterp spec fn ago_phrase(seconds: u64) -> Seq<char>;

/// Relies on `time::OffsetDateTime::parse` with the ISO-8601 description
/// and on `OffsetDateTime::unix_timestamp`: the parsed instant depends on
/// the characters of `s` alone.
#[verifier::external_body]
pub fn parse_instant(s: &str) -> (r: Option<i64>)
    ensures
        r == iso_instant(s@),
{
    match time::OffsetDateTime::parse(
        s,
        &time::format_description::well_known::Iso8601::DEFAULT,
    ) {
        Ok(t) => Some(t.unix_timestamp()),
        Err(_) => None,
    }
}

/// Relies on `time::OffsetDateTime::from_unix_timestamp`,
/// `checked_to_offset` and `format`: the rendered text depends on the
/// instant and the offset alone.  Every refusal of the `time` crate —
/// including an instant the offset shift pushes out of the representable
/// years — comes back as an error string, never a panic.
#[verifier::external_body]
pub fn format_stamp(ts: i64, offset_seconds: i32) -> (r: String)
    ensures
        r@ == stamp_text(ts, offset_seconds),
{
    let desc = "[month padding:none]/[day padding:none] [hour padding:none]:[minute]";
    let off = time::UtcOffset::from_whole_seconds(offset_seconds);
    let t = time::OffsetDateTime::from_unix_timestamp(ts);
    let items = time::format_description::parse(desc);
    let shifted = match (off, t, items) {
        (Ok(off), Ok(t), Ok(items)) => (t.checked_to_offset(off), items),
        _ => return String::from("Error: unrepresentable time"),
    };
    match shifted {
        (Some(t), items) => match t.format(&items) {
            Ok(s) => s,
            Err(e) => format!("Error: {e:?}"),
        },
        (None, _) => String::from("Error: unrepresentable time"),
    }
}

/// Relies on `timeago::Formatter::new` and `Formatter::convert`: the default
/// formatter's wording depends on the duration alone.
#[verifier::external_body]
pub fn ago_text(seconds: u64) -> (r: String)
    ensures
        r@ == ago_phrase(seconds),
{
    timeago::Formatter::new().convert(std::time::Duration::from_secs(seconds))
}

/// Relies on `time::OffsetDateTime::now_utc`: the clock's reading, of which
/// nothing is promised.
#[verifier::external_body]
pub fn now_unix() -> i64 {
    time::OffsetDateTime::now_utc().unix_timestamp()
}

/// Relies on `time::UtcOffset::current_local_offset`: the machine's offset
/// from UTC, of which nothing is promised; `None` when the environment does
/// not determine one.
#[verifier::external_body]
pub fn local_offset_seconds() -> Option<i32> {
    match time::UtcOffset::current_local_offset() {
        Ok(o) => Some(o.whole_seconds()),
        Err(_) => None,
    }
}

impl PersistedState {
    /// The marker's staged time, rendered at the given offset from UTC.
    pub fn since_text(&self, offset_seconds: i32) -> (r: String)
        ensures
            r@ == stamp_text(self.since, offset_seconds),
    {
        format_stamp(self.since, offset_seconds)
    }

    /// How long before `now` the marker's staged time lies, in words.
    pub fn since_ago_text(&self, now: i64) -> (r: String)
        ensures
            r@ == ago_phrase(abs_seconds(now, self.since)),
    {
        let d: i128 = now as i128 - self.since as i128;
        let secs: u64 = if d >= 0 {
            d as u64
        } else {
            (-d) as u64
        };
        proof {
            assert(secs == abs_seconds(now, self.since));
        }
        ago_text(secs)
    }
}

/// The whole seconds between two instants, as an absolute value.
pub open spec fn abs_seconds(a: i64, b: i64) -> u64 {
    if a >= b {
        (a - b) as u64
    } else {
        (b - a) as u64
    }
}

} // verus!
