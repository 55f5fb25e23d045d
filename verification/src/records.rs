//! Log records: the raw line, the time it carries, and its canonical text.
//!
//! The time of a record is read from the start of its line: the first three
//! words, taken as month, day and time of day, with the current year put
//! after them. A line that does not start that way is taken to be of now.

use vstd::prelude::*;
use chrono::DateTime;
use chrono::Local;
use crate::preprocessing::LogPreprocessor;
use crate::preprocessing::apply_rules;
use crate::text::first_words;
use crate::text::leading_words;

verus! {

/// A point in time: whole seconds since the Unix epoch, and the nanoseconds
/// that follow them.
#[derive(Clone, Copy, Debug, PartialEq, Eq, Structural)]
pub struct Timestamp {
    pub secs: i64,
    pub nanos: u32,
}

impl Timestamp {
    /// Whether this point in time is strictly earlier than `other`.
    pub open spec fn precedes(self, other: Timestamp) -> bool {
        self.secs < other.secs || (self.secs == other.secs && self.nanos < other.nanos)
    }

    /// Whether this point in time is strictly earlier than `other`.
    pub fn is_before(&self, other: &Timestamp) -> (earlier: bool)
        ensures
            earlier == self.precedes(*other),
    {
        self.secs < other.secs || (self.secs == other.secs && self.nanos < other.nanos)
    }
}

/// The point in time that `DateTime::parse_from_str` reads from `text` under
/// `format`, if it reads one.
pub uninterp spec fn parsed_instant(text: Seq<char>, format: Seq<char>) -> Option<Timestamp>;

/// `DateTime::parse_from_str`: reads a date, a time and an offset from UTC
/// out of `text` as `format` lays them out. What it reads depends on the two
/// texts alone. The point in time comes back as `DateTime::timestamp` and
/// `DateTime::timestamp_subsec_nanos` give it.
#[verifier::external_body]
fn parse_instant(text: &str, format: &str) -> (instant: Option<Timestamp>)
    ensures
        instant == parsed_instant(text@, format@),
{
    match DateTime::parse_from_str(text, format) {
        Ok(t) => Some(Timestamp { secs: t.timestamp(), nanos: t.timestamp_subsec_nanos() }),
        Err(_) => None,
    }
}

/// `Local::now`: the reading of the system clock. Nothing is promised of it.
/// (`Utc::now`, on which it rests, gives up on a clock that is set before
/// 1970.)
#[verifier::external_body]
fn clock_now() -> (now: Timestamp) {
    let t = Local::now();
    Timestamp { secs: t.timestamp(), nanos: t.timestamp_subsec_nanos() }
}

/// `DateTime::format` of `Local::now`: the current year in the local time
/// zone, as `%Y` writes it. Nothing is promised of it.
#[verifier::external_body]
fn clock_year() -> (year: String) {
    format!("{}", Local::now().format("%Y"))
}

/// The layout in which the start of a line gives its time.
pub open spec fn stamp_format() -> Seq<char> {
    "%b %d %H:%M:%S %Y"@
}

/// The text from which the time of a line is read: its first three words
/// and the year, joined by single spaces.
pub open spec fn stamp_text(line: Seq<char>, year: Seq<char>) -> Seq<char> {
    leading_words(line, 3) + seq![' '] + year
}

/// The time of a line: the one that its start gives, or else `now`.
pub open spec fn derived_instant(line: Seq<char>, year: Seq<char>, now: Timestamp) -> Timestamp {
    match parsed_instant(stamp_text(line, year), stamp_format()) {
        Some(instant) => instant,
        None => now,
    }
}

/// Reads a point in time from `text` as `format` lays it out. A text that
/// gives none stands for `fallback`.
pub fn parse_or(text: &str, format: &str, fallback: Timestamp) -> (instant: Timestamp)
    ensures
        instant == match parsed_instant(text@, format@) {
            Some(read) => read,
            None => fallback,
        },
{
    match parse_instant(text, format) {
        Some(read) => read,
        None => fallback,
    }
}

/// Derives the time of a line from its first three words and `year`. A
/// line whose start gives no time is taken to be of `now`, so that it is
/// never passed over for its age.
pub fn derive_timestamp(line: &str, year: &str, now: Timestamp) -> (instant: Timestamp)
    ensures
        instant == derived_instant(line@, year@, now),
{
    let mut text = first_words(line, 3);
    proof {
        reveal_strlit(" ");
    }
    text.append(" ");
    text.append(year);
    assert(text@ =~= stamp_text(line@, year@));
    parse_or(text.as_str(), "%b %d %H:%M:%S %Y", now)
}

/// A log record.
#[derive(Debug)]
pub struct LogRecord {
    /// The line as it was read.
    pub raw: String,
    /// The time that the line carries.
    pub timestamp: Timestamp,
    /// The line after normalisation.
    pub canonical: String,
}

impl LogRecord {
    /// The record of a line, its time derived under `year` and `now`.
    pub fn at(raw: String, preprocessor: &LogPreprocessor, year: &str, now: Timestamp) -> (record:
        LogRecord)
        ensures
            record.raw@ == raw@,
            record.canonical@ == apply_rules(preprocessor@, raw@),
            record.timestamp == derived_instant(raw@, year@, now),
    {
        let canonical = preprocessor.preprocess(raw.as_str());
        let timestamp = derive_timestamp(raw.as_str(), year, now);
        LogRecord { raw, timestamp, canonical }
    }

    /// The record of a line, its time derived under the reading of the
    /// system clock: the current year, and now.
    pub fn read(raw: String, preprocessor: &LogPreprocessor) -> (record: LogRecord)
        ensures
            record.raw@ == raw@,
            record.canonical@ == apply_rules(preprocessor@, raw@),
            exists|year: Seq<char>, now: Timestamp|
                record.timestamp == #[trigger] derived_instant(raw@, year, now),
    {
        let year = clock_year();
        let now = clock_now();
        let record = LogRecord::at(raw, preprocessor, year.as_str(), now);
        assert(record.timestamp == derived_instant(raw@, year@, now));
        record
    }
}

} // verus!
