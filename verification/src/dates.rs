//! First-commit records: the raw date text a repository's history reports,
//! and the epoch seconds derived from it.

use vstd::prelude::*;
use crate::text::spec_trim;
use crate::text::trim_str;

verus! {

/// One repository's first commit: the raw date text and its epoch seconds.
pub struct RepoDate {
    pub name: String,
    pub date: String,
    /// Seconds since the epoch; zero when the raw text does not parse.
    pub time: i64,
}

pub struct RepoDateV {
    pub name: Seq<char>,
    pub date: Seq<char>,
    pub time: i64,
}

impl View for RepoDate {
    type V = RepoDateV;

    open spec fn view(&self) -> RepoDateV {
        RepoDateV { name: self.name@, date: self.date@, time: self.time }
    }
}

pub open spec fn views_of_dates(v: Seq<RepoDate>) -> Seq<RepoDateV> {
    v.map_values(|d: RepoDate| d@)
}

/// The epoch seconds that a date in the fixed textual pattern
/// `short-weekday short-month day-of-month HH:MM:SS four-digit-year
/// UTC-offset` denotes, or `None` when the text does not match the
/// pattern; a function of the text alone.
pub uninterp spec fn date_epoch(s: Seq<char>) -> Option<i64>;

/// Relies on chrono's `DateTime::parse_from_str`, here with the fixed
/// format `%a %b %d %H:%M:%S %Y %z`, and on `DateTime::timestamp`: parsing
/// depends on the text and format alone, and the timestamp of the parsed
/// instant is its epoch seconds.
#[verifier::external_body]
fn parse_git_date(s: &str) -> (r: Option<i64>)
    ensures
        r == date_epoch(s@),
{
    chrono::DateTime::parse_from_str(s, "%a %b %d %H:%M:%S %Y %z").ok().map(|dt| dt.timestamp())
}

/// The record derived from one repository's date output: the trimmed raw
/// text however malformed, and its epoch seconds, zero when it does not
/// parse.
pub open spec fn spec_date_record(name: Seq<char>, raw: Seq<char>) -> RepoDateV {
    let d = spec_trim(raw);
    RepoDateV {
        name: name,
        date: d,
        time: match date_epoch(d) {
            Option::Some(t) => t,
            Option::None => 0,
        },
    }
}

/// The first-commit records of paired repository names and raw outputs.
pub open spec fn spec_date_records(names: Seq<Seq<char>>, raws: Seq<Seq<char>>) -> Seq<RepoDateV> {
    Seq::new(names.len(), |i: int| spec_date_record(names[i], raws[i]))
}

/// Build one first-commit record, as [`spec_date_record`] describes.
pub fn date_record(name: String, raw: &str) -> (r: RepoDate)
    ensures
        r@ == spec_date_record(name@, raw@),
{
    let date = trim_str(raw).to_owned();
    let time: i64 = match parse_git_date(date.as_str()) {
        Some(t) => t,
        None => 0,
    };
    RepoDate { name, date, time }
}

} // verus!
