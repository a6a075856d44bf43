//! The stored form of log entries: the partition key for a month and the
//! formatted entry line, plus the one clock read that stamping an entry
//! needs.

use vstd::prelude::*;
use vstd::string::StringExecFns;
use chrono::Datelike;
use crate::nums::{int_rep, i64_chars, u64_chars};
use crate::text::{chars_to_string, string_to_chars};

verus! {

/// The key of the partition holding a given month: `"{year}_{month}"`,
/// both unpadded decimal.
pub open spec fn month_key(year: int, month: int) -> Seq<char> {
    int_rep(year) + seq!['_'] + int_rep(month)
}

/// One stored entry line:
/// `"{timestamp} {weekday} {day} {month} {year}: {text}\n"`.
pub open spec fn entry_line(
    ts: int,
    weekday: Seq<char>,
    day: int,
    month: int,
    year: int,
    text: Seq<char>,
) -> Seq<char> {
    int_rep(ts) + seq![' '] + weekday + seq![' '] + int_rep(day) + seq![' '] + int_rep(month)
        + seq![' '] + int_rep(year) + seq![':', ' '] + text + seq!['\n']
}

/// The partition key for the given month, as `month_key` describes.
pub fn partition_key(year: i64, month: u64) -> (r: String)
    ensures
        r@ == month_key(year as int, month as int),
{
    let mut v = i64_chars(year);
    v.push('_');
    let mut mv = u64_chars(month);
    v.append(&mut mv);
    proof {
        assert(v@ =~= month_key(year as int, month as int));
    }
    chars_to_string(&v)
}

/// The line stored for one submission, as `entry_line` describes.
pub fn format_entry_line(
    ts: i64,
    weekday: &str,
    day: u32,
    month: u32,
    year: i32,
    text: &str,
) -> (r: String)
    ensures
        r@ == entry_line(ts as int, weekday@, day as int, month as int, year as int, text@),
{
    let mut v = i64_chars(ts);
    v.push(' ');
    let mut wv = string_to_chars(weekday);
    v.append(&mut wv);
    v.push(' ');
    let mut dv = u64_chars(day as u64);
    v.append(&mut dv);
    v.push(' ');
    let mut mv = u64_chars(month as u64);
    v.append(&mut mv);
    v.push(' ');
    let mut yv = i64_chars(year as i64);
    v.append(&mut yv);
    v.push(':');
    v.push(' ');
    let mut tv = string_to_chars(text);
    v.append(&mut tv);
    v.push('\n');
    proof {
        assert(v@ =~= entry_line(
            ts as int,
            weekday@,
            day as int,
            month as int,
            year as int,
            text@,
        ));
    }
    chars_to_string(&v)
}

/// Relies on `std::time::SystemTime::now` read through chrono's
/// `From<SystemTime>` conversion for `DateTime<Utc>` (which handles a
/// clock set before the Unix epoch without panicking), and on chrono's
/// `Datelike` accessors: the day of month is 1 to 31, the month 1 to 12,
/// and the weekday's display form one of the seven three-letter English
/// day names.
#[verifier::external_body]
pub fn current_date_parts() -> (r: (i64, String, u32, u32, i32))
    ensures
        1 <= r.2 && r.2 <= 31,
        1 <= r.3 && r.3 <= 12,
        r.1@ == "Mon"@ || r.1@ == "Tue"@ || r.1@ == "Wed"@ || r.1@ == "Thu"@ || r.1@ == "Fri"@
            || r.1@ == "Sat"@ || r.1@ == "Sun"@,
{
    let now = chrono::DateTime::<chrono::Utc>::from(std::time::SystemTime::now());
    (now.timestamp(), format!("{}", now.weekday()), now.day(), now.month(), now.year())
}

/// The single placeholder pair that a failed history read degrades to.
pub fn fallback_history() -> (r: Vec<(String, String)>)
    ensures
        r.deep_view() == seq![("_"@, "Failed to read history."@)],
{
    let k = String::from_str("_");
    let m = String::from_str("Failed to read history.");
    let mut v: Vec<(String, String)> = Vec::new();
    v.push((k, m));
    proof {
        assert(v.deep_view() =~= seq![("_"@, "Failed to read history."@)]);
    }
    v
}

} // verus!
