//! Which days are over and done with, so that their segments may be rewritten.

use crate::sorted::has_text;
use crate::text::same_text;
use vstd::prelude::*;

verus! {

/// How the day of a segment is written.
pub const DATE_FORMAT: &'static str = "%Y-%m-%d";

/// A segment that was written to in the last hour is left alone.
pub const QUIET_SECS: u64 = 3_600;

/// What `chrono::NaiveDate::parse_from_str` returns, as a number of days.
pub uninterp spec fn day_in(text: Seq<char>, format: Seq<char>) -> Option<int>;

/// `chrono::NaiveDate::parse_from_str`: the date that a text says, as the
/// number of its day in the common era.
#[verifier::external_body]
fn parse_day(text: &str, format: &str) -> (res: Option<i32>)
    ensures
        match res {
            Some(d) => day_in(text@, format@) == Some(d as int),
            None => day_in(text@, format@) is None,
        },
{
    let date = chrono::NaiveDate::parse_from_str(text, format).ok()?;
    Some(chrono::Datelike::num_days_from_ce(&date))
}

/// A segment whose day is over, that nothing is open for, and that was not
/// written to for an hour.
pub open spec fn is_done(date: Option<int>, today: int, open: bool, age_secs: Option<u64>) -> bool {
    &&& date matches Some(d) && d < today
    &&& !open
    &&& age_secs matches Some(a) && a >= QUIET_SECS
}

/// Whether a segment of a day may be rewritten. A writer may still hold
/// records of a day that is over, and rewriting a file under it would lose
/// them.
pub fn day_is_done(date: Option<i32>, today: i32, open: bool, age_secs: Option<u64>) -> (res: bool)
    ensures
        res == is_done(
            match date {
                Some(d) => Some(d as int),
                None => None,
            },
            today as int,
            open,
            age_secs,
        ),
{
    match (date, age_secs) {
        (Some(d), Some(a)) => d < today && !open && a >= QUIET_SECS,
        _ => false,
    }
}

/// Whether a segment may be rewritten, by the name of its file without the
/// extension. A file that is named otherwise than by a day is none.
pub fn may_recompact(
    name: &str,
    today: i32,
    open_dates: &Vec<String>,
    age_secs: Option<u64>,
) -> (res: bool)
    ensures
        res == is_done(
            day_in(name@, DATE_FORMAT@),
            today as int,
            has_text(open_dates@, name@),
            age_secs,
        ),
{
    let date = parse_day(name, DATE_FORMAT);
    let mut open = false;
    let mut i: usize = 0;
    while i < open_dates.len()
        invariant
            i <= open_dates@.len(),
            open ==> has_text(open_dates@, name@),
            !open ==> forall|k: int| 0 <= k < i ==> (#[trigger] open_dates@[k])@ != name@,
        decreases open_dates@.len() - i,
    {
        if same_text(open_dates[i].as_str(), name) {
            assert(open_dates@[i as int]@ == name@);
            open = true;
        }
        i = i + 1;
    }
    day_is_done(date, today, open, age_secs)
}

} // verus!
