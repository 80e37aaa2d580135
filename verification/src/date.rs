//! Calendar dates as day numbers in the proleptic Gregorian calendar
//! (day 1 is January 1 of year 1), the only date arithmetic the engine
//! needs: comparison, day differences, and adding a number of days.

use crate::DATE_MAG;
use vstd::prelude::*;

verus! {

/// A calendar date, counted in days from the calendar epoch.
#[derive(Clone, Copy, PartialEq, Eq, PartialOrd, Ord, Hash, Structural, Debug)]
pub struct Date {
    pub days: i64,
}

/// Day number of January 1, 1970.
pub const UNIX_EPOCH_DAYS: i64 = 719_163;

/// Milliseconds in one day.
pub const DAY_MILLIS: i64 = 86_400_000;

/// What `chrono` parses out of a feed date written as full month name,
/// day and year, as a day number; `None` when the text is not a date in
/// that form. The result depends on the characters alone.
pub uninterp spec fn date_of_text(s: Seq<char>) -> Option<i64>;

/// Relies on `chrono::NaiveDate::parse_from_str` (format `"%B %d, %Y"`)
/// and `chrono::Datelike::num_days_from_ce`: parsing is a pure function
/// of the text, and the day count is relative to January 1 of year 1.
#[verifier::external_body]
fn parse_date_days(s: &str) -> (r: Option<i64>)
    ensures
        r == date_of_text(s@),
{
    match chrono::NaiveDate::parse_from_str(s, "%B %d, %Y") {
        Ok(d) => Some(chrono::Datelike::num_days_from_ce(&d) as i64),
        Err(_) => None,
    }
}

impl Date {
    /// A date the engine can do arithmetic on without overflow.
    pub open spec fn wf(self) -> bool {
        0 <= self.days <= DATE_MAG
    }

    /// Parses a feed date (full month name, day, year); `None` when the
    /// text is not such a date or the day number falls outside the
    /// supported range.
    pub fn parse(s: &str) -> (r: Option<Date>)
        ensures
            match date_of_text(s@) {
                Some(d) => {
                    if 0 <= d <= DATE_MAG {
                        r == Some(Date { days: d })
                    } else {
                        r is None
                    }
                },
                None => r is None,
            },
            r is Some ==> r->Some_0.wf(),
    {
        match parse_date_days(s) {
            Some(d) => {
                if 0 <= d && d <= DATE_MAG {
                    Some(Date { days: d })
                } else {
                    None
                }
            },
            None => None,
        }
    }

    /// The date `n` days later.
    pub fn plus_days(self, n: i64) -> (r: Date)
        requires
            self.wf(),
            0 <= n <= DATE_MAG,
        ensures
            r.days == self.days + n,
    {
        Date { days: self.days + n }
    }

    /// Whole days from `other` up to `self`.
    pub fn days_since(self, other: Date) -> (r: i64)
        requires
            self.wf(),
            other.wf(),
        ensures
            r == self.days - other.days,
    {
        self.days - other.days
    }

    /// Milliseconds from the Unix epoch to midnight of this date, the
    /// axis value the charting collaborator plots dates at.
    pub fn to_timestamp(self) -> (r: i64)
        requires
            self.wf(),
        ensures
            r == (self.days - UNIX_EPOCH_DAYS) * DAY_MILLIS,
    {
        (self.days - UNIX_EPOCH_DAYS) * DAY_MILLIS
    }
}

} // verus!
