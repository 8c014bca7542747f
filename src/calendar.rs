//! Calendar days of the proleptic Gregorian calendar, as plain values.
use vstd::prelude::*;
use chrono::Datelike;

verus! {

/// The earliest year that the date library can represent.
pub const MIN_YEAR: i32 = -262143;

/// The latest year that the date library can represent.
pub const MAX_YEAR: i32 = 262142;

/// One UTC calendar day.
#[derive(Clone, Copy, Debug, PartialEq, Eq, Structural)]
pub struct CalendarDay {
    pub year: i32,
    pub month: u32,
    pub day: u32,
}

pub open spec fn is_leap_year(y: int) -> bool {
    (y % 4 == 0 && y % 100 != 0) || y % 400 == 0
}

pub open spec fn days_in_month(y: int, m: int) -> int {
    if m == 2 {
        if is_leap_year(y) { 29 } else { 28 }
    } else if m == 4 || m == 6 || m == 9 || m == 11 {
        30
    } else {
        31
    }
}

impl CalendarDay {
    /// A real day within the representable range.
    pub open spec fn wf(self) -> bool {
        &&& MIN_YEAR <= self.year <= MAX_YEAR
        &&& 1 <= self.month <= 12
        &&& 1 <= self.day <= days_in_month(self.year as int, self.month as int)
    }

    /// The first representable day; it has no predecessor.
    pub open spec fn is_earliest(self) -> bool {
        self.year == MIN_YEAR && self.month == 1 && self.day == 1
    }

    /// The day before this one, unless this is the earliest day.
    pub open spec fn pred_spec(self) -> Option<CalendarDay> {
        if self.is_earliest() {
            None
        } else if self.day > 1 {
            Some(CalendarDay { year: self.year, month: self.month, day: (self.day - 1) as u32 })
        } else if self.month > 1 {
            Some(
                CalendarDay {
                    year: self.year,
                    month: (self.month - 1) as u32,
                    day: days_in_month(self.year as int, self.month - 1) as u32,
                },
            )
        } else {
            Some(CalendarDay { year: (self.year - 1) as i32, month: 12, day: 31 })
        }
    }

    /// Position of the day in chronological order (lexicographic on year, month, day).
    pub open spec fn ordinal(self) -> int {
        (self.year as int) * 512 + (self.month as int) * 32 + (self.day as int)
    }

    /// The day before this one; `None` on the earliest representable day.
    pub fn pred(&self) -> (r: Option<CalendarDay>)
        requires
            self.wf(),
        ensures
            r == self.pred_spec(),
            r matches Some(p) ==> p.wf() && p.ordinal() < self.ordinal(),
    {
        let r = previous_day(*self);
        proof {
            lemma_pred_wf(*self);
        }
        r
    }

    /// Today's date in UTC.
    pub fn today() -> (r: CalendarDay)
        ensures
            r.wf(),
    {
        today_utc()
    }
}

/// The predecessor of a well-formed day is well formed and earlier.
pub proof fn lemma_pred_wf(d: CalendarDay)
    requires
        d.wf(),
    ensures
        d.pred_spec() matches Some(p) ==> p.wf() && p.ordinal() < d.ordinal(),
{
}

/// Relies on chrono's `NaiveDate::from_ymd_opt` and `NaiveDate::pred_opt`: the
/// previous day of the proleptic Gregorian calendar, `None` before the
/// earliest representable date.
#[verifier::external_body]
fn previous_day(d: CalendarDay) -> (r: Option<CalendarDay>)
    requires
        d.wf(),
    ensures
        r == d.pred_spec(),
{
    let date = chrono::NaiveDate::from_ymd_opt(d.year, d.month, d.day).unwrap();
    date.pred_opt().map(|p| CalendarDay { year: p.year(), month: p.month(), day: p.day() })
}

/// Relies on chrono's `From<SystemTime> for DateTime<Utc>` and
/// `DateTime::date_naive`: the UTC date of the system clock, which is always
/// a representable date. A clock set before 1970 is handled; only a clock
/// beyond chrono's range of about 262,000 years from year zero would panic.
#[verifier::external_body]
fn today_utc() -> (r: CalendarDay)
    ensures
        r.wf(),
{
    let now = chrono::DateTime::<chrono::Utc>::from(std::time::SystemTime::now()).date_naive();
    CalendarDay { year: now.year(), month: now.month(), day: now.day() }
}

} // verus!
