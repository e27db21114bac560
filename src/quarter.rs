use chrono::Datelike;
use vstd::prelude::*;

verus! {

/// The first year of chrono's calendar.
pub const FIRST_YEAR: i32 = -262143;

/// The last year of chrono's calendar.
pub const LAST_YEAR: i32 = 262142;

/// A day of the proleptic Gregorian calendar.
#[derive(Clone, Copy, Debug, PartialEq, Eq)]
pub struct CalendarDate {
    pub year: i32,
    pub month: u32,
    pub day: u32,
}

/// Leap years of the Gregorian calendar.
pub open spec fn is_leap_year(year: int) -> bool {
    year % 4 == 0 && (year % 100 != 0 || year % 400 == 0)
}

/// The number of days of a month (1 to 12) in a year.
pub open spec fn days_in_month(year: int, month: int) -> int {
    if month == 2 {
        if is_leap_year(year) {
            29
        } else {
            28
        }
    } else if month == 4 || month == 6 || month == 9 || month == 11 {
        30
    } else {
        31
    }
}

impl CalendarDate {
    /// A real day within chrono's calendar.
    pub open spec fn is_valid(self) -> bool {
        &&& FIRST_YEAR <= self.year <= LAST_YEAR
        &&& 1 <= self.month <= 12
        &&& 1 <= self.day <= days_in_month(self.year as int, self.month as int)
    }
}

/// The day before a valid date.
pub open spec fn day_before(date: CalendarDate) -> CalendarDate {
    if date.day > 1 {
        CalendarDate { year: date.year, month: date.month, day: (date.day - 1) as u32 }
    } else if date.month > 1 {
        CalendarDate {
            year: date.year,
            month: (date.month - 1) as u32,
            day: days_in_month(date.year as int, date.month - 1) as u32,
        }
    } else {
        CalendarDate { year: (date.year - 1) as i32, month: 12, day: 31 }
    }
}

/// Relies on chrono's `NaiveDate::pred_opt`: the previous day, `None` only
/// before the first day of its calendar (a valid date converts with
/// `NaiveDate::from_ymd_opt` and back with `year`, `month` and `day`).
#[verifier::external_body]
fn previous_day(date: CalendarDate) -> (r: Option<CalendarDate>)
    requires
        date.is_valid(),
    ensures
        r is Some ==> r->0 == day_before(date),
        date.year > FIRST_YEAR ==> r is Some,
{
    match chrono::NaiveDate::from_ymd_opt(date.year, date.month, date.day) {
        Some(d) => match d.pred_opt() {
            Some(p) => Some(CalendarDate { year: p.year(), month: p.month(), day: p.day() }),
            None => None,
        },
        None => None,
    }
}

/// The quarter (1 to 4) of a month.
pub open spec fn quarter_of(month: int) -> int {
    (month - 1) / 3 + 1
}

/// The quarter before the one holding `today`, with its year.
pub open spec fn previous_quarter_of(today: CalendarDate) -> (int, int) {
    let q = quarter_of(today.month as int);
    if q == 1 {
        (4, today.year - 1)
    } else {
        (q - 1, today.year as int)
    }
}

/// The first day, last day, number and year of the quarter before `today`'s.
pub fn get_previous_quarter(today: CalendarDate) -> (r: (CalendarDate, CalendarDate, u32, i32))
    requires
        today.is_valid(),
        today.year > FIRST_YEAR,
    ensures
        r.2 as int == previous_quarter_of(today).0,
        r.3 as int == previous_quarter_of(today).1,
        r.0 == (CalendarDate { year: r.3, month: ((r.2 - 1) * 3 + 1) as u32, day: 1 }),
        r.1 == (CalendarDate {
            year: r.3,
            month: (r.2 * 3) as u32,
            day: days_in_month(r.3 as int, r.2 * 3) as u32,
        }),
        1 <= r.2 <= 4,
{
    let current = (today.month - 1) / 3 + 1;
    let (quarter, year): (u32, i32) = if current == 1 {
        (4, today.year - 1)
    } else {
        (current - 1, today.year)
    };
    let start_month = (quarter - 1) * 3 + 1;
    let end_month = quarter * 3;
    let start = CalendarDate { year, month: start_month, day: 1 };
    let following = if end_month == 12 {
        CalendarDate { year: year + 1, month: 1, day: 1 }
    } else {
        CalendarDate { year, month: end_month + 1, day: 1 }
    };
    let end = match previous_day(following) {
        Some(d) => d,
        None => following,
    };
    (start, end, quarter, year)
}

} // verus!
