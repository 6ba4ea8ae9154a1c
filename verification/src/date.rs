use vstd::prelude::*;

use chrono::Datelike;

verus! {

/// A calendar day in the proleptic Gregorian calendar, years 1 through 9999.
#[derive(Clone, Copy, PartialEq, Eq, Structural, Debug)]
pub struct Date {
    pub year: u16,
    pub month: u8,
    pub day: u8,
}

pub open spec fn is_leap_year(y: int) -> bool {
    y % 4 == 0 && (y % 100 != 0 || y % 400 == 0)
}

pub open spec fn days_in_month(y: int, m: int) -> int {
    if m == 2 {
        if is_leap_year(y) {
            29
        } else {
            28
        }
    } else if m == 4 || m == 6 || m == 9 || m == 11 {
        30
    } else {
        31
    }
}

/// Days of year `y` that lie strictly before month `m`.
pub open spec fn days_before_month(y: int, m: int) -> int
    decreases m,
{
    if m <= 1 {
        0
    } else {
        days_before_month(y, m - 1) + days_in_month(y, m - 1)
    }
}

pub open spec fn days_in_year(y: int) -> int {
    days_before_month(y, 13)
}

/// Days in valid years strictly before year `y`.
pub open spec fn days_before_year(y: int) -> int
    decreases y,
{
    if y <= 1 {
        0
    } else {
        days_before_year(y - 1) + days_in_year(y - 1)
    }
}

/// Position of a date on the time line: day 1 is the first of January of year 1.
pub open spec fn day_index(d: Date) -> int {
    days_before_year(d.year as int) + days_before_month(d.year as int, d.month as int)
        + d.day as int
}

pub open spec fn min_date() -> Date {
    Date { year: 1, month: 1, day: 1 }
}

pub open spec fn max_date() -> Date {
    Date { year: 9999, month: 12, day: 31 }
}

pub open spec fn spec_next_day(d: Date) -> Date {
    if d.day < days_in_month(d.year as int, d.month as int) {
        Date { year: d.year, month: d.month, day: (d.day + 1) as u8 }
    } else if d.month < 12 {
        Date { year: d.year, month: (d.month + 1) as u8, day: 1 }
    } else {
        Date { year: (d.year + 1) as u16, month: 1, day: 1 }
    }
}

pub open spec fn spec_prev_day(d: Date) -> Date {
    if d.day > 1 {
        Date { year: d.year, month: d.month, day: (d.day - 1) as u8 }
    } else if d.month > 1 {
        Date {
            year: d.year,
            month: (d.month - 1) as u8,
            day: days_in_month(d.year as int, d.month as int - 1) as u8,
        }
    } else {
        Date { year: (d.year - 1) as u16, month: 12, day: 31 }
    }
}

/// `d` moved `n` days forward.
pub open spec fn plus_days(d: Date, n: nat) -> Date
    decreases n,
{
    if n == 0 {
        d
    } else {
        spec_next_day(plus_days(d, (n - 1) as nat))
    }
}

/// `d` moved `n` days backward.
pub open spec fn minus_days(d: Date, n: nat) -> Date
    decreases n,
{
    if n == 0 {
        d
    } else {
        spec_prev_day(minus_days(d, (n - 1) as nat))
    }
}

impl Date {
    pub open spec fn valid(self) -> bool {
        &&& 1 <= self.year <= 9999
        &&& 1 <= self.month <= 12
        &&& 1 <= self.day <= days_in_month(self.year as int, self.month as int)
    }

    pub fn new(year: u16, month: u8, day: u8) -> (r: Option<Date>)
        ensures
            match r {
                Some(d) => d == (Date { year, month, day }) && d.valid(),
                None => !(Date { year, month, day }).valid(),
            },
    {
        let d = Date { year, month, day };
        if d.is_valid() {
            Some(d)
        } else {
            None
        }
    }

    pub fn is_valid(&self) -> (r: bool)
        ensures
            r == self.valid(),
    {
        1 <= self.year && self.year <= 9999 && 1 <= self.month && self.month <= 12 && 1 <= self.day
            && self.day <= days_in_month_exec(self.year, self.month)
    }

    /// The following calendar day; rolls over month and year boundaries.
    pub fn next_day(&self) -> (r: Date)
        requires
            self.valid(),
            *self != max_date(),
        ensures
            r == spec_next_day(*self),
            r.valid(),
            day_index(r) == day_index(*self) + 1,
    {
        proof {
            lemma_next_day_index(*self);
        }
        if self.day < days_in_month_exec(self.year, self.month) {
            Date { year: self.year, month: self.month, day: self.day + 1 }
        } else if self.month < 12 {
            Date { year: self.year, month: self.month + 1, day: 1 }
        } else {
            Date { year: self.year + 1, month: 1, day: 1 }
        }
    }

    /// The preceding calendar day; rolls over month and year boundaries.
    pub fn prev_day(&self) -> (r: Date)
        requires
            self.valid(),
            *self != min_date(),
        ensures
            r == spec_prev_day(*self),
            r.valid(),
            day_index(r) == day_index(*self) - 1,
    {
        proof {
            lemma_prev_day_index(*self);
        }
        if self.day > 1 {
            Date { year: self.year, month: self.month, day: self.day - 1 }
        } else if self.month > 1 {
            Date {
                year: self.year,
                month: self.month - 1,
                day: days_in_month_exec(self.year, self.month - 1),
            }
        } else {
            Date { year: self.year - 1, month: 12, day: 31 }
        }
    }
}

pub fn is_leap_year_exec(y: u16) -> (r: bool)
    ensures
        r == is_leap_year(y as int),
{
    y % 4 == 0 && (y % 100 != 0 || y % 400 == 0)
}

pub fn days_in_month_exec(y: u16, m: u8) -> (r: u8)
    ensures
        r as int == days_in_month(y as int, m as int),
{
    if m == 2 {
        if is_leap_year_exec(y) {
            29
        } else {
            28
        }
    } else if m == 4 || m == 6 || m == 9 || m == 11 {
        30
    } else {
        31
    }
}

/// Relies on chrono::Local::now and NaiveDate's Datelike accessors: month()
/// ranges from 1 to 12 and day() from 1 to 31; the year is whatever the
/// local clock gives.
#[verifier::external_body]
fn now_ymd() -> (r: (i32, u8, u8))
    ensures
        1 <= r.1 <= 12,
        1 <= r.2 <= 31,
{
    let d = chrono::Local::now().date_naive();
    (d.year(), d.month() as u8, d.day() as u8)
}

/// The nearest valid date to a year, month and day as the clock reports
/// them: a year outside the representable range lands on the range's end,
/// a day past the month's length on the month's last day; anything already
/// valid is kept as it is.
pub fn clamp_ymd(y: i32, m: u8, d: u8) -> (r: Date)
    requires
        1 <= m <= 12,
        1 <= d <= 31,
    ensures
        r.valid(),
        y < 1 ==> r == min_date(),
        y > 9999 ==> r == max_date(),
        1 <= y <= 9999 && d as int <= days_in_month(y as int, m as int) ==> r == (Date {
            year: y as u16,
            month: m,
            day: d,
        }),
        1 <= y <= 9999 && d as int > days_in_month(y as int, m as int) ==> r.year == y && r.month
            == m && r.day as int == days_in_month(y as int, m as int),
{
    if y < 1 {
        Date { year: 1, month: 1, day: 1 }
    } else if y > 9999 {
        Date { year: 9999, month: 12, day: 31 }
    } else {
        let dim = days_in_month_exec(y as u16, m);
        let day = if d > dim {
            dim
        } else {
            d
        };
        Date { year: y as u16, month: m, day }
    }
}

/// The local current date, clamped into the representable range; whatever
/// the clock reports, the result is a valid date.
pub fn today() -> (r: Date)
    ensures
        r.valid(),
{
    let (y, m, d) = now_ymd();
    clamp_ymd(y, m, d)
}

/// A year has 365 days, or 366 in a leap year.
pub proof fn lemma_days_in_year_value(y: int)
    ensures
        days_in_year(y) == if is_leap_year(y) {
            366int
        } else {
            365int
        },
{
    reveal_with_fuel(days_before_month, 14);
}

/// `days_before_month` grows with the month.
pub proof fn lemma_dbm_mono(y: int, m1: int, m2: int)
    requires
        1 <= m1 <= m2 <= 13,
    ensures
        days_before_month(y, m1) <= days_before_month(y, m2),
    decreases m2 - m1,
{
    if m1 < m2 {
        lemma_dbm_mono(y, m1, m2 - 1);
    }
}

/// Within its year, a valid date's index stays between the year's bounds.
pub proof fn lemma_index_in_year(d: Date)
    requires
        d.valid(),
    ensures
        days_before_year(d.year as int) + 1 <= day_index(d),
        day_index(d) <= days_before_year(d.year as int) + days_in_year(d.year as int),
{
    let y = d.year as int;
    let m = d.month as int;
    lemma_dbm_mono(y, 1, m);
    assert(days_before_month(y, m + 1) == days_before_month(y, m) + days_in_month(y, m));
    lemma_dbm_mono(y, m + 1, 13);
}

/// Later years start later on the time line.
pub proof fn lemma_dby_mono(y1: int, y2: int)
    requires
        1 <= y1 < y2,
    ensures
        days_before_year(y1) + days_in_year(y1) <= days_before_year(y2),
    decreases y2,
{
    if y2 == y1 + 1 {
        assert(days_before_year(y2) == days_before_year(y1) + days_in_year(y1));
    } else {
        lemma_dby_mono(y1, y2 - 1);
        lemma_days_in_year_value(y2 - 1);
        assert(days_before_year(y2) == days_before_year(y2 - 1) + days_in_year(y2 - 1));
    }
}

/// The day index determines the date: no two valid dates share an index.
pub proof fn lemma_day_index_injective(d1: Date, d2: Date)
    requires
        d1.valid(),
        d2.valid(),
        day_index(d1) == day_index(d2),
    ensures
        d1 == d2,
{
    let y1 = d1.year as int;
    let y2 = d2.year as int;
    lemma_index_in_year(d1);
    lemma_index_in_year(d2);
    if y1 < y2 {
        lemma_dby_mono(y1, y2);
        assert(false);
    }
    if y2 < y1 {
        lemma_dby_mono(y2, y1);
        assert(false);
    }
    let m1 = d1.month as int;
    let m2 = d2.month as int;
    if m1 < m2 {
        assert(days_before_month(y1, m1 + 1) == days_before_month(y1, m1) + days_in_month(
            y1,
            m1,
        ));
        lemma_dbm_mono(y1, m1 + 1, m2);
        assert(false);
    }
    if m2 < m1 {
        assert(days_before_month(y1, m2 + 1) == days_before_month(y1, m2) + days_in_month(
            y1,
            m2,
        ));
        lemma_dbm_mono(y1, m2 + 1, m1);
        assert(false);
    }
}

/// Stepping one day forward moves the index up by exactly one.
pub proof fn lemma_next_day_index(d: Date)
    requires
        d.valid(),
        d != max_date(),
    ensures
        spec_next_day(d).valid(),
        day_index(spec_next_day(d)) == day_index(d) + 1,
{
    let y = d.year as int;
    let m = d.month as int;
    if d.day < days_in_month(y, m) {
    } else if d.month < 12 {
        assert(days_before_month(y, m + 1) == days_before_month(y, m) + days_in_month(y, m));
    } else {
        assert(d.year < 9999);
        assert(days_before_year(y + 1) == days_before_year(y) + days_in_year(y));
        assert(days_in_year(y) == days_before_month(y, 13));
        assert(days_before_month(y, 13) == days_before_month(y, 12) + days_in_month(y, 12));
    }
}

/// Stepping one day backward moves the index down by exactly one.
pub proof fn lemma_prev_day_index(d: Date)
    requires
        d.valid(),
        d != min_date(),
    ensures
        spec_prev_day(d).valid(),
        day_index(spec_prev_day(d)) == day_index(d) - 1,
{
    let y = d.year as int;
    let m = d.month as int;
    if d.day > 1 {
    } else if d.month > 1 {
        assert(days_before_month(y, m) == days_before_month(y, m - 1) + days_in_month(y, m - 1));
    } else {
        assert(d.year > 1);
        assert(days_before_year(y) == days_before_year(y - 1) + days_in_year(y - 1));
        assert(days_in_year(y - 1) == days_before_month(y - 1, 13));
        assert(days_before_month(y - 1, 13) == days_before_month(y - 1, 12) + days_in_month(
            y - 1,
            12,
        ));
    }
}

/// Every valid date lies at or before the last representable day.
pub proof fn lemma_index_le_max(d: Date)
    requires
        d.valid(),
    ensures
        day_index(d) <= day_index(max_date()),
        day_index(min_date()) <= day_index(d),
{
    lemma_index_in_year(d);
    let y = d.year as int;
    assert(days_in_year(9999) == days_before_month(9999, 13));
    assert(days_before_month(9999, 13) == days_before_month(9999, 12) + days_in_month(9999, 12));
    if y < 9999 {
        lemma_dby_mono(y, 9999);
        lemma_dbm_mono(9999, 1, 12);
    }
    if y > 1 {
        lemma_dby_mono(1, y);
        lemma_days_in_year_value(1);
    }
    lemma_dbm_mono(y, 1, d.month as int);
}

/// Applying "next day" `n` times advances the index by exactly `n`,
/// rolling correctly over month and year boundaries.
pub proof fn lemma_plus_days(d: Date, n: nat)
    requires
        d.valid(),
        day_index(d) + n <= day_index(max_date()),
    ensures
        plus_days(d, n).valid(),
        day_index(plus_days(d, n)) == day_index(d) + n,
    decreases n,
{
    if n > 0 {
        lemma_plus_days(d, (n - 1) as nat);
        let p = plus_days(d, (n - 1) as nat);
        assert(day_index(p) < day_index(max_date()));
        assert(p != max_date());
        lemma_next_day_index(p);
    }
}

/// Applying "previous day" `n` times moves the index back by exactly `n`.
pub proof fn lemma_minus_days(d: Date, n: nat)
    requires
        d.valid(),
        day_index(min_date()) <= day_index(d) - n,
    ensures
        minus_days(d, n).valid(),
        day_index(minus_days(d, n)) == day_index(d) - n,
    decreases n,
{
    if n > 0 {
        lemma_minus_days(d, (n - 1) as nat);
        let p = minus_days(d, (n - 1) as nat);
        assert(day_index(p) > day_index(min_date()));
        assert(p != min_date());
        lemma_prev_day_index(p);
    }
}

/// For all dates `d1`, `d2` that lie `n` days apart, applying "next day"
/// `n` times from `d1` yields exactly `d2`, and applying "previous day"
/// `n` times from `d2` yields exactly `d1`.
pub proof fn lemma_day_stepping_reaches(d1: Date, d2: Date, n: nat)
    requires
        d1.valid(),
        d2.valid(),
        day_index(d2) == day_index(d1) + n,
    ensures
        plus_days(d1, n) == d2,
        minus_days(d2, n) == d1,
{
    lemma_index_le_max(d2);
    lemma_index_le_max(d1);
    lemma_plus_days(d1, n);
    lemma_day_index_injective(plus_days(d1, n), d2);
    lemma_minus_days(d2, n);
    lemma_day_index_injective(minus_days(d2, n), d1);
}

} // verus!
