//! Calendar dates of the proleptic Gregorian calendar, represented as day
//! numbers: day 0 is January 1 of year 1, and consecutive dates differ by 1.
//! Day `MAX_DAY_NUMBER` is December 31 of year 9999, the latest date this
//! library represents.

use vstd::prelude::*;

verus! {

/// Largest representable day number (December 31 of year 9999).
pub const MAX_DAY_NUMBER: i32 = 3652058;

/// A day of the week. Day number 0 (January 1 of year 1) is a Monday, so a
/// date's weekday index is its day number modulo 7, with Monday = 0.
#[derive(Clone, Copy, Debug, PartialEq, Eq, Structural, Hash)]
pub enum Weekday {
    Mon,
    Tue,
    Wed,
    Thu,
    Fri,
    Sat,
    Sun,
}

impl Weekday {
    /// Index of the weekday, Monday = 0 through Sunday = 6.
    pub open spec fn index_spec(self) -> int {
        match self {
            Weekday::Mon => 0,
            Weekday::Tue => 1,
            Weekday::Wed => 2,
            Weekday::Thu => 3,
            Weekday::Fri => 4,
            Weekday::Sat => 5,
            Weekday::Sun => 6,
        }
    }

    pub fn index(self) -> (r: u8)
        ensures
            r as int == self.index_spec(),
    {
        match self {
            Weekday::Mon => 0,
            Weekday::Tue => 1,
            Weekday::Wed => 2,
            Weekday::Thu => 3,
            Weekday::Fri => 4,
            Weekday::Sat => 5,
            Weekday::Sun => 6,
        }
    }

    pub fn from_index(i: u8) -> (r: Weekday)
        requires
            i < 7,
        ensures
            r.index_spec() == i as int,
    {
        if i == 0 {
            Weekday::Mon
        } else if i == 1 {
            Weekday::Tue
        } else if i == 2 {
            Weekday::Wed
        } else if i == 3 {
            Weekday::Thu
        } else if i == 4 {
            Weekday::Fri
        } else if i == 5 {
            Weekday::Sat
        } else {
            Weekday::Sun
        }
    }
}

/// A month of the year.
#[derive(Clone, Copy, Debug, PartialEq, Eq, Structural, Hash)]
pub enum Month {
    January,
    February,
    March,
    April,
    May,
    June,
    July,
    August,
    September,
    October,
    November,
    December,
}

impl Month {
    /// Number of the month, January = 1 through December = 12.
    pub open spec fn number_spec(self) -> int {
        match self {
            Month::January => 1,
            Month::February => 2,
            Month::March => 3,
            Month::April => 4,
            Month::May => 5,
            Month::June => 6,
            Month::July => 7,
            Month::August => 8,
            Month::September => 9,
            Month::October => 10,
            Month::November => 11,
            Month::December => 12,
        }
    }

    pub fn number_from_month(self) -> (r: u32)
        ensures
            r as int == self.number_spec(),
    {
        match self {
            Month::January => 1,
            Month::February => 2,
            Month::March => 3,
            Month::April => 4,
            Month::May => 5,
            Month::June => 6,
            Month::July => 7,
            Month::August => 8,
            Month::September => 9,
            Month::October => 10,
            Month::November => 11,
            Month::December => 12,
        }
    }
}

pub open spec fn is_leap_year(y: int) -> bool {
    (y % 4 == 0 && y % 100 != 0) || y % 400 == 0
}

pub open spec fn days_in_year(y: int) -> int {
    if is_leap_year(y) {
        366
    } else {
        365
    }
}

pub open spec fn days_in_month(y: int, m: int) -> int {
    if m == 2 {
        if is_leap_year(y) {
            29
        } else {
            28
        }
    } else if m == 4 || m == 6 || m == 9 || m == 11 {
        30
    } else {
        31
    }
}

/// Number of days in all years strictly before year `y`, counted from
/// January 1 of year 1.
pub open spec fn days_before_year(y: int) -> int
    decreases y,
{
    if y <= 1 {
        0
    } else {
        days_before_year(y - 1) + days_in_year(y - 1)
    }
}

/// Number of days of year `y` in all months strictly before month `m`.
pub open spec fn days_before_month(y: int, m: int) -> int
    decreases m,
{
    if m <= 1 {
        0
    } else {
        days_before_month(y, m - 1) + days_in_month(y, m - 1)
    }
}

/// Day number of the calendar date `y`-`m`-`d`.
pub open spec fn day_number_of_ymd(y: int, m: int, d: int) -> int {
    days_before_year(y) + days_before_month(y, m) + d - 1
}

pub open spec fn valid_ymd(y: int, m: int, d: int) -> bool {
    1 <= y && 1 <= m <= 12 && 1 <= d <= days_in_month(y, m)
}

/// A year-month-day triple denotes a date this library can hold when it is a
/// real calendar date whose day number does not pass `MAX_DAY_NUMBER`.
pub open spec fn representable_ymd(y: int, m: int, d: int) -> bool {
    valid_ymd(y, m, d) && day_number_of_ymd(y, m, d) <= MAX_DAY_NUMBER as int
}

/// Year that the day number `dn` falls in, found by walking years from year
/// `y` whose first day is day number `acc`.
pub open spec fn year_of_day_from(y: int, acc: int, dn: int) -> int
    decreases dn - acc,
{
    if acc + days_in_year(y) <= dn {
        year_of_day_from(y + 1, acc + days_in_year(y), dn)
    } else {
        y
    }
}

/// Year that the day number `dn` falls in.
pub open spec fn year_of_day(dn: int) -> int {
    year_of_day_from(1, 0, dn)
}

pub proof fn lemma_days_before_year_mono(y1: int, y2: int)
    requires
        y1 <= y2,
    ensures
        days_before_year(y1) <= days_before_year(y2),
    decreases y2 - y1,
{
    if y1 < y2 {
        lemma_days_before_year_mono(y1, y2 - 1);
    }
}

pub proof fn lemma_days_before_month_nonneg(y: int, m: int)
    ensures
        days_before_month(y, m) >= 0,
    decreases m,
{
    if m > 1 {
        lemma_days_before_month_nonneg(y, m - 1);
    }
}

pub proof fn lemma_year_of_day_from_bounds(y: int, acc: int, dn: int)
    requires
        acc <= dn,
    ensures
        y <= year_of_day_from(y, acc, dn) <= y + (dn - acc),
    decreases dn - acc,
{
    if acc + days_in_year(y) <= dn {
        lemma_year_of_day_from_bounds(y + 1, acc + days_in_year(y), dn);
    }
}

pub proof fn lemma_year_of_day_from_range(y: int, acc: int, dn: int)
    requires
        acc <= dn,
        acc == days_before_year(y),
        y >= 1,
    ensures
        days_before_year(year_of_day_from(y, acc, dn)) <= dn < days_before_year(
            year_of_day_from(y, acc, dn),
        ) + days_in_year(year_of_day_from(y, acc, dn)),
    decreases dn - acc,
{
    if acc + days_in_year(y) <= dn {
        lemma_year_of_day_from_range(y + 1, acc + days_in_year(y), dn);
    }
}

/// The year found for a day number brackets it: the day lies between that
/// year's first day and its last.
pub proof fn lemma_year_of_day_range(dn: int)
    requires
        0 <= dn,
    ensures
        days_before_year(year_of_day(dn)) <= dn < days_before_year(year_of_day(dn)) + days_in_year(
            year_of_day(dn),
        ),
{
    lemma_year_of_day_from_range(1, 0, dn);
}

/// The days of all twelve months make up the year.
pub proof fn lemma_days_before_month_full(y: int)
    ensures
        days_before_month(y, 13) == days_in_year(y),
{
    reveal_with_fuel(days_before_month, 13);
}

pub proof fn lemma_year_of_day_from_mono(y: int, acc: int, d1: int, d2: int)
    requires
        acc <= d1 <= d2,
    ensures
        year_of_day_from(y, acc, d1) <= year_of_day_from(y, acc, d2),
    decreases d2 - acc,
{
    if acc + days_in_year(y) <= d1 {
        lemma_year_of_day_from_mono(y + 1, acc + days_in_year(y), d1, d2);
    } else if acc + days_in_year(y) <= d2 {
        lemma_year_of_day_from_bounds(y + 1, acc + days_in_year(y), d2);
    }
}

pub proof fn lemma_year_of_day_mono(d1: int, d2: int)
    requires
        0 <= d1 <= d2,
    ensures
        year_of_day(d1) <= year_of_day(d2),
{
    lemma_year_of_day_from_mono(1, 0, d1, d2);
}

/// A calendar date, held as its day number.
#[derive(Clone, Copy, Debug, PartialEq, Eq, Structural, PartialOrd, Ord, Hash)]
pub struct Date {
    pub days: i32,
}

impl View for Date {
    type V = int;

    open spec fn view(&self) -> int {
        self.days as int
    }
}

pub fn is_leap_year_exec(y: i32) -> (r: bool)
    requires
        y >= 1,
    ensures
        r == is_leap_year(y as int),
{
    (y % 4 == 0 && y % 100 != 0) || y % 400 == 0
}

pub fn days_in_year_exec(y: i32) -> (r: u32)
    requires
        y >= 1,
    ensures
        r as int == days_in_year(y as int),
{
    if is_leap_year_exec(y) {
        366
    } else {
        365
    }
}

pub fn days_in_month_exec(y: i32, m: u32) -> (r: u32)
    requires
        y >= 1,
        1 <= m <= 12,
    ensures
        r as int == days_in_month(y as int, m as int),
{
    if m == 2 {
        if is_leap_year_exec(y) {
            29
        } else {
            28
        }
    } else if m == 4 || m == 6 || m == 9 || m == 11 {
        30
    } else {
        31
    }
}

impl Date {
    /// A date is well formed when its day number lies in the representable
    /// range.
    pub open spec fn wf(self) -> bool {
        0 <= self.days <= MAX_DAY_NUMBER
    }

    /// Build the date of the given year, month number (1 through 12) and day
    /// of month. Returns `None` for a year-month-day triple that is not a
    /// real calendar date (such as February 29 of a non-leap year) or that
    /// lies past the representable range.
    pub fn from_ymd(year: i32, month: u32, day: u32) -> (r: Option<Date>)
        ensures
            r is Some <==> representable_ymd(year as int, month as int, day as int),
            r matches Some(d) ==> d.wf() && d@ == day_number_of_ymd(
                year as int,
                month as int,
                day as int,
            ),
    {
        if year < 1 || month < 1 || month > 12 {
            return None;
        }
        let dim = days_in_month_exec(year, month);
        if day < 1 || day > dim {
            return None;
        }
        let mut acc: i32 = 0;
        let mut cur: i32 = 1;
        while cur < year
            invariant
                1 <= cur <= year,
                acc == days_before_year(cur as int),
                0 <= acc <= MAX_DAY_NUMBER,
            decreases year - cur,
        {
            let len: u32 = days_in_year_exec(cur);
            if acc > MAX_DAY_NUMBER - (len as i32) {
                proof {
                    lemma_days_before_year_mono(cur as int + 1, year as int);
                    lemma_days_before_month_nonneg(year as int, month as int);
                }
                return None;
            }
            acc = acc + len as i32;
            cur = cur + 1;
        }
        let mut m: u32 = 1;
        while m < month
            invariant
                1 <= m <= month,
                1 <= month <= 12,
                year >= 1,
                acc == days_before_year(year as int) + days_before_month(year as int, m as int),
                acc <= MAX_DAY_NUMBER + 31 * (m as i32 - 1),
                acc >= 0,
            decreases month - m,
        {
            acc = acc + days_in_month_exec(year, m) as i32;
            m = m + 1;
        }
        let total: i32 = acc + (day as i32) - 1;
        if total > MAX_DAY_NUMBER {
            return None;
        }
        proof {
            lemma_days_before_month_nonneg(year as int, month as int);
        }
        Some(Date { days: total })
    }

    /// Year this date falls in.
    pub fn year(&self) -> (y: i32)
        requires
            self.wf(),
        ensures
            y as int == year_of_day(self@),
            1 <= y as int <= self@ + 1,
    {
        let mut y: i32 = 1;
        let mut acc: i32 = 0;
        loop
            invariant
                self.wf(),
                1 <= y,
                0 <= acc <= self.days,
                acc >= y - 1,
                year_of_day(self@) == year_of_day_from(y as int, acc as int, self@),
            ensures
                y as int == year_of_day(self@),
                1 <= y as int <= self@ + 1,
            decreases self.days - acc,
        {
            let len: u32 = days_in_year_exec(y);
            if acc <= self.days - (len as i32) {
                acc = acc + len as i32;
                y = y + 1;
            } else {
                proof {
                    lemma_year_of_day_from_bounds(y as int, acc as int, self@);
                }
                return y;
            }
        }
    }

    /// The year, month number and day of month of this date.
    pub fn to_ymd(&self) -> (r: (i32, u32, u32))
        requires
            self.wf(),
        ensures
            ({
                let (y, m, d) = r;
                y as int == year_of_day(self@) && valid_ymd(y as int, m as int, d as int)
                    && day_number_of_ymd(y as int, m as int, d as int) == self@
            }),
    {
        proof {
            lemma_year_of_day_range(self@);
        }
        let y: i32 = self.year();
        let mut acc: i32 = 0;
        let mut cur: i32 = 1;
        while cur < y
            invariant
                1 <= cur <= y,
                acc == days_before_year(cur as int),
                days_before_year(y as int) <= self@,
                self.wf(),
                0 <= acc <= self@,
            decreases y - cur,
        {
            let len: u32 = days_in_year_exec(cur);
            proof {
                lemma_days_before_year_mono(cur as int + 1, y as int);
            }
            acc = acc + len as i32;
            cur = cur + 1;
        }
        let mut doy: u32 = (self.days - acc) as u32;
        let mut m: u32 = 1;
        loop
            invariant
                self.wf(),
                1 <= m <= 12,
                y >= 1,
                y as int == year_of_day(self@),
                days_before_year(y as int) + days_before_month(y as int, m as int) + doy as int
                    == self@,
                self@ < days_before_year(y as int) + days_in_year(y as int),
            decreases 12 - m,
        {
            let dim: u32 = days_in_month_exec(y, m);
            proof {
                if m == 12 {
                    lemma_days_before_month_full(y as int);
                }
            }
            if doy < dim {
                return (y, m, doy + 1);
            }
            doy = doy - dim;
            m = m + 1;
        }
    }

    /// Weekday of this date: day number modulo 7, Monday = 0.
    pub fn weekday(&self) -> (w: Weekday)
        requires
            self.wf(),
        ensures
            w.index_spec() == self@ % 7,
    {
        let i: u32 = (self.days as u32) % 7;
        Weekday::from_index(i as u8)
    }

    /// The next calendar date.
    pub fn succ(&self) -> (r: Date)
        requires
            self.wf(),
            self@ < MAX_DAY_NUMBER as int,
        ensures
            r.wf(),
            r@ == self@ + 1,
    {
        Date { days: self.days + 1 }
    }

    /// The previous calendar date.
    pub fn pred(&self) -> (r: Date)
        requires
            self.wf(),
            self@ > 0,
        ensures
            r.wf(),
            r@ == self@ - 1,
    {
        Date { days: self.days - 1 }
    }
}

} // verus!
