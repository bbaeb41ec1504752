//! Civil (proleptic Gregorian) dates and fixed-offset datetimes, together
//! with the day-number arithmetic that recurrence expansion is built on.
//!
//! A `Date` is a plain year/month/day triple; a `DateTime` adds a
//! time-of-day and a fixed UTC offset in seconds. Every operation is
//! specified against `day_number`, the number of days since 0001-01-01,
//! and `instant`, the number of seconds since 0001-01-01T00:00:00 UTC.

use vstd::prelude::*;

verus! {

/// Smallest year a `Date` may carry.
pub const MIN_YEAR: i32 = 1;
/// Largest year a `Date` may carry.
pub const MAX_YEAR: i32 = 9999;

/// A calendar date in the proleptic Gregorian calendar.
#[derive(Clone, Copy, Debug, PartialEq, Eq, Structural)]
pub struct Date {
    pub year: i32,
    pub month: u8,
    pub day: u8,
}

/// Whether `y` is a leap year in the Gregorian calendar.
pub open spec fn spec_is_leap_year(y: int) -> bool {
    (y % 4 == 0 && y % 100 != 0) || y % 400 == 0
}

/// Days in month `m` (1-based) of year `y`.
pub open spec fn spec_days_in_month(y: int, m: int) -> int {
    if m == 2 {
        if spec_is_leap_year(y) {
            29
        } else {
            28
        }
    } else if m == 4 || m == 6 || m == 9 || m == 11 {
        30
    } else {
        31
    }
}

/// Days in year `y`: 365, or 366 in a leap year.
pub open spec fn spec_days_in_year(y: int) -> int {
    if spec_is_leap_year(y) {
        366
    } else {
        365
    }
}

/// A structurally valid date: year in range, month 1..=12, day fitting the month.
pub open spec fn valid_date(d: Date) -> bool {
    &&& MIN_YEAR <= d.year <= MAX_YEAR
    &&& 1 <= d.month <= 12
    &&& 1 <= d.day <= spec_days_in_month(d.year as int, d.month as int)
}

impl Date {
    /// Builds a date after checking year, month and day ranges.
    pub fn new(year: i32, month: u8, day: u8) -> (r: Option<Date>)
        ensures
            match r {
                Some(d) => d == (Date { year, month, day }) && valid_date(d),
                None => !valid_date(Date { year, month, day }),
            },
    {
        if MIN_YEAR <= year && year <= MAX_YEAR && 1 <= month && month <= 12 && 1 <= day
            && day <= days_in_month(year, month) {
            Some(Date { year, month, day })
        } else {
            None
        }
    }
}

/// Days in all years before year `y`, counting from year 1; the day number
/// of 1 January of year `y`.
pub open spec fn days_before_year(y: int) -> int
    decreases y,
{
    if y <= 1 {
        0
    } else {
        days_before_year(y - 1) + spec_days_in_year(y - 1)
    }
}

/// Days in all months of year `y` before month `m`.
pub open spec fn days_before_month(y: int, m: int) -> int
    decreases m,
{
    if m <= 1 {
        0
    } else {
        days_before_month(y, m - 1) + spec_days_in_month(y, m - 1)
    }
}

/// Number of days from 0001-01-01 to `d`; day 0 is 0001-01-01 (a Monday).
pub open spec fn spec_day_number(d: Date) -> int {
    days_before_year(d.year as int) + days_before_month(d.year as int, d.month as int) + d.day - 1
}

/// The last representable date.
pub open spec fn max_date() -> Date {
    Date { year: 9999, month: 12, day: 31 }
}

/// A year's months sum to its day count.
pub proof fn lemma_months_sum(y: int)
    ensures
        days_before_month(y, 13) == spec_days_in_year(y),
{
    assert(days_before_month(y, 1) == 0);
    assert(days_before_month(y, 2) == days_before_month(y, 1) + spec_days_in_month(y, 1));
    assert(days_before_month(y, 3) == days_before_month(y, 2) + spec_days_in_month(y, 2));
    assert(days_before_month(y, 4) == days_before_month(y, 3) + 31);
    assert(days_before_month(y, 5) == days_before_month(y, 4) + 30);
    assert(days_before_month(y, 6) == days_before_month(y, 5) + 31);
    assert(days_before_month(y, 7) == days_before_month(y, 6) + 30);
    assert(days_before_month(y, 8) == days_before_month(y, 7) + 31);
    assert(days_before_month(y, 9) == days_before_month(y, 8) + 31);
    assert(days_before_month(y, 10) == days_before_month(y, 9) + 30);
    assert(days_before_month(y, 11) == days_before_month(y, 10) + 31);
    assert(days_before_month(y, 12) == days_before_month(y, 11) + 30);
    assert(days_before_month(y, 13) == days_before_month(y, 12) + 31);
}

/// `days_before_month` grows with the month, by at least 28 a step.
pub proof fn lemma_dbm_bounds(y: int, m: int)
    requires
        1 <= m <= 13,
    ensures
        28 * (m - 1) <= days_before_month(y, m) <= 31 * (m - 1),
    decreases m,
{
    if m > 1 {
        lemma_dbm_bounds(y, m - 1);
    }
}

/// `days_before_year` grows with the year, by at least 365 a step.
pub proof fn lemma_dby_bounds(y: int)
    requires
        1 <= y,
    ensures
        365 * (y - 1) <= days_before_year(y) <= 366 * (y - 1),
    decreases y,
{
    if y > 1 {
        lemma_dby_bounds(y - 1);
    }
}

/// Any valid date's day number lies between those of the calendar's ends.
pub proof fn lemma_day_number_range(d: Date)
    requires
        valid_date(d),
    ensures
        0 <= spec_day_number(d) <= spec_day_number(max_date()),
        spec_day_number(max_date()) < 3_660_000,
{
    lemma_dby_bounds(d.year as int);
    lemma_dbm_bounds(d.year as int, d.month as int);
    lemma_dby_bounds(9999);
    lemma_dbm_bounds(9999, 12);
    lemma_day_number_mono(d, max_date());
}

/// Day numbers respect the lexicographic (year, month, day) order.
pub proof fn lemma_day_number_mono(a: Date, b: Date)
    requires
        valid_date(a),
        valid_date(b),
        spec_date_le(a, b),
    ensures
        spec_day_number(a) <= spec_day_number(b),
        a != b ==> spec_day_number(a) < spec_day_number(b),
{
    if a.year < b.year {
        lemma_dby_mono(a.year as int + 1, b.year as int);
        lemma_months_sum(a.year as int);
        lemma_dbm_mono(a.year as int, a.month as int, 12);
        assert(days_before_month(a.year as int, 13) == days_before_month(a.year as int, 12)
            + spec_days_in_month(a.year as int, 12));
        lemma_dbm_bounds(b.year as int, b.month as int);
    } else if a.month < b.month {
        lemma_dbm_mono(a.year as int, a.month as int + 1, b.month as int);
        assert(days_before_month(a.year as int, a.month as int + 1) == days_before_month(
            a.year as int,
            a.month as int,
        ) + spec_days_in_month(a.year as int, a.month as int));
    }
}

/// `days_before_year` is monotone.
proof fn lemma_dby_mono(y1: int, y2: int)
    requires
        y1 <= y2,
    ensures
        days_before_year(y1) <= days_before_year(y2),
    decreases y2 - y1,
{
    if y1 < y2 {
        lemma_dby_mono(y1, y2 - 1);
        if y2 > 1 {
            assert(days_before_year(y2) == days_before_year(y2 - 1) + spec_days_in_year(y2 - 1));
        }
    }
}

/// `days_before_month` is monotone.
proof fn lemma_dbm_mono(y: int, m1: int, m2: int)
    requires
        m1 <= m2,
    ensures
        days_before_month(y, m1) <= days_before_month(y, m2),
    decreases m2 - m1,
{
    if m1 < m2 {
        lemma_dbm_mono(y, m1, m2 - 1);
        if m2 > 1 {
            assert(days_before_month(y, m2) == days_before_month(y, m2 - 1) + spec_days_in_month(
                y,
                m2 - 1,
            ));
        }
    }
}

/// On valid dates the day number determines the date.
pub proof fn lemma_day_number_injective(a: Date, b: Date)
    requires
        valid_date(a),
        valid_date(b),
        spec_day_number(a) == spec_day_number(b),
    ensures
        a == b,
{
    if a != b {
        if spec_date_le(a, b) {
            lemma_day_number_mono(a, b);
        } else {
            assert(spec_date_le(b, a));
            lemma_day_number_mono(b, a);
        }
    }
}

/// Chronological order on dates: lexicographic on (year, month, day).
pub open spec fn spec_date_le(a: Date, b: Date) -> bool {
    ||| a.year < b.year
    ||| (a.year == b.year && a.month < b.month)
    ||| (a.year == b.year && a.month == b.month && a.day <= b.day)
}

/// The year whose days contain absolute day `n`, searched upward from `y`.
pub open spec fn year_of_day(n: int, y: int) -> int
    decreases 9999 - y,
{
    if y >= 9999 || n < days_before_year(y + 1) {
        y
    } else {
        year_of_day(n, y + 1)
    }
}

/// The month of year `y` whose days contain day `r` of the year (0-based),
/// searched upward from `m`.
pub open spec fn month_of_day(y: int, r: int, m: int) -> int
    decreases 12 - m,
{
    if m >= 12 || r < days_before_month(y, m + 1) {
        m
    } else {
        month_of_day(y, r, m + 1)
    }
}

/// The date with day number `n`; meaningful only for `n` in range.
pub open spec fn spec_date_of_day_number(n: int) -> Date {
    let y = year_of_day(n, 1);
    let r = n - days_before_year(y);
    let m = month_of_day(y, r, 1);
    let d = r - days_before_month(y, m) + 1;
    Date { year: y as i32, month: m as u8, day: d as u8 }
}

proof fn lemma_year_of_day(n: int, y: int)
    requires
        1 <= y <= 9999,
        days_before_year(y) <= n <= spec_day_number(max_date()),
    ensures
        y <= year_of_day(n, y) <= 9999,
        days_before_year(year_of_day(n, y)) <= n,
        year_of_day(n, y) < 9999 ==> n < days_before_year(year_of_day(n, y) + 1),
        n - days_before_year(year_of_day(n, y)) < spec_days_in_year(year_of_day(n, y)),
    decreases 9999 - y,
{
    lemma_months_sum(9999);
    if y >= 9999 || n < days_before_year(y + 1) {
        if y >= 9999 {
            // n is at most the last day's number, which is below dby(9999) + diy(9999)
            assert(spec_day_number(max_date()) == days_before_year(9999) + days_before_month(
                9999,
                12,
            ) + 30);
            assert(days_before_month(9999, 13) == days_before_month(9999, 12)
                + spec_days_in_month(9999, 12));
        } else {
            assert(days_before_year(y + 1) == days_before_year(y) + spec_days_in_year(y));
        }
    } else {
        assert(days_before_year(y + 1) == days_before_year(y) + spec_days_in_year(y));
        lemma_year_of_day(n, y + 1);
    }
}

proof fn lemma_month_of_day(y: int, r: int, m: int)
    requires
        1 <= m <= 12,
        days_before_month(y, m) <= r < spec_days_in_year(y),
    ensures
        m <= month_of_day(y, r, m) <= 12,
        days_before_month(y, month_of_day(y, r, m)) <= r,
        r - days_before_month(y, month_of_day(y, r, m)) < spec_days_in_month(
            y,
            month_of_day(y, r, m),
        ),
    decreases 12 - m,
{
    lemma_months_sum(y);
    if m >= 12 || r < days_before_month(y, m + 1) {
        if m >= 12 {
            assert(days_before_month(y, 13) == days_before_month(y, 12) + spec_days_in_month(
                y,
                12,
            ));
        } else {
            assert(days_before_month(y, m + 1) == days_before_month(y, m) + spec_days_in_month(
                y,
                m,
            ));
        }
    } else {
        assert(days_before_month(y, m + 1) == days_before_month(y, m) + spec_days_in_month(y, m));
        lemma_month_of_day(y, r, m + 1);
    }
}

/// For `n` in range, `spec_date_of_day_number(n)` is a valid date whose day
/// number is `n`.
pub proof fn lemma_date_of_day_number(n: int)
    requires
        0 <= n <= spec_day_number(max_date()),
    ensures
        valid_date(spec_date_of_day_number(n)),
        spec_day_number(spec_date_of_day_number(n)) == n,
{
    lemma_year_of_day(n, 1);
    let y = year_of_day(n, 1);
    let r = n - days_before_year(y);
    lemma_month_of_day(y, r, 1);
}

/// Whether `y` is a leap year.
pub fn is_leap_year(y: i32) -> (r: bool)
    requires
        1 <= y,
    ensures
        r == spec_is_leap_year(y as int),
{
    (y % 4 == 0 && y % 100 != 0) || y % 400 == 0
}

/// Number of days in month `m` of year `y`.
pub fn days_in_month(y: i32, m: u8) -> (r: u8)
    requires
        1 <= y,
        1 <= m <= 12,
    ensures
        r == spec_days_in_month(y as int, m as int),
        28 <= r <= 31,
{
    if m == 2 {
        if is_leap_year(y) {
            29
        } else {
            28
        }
    } else if m == 4 || m == 6 || m == 9 || m == 11 {
        30
    } else {
        31
    }
}

/// Number of days in year `y`.
pub fn days_in_year(y: i32) -> (r: u16)
    requires
        1 <= y,
    ensures
        r == spec_days_in_year(y as int),
{
    if is_leap_year(y) {
        366
    } else {
        365
    }
}

/// The day number of `d`: days since 0001-01-01.
pub fn day_number(d: Date) -> (r: i64)
    requires
        valid_date(d),
    ensures
        r == spec_day_number(d),
        0 <= r < 3_660_000,
{
    proof {
        lemma_day_number_range(d);
    }
    let mut acc: i64 = 0;
    let mut y: i32 = 1;
    while y < d.year
        invariant
            1 <= y <= d.year <= MAX_YEAR,
            acc == days_before_year(y as int),
            0 <= acc <= 366 * (y - 1),
        decreases d.year - y,
    {
        proof {
            lemma_dby_bounds(y as int + 1);
        }
        acc = acc + days_in_year(y) as i64;
        y = y + 1;
    }
    let mut m: u8 = 1;
    while m < d.month
        invariant
            1 <= m <= d.month,
            valid_date(d),
            acc == days_before_year(d.year as int) + days_before_month(d.year as int, m as int),
            0 <= acc <= 366 * (d.year - 1) + 31 * (m - 1),
        decreases d.month - m,
    {
        proof {
            lemma_dby_bounds(d.year as int);
            lemma_dbm_bounds(d.year as int, m as int + 1);
        }
        acc = acc + days_in_month(d.year, m) as i64;
        m = m + 1;
    }
    acc + d.day as i64 - 1
}

/// The date with day number `n`, if `n` lies in the supported range.
#[verifier::loop_isolation(true)]
pub fn date_of_day_number(n: i64) -> (r: Option<Date>)
    ensures
        match r {
            Some(d) => {
                &&& 0 <= n <= spec_day_number(max_date())
                &&& d == spec_date_of_day_number(n as int)
                &&& valid_date(d)
                &&& spec_day_number(d) == n
            },
            None => !(0 <= n <= spec_day_number(max_date())),
        },
{
    proof {
        lemma_day_number_range(max_date());
    }
    if n < 0 {
        return None;
    }
    let mut y: i32 = 1;
    let mut rem: i64 = n;
    loop
        invariant
            1 <= y <= 9999,
            rem == n - days_before_year(y as int),
            year_of_day(n as int, 1) == year_of_day(n as int, y as int),
            0 <= rem,
        ensures
            1 <= y <= 9999,
            rem == n - days_before_year(y as int),
            year_of_day(n as int, 1) == year_of_day(n as int, y as int),
            0 <= rem,
            rem < spec_days_in_year(y as int) || (y == 9999 && rem >= spec_days_in_year(9999)),
            rem < spec_days_in_year(y as int) ==> y as int == year_of_day(n as int, 1),
        decreases 9999 - y,
    {
        let diy = days_in_year(y) as i64;
        if rem < diy || y >= 9999 {
            proof {
                if rem < diy {
                    assert(days_before_year(y as int + 1) == days_before_year(y as int)
                        + spec_days_in_year(y as int));
                    assert(year_of_day(n as int, y as int) == y as int);
                }
            }
            break;
        }
        proof {
            assert(days_before_year(y as int + 1) == days_before_year(y as int)
                + spec_days_in_year(y as int));
            assert(year_of_day(n as int, y as int) == year_of_day(n as int, y as int + 1));
        }
        rem = rem - diy;
        y = y + 1;
    }
    if rem >= days_in_year(y) as i64 {
        // past the last representable year
        proof {
            if n <= spec_day_number(max_date()) {
                lemma_year_of_day(n as int, 1);
            }
        }
        return None;
    }
    proof {
        lemma_dby_bounds(y as int);
        lemma_months_sum(y as int);
        lemma_dbm_bounds(y as int, 13);
    }
    let mut m: u8 = 1;
    while m < 12 && rem >= days_in_month(y, m) as i64
        invariant
            1 <= m <= 12,
            1 <= y <= 9999,
            rem == n - days_before_year(y as int) - days_before_month(y as int, m as int),
            0 <= rem,
            n - days_before_year(y as int) < spec_days_in_year(y as int),
            month_of_day(y as int, n - days_before_year(y as int), 1) == month_of_day(
                y as int,
                n - days_before_year(y as int),
                m as int,
            ),
        decreases 12 - m,
    {
        proof {
            assert(days_before_month(y as int, m as int + 1) == days_before_month(
                y as int,
                m as int,
            ) + spec_days_in_month(y as int, m as int));
        }
        rem = rem - days_in_month(y, m) as i64;
        m = m + 1;
    }
    proof {
        // n < dby(y + 1) <= dby(10000) == day number of max_date() + 1
        assert(days_before_year(y as int + 1) == days_before_year(y as int) + spec_days_in_year(
            y as int,
        ));
        lemma_dby_mono(y as int + 1, 10000);
        assert(days_before_year(10000) == days_before_year(9999) + spec_days_in_year(9999));
        lemma_months_sum(9999);
        assert(days_before_month(9999, 13) == days_before_month(9999, 12) + spec_days_in_month(
            9999,
            12,
        ));
        assert(n <= spec_day_number(max_date()));
        let ri = n - days_before_year(y as int);
        lemma_month_of_day(y as int, ri, 1);
        if m < 12 {
            assert(month_of_day(y as int, ri, m as int) == m as int);
        } else {
            assert(days_before_month(y as int, 13) == days_before_month(y as int, 12)
                + spec_days_in_month(y as int, 12));
            assert(month_of_day(y as int, ri, 12) == 12);
        }
        lemma_year_of_day(n as int, 1);
        assert(year_of_day(n as int, 1) == y as int);
        lemma_dbm_bounds(y as int, m as int);
    }
    let d = Date { year: y, month: m, day: (rem + 1) as u8 };
    Some(d)
}

/// A day of the week.
#[derive(Clone, Copy, Debug, PartialEq, Eq, Structural)]
pub enum Weekday {
    Monday,
    Tuesday,
    Wednesday,
    Thursday,
    Friday,
    Saturday,
    Sunday,
}

impl Weekday {
    /// Days from Monday: 0 for Monday through 6 for Sunday.
    pub open spec fn index(self) -> int {
        match self {
            Weekday::Monday => 0,
            Weekday::Tuesday => 1,
            Weekday::Wednesday => 2,
            Weekday::Thursday => 3,
            Weekday::Friday => 4,
            Weekday::Saturday => 5,
            Weekday::Sunday => 6,
        }
    }

    /// Days from Monday, as a number.
    pub fn number_from_monday(self) -> (r: u8)
        ensures
            r == self.index(),
    {
        match self {
            Weekday::Monday => 0,
            Weekday::Tuesday => 1,
            Weekday::Wednesday => 2,
            Weekday::Thursday => 3,
            Weekday::Friday => 4,
            Weekday::Saturday => 5,
            Weekday::Sunday => 6,
        }
    }
}

/// The weekday of `d`, as days from Monday; day 0, 0001-01-01, was a Monday.
pub open spec fn spec_weekday_index(d: Date) -> int {
    spec_day_number(d) % 7
}

/// The weekday of `d`, as days from Monday.
pub fn weekday_index(d: Date) -> (r: i64)
    requires
        valid_date(d),
    ensures
        r == spec_weekday_index(d),
        0 <= r < 7,
{
    day_number(d) % 7
}

/// The weekday of `d`.
pub fn weekday_of(d: Date) -> (r: Weekday)
    requires
        valid_date(d),
    ensures
        r.index() == spec_weekday_index(d),
{
    let n = weekday_index(d);
    if n == 0 {
        Weekday::Monday
    } else if n == 1 {
        Weekday::Tuesday
    } else if n == 2 {
        Weekday::Wednesday
    } else if n == 3 {
        Weekday::Thursday
    } else if n == 4 {
        Weekday::Friday
    } else if n == 5 {
        Weekday::Saturday
    } else {
        Weekday::Sunday
    }
}

/// The date `k` days after `d` (before, for negative `k`); empty when the
/// result leaves the supported years.
pub open spec fn spec_add_days(d: Date, k: int) -> Option<Date> {
    let n = spec_day_number(d) + k;
    if 0 <= n <= spec_day_number(max_date()) {
        Some(spec_date_of_day_number(n))
    } else {
        None
    }
}

/// What `spec_add_days` returns is valid and `k` days on.
pub proof fn lemma_add_days(d: Date, k: int)
    requires
        spec_add_days(d, k) is Some,
    ensures
        valid_date(spec_add_days(d, k)->Some_0),
        spec_day_number(spec_add_days(d, k)->Some_0) == spec_day_number(d) + k,
{
    lemma_date_of_day_number(spec_day_number(d) + k);
}

/// Steps `d` by `k` days.
pub fn add_days(d: Date, k: i64) -> (r: Option<Date>)
    requires
        valid_date(d),
        -10_000_000_000 <= k <= 10_000_000_000,
    ensures
        r == spec_add_days(d, k as int),
{
    proof {
        lemma_day_number_range(d);
    }
    let n = day_number(d) + k;
    match date_of_day_number(n) {
        Some(d2) => Some(d2),
        None => None,
    }
}

/// Days until the next date strictly after `d` that falls on weekday `w`:
/// between 1 and 7.
pub open spec fn spec_next_weekday_delta(d: Date, w: Weekday) -> int {
    let diff = w.index() - spec_weekday_index(d);
    if diff >= 1 {
        diff
    } else {
        diff + 7
    }
}

/// Days back to the latest date strictly before `d` that falls on weekday
/// `w`: between 1 and 7.
pub open spec fn spec_prev_weekday_delta(d: Date, w: Weekday) -> int {
    let diff = spec_weekday_index(d) - w.index();
    if diff >= 1 {
        diff
    } else {
        diff + 7
    }
}

/// The next date strictly after `d` that falls on weekday `w`.
pub open spec fn spec_next_occurrence(d: Date, w: Weekday) -> Option<Date> {
    spec_add_days(d, spec_next_weekday_delta(d, w))
}

/// The `n`th next date strictly after `d` that falls on weekday `w`.
pub open spec fn spec_nth_next_occurrence(d: Date, w: Weekday, n: int) -> Option<Date> {
    spec_add_days(d, spec_next_weekday_delta(d, w) + 7 * (n - 1))
}

/// The `n`th latest date strictly before `d` that falls on weekday `w`.
pub open spec fn spec_nth_prev_occurrence(d: Date, w: Weekday, n: int) -> Option<Date> {
    spec_add_days(d, -(spec_prev_weekday_delta(d, w) + 7 * (n - 1)))
}

/// Days until the next occurrence of weekday `w` strictly after `d`.
pub fn next_weekday_delta(d: Date, w: Weekday) -> (r: i64)
    requires
        valid_date(d),
    ensures
        r == spec_next_weekday_delta(d, w),
        1 <= r <= 7,
{
    let cur = weekday_index(d);
    let t = w.number_from_monday() as i64;
    let diff = t - cur;
    if diff >= 1 {
        diff
    } else {
        diff + 7
    }
}

/// Days back to the latest occurrence of weekday `w` strictly before `d`.
pub fn prev_weekday_delta(d: Date, w: Weekday) -> (r: i64)
    requires
        valid_date(d),
    ensures
        r == spec_prev_weekday_delta(d, w),
        1 <= r <= 7,
{
    let cur = weekday_index(d);
    let t = w.number_from_monday() as i64;
    let diff = cur - t;
    if diff >= 1 {
        diff
    } else {
        diff + 7
    }
}

/// Chronological comparison of dates.
pub fn date_le(a: Date, b: Date) -> (r: bool)
    ensures
        r == spec_date_le(a, b),
{
    a.year < b.year || (a.year == b.year && (a.month < b.month || (a.month == b.month && a.day
        <= b.day)))
}

} // verus!
