//! The date arithmetic behind the two calendar display modes: the grid of
//! days a month view shows, the run of days a twelve-day view shows, and
//! the scan that skips events already past a given day.
//!
//! The drawing itself is not part of this library; these functions
//! compute which days and events a view works through.

use vstd::prelude::*;

use crate::date::{
    add_days, date_le, days_in_month, lemma_add_days, lemma_day_number_range, next_weekday_delta,
    prev_weekday_delta, spec_add_days, spec_date_le, spec_day_number, spec_days_in_month,
    spec_next_weekday_delta, spec_prev_weekday_delta, spec_weekday_index, valid_date, weekday_index,
    Date, Weekday,
};
use crate::event::{spec_covers, Event};

verus! {

/// The twelve-day display mode.
#[derive(Default, Copy, Clone, Debug)]
pub struct TwelveDay;

/// The month display mode.
#[derive(Default, Copy, Clone, Debug)]
pub struct Month;

/// Which of the two layouts the display uses.
#[derive(Clone, Debug)]
pub enum Mode {
    TwelveDay(TwelveDay),
    Month(Month),
}

impl From<TwelveDay> for Mode {
    fn from(value: TwelveDay) -> (r: Mode) {
        Mode::TwelveDay(value)
    }
}

impl vstd::std_specs::convert::FromSpecImpl<TwelveDay> for Mode {
    open spec fn obeys_from_spec() -> bool {
        true
    }

    open spec fn from_spec(v: TwelveDay) -> Mode {
        Mode::TwelveDay(v)
    }
}

/// The last day of `date`'s month.
pub fn end_of_month(date: Date) -> (r: Date)
    requires
        valid_date(date),
    ensures
        r.year == date.year && r.month == date.month,
        r.day == spec_days_in_month(date.year as int, date.month as int),
        valid_date(r),
{
    Date { year: date.year, month: date.month, day: days_in_month(date.year, date.month) }
}

/// The Monday on or before `date`; empty at the very edge of the
/// supported years.
pub fn week_start(date: Date) -> (r: Option<Date>)
    requires
        valid_date(date),
    ensures
        match r {
            Some(w) => {
                &&& valid_date(w)
                &&& spec_weekday_index(w) == 0
                &&& spec_day_number(w) == spec_day_number(date) - spec_weekday_index(date)
            },
            None => spec_day_number(date) - spec_weekday_index(date) < 0,
        },
{
    let wd = weekday_index(date);
    let r = add_days(date, -wd);
    proof {
        lemma_day_number_range(date);
        if r is Some {
            lemma_add_days(date, -wd as int);
            let w = r->Some_0;
            let dn = spec_day_number(date);
            assert(spec_day_number(w) == dn - dn % 7);
            assert((dn - dn % 7) % 7 == 0) by (nonlinear_arith)
                requires
                    dn >= 0,
            ;
        }
    }
    r
}

/// The Sunday on or after `date`; empty at the very edge of the
/// supported years.
pub fn week_end(date: Date) -> (r: Option<Date>)
    requires
        valid_date(date),
    ensures
        match r {
            Some(w) => {
                &&& valid_date(w)
                &&& spec_weekday_index(w) == 6
                &&& spec_day_number(w) == spec_day_number(date) + 6 - spec_weekday_index(date)
            },
            None => spec_day_number(date) + 6 - spec_weekday_index(date) > spec_day_number(
                crate::date::max_date(),
            ),
        },
{
    let wd = weekday_index(date);
    let r = add_days(date, 6 - wd);
    proof {
        lemma_day_number_range(date);
        if r is Some {
            lemma_add_days(date, 6 - wd as int);
            let w = r->Some_0;
            let dn = spec_day_number(date);
            assert(spec_day_number(w) == dn + 6 - dn % 7);
            assert((dn + 6 - dn % 7) % 7 == 6) by (nonlinear_arith)
                requires
                    dn >= 0,
            ;
        }
    }
    r
}

/// The run of consecutive days from `from` through `to`.
fn day_run(from: Date, to: Date) -> (r: Vec<Date>)
    requires
        valid_date(from),
        valid_date(to),
        spec_day_number(from) <= spec_day_number(to),
    ensures
        r@.len() == spec_day_number(to) - spec_day_number(from) + 1,
        forall|i: int|
            0 <= i < r@.len() ==> valid_date(#[trigger] r@[i]) && spec_day_number(r@[i])
                == spec_day_number(from) + i,
{
    proof {
        lemma_day_number_range(from);
        lemma_day_number_range(to);
    }
    let n = crate::date::day_number(to) - crate::date::day_number(from);
    let mut r: Vec<Date> = Vec::new();
    let mut i: i64 = 0;
    while i <= n
        invariant
            0 <= i <= n + 1,
            n == spec_day_number(to) - spec_day_number(from),
            r@.len() == i,
            forall|k: int|
                0 <= k < r@.len() ==> valid_date(#[trigger] r@[k]) && spec_day_number(r@[k])
                    == spec_day_number(from) + k,
        decreases n + 1 - i,
    {
        let d = match add_days(from, i) {
            Some(d) => d,
            None => {
                proof {
                    lemma_day_number_range(to);
                    crate::date::lemma_day_number_mono(from, to);
                    assert(false);
                }
                return r;
            },
        };
        proof {
            lemma_add_days(from, i as int);
        }
        r.push(d);
        i = i + 1;
    }
    r
}

/// The grid of days a month view of `date`'s month shows: whole weeks,
/// Monday through Sunday, from the week of the first of the month
/// through the week of its last day. Empty only at the very edge of the
/// supported years.
pub fn month_grid(date: Date) -> (r: Option<Vec<Date>>)
    requires
        valid_date(date),
    ensures
        match r {
            Some(g) => {
                &&& g@.len() % 7 == 0
                &&& g@.len() > 0
                &&& forall|i: int|
                    0 <= i < g@.len() ==> valid_date(#[trigger] g@[i]) && spec_day_number(g@[i])
                        == spec_day_number(g@[0]) + i
                &&& spec_weekday_index(g@[0]) == 0
                &&& spec_day_number(g@[0]) <= spec_day_number(
                    Date { year: date.year, month: date.month, day: 1 },
                )
                &&& spec_day_number(g@[g@.len() - 1]) >= spec_day_number(
                    Date {
                        year: date.year,
                        month: date.month,
                        day: spec_days_in_month(date.year as int, date.month as int) as u8,
                    },
                )
            },
            None => true,
        },
{
    let first = Date { year: date.year, month: date.month, day: 1 };
    let last = end_of_month(date);
    let ws = match week_start(first) {
        Some(w) => w,
        None => {
            return None;
        },
    };
    let we = match week_end(last) {
        Some(w) => w,
        None => {
            return None;
        },
    };
    proof {
        crate::date::lemma_day_number_mono(first, last);
    }
    let g = day_run(ws, we);
    proof {
        let a = spec_day_number(ws);
        let b = spec_day_number(we);
        lemma_day_number_range(ws);
        lemma_day_number_range(we);
        lemma_day_number_range(first);
        lemma_day_number_range(last);
        assert(g@[0] == ws) by {
            crate::date::lemma_day_number_injective(g@[0], ws);
        }
        assert((b - a + 1) % 7 == 0) by (nonlinear_arith)
            requires
                a % 7 == 0,
                b % 7 == 6,
                a >= 0,
                b >= a,
        ;
    }
    Some(g)
}

/// The run of days a twelve-day view starting at `start` shows: twelve
/// consecutive days, fewer only when the calendar ends first.
pub fn twelve_day_grid(start: Date) -> (r: Vec<Date>)
    requires
        valid_date(start),
    ensures
        r@.len() <= 12,
        r@.len() > 0,
        forall|i: int|
            0 <= i < r@.len() ==> valid_date(#[trigger] r@[i]) && spec_day_number(r@[i])
                == spec_day_number(start) + i,
        r@[0] == start,
        r@.len() < 12 ==> spec_day_number(start) + 11 > spec_day_number(crate::date::max_date()),
{
    proof {
        lemma_day_number_range(start);
    }
    let mut r: Vec<Date> = Vec::new();
    let mut i: i64 = 0;
    while i < 12
        invariant
            0 <= i <= 12,
            r@.len() == i,
            forall|k: int|
                0 <= k < r@.len() ==> valid_date(#[trigger] r@[k]) && spec_day_number(r@[k])
                    == spec_day_number(start) + k,
            i > 0 ==> r@[0] == start,
        decreases 12 - i,
    {
        let d = match add_days(start, i) {
            Some(d) => d,
            None => {
                return r;
            },
        };
        proof {
            lemma_add_days(start, i as int);
            if i == 0 {
                crate::date::lemma_day_number_injective(d, start);
            }
        }
        r.push(d);
        i = i + 1;
    }
    r
}

/// Whether an event is still relevant on or after `day`: it starts on or
/// after the day, or its range covers it.
pub open spec fn spec_still_relevant(e: crate::event::SpecEvent, day: Date) -> bool {
    spec_date_le(day, e.start.date) || spec_covers(e, day)
}

/// The number of leading events of `evs` that ended before `day`; a view
/// walking days in order skips them once and for all.
pub fn remove_earlier_events(evs: &Vec<Event>, day: Date) -> (r: usize)
    ensures
        r <= evs@.len(),
        forall|i: int| 0 <= i < r ==> !spec_still_relevant(#[trigger] evs@[i]@, day),
        r < evs@.len() ==> spec_still_relevant(evs@[r as int]@, day),
{
    let mut i: usize = 0;
    while i < evs.len()
        invariant
            i <= evs@.len(),
            forall|k: int| 0 <= k < i ==> !spec_still_relevant(#[trigger] evs@[k]@, day),
        decreases evs@.len() - i,
    {
        let keep = date_le(day, evs[i].start.date) || evs[i].covers(day);
        if keep {
            return i;
        }
        i = i + 1;
    }
    i
}

} // verus!
