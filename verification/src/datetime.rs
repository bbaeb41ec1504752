//! Datetimes with a fixed UTC offset, compared and shifted on an absolute
//! timeline of seconds since 0001-01-01T00:00:00 UTC (the "instant").

use vstd::prelude::*;

use crate::date::{
    date_of_day_number, day_number, lemma_date_of_day_number, lemma_day_number_range, max_date,
    spec_date_of_day_number, spec_day_number, valid_date, Date,
};

verus! {

/// A fixed offset from UTC, in seconds.
#[derive(Clone, Copy, Debug, PartialEq, Eq, Structural)]
pub struct UtcOffset {
    pub seconds: i32,
}

/// Offsets are kept strictly within one day of UTC.
pub open spec fn valid_offset(seconds: int) -> bool {
    -86400 < seconds < 86400
}

impl UtcOffset {
    /// The offset `h` hours, `m` minutes and `s` seconds from UTC; the parts
    /// must share one sign and lie in the ranges of a clock reading.
    pub fn from_hms(h: i8, m: i8, s: i8) -> (r: Option<UtcOffset>)
        ensures
            match r {
                Some(o) => {
                    &&& o.seconds == h as int * 3600 + m as int * 60 + s as int
                    &&& valid_offset(o.seconds as int)
                },
                None => !(-24 < h < 24 && -60 < m < 60 && -60 < s < 60 && ((h >= 0 && m >= 0 && s
                    >= 0) || (h <= 0 && m <= 0 && s <= 0))),
            },
    {
        if -24 < h && h < 24 && -60 < m && m < 60 && -60 < s && s < 60 && ((h >= 0 && m >= 0 && s
            >= 0) || (h <= 0 && m <= 0 && s <= 0)) {
            Some(UtcOffset { seconds: h as i32 * 3600 + m as i32 * 60 + s as i32 })
        } else {
            None
        }
    }

    /// The UTC offset itself.
    pub fn utc() -> (r: UtcOffset)
        ensures
            r.seconds == 0,
    {
        UtcOffset { seconds: 0 }
    }
}

/// A civil date and time of day, read against a fixed UTC offset in seconds.
#[derive(Clone, Copy, Debug, PartialEq, Eq, Structural)]
pub struct DateTime {
    pub date: Date,
    pub hour: u8,
    pub minute: u8,
    pub second: u8,
    pub offset: i32,
}

/// A structurally valid datetime: valid date, clock in range, offset in range.
pub open spec fn valid_datetime(dt: DateTime) -> bool {
    &&& valid_date(dt.date)
    &&& dt.hour < 24
    &&& dt.minute < 60
    &&& dt.second < 60
    &&& valid_offset(dt.offset as int)
}

/// Seconds into the civil day.
pub open spec fn spec_seconds_of_day(dt: DateTime) -> int {
    dt.hour as int * 3600 + dt.minute as int * 60 + dt.second as int
}

/// The absolute time of `dt`: seconds since 0001-01-01T00:00:00 UTC.
pub open spec fn spec_instant(dt: DateTime) -> int {
    spec_day_number(dt.date) * 86400 + spec_seconds_of_day(dt) - dt.offset
}

/// Shifting the civil clock of `dt` by `secs` seconds and restamping it with
/// offset `new_offset`; empty when the result leaves the supported years.
pub open spec fn spec_shift_civil(dt: DateTime, secs: int, new_offset: int) -> Option<DateTime> {
    let total = spec_day_number(dt.date) * 86400 + spec_seconds_of_day(dt) + secs;
    if total < 0 || total / 86400 > spec_day_number(max_date()) {
        None
    } else {
        let sod = total % 86400;
        Some(
            DateTime {
                date: spec_date_of_day_number(total / 86400),
                hour: (sod / 3600) as u8,
                minute: ((sod % 3600) / 60) as u8,
                second: (sod % 60) as u8,
                offset: new_offset as i32,
            },
        )
    }
}

/// What `spec_shift_civil` returns is a valid datetime whose instant moved by
/// `secs` less the change of offset.
pub proof fn lemma_shift_civil(dt: DateTime, secs: int, new_offset: int)
    requires
        valid_datetime(dt),
        valid_offset(new_offset),
        spec_shift_civil(dt, secs, new_offset) is Some,
    ensures
        ({
            let r = spec_shift_civil(dt, secs, new_offset)->Some_0;
            &&& valid_datetime(r)
            &&& spec_instant(r) == spec_instant(dt) + secs + dt.offset - new_offset
            &&& r.offset == new_offset
        }),
{
    let total = spec_day_number(dt.date) * 86400 + spec_seconds_of_day(dt) + secs;
    lemma_date_of_day_number(total / 86400);
    assert(total == 86400 * (total / 86400) + total % 86400) by (nonlinear_arith);
    assert(0 <= total % 86400 < 86400) by (nonlinear_arith)
        requires
            total >= 0,
    ;
    let sod = total % 86400;
    assert(sod == 3600 * (sod / 3600) + sod % 3600) by (nonlinear_arith);
    assert(sod % 3600 == 60 * ((sod % 3600) / 60) + (sod % 3600) % 60) by (nonlinear_arith);
    assert(0 <= sod % 3600 < 3600 && 0 <= (sod % 3600) / 60 < 60 && 0 <= sod / 3600 < 24) by (nonlinear_arith)
        requires
            0 <= sod < 86400,
    ;
    assert((sod % 3600) % 60 == sod % 60) by (nonlinear_arith);
}

/// The instant of `dt`.
pub fn instant(dt: &DateTime) -> (r: i64)
    requires
        valid_datetime(*dt),
    ensures
        r == spec_instant(*dt),
        -320_000_000_000 < r < 320_000_000_000,
{
    proof {
        lemma_day_number_range(dt.date);
    }
    let dn = day_number(dt.date);
    dn * 86400 + (dt.hour as i64 * 3600 + dt.minute as i64 * 60 + dt.second as i64)
        - dt.offset as i64
}

/// Whether `a` falls strictly before `b` on the absolute timeline.
pub fn instant_lt(a: &DateTime, b: &DateTime) -> (r: bool)
    requires
        valid_datetime(*a),
        valid_datetime(*b),
    ensures
        r == (spec_instant(*a) < spec_instant(*b)),
{
    instant(a) < instant(b)
}

/// Shifts the civil clock of `dt` by `secs` seconds and restamps it with
/// offset `new_offset`.
pub fn shift_civil(dt: &DateTime, secs: i64, new_offset: i32) -> (r: Option<DateTime>)
    requires
        valid_datetime(*dt),
        valid_offset(new_offset as int),
    ensures
        r == spec_shift_civil(*dt, secs as int, new_offset as int),
        match r {
            Some(out) => {
                &&& valid_datetime(out)
                &&& spec_instant(out) == spec_instant(*dt) + secs + dt.offset - new_offset
                &&& out.offset == new_offset
            },
            None => true,
        },
{
    proof {
        lemma_day_number_range(dt.date);
    }
    let dn = day_number(dt.date);
    let base: i64 = dn * 86400 + (dt.hour as i64 * 3600 + dt.minute as i64 * 60
        + dt.second as i64);
    let total = match base.checked_add(secs) {
        Some(t) => t,
        None => {
            proof {
                let t = spec_day_number(dt.date) * 86400 + spec_seconds_of_day(*dt) + secs as int;
                if t >= 0 {
                    assert(t > i64::MAX);
                    lemma_day_number_range(max_date());
                    assert(t / 86400 > spec_day_number(max_date())) by (nonlinear_arith)
                        requires
                            t > i64::MAX,
                            0 <= spec_day_number(max_date()) < 3_660_000,
                    ;
                }
            }
            return None;
        },
    };
    if total < 0 {
        proof {
            assert(spec_shift_civil(*dt, secs as int, new_offset as int) is None);
        }
        return None;
    }
    let n = total / 86400;
    let sod = total % 86400;
    proof {
        assert(n == total as int / 86400 && sod == total as int % 86400 && 0 <= sod < 86400);
    }
    match date_of_day_number(n) {
        None => {
            proof {
                assert(n > spec_day_number(max_date()));
            }
            None
        },
        Some(d) => {
            let r = DateTime {
                date: d,
                hour: (sod / 3600) as u8,
                minute: ((sod % 3600) / 60) as u8,
                second: (sod % 60) as u8,
                offset: new_offset,
            };
            proof {
                lemma_shift_civil(*dt, secs as int, new_offset as int);
            }
            Some(r)
        },
    }
}

/// Moves `dt` forward by `secs` seconds of absolute time, keeping its offset.
pub fn add_seconds(dt: &DateTime, secs: i64) -> (r: Option<DateTime>)
    requires
        valid_datetime(*dt),
    ensures
        r == spec_shift_civil(*dt, secs as int, dt.offset as int),
        match r {
            Some(out) => {
                &&& valid_datetime(out)
                &&& spec_instant(out) == spec_instant(*dt) + secs
                &&& out.offset == dt.offset
            },
            None => true,
        },
{
    shift_civil(dt, secs, dt.offset)
}

/// Re-expresses `dt` in offset `new_offset`, keeping the instant.
pub fn to_offset(dt: &DateTime, new_offset: i32) -> (r: Option<DateTime>)
    requires
        valid_datetime(*dt),
        valid_offset(new_offset as int),
    ensures
        r == spec_shift_civil(*dt, new_offset - dt.offset, new_offset as int),
        match r {
            Some(out) => {
                &&& valid_datetime(out)
                &&& spec_instant(out) == spec_instant(*dt)
                &&& out.offset == new_offset
            },
            None => true,
        },
{
    let delta: i64 = new_offset as i64 - dt.offset as i64;
    shift_civil(dt, delta, new_offset)
}

impl DateTime {
    /// Builds a datetime after checking every part.
    pub fn new(year: i32, month: u8, day: u8, hour: u8, minute: u8, second: u8, offset: UtcOffset)
        -> (r: Option<DateTime>)
        ensures
            match r {
                Some(dt) => {
                    &&& dt == (DateTime {
                        date: Date { year, month, day },
                        hour,
                        minute,
                        second,
                        offset: offset.seconds,
                    })
                    &&& valid_datetime(dt)
                },
                None => !valid_datetime(
                    DateTime {
                        date: Date { year, month, day },
                        hour,
                        minute,
                        second,
                        offset: offset.seconds,
                    },
                ),
            },
    {
        match Date::new(year, month, day) {
            Some(date) => {
                if hour < 24 && minute < 60 && second < 60 && -86400 < offset.seconds
                    && offset.seconds < 86400 {
                    Some(DateTime { date, hour, minute, second, offset: offset.seconds })
                } else {
                    None
                }
            },
            None => None,
        }
    }
}

} // verus!
