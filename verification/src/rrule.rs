//! Recurrence rules: the semicolon-separated `KEY=VALUE` grammar, parsed
//! into a structured rule of frequency, bounds and selectors.
//!
//! `FREQ` is mandatory; an unrecognized frequency leaves it unset and fails
//! the whole rule. A malformed `UNTIL`, `COUNT`, `INTERVAL` or `BYMONTHDAY`
//! value fails the whole rule, which callers treat as "no recurrence"; a
//! zero `INTERVAL` and a zero `BYMONTHDAY` count as malformed, since the
//! one must be positive and the other names a day of a month. A malformed
//! `BYDAY` merely leaves the selector unset, and unknown keys are ignored.

use vstd::prelude::*;

use crate::date::Weekday;
use crate::datetime::{spec_shift_civil, to_offset, valid_datetime, valid_offset, DateTime};
use crate::text::{
    chars_of, copy_window, find_char, parse_date, parse_offset_datetime, parse_u32, spec_find_char,
    spec_parse_date, spec_parse_offset_datetime, spec_parse_u32, spec_split, split_char,
    spec_is_digit, window_eq,
};

verus! {

/// How often an event repeats.
#[derive(Clone, Copy, Debug, PartialEq, Eq, Structural)]
pub enum Freq {
    Daily,
    Weekly,
    Monthly,
    Yearly,
}

/// A parsed recurrence rule.
#[derive(Clone, Copy, Debug)]
pub struct RepeatRule {
    /// Repetition frequency.
    pub freq: Freq,
    /// Cutoff: occurrences starting at or after this instant are discarded.
    pub until: Option<DateTime>,
    /// Weekday selector with its ordinal; the ordinal is 0 when absent.
    pub by_day: Option<(Weekday, i8)>,
    /// Fixed day-of-month selector.
    pub by_month_day: Option<u8>,
    /// Step size for the daily and yearly frequencies.
    pub interval: Option<u32>,
    /// Remaining occurrences after which the expansion stops.
    pub count: Option<u32>,
}

/// A rule whose parts are all in range for expansion.
pub open spec fn wf_rule(r: RepeatRule) -> bool {
    &&& match r.until {
        Some(u) => valid_datetime(u),
        None => true,
    }
    &&& match r.interval {
        Some(i) => i >= 1,
        None => true,
    }
    &&& match r.by_month_day {
        Some(d) => 1 <= d,
        None => true,
    }
}

/// The weekday a two-letter code names.
pub open spec fn spec_parse_weekday(s: Seq<char>) -> Option<Weekday> {
    if s == "MO"@ {
        Some(Weekday::Monday)
    } else if s == "TU"@ {
        Some(Weekday::Tuesday)
    } else if s == "WE"@ {
        Some(Weekday::Wednesday)
    } else if s == "TH"@ {
        Some(Weekday::Thursday)
    } else if s == "FR"@ {
        Some(Weekday::Friday)
    } else if s == "SA"@ {
        Some(Weekday::Saturday)
    } else if s == "SU"@ {
        Some(Weekday::Sunday)
    } else {
        None
    }
}

/// Parses `v[from..to]` as a weekday code.
fn parse_weekday(v: &Vec<char>, from: usize, to: usize) -> (r: Option<Weekday>)
    requires
        from <= to <= v@.len(),
    ensures
        r == spec_parse_weekday(v@.subrange(from as int, to as int)),
{
    if window_eq(v, from, to, "MO") {
        Some(Weekday::Monday)
    } else if window_eq(v, from, to, "TU") {
        Some(Weekday::Tuesday)
    } else if window_eq(v, from, to, "WE") {
        Some(Weekday::Wednesday)
    } else if window_eq(v, from, to, "TH") {
        Some(Weekday::Thursday)
    } else if window_eq(v, from, to, "FR") {
        Some(Weekday::Friday)
    } else if window_eq(v, from, to, "SA") {
        Some(Weekday::Saturday)
    } else if window_eq(v, from, to, "SU") {
        Some(Weekday::Sunday)
    } else {
        None
    }
}

/// The weekday selector a `BYDAY` value names: an optional minus sign, an
/// optional single-digit ordinal, then a weekday code. The ordinal is 0
/// when absent; the sign applies to the ordinal.
pub open spec fn spec_parse_by_day(s: Seq<char>) -> Option<(Weekday, i8)> {
    let neg = s.len() > 0 && s[0] == '-';
    let t = if neg {
        s.skip(1)
    } else {
        s
    };
    let has_digit = t.len() > 0 && spec_is_digit(t[0]);
    let rest = if has_digit {
        t.skip(1)
    } else {
        t
    };
    match spec_parse_weekday(rest) {
        None => None,
        Some(w) => {
            let ord = if has_digit {
                if neg {
                    -(t[0] as u32 - 48)
                } else {
                    t[0] as u32 - 48
                }
            } else {
                0
            };
            Some((w, ord as i8))
        },
    }
}

/// Parses `v[from..to]` as a `BYDAY` selector.
fn parse_by_day(v: &Vec<char>, from: usize, to: usize) -> (r: Option<(Weekday, i8)>)
    requires
        from <= to <= v@.len(),
    ensures
        r == spec_parse_by_day(v@.subrange(from as int, to as int)),
{
    let ghost s = v@.subrange(from as int, to as int);
    let mut p = from;
    let neg = p < to && v[p] == '-';
    if neg {
        p = p + 1;
    }
    let ghost t = if s.len() > 0 && s[0] == '-' {
        s.skip(1)
    } else {
        s
    };
    proof {
        assert(t =~= v@.subrange(p as int, to as int));
    }
    let mut digit: Option<u8> = None;
    if p < to {
        let cu = v[p] as u32;
        if 48 <= cu && cu <= 57 {
            digit = Some((cu - 48) as u8);
            p = p + 1;
        }
    }
    let ghost rest = if t.len() > 0 && spec_is_digit(t[0]) {
        t.skip(1)
    } else {
        t
    };
    proof {
        assert(rest =~= v@.subrange(p as int, to as int));
    }
    match parse_weekday(v, p, to) {
        None => None,
        Some(w) => {
            let ord: i8 = match digit {
                Some(d) => {
                    if neg {
                        -(d as i8)
                    } else {
                        d as i8
                    }
                },
                None => 0,
            };
            Some((w, ord))
        },
    }
}

/// The cutoff an `UNTIL` value names: a full datetime carrying its own
/// offset, or a bare date read as midnight UTC.
pub open spec fn spec_parse_until(s: Seq<char>) -> Option<DateTime> {
    match spec_parse_offset_datetime(s) {
        Some(dt) => Some(dt),
        None => match spec_parse_date(s) {
            Some(d) => Some(DateTime { date: d, hour: 0, minute: 0, second: 0, offset: 0 }),
            None => None,
        },
    }
}

/// Parses `v[from..to]` as an `UNTIL` cutoff.
fn parse_until(v: &Vec<char>, from: usize, to: usize) -> (r: Option<DateTime>)
    requires
        from <= to <= v@.len(),
    ensures
        r == spec_parse_until(v@.subrange(from as int, to as int)),
        match r {
            Some(u) => valid_datetime(u),
            None => true,
        },
{
    let w = copy_window(v, from, to);
    match parse_offset_datetime(&w) {
        Some(dt) => Some(dt),
        None => match parse_date(v, from, to) {
            Some(d) => Some(DateTime { date: d, hour: 0, minute: 0, second: 0, offset: 0 }),
            None => None,
        },
    }
}

/// The frequency a `FREQ` value names.
pub open spec fn spec_parse_freq(s: Seq<char>) -> Option<Freq> {
    if s == "DAILY"@ {
        Some(Freq::Daily)
    } else if s == "WEEKLY"@ {
        Some(Freq::Weekly)
    } else if s == "MONTHLY"@ {
        Some(Freq::Monthly)
    } else if s == "YEARLY"@ {
        Some(Freq::Yearly)
    } else {
        None
    }
}

/// Parses `v[from..to]` as a frequency.
fn parse_freq(v: &Vec<char>, from: usize, to: usize) -> (r: Option<Freq>)
    requires
        from <= to <= v@.len(),
    ensures
        r == spec_parse_freq(v@.subrange(from as int, to as int)),
{
    if window_eq(v, from, to, "DAILY") {
        Some(Freq::Daily)
    } else if window_eq(v, from, to, "WEEKLY") {
        Some(Freq::Weekly)
    } else if window_eq(v, from, to, "MONTHLY") {
        Some(Freq::Monthly)
    } else if window_eq(v, from, to, "YEARLY") {
        Some(Freq::Yearly)
    } else {
        None
    }
}

/// The rule before any key was read: weekly, with nothing else set.
pub open spec fn spec_initial_rule() -> RepeatRule {
    RepeatRule {
        freq: Freq::Weekly,
        until: None,
        by_day: None,
        by_month_day: None,
        interval: None,
        count: None,
    }
}

/// One `KEY=VALUE` segment applied to the parse state; empty on a fatal
/// value, and the state unchanged on a segment without `=` or with an
/// unknown key.
pub open spec fn spec_rrule_step(freq: Option<Freq>, rule: RepeatRule, seg: Seq<char>) -> Option<
    (Option<Freq>, RepeatRule),
> {
    match spec_find_char(seg, '=') {
        None => Some((freq, rule)),
        Some(i) => {
            let k = seg.take(i);
            let v = seg.skip(i + 1);
            if k == "FREQ"@ {
                Some((spec_parse_freq(v), rule))
            } else if k == "UNTIL"@ {
                match spec_parse_until(v) {
                    None => None,
                    Some(u) => Some((freq, RepeatRule { until: Some(u), ..rule })),
                }
            } else if k == "BYDAY"@ {
                Some((freq, RepeatRule { by_day: spec_parse_by_day(v), ..rule }))
            } else if k == "BYMONTHDAY"@ {
                match spec_parse_u32(v) {
                    Some(x) => if 1 <= x <= 255 {
                        Some((freq, RepeatRule { by_month_day: Some(x as u8), ..rule }))
                    } else {
                        None
                    },
                    None => None,
                }
            } else if k == "INTERVAL"@ {
                match spec_parse_u32(v) {
                    Some(x) => if x >= 1 {
                        Some((freq, RepeatRule { interval: Some(x), ..rule }))
                    } else {
                        None
                    },
                    None => None,
                }
            } else if k == "COUNT"@ {
                match spec_parse_u32(v) {
                    Some(x) => Some((freq, RepeatRule { count: Some(x), ..rule })),
                    None => None,
                }
            } else {
                Some((freq, rule))
            }
        },
    }
}

/// The segments of a rule applied left to right.
pub open spec fn spec_rrule_fold(
    segs: Seq<Seq<char>>,
    freq: Option<Freq>,
    rule: RepeatRule,
) -> Option<(Option<Freq>, RepeatRule)>
    decreases segs.len(),
{
    if segs.len() == 0 {
        Some((freq, rule))
    } else {
        match spec_rrule_step(freq, rule, segs[0]) {
            None => None,
            Some((f, r)) => spec_rrule_fold(segs.drop_first(), f, r),
        }
    }
}

/// The rule a recurrence expression denotes; empty when a recognized key
/// carries a fatal value or `FREQ` never names a frequency.
pub open spec fn spec_parse_rrule(s: Seq<char>) -> Option<RepeatRule> {
    match spec_rrule_fold(spec_split(s, ';'), None, spec_initial_rule()) {
        None => None,
        Some((freq, rule)) => match freq {
            None => None,
            Some(f) => Some(RepeatRule { freq: f, ..rule }),
        },
    }
}

/// Parses a recurrence expression.
pub fn parse_rrule(s: &str) -> (r: Option<RepeatRule>)
    ensures
        r == spec_parse_rrule(s@),
        match r {
            Some(rule) => wf_rule(rule),
            None => true,
        },
{
    let cv = chars_of(s);
    let segs = split_char(&cv, ';');
    let ghost all = segs.deep_view();
    let mut freq: Option<Freq> = None;
    let mut rule = RepeatRule {
        freq: Freq::Weekly,
        until: None,
        by_day: None,
        by_month_day: None,
        interval: None,
        count: None,
    };
    proof {
        assert(all.skip(0) =~= all);
    }
    let mut i: usize = 0;
    while i < segs.len()
        invariant
            i <= segs.len(),
            all.len() == segs.len(),
            all == segs.deep_view(),
            all == spec_split(s@, ';'),
            spec_rrule_fold(all, None, spec_initial_rule()) == spec_rrule_fold(
                all.skip(i as int),
                freq,
                rule,
            ),
            wf_rule(rule),
        decreases segs.len() - i,
    {
        let seg = &segs[i];
        let ghost sv = seg@;
        proof {
            assert(all[i as int] == segs@[i as int].deep_view());
            assert(segs@[i as int].deep_view() =~= sv);
            assert(all.skip(i as int)[0] == all[i as int]);
            assert(all.skip(i as int).drop_first() =~= all.skip(i as int + 1));
        }
        let n = seg.len();
        match find_char(seg, '=') {
            None => {},
            Some(j) => {
                let ghost k = sv.take(j as int);
                let ghost val = sv.skip(j as int + 1);
                proof {
                    crate::text::lemma_find_char(sv, '=');
                    assert(k =~= sv.subrange(0, j as int));
                    assert(val =~= sv.subrange(j as int + 1, n as int));
                }
                if window_eq(seg, 0, j, "FREQ") {
                    freq = parse_freq(seg, j + 1, n);
                } else if window_eq(seg, 0, j, "UNTIL") {
                    match parse_until(seg, j + 1, n) {
                        Some(u) => {
                            rule.until = Some(u);
                        },
                        None => {
                            return None;
                        },
                    }
                } else if window_eq(seg, 0, j, "BYDAY") {
                    rule.by_day = parse_by_day(seg, j + 1, n);
                } else if window_eq(seg, 0, j, "BYMONTHDAY") {
                    match parse_u32(seg, j + 1, n) {
                        Some(x) => {
                            if 1 <= x && x <= 255 {
                                rule.by_month_day = Some(x as u8);
                            } else {
                                return None;
                            }
                        },
                        None => {
                            return None;
                        },
                    }
                } else if window_eq(seg, 0, j, "INTERVAL") {
                    match parse_u32(seg, j + 1, n) {
                        Some(x) => {
                            if x >= 1 {
                                rule.interval = Some(x);
                            } else {
                                return None;
                            }
                        },
                        None => {
                            return None;
                        },
                    }
                } else if window_eq(seg, 0, j, "COUNT") {
                    match parse_u32(seg, j + 1, n) {
                        Some(x) => {
                            rule.count = Some(x);
                        },
                        None => {
                            return None;
                        },
                    }
                }
            },
        }
        i = i + 1;
    }
    proof {
        assert(all.skip(i as int) =~= Seq::<Seq<char>>::empty());
    }
    match freq {
        Some(f) => {
            rule.freq = f;
            Some(rule)
        },
        None => None,
    }
}

/// `rule` with its cutoff re-expressed in offset `target`; empty when the
/// conversion leaves the supported years.
pub open spec fn spec_rule_to_offset(rule: RepeatRule, target: int) -> Option<RepeatRule> {
    match rule.until {
        None => Some(rule),
        Some(u) => match spec_shift_civil(u, target - u.offset, target) {
            None => None,
            Some(u2) => Some(RepeatRule { until: Some(u2), ..rule }),
        },
    }
}

/// Re-expresses the rule's cutoff in offset `target`.
pub fn rule_to_offset(rule: RepeatRule, target: i32) -> (r: Option<RepeatRule>)
    requires
        wf_rule(rule),
        valid_offset(target as int),
    ensures
        r == spec_rule_to_offset(rule, target as int),
        match r {
            Some(r2) => wf_rule(r2),
            None => true,
        },
{
    match rule.until {
        None => Some(rule),
        Some(u) => match to_offset(&u, target) {
            None => None,
            Some(u2) => Some(RepeatRule { until: Some(u2), ..rule }),
        },
    }
}

} // verus!
