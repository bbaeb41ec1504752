//! Recurrence expansion: a pure successor step from one occurrence to the
//! next, and the bounded stream of occurrences it generates up to a
//! caller-supplied horizon.
//!
//! The step always moves the start date strictly forward, so the stream
//! provably terminates for every rule once a horizon is imposed. A rule
//! whose selector would step backwards or out of the supported years ends
//! the stream instead of stalling or crashing on it.

use vstd::prelude::*;

use crate::date::{
    add_days, day_number, days_in_month, lemma_add_days, lemma_day_number_range,
    next_weekday_delta, prev_weekday_delta, spec_add_days, spec_day_number, spec_days_in_month,
    spec_next_weekday_delta, spec_nth_next_occurrence, spec_nth_prev_occurrence, valid_date, Date,
};
use crate::datetime::{
    add_seconds, instant, instant_lt, spec_instant, spec_shift_civil, valid_datetime, DateTime,
};
use crate::event::{wf_event, Event, SpecEvent};
use crate::rrule::{wf_rule, Freq, RepeatRule};

verus! {

/// The start date the frequency rule proposes after `prev`:
/// - daily: `interval` days on (1 when unset);
/// - weekly: the next occurrence of the selected weekday, or 7 days on;
/// - monthly: 32 days on to land past the month, then the clamped
///   day-of-month selector, the ordinal weekday selector counted from the
///   first or last day of that month, or the previous day-of-month;
/// - yearly: the same month and day, `interval` years on.
pub open spec fn spec_candidate_date(rule: RepeatRule, prev: Date) -> Option<Date> {
    match rule.freq {
        Freq::Daily => spec_add_days(prev, spec_interval(rule)),
        Freq::Weekly => match rule.by_day {
            Some((w, _)) => spec_add_days(prev, spec_next_weekday_delta(prev, w)),
            None => spec_add_days(prev, 7),
        },
        Freq::Monthly => match spec_add_days(prev, 32) {
            None => None,
            Some(m) => match rule.by_month_day {
                Some(dsel) => {
                    let dim = spec_days_in_month(m.year as int, m.month as int);
                    let dd = if dsel as int <= dim {
                        dsel as int
                    } else {
                        dim
                    };
                    Some(Date { year: m.year, month: m.month, day: dd as u8 })
                },
                None => match rule.by_day {
                    Some((w, ord)) => {
                        if ord > 0 {
                            spec_nth_next_occurrence(
                                Date { year: m.year, month: m.month, day: 1 },
                                w,
                                ord as int,
                            )
                        } else if ord < 0 {
                            spec_nth_prev_occurrence(
                                Date {
                                    year: m.year,
                                    month: m.month,
                                    day: spec_days_in_month(m.year as int, m.month as int) as u8,
                                },
                                w,
                                -(ord as int),
                            )
                        } else {
                            None
                        }
                    },
                    None => {
                        let d = Date { year: m.year, month: m.month, day: prev.day };
                        if valid_date(d) {
                            Some(d)
                        } else {
                            None
                        }
                    },
                },
            },
        },
        Freq::Yearly => {
            let y2 = prev.year + spec_interval(rule);
            let d = Date { year: y2 as i32, month: prev.month, day: prev.day };
            if y2 <= 9999 && valid_date(d) {
                Some(d)
            } else {
                None
            }
        },
    }
}

/// The rule's step size, 1 when unset.
pub open spec fn spec_interval(rule: RepeatRule) -> int {
    match rule.interval {
        Some(i) => i as int,
        None => 1,
    }
}

/// Whether `start` falls strictly before the rule's cutoff, or the rule
/// has none.
pub open spec fn spec_before_until(rule: RepeatRule, start: DateTime) -> bool {
    match rule.until {
        Some(u) => spec_instant(start) < spec_instant(u),
        None => true,
    }
}

/// One step of the expansion: the updated rule state and the next
/// occurrence, if any. A remaining count of zero, an exhausted or
/// backwards candidate, and a candidate at or past the cutoff all end the
/// stream; otherwise the occurrence keeps the previous summary, clock and
/// offset, and its end preserves the previous duration.
pub open spec fn spec_advance(rule: RepeatRule, prev: SpecEvent) -> (RepeatRule, Option<
    SpecEvent,
>) {
    if rule.count == Some(0u32) {
        (rule, None)
    } else {
        let rule2 = match rule.count {
            Some(c) => RepeatRule { count: Some((c - 1) as u32), ..rule },
            None => rule,
        };
        match spec_candidate_date(rule, prev.start.date) {
            None => (rule2, None),
            Some(nd) => {
                if spec_day_number(nd) <= spec_day_number(prev.start.date) || !valid_date(nd) {
                    (rule2, None)
                } else {
                    let start = DateTime { date: nd, ..prev.start };
                    if !spec_before_until(rule, start) {
                        (rule2, None)
                    } else {
                        let dur = spec_instant(prev.end) - spec_instant(prev.start);
                        match spec_shift_civil(start, dur, start.offset as int) {
                            None => (rule2, None),
                            Some(end) => (
                                rule2,
                                Some(SpecEvent { summary: prev.summary, start, end }),
                            ),
                        }
                    }
                }
            },
        }
    }
}

/// What one step emits is well formed, keeps the clock and offset of the
/// previous start, moves the start date strictly forward, and preserves
/// the duration.
pub proof fn lemma_advance(rule: RepeatRule, prev: SpecEvent)
    requires
        wf_event(prev),
    ensures
        match spec_advance(rule, prev).1 {
            Some(e) => {
                &&& wf_event(e)
                &&& e.summary == prev.summary
                &&& e.start.hour == prev.start.hour
                &&& e.start.minute == prev.start.minute
                &&& e.start.second == prev.start.second
                &&& e.start.offset == prev.start.offset
                &&& spec_day_number(e.start.date) > spec_day_number(prev.start.date)
                &&& spec_instant(e.start) > spec_instant(prev.start)
                &&& spec_instant(e.end) - spec_instant(e.start) == spec_instant(prev.end)
                    - spec_instant(prev.start)
            },
            None => true,
        },
{
    let (rule2, next) = spec_advance(rule, prev);
    if next is Some {
        let e = next->Some_0;
        let nd = e.start.date;
        let dur = spec_instant(prev.end) - spec_instant(prev.start);
        crate::datetime::lemma_shift_civil(e.start, dur, e.start.offset as int);
        assert(spec_instant(e.start) - spec_instant(prev.start) == (spec_day_number(nd)
            - spec_day_number(prev.start.date)) * 86400);
        assert(spec_day_number(nd) > spec_day_number(prev.start.date));
        assert((spec_day_number(nd) - spec_day_number(prev.start.date)) * 86400 >= 86400) by (nonlinear_arith)
            requires
                spec_day_number(nd) - spec_day_number(prev.start.date) >= 1,
        ;
    }
}

/// The occurrences after `prev`, one step at a time, stopping at the
/// first that does not fall strictly before `horizon`.
pub open spec fn spec_expand(prev: SpecEvent, rule: RepeatRule, horizon: DateTime) -> Seq<
    SpecEvent,
>
    decreases spec_instant(horizon) - spec_instant(prev.start)
    when wf_event(prev)
    via spec_expand_decreases
{
    let (rule2, next) = spec_advance(rule, prev);
    match next {
        None => Seq::empty(),
        Some(e) => {
            if spec_instant(e.start) < spec_instant(horizon) {
                seq![e] + spec_expand(e, rule2, horizon)
            } else {
                Seq::empty()
            }
        },
    }
}

#[via_fn]
proof fn spec_expand_decreases(prev: SpecEvent, rule: RepeatRule, horizon: DateTime) {
    lemma_advance(rule, prev);
}

/// Every occurrence of the expansion starts strictly before the horizon,
/// is well formed, and preserves the duration of `prev`.
pub proof fn lemma_expand_properties(prev: SpecEvent, rule: RepeatRule, horizon: DateTime)
    requires
        wf_event(prev),
    ensures
        forall|i: int|
            0 <= i < spec_expand(prev, rule, horizon).len() ==> {
                let e = #[trigger] spec_expand(prev, rule, horizon)[i];
                &&& wf_event(e)
                &&& spec_instant(e.start) < spec_instant(horizon)
                &&& spec_instant(e.end) - spec_instant(e.start) == spec_instant(prev.end)
                    - spec_instant(prev.start)
                &&& e.summary == prev.summary
            },
    decreases spec_instant(horizon) - spec_instant(prev.start),
{
    lemma_advance(rule, prev);
    let (rule2, next) = spec_advance(rule, prev);
    if next is Some {
        let e = next->Some_0;
        if spec_instant(e.start) < spec_instant(horizon) {
            lemma_expand_properties(e, rule2, horizon);
            assert(spec_expand(prev, rule, horizon) == seq![e] + spec_expand(e, rule2, horizon));
        }
    }
}

/// Duration preservation: every occurrence of an expansion lasts exactly
/// as long as the occurrence the expansion started from, so the length
/// of an event never drifts across its repetitions.
pub proof fn lemma_expand_preserves_duration(first: SpecEvent, rule: RepeatRule, horizon: DateTime)
    requires
        wf_event(first),
    ensures
        forall|i: int|
            0 <= i < spec_expand(first, rule, horizon).len() ==> spec_instant(
                (#[trigger] spec_expand(first, rule, horizon)[i]).end,
            ) - spec_instant(spec_expand(first, rule, horizon)[i].start) == spec_instant(first.end)
                - spec_instant(first.start),
{
    lemma_expand_properties(first, rule, horizon);
}

/// Steps the expansion once.
pub fn advance(rule: RepeatRule, prev: &Event) -> (r: (RepeatRule, Option<Event>))
    requires
        wf_rule(rule),
        wf_event(prev@),
    ensures
        r.0 == spec_advance(rule, prev@).0,
        r.1.deep_view() == spec_advance(rule, prev@).1,
        match r.1 {
            Some(e) => wf_event(e@) && wf_rule(r.0),
            None => wf_rule(r.0),
        },
{
    let rule2 = match rule.count {
        Some(c) => {
            if c == 0 {
                return (rule, None);
            }
            RepeatRule { count: Some(c - 1), ..rule }
        },
        None => rule,
    };
    let cand = candidate_date(rule, prev.start.date);
    let nd = match cand {
        None => {
            return (rule2, None);
        },
        Some(nd) => nd,
    };
    if day_number(nd) <= day_number(prev.start.date) {
        return (rule2, None);
    }
    let start = DateTime {
        date: nd,
        hour: prev.start.hour,
        minute: prev.start.minute,
        second: prev.start.second,
        offset: prev.start.offset,
    };
    let keep = match rule.until {
        Some(u) => instant_lt(&start, &u),
        None => true,
    };
    if !keep {
        return (rule2, None);
    }
    let dur = instant(&prev.end) - instant(&prev.start);
    match add_seconds(&start, dur) {
        None => (rule2, None),
        Some(end) => {
            let e = Event { summary: prev.summary.clone(), start, end };
            (rule2, Some(e))
        },
    }
}

/// Computes the frequency rule's proposed start date.
fn candidate_date(rule: RepeatRule, prev: Date) -> (r: Option<Date>)
    requires
        wf_rule(rule),
        valid_date(prev),
    ensures
        r == spec_candidate_date(rule, prev),
        match r {
            Some(d) => valid_date(d),
            None => true,
        },
{
    proof {
        lemma_day_number_range(prev);
    }
    match rule.freq {
        Freq::Daily => {
            let k: i64 = match rule.interval {
                Some(i) => i as i64,
                None => 1,
            };
            let r = add_days(prev, k);
            proof {
                if r is Some {
                    lemma_add_days(prev, k as int);
                }
            }
            r
        },
        Freq::Weekly => {
            let k: i64 = match rule.by_day {
                Some((w, _)) => next_weekday_delta(prev, w),
                None => 7,
            };
            let r = add_days(prev, k);
            proof {
                if r is Some {
                    lemma_add_days(prev, k as int);
                }
            }
            r
        },
        Freq::Monthly => {
            let m = match add_days(prev, 32) {
                None => {
                    return None;
                },
                Some(m) => m,
            };
            proof {
                lemma_add_days(prev, 32);
            }
            match rule.by_month_day {
                Some(dsel) => {
                    let dim = days_in_month(m.year, m.month);
                    let dd = if dsel <= dim {
                        dsel
                    } else {
                        dim
                    };
                    Some(Date { year: m.year, month: m.month, day: dd })
                },
                None => match rule.by_day {
                    Some((w, ord)) => {
                        if ord > 0 {
                            let base = Date { year: m.year, month: m.month, day: 1 };
                            let delta = next_weekday_delta(base, w) + 7 * (ord as i64 - 1);
                            let r = add_days(base, delta);
                            proof {
                                if r is Some {
                                    lemma_add_days(base, delta as int);
                                }
                            }
                            r
                        } else if ord < 0 {
                            let base = Date {
                                year: m.year,
                                month: m.month,
                                day: days_in_month(m.year, m.month),
                            };
                            let delta = prev_weekday_delta(base, w) + 7 * (-(ord as i64) - 1);
                            let r = add_days(base, -delta);
                            proof {
                                if r is Some {
                                    lemma_add_days(base, -delta as int);
                                }
                            }
                            r
                        } else {
                            None
                        }
                    },
                    None => {
                        let d = Date { year: m.year, month: m.month, day: prev.day };
                        if d.day <= days_in_month(d.year, d.month) {
                            Some(d)
                        } else {
                            None
                        }
                    },
                },
            }
        },
        Freq::Yearly => {
            let k: i64 = match rule.interval {
                Some(i) => i as i64,
                None => 1,
            };
            let y2: i64 = prev.year as i64 + k;
            if y2 > 9999 {
                return None;
            }
            let d = Date { year: y2 as i32, month: prev.month, day: prev.day };
            if d.day <= days_in_month(d.year, d.month) {
                Some(d)
            } else {
                None
            }
        },
    }
}

/// Expands the occurrences after `first`, in order, stopping before
/// `horizon`.
#[verifier::loop_isolation(true)]
pub fn expand(first: &Event, rule: RepeatRule, horizon: &DateTime) -> (r: Vec<Event>)
    requires
        wf_rule(rule),
        wf_event(first@),
        valid_datetime(*horizon),
    ensures
        r.deep_view() == spec_expand(first@, rule, *horizon),
        forall|i: int| 0 <= i < r.deep_view().len() ==> wf_event(#[trigger] r.deep_view()[i]),
{
    let mut out: Vec<Event> = Vec::new();
    let mut cur = Event {
        summary: first.summary.clone(),
        start: first.start,
        end: first.end,
    };
    let mut rl = rule;
    proof {
        assert(cur@ == first@);
        assert(out.deep_view() =~= Seq::<SpecEvent>::empty());
    }
    loop
        invariant
            wf_rule(rl),
            wf_event(cur@),
            valid_datetime(*horizon),
            out.deep_view() + spec_expand(cur@, rl, *horizon) =~= spec_expand(
                first@,
                rule,
                *horizon,
            ),
            forall|i: int| 0 <= i < out.deep_view().len() ==> wf_event(
                #[trigger] out.deep_view()[i],
            ),
        ensures
            out.deep_view() == spec_expand(first@, rule, *horizon),
        decreases spec_instant(*horizon) - spec_instant(cur@.start),
    {
        proof {
            lemma_advance(rl, cur@);
        }
        let (rl2, next) = advance(rl, &cur);
        match next {
            None => {
                proof {
                    assert(spec_expand(cur@, rl, *horizon) =~= Seq::<SpecEvent>::empty());
                    assert(out.deep_view() + Seq::<SpecEvent>::empty() =~= out.deep_view());
                }
                break;
            },
            Some(e) => {
                if instant_lt(&e.start, horizon) {
                    proof {
                        assert(spec_expand(cur@, rl, *horizon) == seq![e@] + spec_expand(
                            e@,
                            rl2,
                            *horizon,
                        ));
                    }
                    let ghost out0 = out.deep_view();
                    out.push(e);
                    proof {
                        assert(out.deep_view() =~~= out0 + seq![out@[out@.len() - 1]@]);
                        assert(out.deep_view() + spec_expand(
                            out@[out@.len() - 1]@,
                            rl2,
                            *horizon,
                        ) =~= spec_expand(first@, rule, *horizon));
                    }
                    let moved = out.len() - 1;
                    cur = Event {
                        summary: out[moved].summary.clone(),
                        start: out[moved].start,
                        end: out[moved].end,
                    };
                    rl = rl2;
                } else {
                    proof {
                        assert(spec_expand(cur@, rl, *horizon) =~= Seq::<SpecEvent>::empty());
                        assert(out.deep_view() + Seq::<SpecEvent>::empty() =~= out.deep_view());
                    }
                    break;
                }
            },
        }
    }
    out
}

} // verus!
