//! The calendar assembler: builds the base event of every parsed
//! component, expands its recurrence up to the caller's horizon, flattens
//! the results and returns them sorted by start.
//!
//! Splitting the raw iCal text into components is the one job delegated
//! to an outside parser; everything after that point is verified.

use vstd::prelude::*;

use crate::datetime::{instant, spec_instant, valid_datetime, valid_offset, DateTime, UtcOffset};
use crate::event::{wf_event, Calendar, Event, SpecEvent};
use crate::expand::{expand, spec_expand};
use crate::props::{find_param, find_prop, prop_value, spec_find_param, spec_find_prop,
    spec_prop_value, Param, Prop, SpecProp};
use crate::resolve::{
    default_zone_table, resolve, spec_default_zone_table, spec_resolve, wf_zone_table,
    SpecZoneEntry, ZoneEntry,
};
use crate::rrule::{parse_rrule, rule_to_offset, spec_parse_rrule, spec_rule_to_offset};
use crate::sort::{lemma_sort_by_start, sort_by_start, spec_sort_by_start, spec_sorted};

verus! {

/// The properties of one event component.
pub type Component = Vec<Prop>;

/// The error of a calendar whose raw text cannot be split into
/// components at all.
#[derive(Debug)]
pub struct IcalError {
    /// What the structural parser reported.
    pub message: String,
}

/// The event components the structural iCal parser yields for a text, in
/// order, flattened across calendar blocks; empty when any block fails to
/// parse. The result depends on the text alone.
pub uninterp spec fn ical_event_components(s: Seq<char>) -> Option<Seq<Seq<SpecProp>>>;

/// Relies on ical::IcalParser: splits iCal text into calendar blocks of
/// event components, each a list of named properties with parameters; one
/// malformed block fails the whole split.
#[verifier::external_body]
fn split_ical(data: &str) -> (r: Result<Vec<Component>, IcalError>)
    ensures
        match r {
            Ok(cs) => ical_event_components(data@) == Some(cs.deep_view()),
            Err(_) => ical_event_components(data@) is None,
        },
{
    let mut out: Vec<Vec<Prop>> = Vec::new();
    for cal in ical::IcalParser::new(data.as_bytes()) {
        let c = cal.map_err(|e| IcalError { message: format!("{e}") })?;
        for ev in c.events {
            out.push(ev.properties.into_iter().map(|p| Prop {
                name: p.name,
                value: p.value,
                params: p.params.unwrap_or_default().into_iter().map(|q| Param { name: q.0, values: q.1 }).collect(),
            }).collect());
        }
    }
    Ok(out)
}

/// The zone or value-type parameter attached to a property: its `TZID`
/// parameter, or failing that its `VALUE` parameter.
pub open spec fn spec_zone_param(p: SpecProp) -> Option<Seq<char>> {
    match spec_find_param(p.params, "TZID"@) {
        Some(x) => Some(x),
        None => spec_find_param(p.params, "VALUE"@),
    }
}

/// The datetime the property named `name` resolves to.
pub open spec fn spec_lookup_datetime(
    props: Seq<SpecProp>,
    name: Seq<char>,
    table: Seq<SpecZoneEntry>,
    target: int,
) -> Option<DateTime> {
    match spec_find_prop(props, name) {
        None => None,
        Some(p) => match p.value {
            None => None,
            Some(v) => spec_resolve(v, spec_zone_param(p), table, target),
        },
    }
}

/// Resolves the datetime property named `name`.
fn lookup_datetime(props: &Vec<Prop>, name: &str, table: &Vec<ZoneEntry>, target: i32) -> (r:
    Option<DateTime>)
    requires
        valid_offset(target as int),
        wf_zone_table(table.deep_view()),
    ensures
        r == spec_lookup_datetime(props.deep_view(), name@, table.deep_view(), target as int),
        match r {
            Some(dt) => valid_datetime(dt),
            None => true,
        },
{
    let p = match find_prop(props, name) {
        Some(p) => p,
        None => {
            return None;
        },
    };
    let v = match &p.value {
        Some(v) => v,
        None => {
            return None;
        },
    };
    let param = match find_param(p, "TZID") {
        Some(x) => Some(x),
        None => find_param(p, "VALUE"),
    };
    match &param {
        Some(x) => resolve(v.as_str(), Some(x.as_str()), table, target),
        None => resolve(v.as_str(), None, table, target),
    }
}

/// The events one component contributes: its base event, freshly
/// re-expressed in the target offset, then the expansion of its
/// recurrence rule, every start strictly before `horizon`. A component
/// with a missing or unresolvable summary, start or end contributes
/// nothing; a rule that fails to parse leaves the base event alone.
pub open spec fn spec_make_event(
    props: Seq<SpecProp>,
    table: Seq<SpecZoneEntry>,
    target: int,
    horizon: DateTime,
) -> Seq<SpecEvent> {
    let rule = match spec_prop_value(props, "RRULE"@) {
        Some(v) => match spec_parse_rrule(v) {
            Some(rl) => spec_rule_to_offset(rl, target),
            None => None,
        },
        None => None,
    };
    match (
        spec_prop_value(props, "SUMMARY"@),
        spec_lookup_datetime(props, "DTSTART"@, table, target),
        spec_lookup_datetime(props, "DTEND"@, table, target),
    ) {
        (Some(summary), Some(start0), Some(end0)) => {
            match (
                crate::datetime::spec_shift_civil(start0, target - start0.offset, target),
                crate::datetime::spec_shift_civil(end0, target - end0.offset, target),
            ) {
                (Some(start), Some(end)) => {
                    let first = SpecEvent { summary, start, end };
                    if spec_instant(first.start) < spec_instant(horizon) {
                        match rule {
                            Some(rl) => seq![first] + spec_expand(first, rl, horizon),
                            None => seq![first],
                        }
                    } else {
                        Seq::empty()
                    }
                },
                _ => Seq::empty(),
            }
        },
        _ => Seq::empty(),
    }
}

/// Builds and expands the events of one component.
fn make_event(props: &Vec<Prop>, table: &Vec<ZoneEntry>, target: i32, horizon: &DateTime) -> (r:
    Vec<Event>)
    requires
        valid_offset(target as int),
        valid_datetime(*horizon),
        wf_zone_table(table.deep_view()),
    ensures
        r.deep_view() == spec_make_event(
            props.deep_view(),
            table.deep_view(),
            target as int,
            *horizon,
        ),
        forall|i: int|
            0 <= i < r.deep_view().len() ==> wf_event(#[trigger] r.deep_view()[i])
                && spec_instant(r.deep_view()[i].start) < spec_instant(*horizon),
{
    let rule = match prop_value(props, "RRULE") {
        Some(v) => match parse_rrule(v.as_str()) {
            Some(rl) => rule_to_offset(rl, target),
            None => None,
        },
        None => None,
    };
    let summary = match prop_value(props, "SUMMARY") {
        Some(s) => s,
        None => {
            return Vec::new();
        },
    };
    let start0 = match lookup_datetime(props, "DTSTART", table, target) {
        Some(dt) => dt,
        None => {
            return Vec::new();
        },
    };
    let end0 = match lookup_datetime(props, "DTEND", table, target) {
        Some(dt) => dt,
        None => {
            return Vec::new();
        },
    };
    let start = match crate::datetime::to_offset(&start0, target) {
        Some(dt) => dt,
        None => {
            return Vec::new();
        },
    };
    let end = match crate::datetime::to_offset(&end0, target) {
        Some(dt) => dt,
        None => {
            return Vec::new();
        },
    };
    let first = Event { summary, start, end };
    if !(instant(&first.start) < instant(horizon)) {
        return Vec::new();
    }
    let ghost firstv = first@;
    let mut out: Vec<Event> = Vec::new();
    let mut rest = match rule {
        Some(rl) => {
            proof {
                crate::expand::lemma_expand_properties(first@, rl, *horizon);
            }
            expand(&first, rl, horizon)
        },
        None => Vec::new(),
    };
    out.push(first);
    let ghost out1 = out.deep_view();
    let ghost restv = rest.deep_view();
    out.append(&mut rest);
    proof {
        assert(out1 =~= seq![firstv]);
        assert(out.deep_view() =~~= out1 + restv);
        assert forall|i: int| 0 <= i < out.deep_view().len() implies wf_event(
            #[trigger] out.deep_view()[i],
        ) && spec_instant(out.deep_view()[i].start) < spec_instant(*horizon) by {
            if i > 0 {
                assert(out.deep_view()[i] == restv[i - 1]);
            }
        }
    }
    out
}

/// The flattened events of all components.
pub open spec fn spec_all_events(
    comps: Seq<Seq<SpecProp>>,
    table: Seq<SpecZoneEntry>,
    target: int,
    horizon: DateTime,
) -> Seq<SpecEvent>
    decreases comps.len(),
{
    if comps.len() == 0 {
        Seq::empty()
    } else {
        spec_make_event(comps[0], table, target, horizon) + spec_all_events(
            comps.drop_first(),
            table,
            target,
            horizon,
        )
    }
}

/// The calendar all components assemble into: every component's events,
/// sorted by start, stably.
pub open spec fn spec_assemble(
    comps: Seq<Seq<SpecProp>>,
    table: Seq<SpecZoneEntry>,
    target: int,
    horizon: DateTime,
) -> Seq<SpecEvent> {
    spec_sort_by_start(spec_all_events(comps, table, target, horizon))
}

/// Assembles the calendar of a list of parsed components: builds and
/// expands every component's events, drops none that resolve, and
/// returns them sorted ascending by start, every start strictly before
/// `horizon`.
#[verifier::rlimit(60)]
pub fn assemble(
    components: &Vec<Component>,
    table: &Vec<ZoneEntry>,
    target: UtcOffset,
    horizon: DateTime,
) -> (r: Calendar)
    requires
        valid_offset(target.seconds as int),
        valid_datetime(horizon),
        wf_zone_table(table.deep_view()),
    ensures
        r.deep_view() == spec_assemble(
            components.deep_view(),
            table.deep_view(),
            target.seconds as int,
            horizon,
        ),
        spec_sorted(r.deep_view()),
        forall|i: int|
            0 <= i < r.deep_view().len() ==> spec_instant(
                #[trigger] r.deep_view()[i].start,
            ) < spec_instant(horizon),
{
    let ghost cs = components.deep_view();
    let mut out: Vec<Event> = Vec::new();
    proof {
        assert(cs.skip(0) =~= cs);
        assert(out.deep_view() + spec_all_events(cs, table.deep_view(), target.seconds as int, horizon)
            =~= spec_all_events(cs, table.deep_view(), target.seconds as int, horizon));
    }
    let mut i: usize = 0;
    while i < components.len()
        invariant
            i <= components.len(),
            cs.len() == components.len(),
            valid_offset(target.seconds as int),
            valid_datetime(horizon),
            wf_zone_table(table.deep_view()),
            out.deep_view() + spec_all_events(
                cs.skip(i as int),
                table.deep_view(),
                target.seconds as int,
                horizon,
            ) =~= spec_all_events(cs, table.deep_view(), target.seconds as int, horizon),
            forall|k: int|
                0 <= k < out.deep_view().len() ==> wf_event(#[trigger] out.deep_view()[k])
                    && spec_instant(out.deep_view()[k].start) < spec_instant(horizon),
        decreases components.len() - i,
    {
        proof {
            assert(cs.skip(i as int)[0] == cs[i as int]);
            assert(cs[i as int] == components[i as int].deep_view());
            assert(cs.skip(i as int).drop_first() =~= cs.skip(i as int + 1));
        }
        let mut m = make_event(&components[i], table, target.seconds, &horizon);
        let ghost out0 = out.deep_view();
        let ghost mv = m.deep_view();
        out.append(&mut m);
        proof {
            assert(out.deep_view() =~~= out0 + mv);
            assert((out0 + mv) + spec_all_events(
                cs.skip(i as int + 1),
                table.deep_view(),
                target.seconds as int,
                horizon,
            ) =~= out0 + (mv + spec_all_events(
                cs.skip(i as int + 1),
                table.deep_view(),
                target.seconds as int,
                horizon,
            )));
        }
        i = i + 1;
    }
    proof {
        assert(cs.skip(i as int) =~= Seq::<Seq<SpecProp>>::empty());
        assert(out.deep_view() + Seq::<SpecEvent>::empty() =~= out.deep_view());
    }
    let r = sort_by_start(&out);
    proof {
        lemma_sort_by_start(out.deep_view());
        assert forall|k: int| 0 <= k < r.deep_view().len() implies spec_instant(
            #[trigger] r.deep_view()[k].start,
        ) < spec_instant(horizon) by {
            assert(r.deep_view().contains(r.deep_view()[k]));
            assert(out.deep_view().contains(r.deep_view()[k]));
            let m = choose|m: int|
                0 <= m < out.deep_view().len() && out.deep_view()[m] == r.deep_view()[k];
        }
    }
    r
}

/// Parses iCal text into the calendar of all its events, expanded up to
/// `limit` and sorted ascending by start; fails only when the structural
/// parse of the text itself fails.
pub fn parse_ical(data: &str, offset: UtcOffset, limit: DateTime) -> (r: Result<
    Calendar,
    IcalError,
>)
    requires
        valid_offset(offset.seconds as int),
        valid_datetime(limit),
    ensures
        match ical_event_components(data@) {
            Some(cs) => match r {
                Ok(c) => c.deep_view() == spec_assemble(
                    cs,
                    spec_default_zone_table(),
                    offset.seconds as int,
                    limit,
                ),
                Err(_) => false,
            },
            None => r is Err,
        },
        match r {
            Ok(c) => spec_sorted(c.deep_view()) && forall|i: int|
                0 <= i < c.deep_view().len() ==> spec_instant(
                    #[trigger] c.deep_view()[i].start,
                ) < spec_instant(limit),
            Err(_) => true,
        },
{
    let table = default_zone_table();
    match split_ical(data) {
        Err(e) => Err(e),
        Ok(cs) => Ok(assemble(&cs, &table, offset, limit)),
    }
}

} // verus!
