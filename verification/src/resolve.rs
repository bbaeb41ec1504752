//! Resolution of a raw datetime property value, together with its zone or
//! value-type parameter, into an absolute datetime.
//!
//! The zone table is an explicit, caller-supplied mapping from zone
//! identifiers to offset rules; a seasonal rule approximates daylight
//! saving by calendar month, one offset for April through September and
//! another for the rest of the year.

use vstd::prelude::*;

use crate::datetime::{valid_datetime, valid_offset, DateTime};
use crate::text::{
    chars_of, parse_clock, parse_date, parse_offset_datetime, spec_parse_clock, spec_parse_date,
    spec_parse_offset_datetime, str_eq,
};

verus! {

/// How a zone identifier maps to a UTC offset, in seconds.
#[derive(Clone, Copy, Debug, PartialEq, Eq, Structural)]
pub enum ZoneRule {
    /// One offset the whole year.
    Fixed { offset_seconds: i32 },
    /// One offset for the months April through September, another for the
    /// rest of the year.
    Seasonal { apr_sep_seconds: i32, oct_mar_seconds: i32 },
}

/// Whether every offset of `r` is in range.
pub open spec fn wf_zone_rule(r: ZoneRule) -> bool {
    match r {
        ZoneRule::Fixed { offset_seconds } => valid_offset(offset_seconds as int),
        ZoneRule::Seasonal { apr_sep_seconds, oct_mar_seconds } => valid_offset(
            apr_sep_seconds as int,
        ) && valid_offset(oct_mar_seconds as int),
    }
}

/// A named zone and its offset rule.
#[derive(Clone, Debug)]
pub struct ZoneEntry {
    pub name: String,
    pub rule: ZoneRule,
}

/// The mathematical shape of a `ZoneEntry`.
pub struct SpecZoneEntry {
    pub name: Seq<char>,
    pub rule: ZoneRule,
}

impl View for ZoneEntry {
    type V = SpecZoneEntry;

    open spec fn view(&self) -> SpecZoneEntry {
        SpecZoneEntry { name: self.name@, rule: self.rule }
    }
}

impl DeepView for ZoneEntry {
    type V = SpecZoneEntry;

    open spec fn deep_view(&self) -> SpecZoneEntry {
        self.view()
    }
}

/// Whether every rule of the table is in range.
pub open spec fn wf_zone_table(t: Seq<SpecZoneEntry>) -> bool {
    forall|i: int| 0 <= i < t.len() ==> wf_zone_rule(#[trigger] t[i].rule)
}

/// The rule of the first entry named `id`.
pub open spec fn spec_zone_lookup(t: Seq<SpecZoneEntry>, id: Seq<char>) -> Option<ZoneRule>
    decreases t.len(),
{
    if t.len() == 0 {
        None
    } else if t[0].name == id {
        Some(t[0].rule)
    } else {
        spec_zone_lookup(t.drop_first(), id)
    }
}

/// A rule found in a well-formed table is in range.
proof fn lemma_zone_lookup_wf(t: Seq<SpecZoneEntry>, id: Seq<char>)
    requires
        wf_zone_table(t),
    ensures
        match spec_zone_lookup(t, id) {
            Some(zr) => wf_zone_rule(zr),
            None => true,
        },
    decreases t.len(),
{
    if t.len() > 0 && t[0].name != id {
        assert(wf_zone_table(t.drop_first())) by {
            assert(forall|i: int|
                0 <= i < t.len() - 1 ==> t.drop_first()[i] == #[trigger] t[i + 1]);
        }
        lemma_zone_lookup_wf(t.drop_first(), id);
    }
}

/// Looks up the rule of the first entry named `id`.
pub fn zone_lookup(table: &Vec<ZoneEntry>, id: &str) -> (r: Option<ZoneRule>)
    ensures
        r == spec_zone_lookup(table.deep_view(), id@),
{
    let ghost s = table.deep_view();
    proof {
        assert(s.skip(0) =~= s);
    }
    let mut i: usize = 0;
    while i < table.len()
        invariant
            i <= table.len(),
            s.len() == table.len(),
            spec_zone_lookup(s, id@) == spec_zone_lookup(s.skip(i as int), id@),
        decreases table.len() - i,
    {
        proof {
            assert(s.skip(i as int)[0] == s[i as int]);
            assert(s[i as int] == table[i as int].deep_view());
        }
        if str_eq(table[i].name.as_str(), id) {
            return Some(table[i].rule);
        }
        proof {
            assert(s.skip(i as int).drop_first() =~= s.skip(i as int + 1));
        }
        i = i + 1;
    }
    proof {
        assert(s.skip(i as int) =~= Seq::<SpecZoneEntry>::empty());
    }
    None
}

/// The zone table the application ships with: Brisbane at a fixed +10:00,
/// Sydney at +11:00 with +10:00 during April through September.
pub open spec fn spec_default_zone_table() -> Seq<SpecZoneEntry> {
    seq![
        SpecZoneEntry {
            name: "Australia/Brisbane"@,
            rule: ZoneRule::Fixed { offset_seconds: 36000 },
        },
        SpecZoneEntry {
            name: "Australia/Sydney"@,
            rule: ZoneRule::Seasonal { apr_sep_seconds: 36000, oct_mar_seconds: 39600 },
        },
    ]
}

/// Builds the default zone table.
pub fn default_zone_table() -> (r: Vec<ZoneEntry>)
    ensures
        r.deep_view() == spec_default_zone_table(),
        wf_zone_table(r.deep_view()),
{
    let mut t: Vec<ZoneEntry> = Vec::new();
    t.push(
        ZoneEntry {
            name: "Australia/Brisbane".to_owned(),
            rule: ZoneRule::Fixed { offset_seconds: 36000 },
        },
    );
    t.push(
        ZoneEntry {
            name: "Australia/Sydney".to_owned(),
            rule: ZoneRule::Seasonal { apr_sep_seconds: 36000, oct_mar_seconds: 39600 },
        },
    );
    proof {
        assert(t.deep_view() =~~= spec_default_zone_table());
    }
    t
}

/// The datetime a property value denotes under its zone or value-type
/// parameter:
/// - parameter `DATE`: a bare `YYYYMMDD` date, read as midnight in the
///   target offset;
/// - a known zone identifier: a `YYYYMMDDTHHMMSS` clock, read against the
///   zone's offset for the clock's month;
/// - an unknown identifier: resolution fails;
/// - no parameter: a full datetime carrying its own offset designator.
pub open spec fn spec_resolve(
    value: Seq<char>,
    param: Option<Seq<char>>,
    table: Seq<SpecZoneEntry>,
    target: int,
) -> Option<DateTime> {
    match param {
        Some(p) => {
            if p == "DATE"@ {
                match spec_parse_date(value) {
                    Some(d) => Some(
                        DateTime { date: d, hour: 0, minute: 0, second: 0, offset: target as i32 },
                    ),
                    None => None,
                }
            } else {
                match spec_zone_lookup(table, p) {
                    None => None,
                    Some(zr) => match spec_parse_clock(value) {
                        None => None,
                        Some((date, (h, mi, sec))) => {
                            let off = match zr {
                                ZoneRule::Fixed { offset_seconds } => offset_seconds,
                                ZoneRule::Seasonal { apr_sep_seconds, oct_mar_seconds } => if 4
                                    <= date.month <= 9 {
                                    apr_sep_seconds
                                } else {
                                    oct_mar_seconds
                                },
                            };
                            Some(
                                DateTime { date, hour: h, minute: mi, second: sec, offset: off },
                            )
                        },
                    },
                }
            }
        },
        None => spec_parse_offset_datetime(value),
    }
}

/// Resolves a raw property value and parameter to a datetime.
pub fn resolve(value: &str, param: Option<&str>, table: &Vec<ZoneEntry>, target: i32) -> (r:
    Option<DateTime>)
    requires
        valid_offset(target as int),
        wf_zone_table(table.deep_view()),
    ensures
        r == spec_resolve(value@, param.deep_view(), table.deep_view(), target as int),
        match r {
            Some(dt) => valid_datetime(dt),
            None => true,
        },
{
    let cv = chars_of(value);
    match param {
        Some(p) => {
            if str_eq(p, "DATE") {
                proof {
                    assert(cv@.subrange(0, cv@.len() as int) =~= cv@);
                }
                match parse_date(&cv, 0, cv.len()) {
                    Some(d) => Some(
                        DateTime { date: d, hour: 0, minute: 0, second: 0, offset: target },
                    ),
                    None => None,
                }
            } else {
                match zone_lookup(table, p) {
                    None => None,
                    Some(zr) => {
                        proof {
                            assert(cv@.subrange(0, cv@.len() as int) =~= cv@);
                        }
                        match parse_clock(&cv, 0, cv.len()) {
                            None => None,
                            Some((date, hms)) => {
                                let off = match zr {
                                    ZoneRule::Fixed { offset_seconds } => offset_seconds,
                                    ZoneRule::Seasonal { apr_sep_seconds, oct_mar_seconds } => {
                                        if 4 <= date.month && date.month <= 9 {
                                            apr_sep_seconds
                                        } else {
                                            oct_mar_seconds
                                        }
                                    },
                                };
                                proof {
                                    crate::text::lemma_parse_clock_valid(cv@, date, hms);
                                    lemma_zone_lookup_wf(table.deep_view(), p@);
                                    assert(wf_zone_rule(zr));
                                }
                                Some(
                                    DateTime {
                                        date,
                                        hour: hms.0,
                                        minute: hms.1,
                                        second: hms.2,
                                        offset: off,
                                    },
                                )
                            },
                        }
                    },
                }
            }
        },
        None => parse_offset_datetime(&cv),
    }
}

} // verus!
