//! Calendar events: a summary and an absolute start and end, with the
//! date-coverage query the renderer relies on.

use vstd::prelude::*;

use crate::date::{
    date_le, lemma_add_days, lemma_date_of_day_number, lemma_day_number_injective,
    lemma_day_number_mono, lemma_day_number_range, spec_add_days, spec_date_le, spec_day_number,
    valid_date, Date,
};
use crate::datetime::{valid_datetime, DateTime};

verus! {

/// One occurrence of a named activity.
#[derive(Clone, Debug, PartialEq)]
pub struct Event {
    pub summary: String,
    pub start: DateTime,
    pub end: DateTime,
}

/// The mathematical shape of an `Event`.
pub struct SpecEvent {
    pub summary: Seq<char>,
    pub start: DateTime,
    pub end: DateTime,
}

impl View for Event {
    type V = SpecEvent;

    open spec fn view(&self) -> SpecEvent {
        SpecEvent { summary: self.summary@, start: self.start, end: self.end }
    }
}

impl DeepView for Event {
    type V = SpecEvent;

    open spec fn deep_view(&self) -> SpecEvent {
        self.view()
    }
}

/// An event whose timestamps are in range.
pub open spec fn wf_event(e: SpecEvent) -> bool {
    valid_datetime(e.start) && valid_datetime(e.end)
}

/// Whether `d` lies on or between the calendar dates of the event's start
/// and end, inclusive on both ends and ignoring time of day.
pub open spec fn spec_covers(e: SpecEvent, d: Date) -> bool {
    spec_date_le(e.start.date, d) && spec_date_le(d, e.end.date)
}

impl Event {
    /// Whether the event's date range covers `date`.
    pub fn covers(&self, date: Date) -> (r: bool)
        ensures
            r == spec_covers(self@, date),
    {
        date_le(self.start.date, date) && date_le(date, self.end.date)
    }
}

/// An ordered sequence of events, sorted ascending by start.
pub type Calendar = Vec<Event>;

/// Coverage enumerates exactly the dates reached from the start date by
/// stepping forward day by day without passing the end date.
pub proof fn lemma_covers_enumerates(e: SpecEvent, d: Date)
    requires
        wf_event(e),
        valid_date(d),
    ensures
        spec_covers(e, d) <==> exists|k: int|
            0 <= k && #[trigger] spec_add_days(e.start.date, k) == Some(d) && spec_date_le(
                d,
                e.end.date,
            ),
{
    let s = e.start.date;
    if spec_covers(e, d) {
        lemma_day_number_mono(s, d);
        let k = spec_day_number(d) - spec_day_number(s);
        lemma_day_number_range(d);
        lemma_day_number_range(s);
        lemma_date_of_day_number(spec_day_number(d));
        lemma_day_number_injective(spec_date_of_day_number_of(d), d);
        assert(spec_add_days(s, k) == Some(d));
    }
    if exists|k: int|
        0 <= k && #[trigger] spec_add_days(s, k) == Some(d) && spec_date_le(d, e.end.date) {
        let k = choose|k: int|
            0 <= k && #[trigger] spec_add_days(s, k) == Some(d) && spec_date_le(d, e.end.date);
        lemma_add_days(s, k);
        if !spec_date_le(s, d) {
            assert(spec_date_le(d, s) && d != s);
            lemma_day_number_mono(d, s);
        }
    }
}

/// The canonical date with `d`'s day number.
spec fn spec_date_of_day_number_of(d: Date) -> Date {
    crate::date::spec_date_of_day_number(spec_day_number(d))
}

} // verus!
