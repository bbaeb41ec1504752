#![verifier::loop_isolation(false)]
//! A verified iCal calendar core: property lookup on parsed components,
//! timezone-aware datetime resolution, recurrence-rule parsing, recurrence
//! expansion bounded by a caller-supplied horizon, and assembly of the
//! flattened, start-ordered calendar.
//!
//! The entry point is [`cal::parse_ical`]: its contract pins the result to
//! [`cal::spec_assemble`] over the components the structural parser yields,
//! and states on top of that that the calendar is non-decreasing in start
//! and that no event starts at or past the horizon. What one event's date
//! range covers is [`event::Event::covers`], with the enumeration reading
//! of coverage proved in [`event::lemma_covers_enumerates`]; that expansion
//! never changes an occurrence's length is proved in
//! [`expand::lemma_expand_preserves_duration`].
//!
//! Splitting raw iCal text into components is delegated to an outside
//! parser and is the one trusted step; dates, clocks and offsets are the
//! library's own plain values, with their arithmetic verified against day
//! numbers and absolute instants.

use vstd::prelude::*;

pub mod cal;
pub mod date;
pub mod datetime;
pub mod event;
pub mod expand;
pub mod layout;
pub mod model;
pub mod props;
pub mod resolve;
pub mod rrule;
pub mod sort;
pub mod text;

pub use cal::{assemble, parse_ical, Component, IcalError};
pub use date::{Date, Weekday};
pub use datetime::{DateTime, UtcOffset};
pub use event::{Calendar, Event};
pub use layout::{Mode, Month, TwelveDay};
pub use model::{Model, Model_};

verus! {

} // verus!
