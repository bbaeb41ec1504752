use ical_core::{parse_ical, DateTime, Event, UtcOffset};

fn dt(y: i32, mo: u8, d: u8, h: u8, mi: u8, off_h: i8) -> DateTime {
    DateTime::new(y, mo, d, h, mi, 0, UtcOffset::from_hms(off_h, 0, 0).unwrap()).unwrap()
}

fn ev(summary: &str, start: DateTime, end: DateTime) -> Event {
    Event { summary: summary.to_string(), start, end }
}

#[test]
fn event_repetition() {
    let cal = "BEGIN:VCALENDAR
BEGIN:VEVENT
DTSTART;TZID=Australia/Brisbane:20240113T083000
DTEND;TZID=Australia/Brisbane:20240113T093000
RRULE:FREQ=WEEKLY;WKST=SU;UNTIL=20240119T135959Z;BYDAY=SA
SUMMARY:Test
END:VEVENT
BEGIN:VEVENT
DTSTART;TZID=Australia/Brisbane:20240120T083000
DTEND;TZID=Australia/Brisbane:20240120T093000
RRULE:FREQ=WEEKLY;WKST=SU;BYDAY=SA
SUMMARY:Test2
END:VEVENT
END:VCALENDAR";

    let cal = parse_ical(cal, UtcOffset::from_hms(10, 0, 0).unwrap(), dt(2024, 2, 10, 0, 0, 10))
        .unwrap();

    assert_eq!(
        cal,
        vec![
            ev("Test", dt(2024, 1, 13, 8, 30, 10), dt(2024, 1, 13, 9, 30, 10)),
            ev("Test2", dt(2024, 1, 20, 8, 30, 10), dt(2024, 1, 20, 9, 30, 10)),
            ev("Test2", dt(2024, 1, 27, 8, 30, 10), dt(2024, 1, 27, 9, 30, 10)),
            ev("Test2", dt(2024, 2, 3, 8, 30, 10), dt(2024, 2, 3, 9, 30, 10)),
        ]
    );
}

#[test]
fn truncated_input_is_a_structural_error() {
    let r = parse_ical(
        "BEGIN:VCALENDAR\nBEGIN:VEVENT\n",
        UtcOffset::utc(),
        dt(2024, 2, 10, 0, 0, 0),
    );
    assert!(r.is_err());
}

#[test]
fn empty_input_gives_empty_calendar() {
    let cal = parse_ical("", UtcOffset::utc(), dt(2024, 2, 10, 0, 0, 0)).unwrap();
    assert_eq!(cal, vec![]);
}

#[test]
fn missing_summary_drops_event() {
    let cal = "BEGIN:VCALENDAR
BEGIN:VEVENT
DTSTART;TZID=Australia/Brisbane:20240113T083000
DTEND;TZID=Australia/Brisbane:20240113T093000
END:VEVENT
END:VCALENDAR";
    let cal = parse_ical(cal, UtcOffset::from_hms(10, 0, 0).unwrap(), dt(2024, 2, 10, 0, 0, 10))
        .unwrap();
    assert_eq!(cal, vec![]);
}

#[test]
fn unknown_zone_drops_event() {
    // the event with an unhandled TZID is absent, not present with a wrong
    // offset; the well-formed one stays
    let cal = "BEGIN:VCALENDAR
BEGIN:VEVENT
DTSTART;TZID=Europe/Paris:20240113T083000
DTEND;TZID=Europe/Paris:20240113T093000
SUMMARY:Dropped
END:VEVENT
BEGIN:VEVENT
DTSTART;TZID=Australia/Brisbane:20240114T083000
DTEND;TZID=Australia/Brisbane:20240114T093000
SUMMARY:Kept
END:VEVENT
END:VCALENDAR";
    let cal = parse_ical(cal, UtcOffset::from_hms(10, 0, 0).unwrap(), dt(2024, 2, 10, 0, 0, 10))
        .unwrap();
    assert_eq!(cal, vec![ev("Kept", dt(2024, 1, 14, 8, 30, 10), dt(2024, 1, 14, 9, 30, 10))]);
}

#[test]
fn bare_date_value_resolves_to_midnight_target() {
    let cal = "BEGIN:VCALENDAR
BEGIN:VEVENT
DTSTART;VALUE=DATE:20240115
DTEND;VALUE=DATE:20240116
SUMMARY:AllDay
END:VEVENT
END:VCALENDAR";
    let cal = parse_ical(cal, UtcOffset::from_hms(10, 0, 0).unwrap(), dt(2024, 2, 10, 0, 0, 10))
        .unwrap();
    assert_eq!(cal, vec![ev("AllDay", dt(2024, 1, 15, 0, 0, 10), dt(2024, 1, 16, 0, 0, 10))]);
}

#[test]
fn explicit_offset_value_is_converted_to_target() {
    // 2024-01-15T00:30:00Z is 10:30 at +10:00
    let cal = "BEGIN:VCALENDAR
BEGIN:VEVENT
DTSTART:20240115T003000Z
DTEND:20240115T013000Z
SUMMARY:Utc
END:VEVENT
END:VCALENDAR";
    let cal = parse_ical(cal, UtcOffset::from_hms(10, 0, 0).unwrap(), dt(2024, 2, 10, 0, 0, 10))
        .unwrap();
    assert_eq!(cal, vec![ev("Utc", dt(2024, 1, 15, 10, 30, 10), dt(2024, 1, 15, 11, 30, 10))]);
}

#[test]
fn sort_is_stable_for_equal_starts() {
    let cal = "BEGIN:VCALENDAR
BEGIN:VEVENT
DTSTART;TZID=Australia/Brisbane:20240113T083000
DTEND;TZID=Australia/Brisbane:20240113T093000
SUMMARY:First
END:VEVENT
BEGIN:VEVENT
DTSTART;TZID=Australia/Brisbane:20240113T083000
DTEND;TZID=Australia/Brisbane:20240113T093000
SUMMARY:Second
END:VEVENT
END:VCALENDAR";
    let cal = parse_ical(cal, UtcOffset::from_hms(10, 0, 0).unwrap(), dt(2024, 2, 10, 0, 0, 10))
        .unwrap();
    let names: Vec<&str> = cal.iter().map(|e| e.summary.as_str()).collect();
    assert_eq!(names, vec!["First", "Second"]);
}

#[test]
fn events_merge_across_calendar_blocks() {
    let cal = "BEGIN:VCALENDAR
BEGIN:VEVENT
DTSTART;TZID=Australia/Brisbane:20240120T083000
DTEND;TZID=Australia/Brisbane:20240120T093000
SUMMARY:B
END:VEVENT
END:VCALENDAR
BEGIN:VCALENDAR
BEGIN:VEVENT
DTSTART;TZID=Australia/Brisbane:20240113T083000
DTEND;TZID=Australia/Brisbane:20240113T093000
SUMMARY:A
END:VEVENT
END:VCALENDAR";
    let cal = parse_ical(cal, UtcOffset::from_hms(10, 0, 0).unwrap(), dt(2024, 2, 10, 0, 0, 10))
        .unwrap();
    assert_eq!(
        cal,
        vec![
            ev("A", dt(2024, 1, 13, 8, 30, 10), dt(2024, 1, 13, 9, 30, 10)),
            ev("B", dt(2024, 1, 20, 8, 30, 10), dt(2024, 1, 20, 9, 30, 10)),
        ]
    );
}

#[test]
fn horizon_excludes_later_events() {
    let cal = "BEGIN:VCALENDAR
BEGIN:VEVENT
DTSTART;TZID=Australia/Brisbane:20240113T083000
DTEND;TZID=Australia/Brisbane:20240113T093000
SUMMARY:Late
END:VEVENT
END:VCALENDAR";
    let cal = parse_ical(cal, UtcOffset::from_hms(10, 0, 0).unwrap(), dt(2024, 1, 13, 8, 30, 10))
        .unwrap();
    // the horizon is exclusive: a start equal to it is out
    assert_eq!(cal, vec![]);
}
