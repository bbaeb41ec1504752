use ical_core::{parse_ical, DateTime, Event, UtcOffset};

fn dt(y: i32, mo: u8, d: u8, h: u8, mi: u8, off_h: i8) -> DateTime {
    DateTime::new(y, mo, d, h, mi, 0, UtcOffset::from_hms(off_h, 0, 0).unwrap()).unwrap()
}

fn one_event_cal(dtstart: &str, dtend: &str, rrule: &str) -> String {
    format!(
        "BEGIN:VCALENDAR\nBEGIN:VEVENT\nDTSTART;TZID=Australia/Brisbane:{dtstart}\nDTEND;TZID=Australia/Brisbane:{dtend}\nRRULE:{rrule}\nSUMMARY:R\nEND:VEVENT\nEND:VCALENDAR"
    )
}

fn starts(data: &str, horizon: DateTime) -> Vec<DateTime> {
    parse_ical(data, UtcOffset::from_hms(10, 0, 0).unwrap(), horizon)
        .unwrap()
        .iter()
        .map(|e| e.start)
        .collect()
}

fn durations_secs(data: &str, horizon: DateTime) -> Vec<(DateTime, DateTime)> {
    parse_ical(data, UtcOffset::from_hms(10, 0, 0).unwrap(), horizon)
        .unwrap()
        .iter()
        .map(|e| (e.start, e.end))
        .collect()
}

#[test]
fn daily_with_interval() {
    let cal = one_event_cal("20240101T120000", "20240101T130000", "FREQ=DAILY;INTERVAL=3");
    assert_eq!(
        starts(&cal, dt(2024, 1, 11, 0, 0, 10)),
        vec![
            dt(2024, 1, 1, 12, 0, 10),
            dt(2024, 1, 4, 12, 0, 10),
            dt(2024, 1, 7, 12, 0, 10),
            dt(2024, 1, 10, 12, 0, 10),
        ]
    );
}

#[test]
fn count_limits_occurrences() {
    let cal = one_event_cal("20240101T120000", "20240101T130000", "FREQ=DAILY;COUNT=2");
    assert_eq!(
        starts(&cal, dt(2024, 3, 1, 0, 0, 10)),
        vec![dt(2024, 1, 1, 12, 0, 10), dt(2024, 1, 2, 12, 0, 10), dt(2024, 1, 3, 12, 0, 10)]
    );
}

#[test]
fn count_zero_leaves_only_seed() {
    let cal = one_event_cal("20240101T120000", "20240101T130000", "FREQ=DAILY;COUNT=0");
    assert_eq!(starts(&cal, dt(2024, 3, 1, 0, 0, 10)), vec![dt(2024, 1, 1, 12, 0, 10)]);
}

#[test]
fn until_bare_date_is_midnight_utc() {
    // UNTIL=20240104 is midnight UTC, which is 10:00 on the 4th at +10:00;
    // the occurrence at 09:00 on the 4th is still strictly before it
    let cal = one_event_cal("20240101T090000", "20240101T100000", "FREQ=DAILY;UNTIL=20240104");
    assert_eq!(
        starts(&cal, dt(2024, 3, 1, 0, 0, 10)),
        vec![
            dt(2024, 1, 1, 9, 0, 10),
            dt(2024, 1, 2, 9, 0, 10),
            dt(2024, 1, 3, 9, 0, 10),
            dt(2024, 1, 4, 9, 0, 10),
        ]
    );
}

#[test]
fn invalid_rule_value_keeps_single_event() {
    // a malformed COUNT is fatal for the rule, not for the event
    let cal = one_event_cal("20240101T120000", "20240101T130000", "FREQ=DAILY;COUNT=abc");
    assert_eq!(starts(&cal, dt(2024, 3, 1, 0, 0, 10)), vec![dt(2024, 1, 1, 12, 0, 10)]);
}

#[test]
fn interval_zero_keeps_single_event() {
    let cal = one_event_cal("20240101T120000", "20240101T130000", "FREQ=DAILY;INTERVAL=0");
    assert_eq!(starts(&cal, dt(2024, 3, 1, 0, 0, 10)), vec![dt(2024, 1, 1, 12, 0, 10)]);
}

#[test]
fn missing_freq_keeps_single_event() {
    let cal = one_event_cal("20240101T120000", "20240101T130000", "INTERVAL=2;COUNT=5");
    assert_eq!(starts(&cal, dt(2024, 3, 1, 0, 0, 10)), vec![dt(2024, 1, 1, 12, 0, 10)]);
}

#[test]
fn unknown_keys_are_ignored() {
    let cal = one_event_cal("20240101T120000", "20240101T130000", "FREQ=DAILY;WKST=SU;X=1");
    assert_eq!(
        starts(&cal, dt(2024, 1, 3, 12, 30, 10)),
        vec![dt(2024, 1, 1, 12, 0, 10), dt(2024, 1, 2, 12, 0, 10), dt(2024, 1, 3, 12, 0, 10)]
    );
}

#[test]
fn weekly_without_selector_steps_seven_days() {
    let cal = one_event_cal("20240101T120000", "20240101T130000", "FREQ=WEEKLY");
    assert_eq!(
        starts(&cal, dt(2024, 1, 16, 0, 0, 10)),
        vec![dt(2024, 1, 1, 12, 0, 10), dt(2024, 1, 8, 12, 0, 10), dt(2024, 1, 15, 12, 0, 10)]
    );
}

#[test]
fn weekly_ordinal_is_ignored() {
    // the ordinal of a weekly selector plays no part: only the weekday does
    let cal = one_event_cal("20240113T083000", "20240113T093000", "FREQ=WEEKLY;BYDAY=2SA");
    assert_eq!(
        starts(&cal, dt(2024, 1, 28, 0, 0, 10)),
        vec![
            dt(2024, 1, 13, 8, 30, 10),
            dt(2024, 1, 20, 8, 30, 10),
            dt(2024, 1, 27, 8, 30, 10),
        ]
    );
}

#[test]
fn malformed_by_day_leaves_selector_unset() {
    // an unparseable weekday code is not fatal; the weekly rule falls back
    // to a plain seven-day step
    let cal = one_event_cal("20240110T083000", "20240110T093000", "FREQ=WEEKLY;BYDAY=XX");
    assert_eq!(
        starts(&cal, dt(2024, 1, 25, 0, 0, 10)),
        vec![
            dt(2024, 1, 10, 8, 30, 10),
            dt(2024, 1, 17, 8, 30, 10),
            dt(2024, 1, 24, 8, 30, 10),
        ]
    );
}

#[test]
fn monthly_by_month_day_clamps_to_short_months() {
    // day 31 selected: each step first moves 32 days on, then clamps the
    // selected day to the month it lands in
    let cal = one_event_cal(
        "20240115T120000",
        "20240115T130000",
        "FREQ=MONTHLY;BYMONTHDAY=31",
    );
    assert_eq!(
        starts(&cal, dt(2024, 7, 1, 0, 0, 10)),
        vec![
            dt(2024, 1, 15, 12, 0, 10),
            dt(2024, 2, 29, 12, 0, 10),
            dt(2024, 4, 30, 12, 0, 10),
            dt(2024, 6, 30, 12, 0, 10),
        ]
    );
}

#[test]
fn monthly_fallback_from_late_day_skips_short_months() {
    // no selector: the fallback reuses the previous day-of-month after a
    // 32-day step, so a 31st anchor passes over a shorter month
    let cal = one_event_cal("20240131T120000", "20240131T130000", "FREQ=MONTHLY");
    assert_eq!(
        starts(&cal, dt(2024, 5, 1, 0, 0, 10)),
        vec![
            dt(2024, 1, 31, 12, 0, 10),
            dt(2024, 3, 31, 12, 0, 10),
        ]
    );
}

#[test]
fn monthly_first_saturday() {
    // the ordinal weekday count is strict: it starts after the 1st of the
    // landing month
    let cal = one_event_cal("20240106T120000", "20240106T130000", "FREQ=MONTHLY;BYDAY=1SA");
    assert_eq!(
        starts(&cal, dt(2024, 4, 1, 0, 0, 10)),
        vec![
            dt(2024, 1, 6, 12, 0, 10),
            dt(2024, 2, 3, 12, 0, 10),
            dt(2024, 3, 2, 12, 0, 10),
        ]
    );
}

#[test]
fn monthly_last_sunday() {
    let cal = one_event_cal("20240128T120000", "20240128T130000", "FREQ=MONTHLY;BYDAY=-1SU");
    assert_eq!(
        starts(&cal, dt(2024, 4, 1, 0, 0, 10)),
        vec![
            dt(2024, 1, 28, 12, 0, 10),
            dt(2024, 2, 25, 12, 0, 10),
            dt(2024, 3, 24, 12, 0, 10),
        ]
    );
}

#[test]
fn yearly_with_interval() {
    let cal = one_event_cal("20240115T120000", "20240115T130000", "FREQ=YEARLY;INTERVAL=2");
    assert_eq!(
        starts(&cal, dt(2029, 1, 1, 0, 0, 10)),
        vec![
            dt(2024, 1, 15, 12, 0, 10),
            dt(2026, 1, 15, 12, 0, 10),
            dt(2028, 1, 15, 12, 0, 10),
        ]
    );
}

#[test]
fn yearly_from_leap_day_stops() {
    // no 29 February the next year: the expansion ends instead of crashing
    let cal = one_event_cal("20240229T120000", "20240229T130000", "FREQ=YEARLY");
    assert_eq!(starts(&cal, dt(2030, 1, 1, 0, 0, 10)), vec![dt(2024, 2, 29, 12, 0, 10)]);
}

#[test]
fn durations_are_preserved_across_occurrences() {
    let cal = one_event_cal("20240101T233000", "20240102T003000", "FREQ=DAILY");
    let evs = durations_secs(&cal, dt(2024, 1, 4, 0, 0, 10));
    assert_eq!(
        evs,
        vec![
            (dt(2024, 1, 1, 23, 30, 10), dt(2024, 1, 2, 0, 30, 10)),
            (dt(2024, 1, 2, 23, 30, 10), dt(2024, 1, 3, 0, 30, 10)),
            (dt(2024, 1, 3, 23, 30, 10), dt(2024, 1, 4, 0, 30, 10)),
        ]
    );
}

#[test]
fn rule_until_in_other_offset_is_honored() {
    // UNTIL given in UTC cuts off an occurrence expressed at +10:00
    let cal = one_event_cal(
        "20240101T120000",
        "20240101T130000",
        "FREQ=DAILY;UNTIL=20240103T015959Z",
    );
    // 03 Jan 12:00 +10 is 02:00 UTC, at or past the cutoff
    assert_eq!(
        starts(&cal, dt(2024, 3, 1, 0, 0, 10)),
        vec![dt(2024, 1, 1, 12, 0, 10), dt(2024, 1, 2, 12, 0, 10)]
    );
}

fn is_event(e: &Event) -> bool {
    e.summary == "R"
}

#[test]
fn results_are_sorted_and_bounded() {
    let cal = format!(
        "BEGIN:VCALENDAR\nBEGIN:VEVENT\nDTSTART;TZID=Australia/Brisbane:20240110T120000\nDTEND;TZID=Australia/Brisbane:20240110T130000\nRRULE:FREQ=DAILY\nSUMMARY:R\nEND:VEVENT\nBEGIN:VEVENT\nDTSTART;TZID=Australia/Brisbane:20240101T120000\nDTEND;TZID=Australia/Brisbane:20240101T130000\nRRULE:FREQ=DAILY\nSUMMARY:R\nEND:VEVENT\nEND:VCALENDAR"
    );
    let horizon = dt(2024, 1, 20, 0, 0, 10);
    let evs = parse_ical(&cal, UtcOffset::from_hms(10, 0, 0).unwrap(), horizon).unwrap();
    assert!(evs.iter().all(is_event));
    assert!(evs.len() > 2);
    for w in evs.windows(2) {
        assert!(w[0].start.date.day <= w[1].start.date.day);
    }
    for e in &evs {
        assert!(e.start.date.day < 20 && e.start.date.month == 1);
    }
}
