use ical_core::date::{add_days, date_of_day_number, day_number, weekday_of};
use ical_core::layout::{month_grid, remove_earlier_events, twelve_day_grid, week_start};
use ical_core::resolve::{default_zone_table, resolve};
use ical_core::{Date, DateTime, Event, Model, UtcOffset, Weekday};

fn d(y: i32, m: u8, day: u8) -> Date {
    Date::new(y, m, day).unwrap()
}

fn dt(y: i32, mo: u8, day: u8, h: u8, mi: u8, off_h: i8) -> DateTime {
    DateTime::new(y, mo, day, h, mi, 0, UtcOffset::from_hms(off_h, 0, 0).unwrap()).unwrap()
}

#[test]
fn brisbane_is_fixed_offset_all_year() {
    let table = default_zone_table();
    let r = resolve("20240615T100000", Some("Australia/Brisbane"), &table, 36000).unwrap();
    assert_eq!(r, dt(2024, 6, 15, 10, 0, 10));
    let r = resolve("20240115T100000", Some("Australia/Brisbane"), &table, 36000).unwrap();
    assert_eq!(r, dt(2024, 1, 15, 10, 0, 10));
}

#[test]
fn sydney_offset_depends_on_month() {
    let table = default_zone_table();
    // June lies in the April-September window: the shorter, standard offset
    let r = resolve("20240615T100000", Some("Australia/Sydney"), &table, 36000).unwrap();
    assert_eq!(r.offset, 36000);
    // October is outside it: the longer, daylight offset
    let r = resolve("20241015T100000", Some("Australia/Sydney"), &table, 36000).unwrap();
    assert_eq!(r.offset, 39600);
}

#[test]
fn unknown_zone_resolves_to_nothing() {
    let table = default_zone_table();
    assert_eq!(resolve("20240615T100000", Some("Europe/Paris"), &table, 36000), None);
}

#[test]
fn bare_date_parameter_resolves_to_target_midnight() {
    let table = default_zone_table();
    let r = resolve("20240615", Some("DATE"), &table, 36000).unwrap();
    assert_eq!(r, dt(2024, 6, 15, 0, 0, 10));
}

#[test]
fn malformed_values_resolve_to_nothing() {
    let table = default_zone_table();
    assert_eq!(resolve("2024-06-15T10:00:00", None, &table, 36000), None);
    assert_eq!(resolve("20240615T100000", None, &table, 36000), None);
    assert_eq!(resolve("20241315T100000", Some("Australia/Brisbane"), &table, 36000), None);
}

#[test]
fn covers_matches_enumerated_dates() {
    let e = Event {
        summary: "E".to_string(),
        start: dt(2024, 1, 30, 23, 0, 10),
        end: dt(2024, 2, 2, 1, 0, 10),
    };
    // every date of the inclusive range, and no other, is covered
    let mut day = e.start.date;
    let mut covered = Vec::new();
    while day != e.end.date {
        covered.push(day);
        day = add_days(day, 1).unwrap();
    }
    covered.push(e.end.date);
    assert_eq!(covered.len(), 4);
    for c in &covered {
        assert!(e.covers(*c));
    }
    assert!(!e.covers(d(2024, 1, 29)));
    assert!(!e.covers(d(2024, 2, 3)));
}

#[test]
fn day_numbers_round_trip() {
    let dates = [d(1, 1, 1), d(2024, 2, 29), d(2024, 3, 1), d(9999, 12, 31), d(1970, 1, 1)];
    for date in dates {
        let n = day_number(date);
        assert_eq!(date_of_day_number(n), Some(date));
    }
    assert_eq!(day_number(d(1, 1, 1)), 0);
    assert_eq!(date_of_day_number(-1), None);
}

#[test]
fn weekdays_are_correct() {
    // 0001-01-01 was a Monday; 2024-01-13 was a Saturday
    assert_eq!(weekday_of(d(1, 1, 1)), Weekday::Monday);
    assert_eq!(weekday_of(d(2024, 1, 13)), Weekday::Saturday);
    assert_eq!(weekday_of(d(2024, 1, 14)), Weekday::Sunday);
}

#[test]
fn month_grid_is_whole_weeks() {
    let g = month_grid(d(2024, 2, 14)).unwrap();
    assert_eq!(g.len() % 7, 0);
    // February 2024 starts on a Thursday and ends on a Thursday
    assert_eq!(g[0], d(2024, 1, 29));
    assert_eq!(*g.last().unwrap(), d(2024, 3, 3));
    assert_eq!(weekday_of(g[0]), Weekday::Monday);
}

#[test]
fn twelve_day_grid_is_consecutive() {
    let g = twelve_day_grid(d(2024, 12, 28));
    assert_eq!(g.len(), 12);
    assert_eq!(g[0], d(2024, 12, 28));
    assert_eq!(g[11], d(2025, 1, 8));
}

#[test]
fn week_start_is_monday_on_or_before() {
    assert_eq!(week_start(d(2024, 1, 13)).unwrap(), d(2024, 1, 8));
    assert_eq!(week_start(d(2024, 1, 8)).unwrap(), d(2024, 1, 8));
}

#[test]
fn remove_earlier_events_skips_finished_ones() {
    let old = Event {
        summary: "old".to_string(),
        start: dt(2024, 1, 1, 9, 0, 10),
        end: dt(2024, 1, 2, 9, 0, 10),
    };
    let ongoing = Event {
        summary: "ongoing".to_string(),
        start: dt(2024, 1, 4, 9, 0, 10),
        end: dt(2024, 1, 20, 9, 0, 10),
    };
    let evs = vec![old, ongoing];
    assert_eq!(remove_earlier_events(&evs, d(2024, 1, 10)), 1);
    assert_eq!(remove_earlier_events(&evs, d(2024, 1, 1)), 0);
    assert_eq!(remove_earlier_events(&evs, d(2024, 1, 25)), 2);
}

#[test]
fn model_holds_calendars() {
    let mut m = Model::new();
    m.make_mut().cals.insert("home".to_string(), Vec::new());
    assert_eq!(m.0.cals.len(), 1);
}

#[test]
fn invalid_dates_are_rejected() {
    assert_eq!(Date::new(2023, 2, 29), None);
    assert_eq!(Date::new(2024, 2, 29), Some(d(2024, 2, 29)));
    assert_eq!(Date::new(2024, 13, 1), None);
    assert_eq!(Date::new(0, 1, 1), None);
    assert_eq!(DateTime::new(2024, 1, 1, 24, 0, 0, UtcOffset::utc()), None);
    assert_eq!(UtcOffset::from_hms(26, 0, 0), None);
}
