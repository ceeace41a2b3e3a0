use informant::calendar::{date_from_ordinal, days_from_ce, CalendarDate};
use informant::series::{get_sorted_dates, project_series, Metric};
use informant::workrave::WorkraveHistory;

fn file(lines: &[&str]) -> Vec<String> {
    lines.iter().map(|s| s.to_string()).collect()
}

fn load(lines: &[&str]) -> WorkraveHistory {
    WorkraveHistory::load_historystats(&file(lines)).unwrap().unwrap()
}

#[test]
fn test_merge_overwrites_shared_dates() {
    let mut a = load(&[
        "WorkRaveStats 4",
        "D 8 10 122 9 0 8 10 122 10 0",
        "m 6 100 0 0 1 1 1",
        "D 9 10 122 9 0 9 10 122 10 0",
        "m 6 200 0 0 2 2 2",
    ]);
    let b = load(&[
        "WorkRaveStats 4",
        "D 9 10 122 20 0 9 10 122 21 0",
        "m 6 999 0 0 9 9 9",
        "D 10 10 122 9 0 10 10 122 10 0",
        "m 6 300 0 0 3 3 3",
    ]);
    a.add_todaystats(b);

    assert_eq!(a.day_count(), 3);
    // On the shared date 2022-11-09 the incoming day replaced the stored one.
    let nine = a.get_day(&CalendarDate { year: 2022, month: 11, day: 9 }).unwrap();
    assert_eq!(nine.stats.total_active_time_seconds, 999);
    assert_eq!(nine.datetime_range.start.hour, 20);
    // Dates only one side holds are untouched.
    let eight = a.get_day(&CalendarDate { year: 2022, month: 11, day: 8 }).unwrap();
    assert_eq!(eight.stats.total_active_time_seconds, 100);
    let ten = a.get_day(&CalendarDate { year: 2022, month: 11, day: 10 }).unwrap();
    assert_eq!(ten.stats.total_active_time_seconds, 300);
}

#[test]
fn test_series_sorted_one_point_per_entry() {
    // The file lists the days out of calendar order.
    let history = load(&[
        "WorkRaveStats 4",
        "D 9 10 122 9 0 9 10 122 10 0",
        "m 6 200 0 0 2 2 22",
        "D 8 10 122 9 0 8 10 122 10 0",
        "m 6 100 0 0 1 1 11",
        "D 10 10 122 9 0 10 10 122 10 0",
        "m 6 300 0 0 3 3 33",
    ]);
    let series = project_series(&history, Metric::Keystrokes);

    // Exactly one pair per store entry, no gap filling.
    assert_eq!(series.len(), history.day_count());
    assert_eq!(series.len(), 3);
    // Ascending by ordinal, consecutive calendar days one apart.
    assert!(series[0].ordinal < series[1].ordinal);
    assert!(series[1].ordinal < series[2].ordinal);
    assert_eq!(series[0].ordinal + 1, series[1].ordinal);
    assert_eq!(series[1].ordinal + 1, series[2].ordinal);
    // The values follow the dates, not the file order.
    assert_eq!(series[0].value, 11);
    assert_eq!(series[1].value, 22);
    assert_eq!(series[2].value, 33);
    // The ordinal axis inverts back to the calendar dates for labelling.
    assert_eq!(
        date_from_ordinal(series[0].ordinal),
        Some(CalendarDate { year: 2022, month: 11, day: 8 })
    );
    assert_eq!(
        date_from_ordinal(series[2].ordinal),
        Some(CalendarDate { year: 2022, month: 11, day: 10 })
    );
}

#[test]
fn test_series_metric_selection() {
    let history = load(&[
        "WorkRaveStats 4",
        "D 8 10 122 22 39 8 10 122 22 44",
        "m 6 338 28584 40231 29 104 33",
    ]);
    assert_eq!(project_series(&history, Metric::ActiveTime)[0].value, 338);
    assert_eq!(project_series(&history, Metric::MouseMovement)[0].value, 667);
    assert_eq!(project_series(&history, Metric::MouseClickMovement)[0].value, 938);
    assert_eq!(project_series(&history, Metric::MouseMovementTime)[0].value, 29);
    assert_eq!(project_series(&history, Metric::MouseClicks)[0].value, 104);
    assert_eq!(project_series(&history, Metric::Keystrokes)[0].value, 33);
}

#[test]
fn test_sorted_dates_ascending() {
    let history = load(&[
        "WorkRaveStats 4",
        "D 1 0 123 9 0 1 0 123 10 0",
        "m 6 1 0 0 1 1 1",
        "D 31 11 122 9 0 31 11 122 10 0",
        "m 6 2 0 0 2 2 2",
    ]);
    let dates = get_sorted_dates(&history);
    assert_eq!(dates.len(), 2);
    assert_eq!(dates[0], CalendarDate { year: 2022, month: 12, day: 31 });
    assert_eq!(dates[1], CalendarDate { year: 2023, month: 1, day: 1 });
}

#[test]
fn test_day_ordinal_round_trip() {
    // Day 1 is January 1 of year 1.
    assert_eq!(days_from_ce(&CalendarDate { year: 1, month: 1, day: 1 }), 1);
    // A known ordinal on the proleptic Gregorian axis.
    let date = CalendarDate { year: 2022, month: 11, day: 8 };
    assert_eq!(days_from_ce(&date), 738467);
    assert_eq!(date_from_ordinal(738467), Some(date));
    // Leap-day arithmetic: 2020-02-28 to 2020-03-01 spans two days.
    let feb = days_from_ce(&CalendarDate { year: 2020, month: 2, day: 28 });
    let mar = days_from_ce(&CalendarDate { year: 2020, month: 3, day: 1 });
    assert_eq!(mar - feb, 2);
    // Out-of-range ordinals do not invert.
    assert_eq!(date_from_ordinal(0), None);

    // Consecutive calendar days map to consecutive ordinals across a year
    // boundary.
    let dec31 = days_from_ce(&CalendarDate { year: 2022, month: 12, day: 31 });
    let jan1 = days_from_ce(&CalendarDate { year: 2023, month: 1, day: 1 });
    assert_eq!(jan1, dec31 + 1);
    assert_eq!(date_from_ordinal(jan1), Some(CalendarDate { year: 2023, month: 1, day: 1 }));
}

#[test]
fn test_merge_empty_store_changes_nothing() {
    let mut a = load(&[
        "WorkRaveStats 4",
        "D 8 10 122 9 0 8 10 122 10 0",
        "m 6 100 0 0 1 1 1",
    ]);
    let b = WorkraveHistory::new();
    a.add_todaystats(b);
    assert_eq!(a.day_count(), 1);
    assert!(a.get_day(&CalendarDate { year: 2022, month: 11, day: 8 }).is_some());
    assert!(a.get_day(&CalendarDate { year: 2022, month: 11, day: 9 }).is_none());
}
