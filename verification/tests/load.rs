use informant::calendar::CalendarDate;
use informant::workrave::{LoadError, WorkraveHistory};

fn file(lines: &[&str]) -> Vec<String> {
    lines.iter().map(|s| s.to_string()).collect()
}

#[test]
fn test_scenario_single_day() {
    let lines = file(&[
        "WorkRaveStats 4",
        "D 8 10 122 22 39 8 10 122 22 44",
        "m 6 338 28584 40231 29 104 33",
    ]);
    let history = WorkraveHistory::load_historystats(&lines).unwrap().unwrap();
    assert_eq!(history.day_count(), 1);

    let day = history
        .get_day(&CalendarDate { year: 2022, month: 11, day: 8 })
        .expect("the day should be keyed at 2022-11-08");
    assert_eq!(day.stats.total_active_time_seconds, 338);
    assert_eq!(day.stats.total_mouse_movement, 667);
    assert_eq!(day.stats.total_mouse_click_movement, 938);
    assert_eq!(day.stats.total_mouse_movement_time, 29);
    assert_eq!(day.stats.total_mouse_clicks, 104);
    assert_eq!(day.stats.total_keystrokes, 33);
    assert_eq!(day.datetime_range.start.hour, 22);
    assert_eq!(day.datetime_range.start.minute, 39);
    assert_eq!(day.datetime_range.end.minute, 44);
}

#[test]
fn test_wrong_version_header_is_no_data() {
    assert!(WorkraveHistory::is_file_valid("WorkRaveStats 4"));
    assert!(!WorkraveHistory::is_file_valid("WorkRaveStats 3"));
    assert!(!WorkraveHistory::is_file_valid(""));
    assert!(!WorkraveHistory::is_file_valid("WorkRaveStats 4 "));

    // A wrong version yields "no data", not an error, and no field of the
    // malformed stats line below is ever parsed.
    let lines = file(&[
        "WorkRaveStats 3",
        "D 8 10 122 22 39 8 10 122 22 44",
        "m not even numbers",
    ]);
    assert_eq!(WorkraveHistory::load_historystats(&lines).map(|o| o.is_none()), Ok(true));

    let empty: Vec<String> = Vec::new();
    assert_eq!(WorkraveHistory::load_historystats(&empty).map(|o| o.is_none()), Ok(true));
}

#[test]
fn test_structural_error_on_count_mismatch() {
    // Two D lines, one m line.
    let lines = file(&[
        "WorkRaveStats 4",
        "D 8 10 122 22 39 8 10 122 22 44",
        "m 6 338 28584 40231 29 104 33",
        "D 9 10 122 7 0 9 10 122 8 0",
    ]);
    assert!(matches!(
        WorkraveHistory::load_historystats(&lines),
        Err(LoadError::StructuralError)
    ));
}

#[test]
fn test_field_parse_error_aborts_load() {
    let lines = file(&[
        "WorkRaveStats 4",
        "D 8 10 122 22 39 8 10 122 22 44",
        "m 6 338 28584 40231 29 104 oops",
    ]);
    assert!(matches!(
        WorkraveHistory::load_historystats(&lines),
        Err(LoadError::FieldParseError)
    ));
}

#[test]
fn test_round_trip_entry_count() {
    // Three paired D/m lines with distinct dates: three entries.
    let lines = file(&[
        "WorkRaveStats 4",
        "D 8 10 122 22 39 8 10 122 22 44",
        "m 6 1 0 0 1 1 1",
        "D 9 10 122 7 0 9 10 122 8 0",
        "m 6 2 0 0 2 2 2",
        "D 10 10 122 7 0 10 10 122 8 0",
        "m 6 3 0 0 3 3 3",
    ]);
    let history = WorkraveHistory::load_historystats(&lines).unwrap().unwrap();
    assert_eq!(history.day_count(), 3);
}

#[test]
fn test_duplicate_date_last_pair_wins() {
    // Two pairs share the calendar date 2022-11-08: the later pair's day
    // survives, and the entry count drops by one.
    let lines = file(&[
        "WorkRaveStats 4",
        "D 8 10 122 9 0 8 10 122 10 0",
        "m 6 111 0 0 1 1 1",
        "D 8 10 122 20 0 8 10 122 21 0",
        "m 6 222 0 0 2 2 2",
    ]);
    let history = WorkraveHistory::load_historystats(&lines).unwrap().unwrap();
    assert_eq!(history.day_count(), 1);

    let day = history.get_day(&CalendarDate { year: 2022, month: 11, day: 8 }).unwrap();
    assert_eq!(day.stats.total_active_time_seconds, 222);
    assert_eq!(day.datetime_range.start.hour, 20);
}

#[test]
fn test_break_and_unknown_lines_ignored() {
    // B lines and unrecognized lines may stand between a D line and its m
    // line without disturbing the positional pairing.
    let lines = file(&[
        "WorkRaveStats 4",
        "D 8 10 122 22 39 8 10 122 22 44",
        "B 3 13",
        "some unknown line",
        "m 6 338 28584 40231 29 104 33",
        "",
        "D 9 10 122 7 0 9 10 122 8 0",
        "B 1 2",
        "m 6 500 0 0 5 5 5",
    ]);
    let history = WorkraveHistory::load_historystats(&lines).unwrap().unwrap();
    assert_eq!(history.day_count(), 2);
    let nine = history.get_day(&CalendarDate { year: 2022, month: 11, day: 9 }).unwrap();
    assert_eq!(nine.stats.total_active_time_seconds, 500);
}

#[test]
fn test_lines_are_trimmed_before_classification() {
    let lines = file(&[
        "WorkRaveStats 4",
        "  D 8 10 122 22 39 8 10 122 22 44\r",
        "\tm 6 338 28584 40231 29 104 33  ",
    ]);
    let history = WorkraveHistory::load_historystats(&lines).unwrap().unwrap();
    assert_eq!(history.day_count(), 1);
}
