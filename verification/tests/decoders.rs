use informant::calendar::{CalendarDate, Timestamp};
use informant::workrave::{normalize, DatetimeRange, InputStats, LoadError, WorkraveDay};

fn ts(year: u32, month: u32, day: u32, hour: u32, minute: u32) -> Timestamp {
    Timestamp { date: CalendarDate { year, month, day }, hour, minute }
}

#[test]
fn test_convert_date_line() {
    let line = "D 8 10 122 22 39 8 10 122 22 44";
    let date_range = DatetimeRange {
        start: ts(2022, 11, 8, 22, 39),
        end: ts(2022, 11, 8, 22, 44),
    };

    assert_eq!(WorkraveDay::convert_date_line(&line), Ok(date_range));
}

#[test]
fn test_convert_stats_line() {
    let line = "m 6 338 28584 40231 29 104 33 ";
    let stats = InputStats {
        total_active_time_seconds: 338,
        total_mouse_movement: 667,
        total_mouse_click_movement: 938,
        total_mouse_movement_time: 29,
        total_mouse_clicks: 104,
        total_keystrokes: 33,
    };

    assert_eq!(WorkraveDay::convert_stats_line(&line), Ok(stats));
}

#[test]
fn test_date_line_year_month_conversion() {
    // Year is an offset from 1900 and the month is zero-based in the file.
    let decoded = WorkraveDay::convert_date_line("D 1 0 100 0 0 1 0 100 0 0").unwrap();
    assert_eq!(decoded.start.date.year, 2000);
    assert_eq!(decoded.start.date.month, 1);
    assert_eq!(decoded.start.date.day, 1);
}

#[test]
fn test_date_line_wrong_field_count() {
    assert_eq!(
        WorkraveDay::convert_date_line("D 8 10 122 22 39"),
        Err(LoadError::FieldParseError)
    );
    assert_eq!(
        WorkraveDay::convert_date_line("D 8 10 122 22 39 8 10 122 22 44 7"),
        Err(LoadError::FieldParseError)
    );
}

#[test]
fn test_date_line_non_numeric_field() {
    assert_eq!(
        WorkraveDay::convert_date_line("D 8 10 122 22 xx 8 10 122 22 44"),
        Err(LoadError::FieldParseError)
    );
}

#[test]
fn test_date_line_invalid_calendar_values() {
    // Day 32 of November.
    assert_eq!(
        WorkraveDay::convert_date_line("D 32 10 122 22 39 8 10 122 22 44"),
        Err(LoadError::FieldParseError)
    );
    // Hour 25.
    assert_eq!(
        WorkraveDay::convert_date_line("D 8 10 122 25 39 8 10 122 22 44"),
        Err(LoadError::FieldParseError)
    );
    // Zero-based month 12 would be month 13.
    assert_eq!(
        WorkraveDay::convert_date_line("D 8 12 122 22 39 8 10 122 22 44"),
        Err(LoadError::FieldParseError)
    );
    // February 29 of a non-leap year...
    assert_eq!(
        WorkraveDay::convert_date_line("D 29 1 122 0 0 29 1 122 0 0"),
        Err(LoadError::FieldParseError)
    );
    // ... but of a leap year it is fine.
    let leap = WorkraveDay::convert_date_line("D 29 1 120 0 0 29 1 120 0 0").unwrap();
    assert_eq!(leap.start.date, CalendarDate { year: 2020, month: 2, day: 29 });
}

#[test]
fn test_stats_line_errors() {
    assert_eq!(
        WorkraveDay::convert_stats_line("m 6 338 28584 40231 29 104"),
        Err(LoadError::FieldParseError)
    );
    assert_eq!(
        WorkraveDay::convert_stats_line("m 6 338 28584 40231 29 104 33 9"),
        Err(LoadError::FieldParseError)
    );
    assert_eq!(
        WorkraveDay::convert_stats_line("m 6 338 28y84 40231 29 104 33"),
        Err(LoadError::FieldParseError)
    );
}

#[test]
fn test_normalize_known_values() {
    // 28584 / 4288 = 6.6660..., rounded to 6.67 meters, held as hundredths.
    assert_eq!(normalize(28584), 667);
    // 40231 / 4288 = 9.3822..., rounded to 9.38 meters.
    assert_eq!(normalize(40231), 938);
    assert_eq!(normalize(0), 0);
    assert_eq!(normalize(4288), 100);
    // An exact tie rounds away from zero: 536 / 4288 = 0.125 -> 0.13.
    assert_eq!(normalize(536), 13);
}

#[test]
fn test_normalize_matches_float_rounding() {
    for raw in 0u64..100_000 {
        let r = normalize(raw);
        let expected = (raw as f64 * 100.0 / 4288.0).round() as u64;
        assert_eq!(r, expected, "raw = {}", raw);
        // The scaled result sits within half a hundredth of the exact value.
        let diff = 4288i128 * r as i128 - 100i128 * raw as i128;
        assert!(-2143 <= diff && diff <= 2144, "raw = {}", raw);
    }
}

#[test]
fn test_numeric_token_forms() {
    // A leading plus sign and leading zeros are accepted, as integer
    // parsing ordinarily does.
    let plus = WorkraveDay::convert_date_line("D +8 10 122 22 39 8 10 122 22 44").unwrap();
    assert_eq!(plus.start.date.day, 8);
    let zeros = WorkraveDay::convert_date_line("D 08 010 0122 022 039 8 10 122 22 44").unwrap();
    assert_eq!(zeros.start.date, CalendarDate { year: 2022, month: 11, day: 8 });
    // A bare sign with no digits is not numeric.
    assert_eq!(
        WorkraveDay::convert_date_line("D + 10 122 22 39 8 10 122 22 44"),
        Err(LoadError::FieldParseError)
    );
    // Signed values are not unsigned integers.
    assert_eq!(
        WorkraveDay::convert_date_line("D -8 10 122 22 39 8 10 122 22 44"),
        Err(LoadError::FieldParseError)
    );
    // Double spaces make an empty token, which is not numeric.
    assert_eq!(
        WorkraveDay::convert_date_line("D 8  10 122 22 39 8 10 122 22 44"),
        Err(LoadError::FieldParseError)
    );
}

#[test]
fn test_field_width_bounds() {
    // Date-range fields are 32-bit: one past u32::MAX fails.
    assert_eq!(
        WorkraveDay::convert_date_line("D 8 10 122 22 39 8 10 122 22 4294967296"),
        Err(LoadError::FieldParseError)
    );
    // Stats fields are 64-bit: u64::MAX is accepted, one past it fails.
    let max = WorkraveDay::convert_stats_line("m 6 18446744073709551615 0 0 1 1 1").unwrap();
    assert_eq!(max.total_active_time_seconds, u64::MAX);
    assert_eq!(
        WorkraveDay::convert_stats_line("m 6 18446744073709551616 0 0 1 1 1"),
        Err(LoadError::FieldParseError)
    );
}
