use brazucascan::log::Timestamp;

fn stamp(year: i32, month: u32, day: u32, hour: u32, minute: u32, second: u32) -> Timestamp {
    Timestamp { year, month, day, hour, minute, second }
}

fn by_chrono(t: &Timestamp) -> String {
    chrono::NaiveDate::from_ymd_opt(t.year, t.month, t.day)
        .unwrap()
        .and_hms_opt(t.hour, t.minute, t.second)
        .unwrap()
        .format("%Y%m%d_%H%M%S.log")
        .to_string()
}

#[test]
fn file_name_has_date_and_time_in_two_digit_fields() {
    assert_eq!(stamp(2024, 3, 5, 7, 8, 9).log_file_name(), "20240305_070809.log");
    assert_eq!(stamp(1999, 12, 31, 23, 59, 59).log_file_name(), "19991231_235959.log");
    assert_eq!(stamp(2026, 10, 28, 0, 0, 0).log_file_name(), "20261028_000000.log");
}

#[test]
fn file_name_of_years_beyond_four_digits_has_a_sign() {
    assert_eq!(stamp(987, 1, 2, 3, 4, 5).log_file_name(), "09870102_030405.log");
    assert_eq!(stamp(0, 1, 1, 0, 0, 0).log_file_name(), "00000101_000000.log");
    assert_eq!(stamp(10000, 1, 1, 0, 0, 0).log_file_name(), "+100000101_000000.log");
    assert_eq!(stamp(-1, 1, 1, 0, 0, 0).log_file_name(), "-00010101_000000.log");
    assert_eq!(stamp(-12345, 6, 7, 8, 9, 10).log_file_name(), "-123450607_080910.log");
}

#[test]
fn file_name_is_what_chrono_formats() {
    let moments = [
        stamp(2024, 2, 29, 12, 30, 45),
        stamp(1970, 1, 1, 0, 0, 0),
        stamp(2038, 1, 19, 3, 14, 7),
        stamp(9999, 12, 31, 23, 59, 59),
        stamp(10000, 1, 1, 0, 0, 0),
        stamp(262000, 5, 6, 7, 8, 9),
        stamp(999, 9, 9, 9, 9, 9),
        stamp(5, 10, 11, 12, 13, 14),
        stamp(0, 1, 1, 1, 1, 1),
        stamp(-1, 12, 31, 10, 20, 30),
        stamp(-9999, 3, 4, 5, 6, 7),
        stamp(-262000, 3, 4, 5, 6, 7),
    ];
    for moment in moments {
        assert_eq!(moment.log_file_name(), by_chrono(&moment));
    }
}

#[test]
fn moments_within_calendar_and_clock_are_made() {
    assert_eq!(Timestamp::new(2024, 3, 5, 7, 8, 9), Some(stamp(2024, 3, 5, 7, 8, 9)));
    assert_eq!(Timestamp::new(-5, 1, 1, 0, 0, 0), Some(stamp(-5, 1, 1, 0, 0, 0)));
    assert_eq!(Timestamp::new(i32::MAX, 12, 31, 23, 59, 59), Some(stamp(i32::MAX, 12, 31, 23, 59, 59)));
    assert_eq!(Timestamp::new(i32::MIN, 1, 1, 0, 0, 0), Some(stamp(i32::MIN, 1, 1, 0, 0, 0)));
}

#[test]
fn moments_outside_calendar_or_clock_are_not_made() {
    assert_eq!(Timestamp::new(2024, 0, 5, 7, 8, 9), None);
    assert_eq!(Timestamp::new(2024, 13, 5, 7, 8, 9), None);
    assert_eq!(Timestamp::new(2024, 3, 0, 7, 8, 9), None);
    assert_eq!(Timestamp::new(2024, 3, 32, 7, 8, 9), None);
    assert_eq!(Timestamp::new(2024, 3, 5, 24, 8, 9), None);
    assert_eq!(Timestamp::new(2024, 3, 5, 7, 60, 9), None);
    assert_eq!(Timestamp::new(2024, 3, 5, 7, 8, 60), None);
    assert_eq!(Timestamp::new(2024, u32::MAX, 5, 7, 8, 9), None);
}

#[test]
fn file_name_of_the_lowest_and_highest_year() {
    assert_eq!(stamp(i32::MAX, 1, 2, 3, 4, 5).log_file_name(), "+21474836470102_030405.log");
    assert_eq!(stamp(i32::MIN, 1, 2, 3, 4, 5).log_file_name(), "-21474836480102_030405.log");
}
