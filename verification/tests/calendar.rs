use clog_journal::calendar::{get_user_creation_date, today_str};

#[test]
fn today_is_day_month_year() {
    assert_eq!(today_str(1704067200, 0), Some("01/01/2024".to_string()));
    assert_eq!(today_str(0, 0), Some("01/01/1970".to_string()));
    assert_eq!(today_str(1431648000, 0), Some("15/05/2015".to_string()));
}

#[test]
fn today_depends_on_the_offset() {
    assert_eq!(today_str(1704067200, 3600), Some("01/01/2024".to_string()));
    assert_eq!(today_str(1704067200, -3600), Some("31/12/2023".to_string()));
    assert_eq!(today_str(1704067199, 1), Some("01/01/2024".to_string()));
}

#[test]
fn today_needs_an_offset_of_less_than_a_day() {
    assert_eq!(today_str(1704067200, 86_400), None);
    assert_eq!(today_str(1704067200, -86_400), None);
    assert_eq!(today_str(1704067200, 86_399), Some("01/01/2024".to_string()));
}

#[test]
fn today_needs_a_time_that_chrono_has() {
    assert_eq!(today_str(i64::MAX, 0), None);
    assert_eq!(today_str(i64::MIN, 0), None);
}

#[test]
fn a_creation_date_has_hours_and_minutes() {
    assert_eq!(get_user_creation_date(Some(1431648000), 0), Some("15/05/2015 00:00".to_string()));
    assert_eq!(
        get_user_creation_date(Some(1704067200 + 8 * 3600 + 15 * 60 + 2), 0),
        Some("01/01/2024 08:15".to_string())
    );
    assert_eq!(
        get_user_creation_date(Some(1704067200), 5 * 3600 + 1800),
        Some("01/01/2024 05:30".to_string())
    );
}

#[test]
fn a_file_without_a_time_has_no_creation_date() {
    assert_eq!(get_user_creation_date(None, 0), None);
    assert_eq!(get_user_creation_date(Some(u64::MAX), 0), None);
    assert_eq!(get_user_creation_date(Some(i64::MAX as u64 + 1), 0), None);
}
