use chrono::NaiveDateTime;
use repowatch::dates::{normalize_window, parse_from_date_and_to_date, DateError};

#[test]
fn parse_date_should_work() {
    let (from, to) = ("2022-11-24", "2022-11-25");

    let _from = NaiveDateTime::parse_from_str(&format!("{from} 00:00:00"), "%Y-%m-%d %H:%M:%S")
        .unwrap();
    let _to =
        NaiveDateTime::parse_from_str(&format!("{to} 00:00:00"), "%Y-%m-%d %H:%M:%S").unwrap();
    let (from, to) = parse_from_date_and_to_date(from, to).unwrap();
    assert_eq!(from, _from.and_utc().timestamp());
    assert_eq!(to - _to.and_utc().timestamp(), 86_400);
}

#[test]
fn bad_dates_are_rejected() {
    assert_eq!(
        parse_from_date_and_to_date("never", "2022-11-25"),
        Err(DateError::Parse)
    );
    assert_eq!(
        parse_from_date_and_to_date("2022-11-24", "2022-13-40"),
        Err(DateError::Parse)
    );
}

#[test]
fn window_end_is_rolled_one_day() {
    let now = 10_000_000_000;
    assert_eq!(normalize_window(0, 86_400, now), Some((0, 172_800)));
}

#[test]
fn window_end_is_clamped_to_now() {
    let now = 100_000;
    assert_eq!(normalize_window(0, 86_400, now), Some((0, 100_000)));
}
