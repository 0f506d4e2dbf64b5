//! Dates and timestamps.
use graphify_plugin_test_coverage::clock::{civil_from_days, now_rfc3339, rfc3339};

#[test]
fn known_days_have_their_dates() {
    assert_eq!(civil_from_days(0), (1970, 1, 1));
    assert_eq!(civil_from_days(-1), (1969, 12, 31));
    assert_eq!(civil_from_days(58), (1970, 2, 28));
    assert_eq!(civil_from_days(59), (1970, 3, 1));
    assert_eq!(civil_from_days(789), (1972, 2, 29));
    assert_eq!(civil_from_days(11_016), (2000, 2, 29));
    assert_eq!(civil_from_days(19_782), (2024, 2, 29));
    assert_eq!(civil_from_days(47_540), (2100, 2, 28));
    assert_eq!(civil_from_days(47_541), (2100, 3, 1));
    assert_eq!(civil_from_days(-719_468), (0, 3, 1));
    assert_eq!(civil_from_days(-719_469), (0, 2, 29));
    assert_eq!(civil_from_days(2_932_896), (9999, 12, 31));
}

#[test]
fn days_follow_each_other() {
    let mut previous = civil_from_days(-150_001);
    for day in -150_000..150_000 {
        let date = civil_from_days(day);
        let next_day = (previous.0, previous.1, previous.2 + 1);
        let next_month = (previous.0, previous.1 + 1, 1);
        let next_year = (previous.0 + 1, 1, 1);
        assert!(date == next_day || date == next_month || date == next_year && previous.1 == 12);
        previous = date;
    }
}

#[test]
fn timestamps_are_in_utc() {
    assert_eq!(rfc3339(0), "1970-01-01T00:00:00Z");
    assert_eq!(rfc3339(59), "1970-01-01T00:00:59Z");
    assert_eq!(rfc3339(86_399), "1970-01-01T23:59:59Z");
    assert_eq!(rfc3339(86_400), "1970-01-02T00:00:00Z");
    assert_eq!(rfc3339(951_782_400 + 3661), "2000-02-29T01:01:01Z");
    assert_eq!(rfc3339(1_786_924_800), "2026-08-17T00:00:00Z");
    assert_eq!(rfc3339(253_402_300_799), "9999-12-31T23:59:59Z");
    assert_eq!(rfc3339(253_402_300_800), "10000-01-01T00:00:00Z");
}

#[test]
fn the_present_time_is_a_timestamp() {
    let now = now_rfc3339();
    assert_eq!(now.len(), 20);
    assert!(now.as_str() > "2020-01-01T00:00:00Z", "{now}");
    assert!(now.ends_with('Z'));
}
