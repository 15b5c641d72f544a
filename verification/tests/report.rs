use radiochron::events::xml::epoch_from_iso8601;
use radiochron::report::{civil_from_days, iso8601_from_unix_seconds, now_iso8601};

#[test]
fn civil_from_days_matches_known_dates() {
    assert_eq!(civil_from_days(0), (1970, 1, 1));
    assert_eq!(civil_from_days(1), (1970, 1, 2));
    assert_eq!(civil_from_days(11_017), (2000, 3, 1));
    assert_eq!(civil_from_days(11_016), (2000, 2, 29));
    assert_eq!(civil_from_days(19_723), (2024, 1, 1));
}

#[test]
fn timestamp_is_rfc3339_shaped() {
    let stamp = now_iso8601();
    assert_eq!(stamp.len(), 20, "{stamp}");
    assert!(stamp.ends_with('Z'));
    assert_eq!(stamp.as_bytes()[4], b'-');
    assert_eq!(stamp.as_bytes()[10], b'T');
}

#[test]
fn formatter_writes_known_instants() {
    assert_eq!(iso8601_from_unix_seconds(0), "1970-01-01T00:00:00Z");
    assert_eq!(iso8601_from_unix_seconds(951_825_600), "2000-02-29T12:00:00Z");
    assert_eq!(iso8601_from_unix_seconds(1_704_067_199), "2023-12-31T23:59:59Z");
}

#[test]
fn negative_days_fall_before_the_epoch() {
    assert_eq!(civil_from_days(-1), (1969, 12, 31));
    assert_eq!(civil_from_days(-719_468), (0, 3, 1));
}

#[test]
fn parse_inverts_format() {
    for secs in [0u64, 59, 86_399, 951_782_400, 1_704_067_200, 4_102_444_799] {
        let text = iso8601_from_unix_seconds(secs);
        assert_eq!(epoch_from_iso8601(&text), Some(secs as i64), "{text}");
    }
}

#[test]
fn consecutive_days_are_consecutive_dates() {
    assert_eq!(civil_from_days(-1), (1969, 12, 31));
    assert_eq!(civil_from_days(0), (1970, 1, 1));
    assert_eq!(civil_from_days(58), (1970, 2, 28));
    assert_eq!(civil_from_days(59), (1970, 3, 1));
    // 2000 is a leap year (divisible by 400), 2100 is not.
    assert_eq!(civil_from_days(11_016), (2000, 2, 29));
    assert_eq!(civil_from_days(11_017), (2000, 3, 1));
    assert_eq!(civil_from_days(47_540), (2100, 2, 28));
    assert_eq!(civil_from_days(47_541), (2100, 3, 1));
}
