use chrono::TimeZone;
use zrb::snapshot::naming::{filter_zrb, is_zrb, new_name, parse, sort_chronological};
use zrb::time::{days_have_passed, Timestamp};

fn make_ts(year: i32, month: u32, day: u32, hour: u32, min: u32, sec: u32) -> Timestamp {
    let dt = chrono::Utc
        .with_ymd_and_hms(year, month, day, hour, min, sec)
        .unwrap();
    Timestamp::new(dt.timestamp(), dt.timestamp_subsec_nanos()).unwrap()
}

#[test]
fn round_trip() {
    let now = make_ts(2026, 5, 22, 14, 30, 0);
    let name = new_name("tank/home", now);
    assert_eq!(parse(&name), Some(now));
}

#[test]
fn new_name_writes_the_timestamp() {
    let now = make_ts(2026, 5, 22, 14, 30, 0);
    assert_eq!(new_name("tank/home", now), "tank/home@zrb-2026-05-22T14:30:00Z");
}

#[test]
fn round_trip_drops_the_fraction() {
    let whole = make_ts(2026, 5, 22, 14, 30, 0);
    let now = Timestamp::new(whole.secs, 987_654_321).unwrap();
    assert_eq!(parse(&new_name("tank/home", now)), Some(whole));
}

#[test]
fn round_trip_keeps_a_leap_second() {
    let before = make_ts(2016, 12, 31, 23, 59, 59);
    let leap = Timestamp::new(before.secs, 1_500_000_000).unwrap();
    let name = new_name("tank/home", leap);
    assert_eq!(name, "tank/home@zrb-2016-12-31T23:59:60Z");
    assert_eq!(
        parse(&name),
        Some(Timestamp::new(before.secs, 1_000_000_000).unwrap())
    );
}

#[test]
fn round_trip_at_the_ends_of_four_digit_years() {
    let first = make_ts(0, 1, 1, 0, 0, 0);
    let last = make_ts(9999, 12, 31, 23, 59, 59);
    assert_eq!(parse(&new_name("p", first)), Some(first));
    assert_eq!(parse(&new_name("p", last)), Some(last));
}

#[test]
fn five_digit_years_do_not_read_back() {
    let far = make_ts(10_000, 1, 1, 0, 0, 0);
    assert_eq!(parse(&new_name("p", far)), None);
}

#[test]
fn offsets_are_moved_to_utc() {
    assert_eq!(
        parse("tank/home@zrb-2026-05-22T16:30:00+02:00"),
        Some(make_ts(2026, 5, 22, 14, 30, 0))
    );
}

#[test]
fn is_zrb_accepts_valid() {
    assert!(is_zrb("tank/home@zrb-2026-05-22T14:30:00Z"));
}

#[test]
fn is_zrb_rejects_non_zrb_prefix() {
    assert!(!is_zrb("tank/home@manual-2026-05-22T14:30:00Z"));
}

#[test]
fn is_zrb_rejects_partial_prefix() {
    assert!(!is_zrb("tank/home@zrb2026-05-22T14:30:00Z"));
}

#[test]
fn is_zrb_rejects_malformed_timestamp() {
    assert!(!is_zrb("tank/home@zrb-not-a-date"));
}

#[test]
fn is_zrb_rejects_no_at_sign() {
    assert!(!is_zrb("zrb-2026-05-22T14:30:00Z"));
}

#[test]
fn is_zrb_rejects_a_second_at_sign() {
    assert!(!is_zrb("tank@home@zrb-2026-05-22T14:30:00Z"));
    assert!(!is_zrb("tank/home@zrb-2026-05-22T14:30:00Z@x"));
}

#[test]
fn filter_zrb_keeps_only_managed() {
    let names = vec![
        "tank/home@zrb-2026-05-22T14:30:00Z".to_string(),
        "tank/home@manual-snap".to_string(),
        "tank/home@zrb-2026-05-21T10:00:00Z".to_string(),
    ];
    let kept = filter_zrb(&names);
    assert_eq!(kept.len(), 2);
    assert!(kept.contains(&"tank/home@zrb-2026-05-22T14:30:00Z".to_string()));
    assert!(kept.contains(&"tank/home@zrb-2026-05-21T10:00:00Z".to_string()));
}

#[test]
fn sort_chronological_orders_oldest_first() {
    let mut names = vec![
        "tank/home@zrb-2026-05-22T14:30:00Z".to_string(),
        "tank/home@zrb-2026-05-20T08:00:00Z".to_string(),
        "tank/home@zrb-2026-05-21T10:00:00Z".to_string(),
    ];
    sort_chronological(&mut names);
    assert_eq!(
        names,
        vec![
            "tank/home@zrb-2026-05-20T08:00:00Z".to_string(),
            "tank/home@zrb-2026-05-21T10:00:00Z".to_string(),
            "tank/home@zrb-2026-05-22T14:30:00Z".to_string(),
        ]
    );
}

#[test]
fn sort_puts_names_without_a_time_first_and_is_stable() {
    let mut names = vec![
        "b@zrb-2026-05-20T08:00:00Z".to_string(),
        "manual-2".to_string(),
        "a@zrb-2026-05-20T08:00:00Z".to_string(),
        "manual-1".to_string(),
        "c@zrb-2026-05-20T10:00:00+02:00".to_string(),
    ];
    sort_chronological(&mut names);
    assert_eq!(
        names,
        [
            "manual-2",
            "manual-1",
            "b@zrb-2026-05-20T08:00:00Z",
            "a@zrb-2026-05-20T08:00:00Z",
            "c@zrb-2026-05-20T10:00:00+02:00",
        ]
    );
}

#[test]
fn timestamps_are_checked() {
    assert!(Timestamp::new(0, 999_999_999).is_some());
    assert!(Timestamp::new(0, 1_000_000_000).is_none());
    assert!(Timestamp::new(59, 1_999_999_999).is_some());
    assert!(Timestamp::new(-1, 1_000_000_000).is_some());
    assert!(Timestamp::new(-2, 1_000_000_000).is_none());
    assert!(Timestamp::new(59, 2_000_000_000).is_none());
    assert!(Timestamp::new(i64::MAX, 0).is_none());
    let min = chrono::DateTime::<chrono::Utc>::MIN_UTC.timestamp();
    let max = chrono::DateTime::<chrono::Utc>::MAX_UTC.timestamp();
    assert!(Timestamp::new(min, 0).is_some());
    assert!(Timestamp::new(min - 1, 0).is_none());
    assert!(Timestamp::new(max, 0).is_some());
    assert!(Timestamp::new(max + 1, 0).is_none());
}

#[test]
fn elapsed_days_count_nanoseconds() {
    let since = Timestamp::new(1_000_000, 500).unwrap();
    let exact = Timestamp::new(1_000_000 + 3 * 86_400, 500).unwrap();
    let short = Timestamp::new(1_000_000 + 3 * 86_400, 499).unwrap();
    assert!(days_have_passed(exact, since, 3));
    assert!(!days_have_passed(short, since, 3));
    assert!(days_have_passed(since, since, 0));
    assert!(!days_have_passed(since, exact, 0));
}

#[test]
fn elapsed_time_counts_a_leap_second_as_chrono_does() {
    let leap = Timestamp::new(1_483_228_799, 1_000_000_000).unwrap();
    let later = Timestamp::new(1_483_228_799 + 86_400, 0).unwrap();
    let a = chrono::DateTime::from_timestamp(leap.secs, leap.nanos).unwrap();
    let b = chrono::DateTime::from_timestamp(later.secs, later.nanos).unwrap();
    assert_eq!(
        days_have_passed(later, leap, 1),
        b - a >= chrono::TimeDelta::days(1)
    );
}
