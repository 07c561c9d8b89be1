use chrono::{DateTime, Duration, TimeZone, Utc};
use zrb::retention::policy::{
    apply, choose_bucket, part, Bucket, CalendarDate, Dated, KeepReason, RetentionConfig,
};
use zrb::snapshot::naming;
use zrb::time::Timestamp;

fn cfg(recent: usize, weekly: i64, monthly: i64) -> RetentionConfig {
    RetentionConfig {
        recent,
        weekly_for_days: weekly,
        monthly_for_days: monthly,
    }
}

fn stamp(dt: DateTime<Utc>) -> Timestamp {
    Timestamp::new(dt.timestamp(), dt.timestamp_subsec_nanos()).unwrap()
}

fn snap(dataset: &str, days_ago: i64, now: DateTime<Utc>) -> String {
    let ts = now - Duration::days(days_ago);
    naming::new_name(dataset, stamp(ts))
}

fn now() -> DateTime<Utc> {
    Utc.with_ymd_and_hms(2026, 5, 22, 12, 0, 0).unwrap()
}

#[test]
fn empty_list_returns_empty_vecs() {
    let (keep, delete) = apply(&[], stamp(now()), &cfg(7, 30, 365));
    assert!(keep.is_empty());
    assert!(delete.is_empty());
}

#[test]
fn fewer_than_recent_all_kept() {
    let now = now();
    let snaps: Vec<String> = (1..=3).map(|d| snap("pool/data", d, now)).collect();
    let (keep, delete) = apply(&snaps, stamp(now), &cfg(7, 30, 365));
    assert_eq!(keep.len(), 3);
    assert!(delete.is_empty());
}

#[test]
fn exactly_recent_all_kept() {
    let now = now();
    let snaps: Vec<String> = (1..=7).map(|d| snap("pool/data", d, now)).collect();
    let (keep, delete) = apply(&snaps, stamp(now), &cfg(7, 30, 365));
    assert_eq!(keep.len(), 7);
    assert!(delete.is_empty());
}

#[test]
fn beyond_recent_weekly_window_one_per_week() {
    let now = now();
    let mut snaps: Vec<String> = (1..=7).map(|d| snap("pool/data", d, now)).collect();
    snaps.push(snap("pool/data", 8, now));
    snaps.push(snap("pool/data", 9, now));
    let (keep, delete) = apply(&snaps, stamp(now), &cfg(7, 30, 365));
    assert_eq!(delete.len(), 1);
    assert_eq!(keep.len(), 8);
}

#[test]
fn monthly_window_one_per_month() {
    let now = now();
    let snaps = vec![
        snap("pool/data", 1, now),
        snap("pool/data", 35, now),
        snap("pool/data", 40, now),
    ];
    let (keep, delete) = apply(&snaps, stamp(now), &cfg(1, 7, 60));
    assert_eq!(delete.len(), 1);
    assert_eq!(keep.len(), 2);
}

#[test]
fn yearly_window_one_per_year() {
    let now = now();
    let snaps = vec![
        snap("pool/data", 1, now),
        snap("pool/data", 366, now),
        snap("pool/data", 370, now),
    ];
    let (keep, delete) = apply(&snaps, stamp(now), &cfg(1, 7, 60));
    assert_eq!(delete.len(), 1);
    assert_eq!(keep.len(), 2);
}

#[test]
fn snapshot_on_weekly_boundary_is_kept() {
    let now = now();
    let snaps = vec![
        snap("pool/data", 1, now),
        snap("pool/data", 30, now),
    ];
    let (keep, delete) = apply(&snaps, stamp(now), &cfg(1, 30, 365));
    assert!(delete.is_empty(), "boundary snapshot should not be deleted");
    assert_eq!(keep.len(), 2);
}

#[test]
fn reasons_name_the_tier() {
    let now = now();
    let snaps = vec![
        snap("p", 1, now),
        snap("p", 8, now),
        snap("p", 9, now),
        snap("p", 30, now),
        snap("p", 400, now),
        "p@manual".to_string(),
    ];
    let (keep, delete) = apply(&snaps, stamp(now), &cfg(1, 30, 365));
    assert_eq!(
        keep,
        vec![
            ("p@manual".to_string(), KeepReason::Unmanaged),
            (snaps[4].clone(), KeepReason::Yearly),
            (snaps[3].clone(), KeepReason::Monthly),
            (snaps[2].clone(), KeepReason::Weekly),
            (snaps[0].clone(), KeepReason::Daily),
        ]
    );
    assert_eq!(delete, vec![snaps[1].clone()]);
}

#[test]
fn one_week_across_the_turn_of_the_year_is_one_bucket() {
    // Monday 2024-12-30 and Friday 2025-01-03 lie in one ISO week.
    let now = Utc.with_ymd_and_hms(2025, 1, 20, 12, 0, 0).unwrap();
    let snaps = vec![
        "p@zrb-2024-12-30T00:00:00Z".to_string(),
        "p@zrb-2025-01-03T00:00:00Z".to_string(),
    ];
    let (keep, delete) = apply(&snaps, stamp(now), &cfg(0, 60, 365));
    assert_eq!(keep, vec![(snaps[0].clone(), KeepReason::Weekly)]);
    assert_eq!(delete, vec![snaps[1].clone()]);
}

#[test]
fn months_of_different_years_are_different() {
    let now = Utc.with_ymd_and_hms(2025, 6, 1, 0, 0, 0).unwrap();
    let snaps = vec![
        "p@zrb-2024-03-05T00:00:00Z".to_string(),
        "p@zrb-2025-03-05T00:00:00Z".to_string(),
        "p@zrb-2025-03-06T00:00:00Z".to_string(),
    ];
    let (keep, delete) = apply(&snaps, stamp(now), &cfg(0, 7, 1000));
    assert_eq!(keep.len(), 2);
    assert_eq!(delete, vec![snaps[2].clone()]);
}

#[test]
fn applying_the_policy_twice_deletes_nothing_more() {
    let now = now();
    let snaps: Vec<String> = (0..200).map(|d| snap("p", d * 3, now)).collect();
    let config = cfg(5, 60, 365);
    let (keep, delete) = apply(&snaps, stamp(now), &config);
    assert_eq!(keep.len() + delete.len(), snaps.len());
    assert!(!delete.is_empty());
    let names: Vec<String> = keep.iter().map(|k| k.0.clone()).collect();
    let (again, gone) = apply(&names, stamp(now), &config);
    assert!(gone.is_empty());
    let kept_again: Vec<String> = again.iter().map(|k| k.0.clone()).collect();
    assert_eq!(kept_again, names);
}

fn dated(name: &str, secs: i64, bucket: Bucket) -> Dated {
    Dated {
        name: name.to_owned(),
        taken: Some((Timestamp::new(secs, 0).unwrap(), bucket)),
    }
}

#[test]
fn dated_snapshots_are_parted() {
    let week = Bucket::Week(2026, 20);
    let year = Bucket::Year(2020);
    let unmanaged = Dated {
        name: "manual".to_owned(),
        taken: None,
    };
    let snapshots = [
        dated("newest", 50, week),
        dated("late", 30, week),
        unmanaged,
        dated("early", 20, week),
        dated("same", 20, week),
        dated("old", 10, year),
    ];
    let (keep, delete) = part(&snapshots, 1);
    assert_eq!(
        keep,
        vec![
            ("manual".to_owned(), KeepReason::Unmanaged),
            ("old".to_owned(), KeepReason::Yearly),
            ("early".to_owned(), KeepReason::Weekly),
            ("newest".to_owned(), KeepReason::Daily),
        ]
    );
    assert_eq!(delete, vec!["same", "late"]);
    assert!(part(&snapshots, 100).1.is_empty());
    assert!(part(&[], 0).0.is_empty());
}

#[test]
fn windows_decide_over_the_bucket() {
    let at = |secs: i64| Timestamp::new(secs, 0).unwrap();
    let date = CalendarDate {
        year: 2027,
        month: 1,
        iso_year: 2026,
        iso_week: 53,
    };
    let (weekly, monthly) = (at(200), at(100));
    assert_eq!(choose_bucket(at(201), date, &weekly, &monthly), Bucket::Week(2026, 53));
    assert_eq!(choose_bucket(at(200), date, &weekly, &monthly), Bucket::Month(2027, 1));
    assert_eq!(choose_bucket(at(101), date, &weekly, &monthly), Bucket::Month(2027, 1));
    assert_eq!(choose_bucket(at(100), date, &weekly, &monthly), Bucket::Year(2027));
}

#[test]
fn the_oldest_of_a_bucket_survives() {
    let now = now();
    let snaps = vec![snap("p", 9, now), snap("p", 8, now), snap("p", 10, now)];
    let (keep, delete) = apply(&snaps, stamp(now), &cfg(0, 30, 365));
    assert_eq!(keep, vec![(snaps[2].clone(), KeepReason::Weekly)]);
    assert_eq!(delete, vec![snaps[0].clone(), snaps[1].clone()]);
}

#[test]
fn negative_windows_reach_into_the_future() {
    let now = now();
    let snaps = vec![snap("p", 1, now), snap("p", 2, now)];
    let (keep, delete) = apply(&snaps, stamp(now), &cfg(0, -10, -10));
    assert_eq!(keep, vec![(snaps[1].clone(), KeepReason::Yearly)]);
    assert_eq!(delete, vec![snaps[0].clone()]);
}

#[test]
fn keep_reasons_have_words() {
    assert_eq!(KeepReason::Daily.as_str(), "daily");
    assert_eq!(KeepReason::Weekly.as_str(), "weekly");
    assert_eq!(KeepReason::Monthly.as_str(), "monthly");
    assert_eq!(KeepReason::Yearly.as_str(), "yearly");
    assert_eq!(KeepReason::Unmanaged.as_str(), "unmanaged");
}
