//! The retention policy.

use crate::laws::naming::not_later;
use crate::retention::policy::{
    bucket, deleted_have_an_older_survivor, fate, kept_of, lemma_deleted_grows, lemma_kept_grows,
    one_survivor_per_bucket, policy_deletes, policy_keeps, Bucket, KeepReason, RetentionConfig,
};
use crate::snapshot::naming::{in_time_order, stamp, stamp_le, time_order_is_a_stable_sort};
use crate::time::{calendar_month, calendar_year, days_before, iso_week, Timestamp};
use vstd::prelude::*;

verus! {

/// Whether `t` is later than the instant with these seconds and nanoseconds.
pub open spec fn past(t: Timestamp, edge: (int, int)) -> bool {
    edge.0 < t.secs || (edge.0 == t.secs && edge.1 < t.nanos)
}

proof fn lemma_windows(name: Seq<char>, now: Timestamp, config: RetentionConfig)
    requires
        config.fits(now),
    ensures
        match stamp(name) {
            None => bucket(name, now, config) is None,
            Some(t) => {
                let week = past(t, days_before(now, config.weekly_for_days as int));
                let month = past(t, days_before(now, config.monthly_for_days as int));
                bucket(name, now, config) == Some(
                    if week {
                        Bucket::Week(
                            iso_week(t.secs).0,
                            iso_week(t.secs).1,
                        )
                    } else if month {
                        Bucket::Month(
                            calendar_year(t.secs),
                            calendar_month(t.secs),
                        )
                    } else {
                        Bucket::Year(calendar_year(t.secs))
                    },
                )
            },
        },
{
}

/// A snapshot is given up only beside an older one that is kept, and that lies in the
/// same window: in the weekly window in the same ISO week, in the monthly window in the
/// same month of the same year, and before both in the same year.
pub proof fn given_up_only_beside_an_older_one(
    snapshots: Seq<Seq<char>>,
    now: Timestamp,
    config: RetentionConfig,
    d: int,
)
    requires
        config.fits(now),
        0 <= d < policy_deletes(snapshots, now, config).len(),
    ensures
        stamp(policy_deletes(snapshots, now, config)[d]) is Some,
        exists|k: int|
            0 <= k < policy_keeps(snapshots, now, config).len() && stamp(
                (#[trigger] policy_keeps(snapshots, now, config)[k]).0,
            ) is Some && ({
                let t = stamp(policy_deletes(snapshots, now, config)[d])->0;
                let a = stamp(policy_keeps(snapshots, now, config)[k].0)->0;
                let week = days_before(now, config.weekly_for_days as int);
                let month = days_before(now, config.monthly_for_days as int);
                &&& not_later(a, t)
                &&& past(a, week) == past(t, week)
                &&& !past(t, week) ==> past(a, month) == past(t, month)
                &&& past(t, week) ==> iso_week(a.secs) == iso_week(t.secs)
                &&& !past(t, week) ==> calendar_year(a.secs) == calendar_year(t.secs)
                &&& !past(t, week) && past(t, month) ==> calendar_month(a.secs) == calendar_month(
                    t.secs,
                )
            }),
{
    let keeps = policy_keeps(snapshots, now, config);
    let deletes = policy_deletes(snapshots, now, config);
    deleted_have_an_older_survivor(snapshots, now, config, d);
    let k = choose|k: int|
        0 <= k < keeps.len() && bucket((#[trigger] keeps[k]).0, now, config) == bucket(
            deletes[d],
            now,
            config,
        ) && stamp_le(stamp(keeps[k].0), stamp(deletes[d]));
    lemma_windows(deletes[d], now, config);
    lemma_windows(keeps[k].0, now, config);
    assert(stamp(keeps[k].0) is Some);
}

proof fn lemma_kept_at(
    snapshots: Seq<Seq<char>>,
    now: Timestamp,
    config: RetentionConfig,
    i: int,
    reason: KeepReason,
)
    requires
        0 <= i < snapshots.len(),
        fate(in_time_order(snapshots), i, now, config) == Some(reason),
    ensures
        policy_keeps(snapshots, now, config).contains((in_time_order(snapshots)[i], reason)),
{
    time_order_is_a_stable_sort(snapshots);
    let order = in_time_order(snapshots);
    let n = snapshots.len() as int;
    lemma_kept_grows(order, i + 1, n, now, config);
    let k = kept_of(order, i, now, config).len() as int;
    assert(kept_of(order, i + 1, now, config)[k] == (order[i], reason));
    assert(policy_keeps(snapshots, now, config)[k] == (order[i], reason));
}

/// Behind the newest, the first snapshot of an ISO week inside the weekly window is kept.
pub proof fn first_of_each_week_is_kept(
    snapshots: Seq<Seq<char>>,
    now: Timestamp,
    config: RetentionConfig,
    i: int,
    t: Timestamp,
)
    requires
        config.fits(now),
        0 <= i < snapshots.len() - config.recent,
        stamp(in_time_order(snapshots)[i]) == Some(t),
        past(t, days_before(now, config.weekly_for_days as int)),
        forall|j: int, a: Timestamp|
            0 <= j < i && #[trigger] stamp(in_time_order(snapshots)[j]) == Some(a) && #[trigger] past(
                a,
                days_before(now, config.weekly_for_days as int),
            ) ==> iso_week(a.secs) != iso_week(t.secs),
    ensures
        policy_keeps(snapshots, now, config).contains(
            (in_time_order(snapshots)[i], KeepReason::Weekly),
        ),
{
    let order = in_time_order(snapshots);
    time_order_is_a_stable_sort(snapshots);
    lemma_windows(order[i], now, config);
    assert forall|j: int| 0 <= j < i implies bucket(#[trigger] order[j], now, config) != bucket(
        order[i],
        now,
        config,
    ) by {
        lemma_windows(order[j], now, config);
        if let Some(a) = stamp(order[j]) {
            if past(a, days_before(now, config.weekly_for_days as int)) {
                assert(iso_week(a.secs) != iso_week(t.secs));
            }
        }
    }
    lemma_kept_at(snapshots, now, config, i, KeepReason::Weekly);
}

/// Behind the newest, the first snapshot of a calendar month inside the monthly window
/// and before the weekly one is kept.
pub proof fn first_of_each_month_is_kept(
    snapshots: Seq<Seq<char>>,
    now: Timestamp,
    config: RetentionConfig,
    i: int,
    t: Timestamp,
)
    requires
        config.fits(now),
        0 <= i < snapshots.len() - config.recent,
        stamp(in_time_order(snapshots)[i]) == Some(t),
        !past(t, days_before(now, config.weekly_for_days as int)),
        past(t, days_before(now, config.monthly_for_days as int)),
        forall|j: int, a: Timestamp|
            0 <= j < i && #[trigger] stamp(in_time_order(snapshots)[j]) == Some(a) && #[trigger] past(
                a,
                days_before(now, config.monthly_for_days as int),
            ) ==> calendar_year(a.secs) != calendar_year(t.secs) || calendar_month(a.secs)
                != calendar_month(t.secs),
    ensures
        policy_keeps(snapshots, now, config).contains(
            (in_time_order(snapshots)[i], KeepReason::Monthly),
        ),
{
    let order = in_time_order(snapshots);
    time_order_is_a_stable_sort(snapshots);
    lemma_windows(order[i], now, config);
    assert forall|j: int| 0 <= j < i implies bucket(#[trigger] order[j], now, config) != bucket(
        order[i],
        now,
        config,
    ) by {
        lemma_windows(order[j], now, config);
        if let Some(a) = stamp(order[j]) {
            if past(a, days_before(now, config.monthly_for_days as int)) {
                assert(calendar_year(a.secs) != calendar_year(t.secs) || calendar_month(a.secs)
                    != calendar_month(t.secs));
            }
        }
    }
    lemma_kept_at(snapshots, now, config, i, KeepReason::Monthly);
}

/// Behind the newest, the first snapshot of a calendar year before both windows is kept.
pub proof fn first_of_each_year_is_kept(
    snapshots: Seq<Seq<char>>,
    now: Timestamp,
    config: RetentionConfig,
    i: int,
    t: Timestamp,
)
    requires
        config.fits(now),
        0 <= i < snapshots.len() - config.recent,
        stamp(in_time_order(snapshots)[i]) == Some(t),
        !past(t, days_before(now, config.weekly_for_days as int)),
        !past(t, days_before(now, config.monthly_for_days as int)),
        forall|j: int, a: Timestamp|
            0 <= j < i && #[trigger] stamp(in_time_order(snapshots)[j]) == Some(a)
                ==> #[trigger] calendar_year(a.secs) != calendar_year(t.secs),
    ensures
        policy_keeps(snapshots, now, config).contains(
            (in_time_order(snapshots)[i], KeepReason::Yearly),
        ),
{
    let order = in_time_order(snapshots);
    time_order_is_a_stable_sort(snapshots);
    lemma_windows(order[i], now, config);
    assert forall|j: int| 0 <= j < i implies bucket(#[trigger] order[j], now, config) != bucket(
        order[i],
        now,
        config,
    ) by {
        lemma_windows(order[j], now, config);
        if let Some(a) = stamp(order[j]) {
            assert(calendar_year(a.secs) != calendar_year(t.secs));
        }
    }
    lemma_kept_at(snapshots, now, config, i, KeepReason::Yearly);
}

/// The newest are kept, as many as the configuration says; and so is every snapshot that
/// is not a managed one.
pub proof fn newest_and_unmanaged_are_kept(
    snapshots: Seq<Seq<char>>,
    now: Timestamp,
    config: RetentionConfig,
    i: int,
)
    requires
        0 <= i < snapshots.len(),
        i >= snapshots.len() - config.recent || stamp(in_time_order(snapshots)[i]) is None,
    ensures
        exists|k: int|
            0 <= k < policy_keeps(snapshots, now, config).len() && (#[trigger] policy_keeps(
                snapshots,
                now,
                config,
            )[k]).0 == in_time_order(snapshots)[i],
{
    let order = in_time_order(snapshots);
    time_order_is_a_stable_sort(snapshots);
    let reason = fate(order, i, now, config)->0;
    lemma_kept_at(snapshots, now, config, i, reason);
    let keeps = policy_keeps(snapshots, now, config);
    let k = choose|k: int| 0 <= k < keeps.len() && keeps[k] == (order[i], reason);
    assert(keeps[k].0 == order[i]);
}

/// Behind the newest, a snapshot goes wherever an earlier one shares its stretch: an ISO
/// week inside the weekly window, a month inside the monthly one, a year before both.
pub proof fn later_ones_of_a_stretch_go(
    snapshots: Seq<Seq<char>>,
    now: Timestamp,
    config: RetentionConfig,
    j: int,
    i: int,
    a: Timestamp,
    t: Timestamp,
)
    requires
        config.fits(now),
        0 <= j < i < snapshots.len() - config.recent,
        stamp(in_time_order(snapshots)[j]) == Some(a),
        stamp(in_time_order(snapshots)[i]) == Some(t),
        ({
            let week = days_before(now, config.weekly_for_days as int);
            let month = days_before(now, config.monthly_for_days as int);
            ||| past(a, week) && past(t, week) && iso_week(a.secs) == iso_week(t.secs)
            ||| !past(a, week) && !past(t, week) && past(a, month) && past(t, month)
                && calendar_year(a.secs) == calendar_year(t.secs) && calendar_month(a.secs)
                == calendar_month(t.secs)
            ||| !past(a, week) && !past(t, week) && !past(a, month) && !past(t, month)
                && calendar_year(a.secs) == calendar_year(t.secs)
        }),
    ensures
        policy_deletes(snapshots, now, config).contains(in_time_order(snapshots)[i]),
{
    let order = in_time_order(snapshots);
    time_order_is_a_stable_sort(snapshots);
    lemma_windows(order[j], now, config);
    lemma_windows(order[i], now, config);
    assert(bucket(order[j], now, config) == bucket(order[i], now, config));
    assert(fate(order, i, now, config) is None);
    lemma_deleted_grows(order, i, snapshots.len() as int, now, config);
}

/// Behind the newest, a snapshot is kept as the one of its stretch: of two that share a
/// stretch, only one is kept for it.
pub proof fn no_stretch_is_kept_twice(
    snapshots: Seq<Seq<char>>,
    now: Timestamp,
    config: RetentionConfig,
    x: int,
    y: int,
)
    requires
        config.fits(now),
        0 <= x < y < policy_keeps(snapshots, now, config).len(),
        policy_keeps(snapshots, now, config)[y].1 != KeepReason::Daily,
        stamp(policy_keeps(snapshots, now, config)[x].0) is Some,
        stamp(policy_keeps(snapshots, now, config)[y].0) is Some,
    ensures
        ({
            let a = stamp(policy_keeps(snapshots, now, config)[x].0)->0;
            let t = stamp(policy_keeps(snapshots, now, config)[y].0)->0;
            let week = days_before(now, config.weekly_for_days as int);
            let month = days_before(now, config.monthly_for_days as int);
            &&& past(a, week) && past(t, week) ==> iso_week(a.secs) != iso_week(t.secs)
            &&& !past(a, week) && !past(t, week) && past(a, month) && past(t, month)
                ==> calendar_year(a.secs) != calendar_year(t.secs) || calendar_month(a.secs)
                != calendar_month(t.secs)
            &&& !past(a, week) && !past(t, week) && !past(a, month) && !past(t, month)
                ==> calendar_year(a.secs) != calendar_year(t.secs)
        }),
{
    one_survivor_per_bucket(snapshots, now, config, x, y);
    lemma_windows(policy_keeps(snapshots, now, config)[x].0, now, config);
    lemma_windows(policy_keeps(snapshots, now, config)[y].0, now, config);
}

} // verus!
