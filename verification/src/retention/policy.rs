//! The tiered retention policy: which snapshots stay and which may go.

use crate::snapshot::naming::{
    chronological, in_time_order, lemma_ordered_names, lemma_sorted_stays, ordered_by_time,
    ordering_is_a_stable_sort, parse, put_by_time, stamp, stamp_le, time_order_is_a_stable_sort,
};
use crate::text::{lemma_texts_push, texts};
use crate::time::{
    calendar_month, calendar_year, can_go_back, days_before, iso_week, iso_week_of, minus_days,
    month_of, reachable, year_of, Timestamp,
};
use vstd::prelude::*;
use vstd::string::*;

verus! {

/// How many snapshots a host keeps.
#[derive(Clone, Copy, Debug, PartialEq, Eq, Structural)]
pub struct RetentionConfig {
    /// The newest snapshots, this many, are kept whatever their age.
    pub recent: usize,
    /// How far back one snapshot per ISO week is kept.
    pub weekly_for_days: i64,
    /// How far back one snapshot per calendar month is kept; one per year beyond.
    pub monthly_for_days: i64,
}

impl RetentionConfig {
    /// Whether both windows, counted back from `now`, end at an instant.
    pub open spec fn fits(self, now: Timestamp) -> bool {
        &&& now.valid()
        &&& can_go_back(now, self.weekly_for_days as int)
        &&& can_go_back(now, self.monthly_for_days as int)
    }

    /// Whether both windows, counted back from `now`, end at an instant.
    pub fn fits_at(&self, now: Timestamp) -> (r: bool)
        requires
            now.valid(),
        ensures
            r == self.fits(now),
    {
        reachable(now, self.weekly_for_days) && reachable(now, self.monthly_for_days)
    }
}

/// Why a snapshot is kept.
#[derive(Clone, Copy, Debug, PartialEq, Eq, Structural)]
pub enum KeepReason {
    /// One of the newest.
    Daily,
    /// The oldest of its ISO week.
    Weekly,
    /// The oldest of its calendar month.
    Monthly,
    /// The oldest of its calendar year.
    Yearly,
    /// Not a managed snapshot.
    Unmanaged,
}

impl KeepReason {
    /// The word a dry run prints.
    pub open spec fn word(self) -> Seq<char> {
        match self {
            KeepReason::Daily => "daily"@,
            KeepReason::Weekly => "weekly"@,
            KeepReason::Monthly => "monthly"@,
            KeepReason::Yearly => "yearly"@,
            KeepReason::Unmanaged => "unmanaged"@,
        }
    }

    /// The word a dry run prints.
    pub fn as_str(&self) -> (r: &'static str)
        ensures
            r@ == self.word(),
    {
        match self {
            KeepReason::Daily => "daily",
            KeepReason::Weekly => "weekly",
            KeepReason::Monthly => "monthly",
            KeepReason::Yearly => "yearly",
            KeepReason::Unmanaged => "unmanaged",
        }
    }
}

/// A stretch of the calendar of which one snapshot is kept.
#[derive(Clone, Copy, Debug, PartialEq, Eq, Structural)]
pub enum Bucket {
    Week(i32, u32),
    Month(i32, u32),
    Year(i32),
}

impl Bucket {
    /// Why the snapshot kept for this stretch is kept.
    pub open spec fn reason(self) -> KeepReason {
        match self {
            Bucket::Week(_, _) => KeepReason::Weekly,
            Bucket::Month(_, _) => KeepReason::Monthly,
            Bucket::Year(_) => KeepReason::Yearly,
        }
    }

    fn keep_reason(&self) -> (r: KeepReason)
        ensures
            r == self.reason(),
    {
        match self {
            Bucket::Week(_, _) => KeepReason::Weekly,
            Bucket::Month(_, _) => KeepReason::Monthly,
            Bucket::Year(_) => KeepReason::Yearly,
        }
    }
}

/// The instant `days` days before `now`.
pub open spec fn cutoff(now: Timestamp, days: i64) -> Timestamp {
    let (secs, nanos) = days_before(now, days as int);
    Timestamp { secs: secs as i64, nanos: nanos as u32 }
}

/// The stretch of the calendar that decides over a snapshot taken at `t`: its
/// ISO week inside the weekly window, its month inside the monthly one, its year
/// before that. An instant on the edge of a window lies outside it.
pub open spec fn bucket_of(t: Timestamp, now: Timestamp, config: RetentionConfig) -> Bucket {
    if cutoff(now, config.weekly_for_days).before(t) {
        Bucket::Week(iso_week(t.secs).0, iso_week(t.secs).1)
    } else if cutoff(now, config.monthly_for_days).before(t) {
        Bucket::Month(calendar_year(t.secs), calendar_month(t.secs))
    } else {
        Bucket::Year(calendar_year(t.secs))
    }
}

/// The stretch that decides over the snapshot `name`, if it is a managed one.
pub open spec fn bucket(name: Seq<char>, now: Timestamp, config: RetentionConfig) -> Option<
    Bucket,
> {
    match stamp(name) {
        Some(t) => Some(bucket_of(t, now, config)),
        None => None,
    }
}

/// Why the `i`-th of `order`, oldest first, is kept; `None` where it may go.
pub open spec fn fate(
    order: Seq<Seq<char>>,
    i: int,
    now: Timestamp,
    config: RetentionConfig,
) -> Option<KeepReason> {
    if i >= order.len() - config.recent {
        Some(KeepReason::Daily)
    } else {
        match bucket(order[i], now, config) {
            None => Some(KeepReason::Unmanaged),
            Some(b) => if exists|j: int|
                0 <= j < i && bucket(#[trigger] order[j], now, config) == Some(b) {
                None
            } else {
                Some(b.reason())
            },
        }
    }
}

/// What is kept of the first `n` of `order`, with the reasons.
pub open spec fn kept_of(
    order: Seq<Seq<char>>,
    n: int,
    now: Timestamp,
    config: RetentionConfig,
) -> Seq<(Seq<char>, KeepReason)>
    decreases n,
{
    if n <= 0 {
        seq![]
    } else {
        match fate(order, n - 1, now, config) {
            Some(reason) => kept_of(order, n - 1, now, config).push((order[n - 1], reason)),
            None => kept_of(order, n - 1, now, config),
        }
    }
}

/// What may go of the first `n` of `order`.
pub open spec fn deleted_of(
    order: Seq<Seq<char>>,
    n: int,
    now: Timestamp,
    config: RetentionConfig,
) -> Seq<Seq<char>>
    decreases n,
{
    if n <= 0 {
        seq![]
    } else {
        match fate(order, n - 1, now, config) {
            Some(_) => deleted_of(order, n - 1, now, config),
            None => deleted_of(order, n - 1, now, config).push(order[n - 1]),
        }
    }
}

/// What the policy keeps of `snapshots`, oldest first.
pub open spec fn policy_keeps(
    snapshots: Seq<Seq<char>>,
    now: Timestamp,
    config: RetentionConfig,
) -> Seq<(Seq<char>, KeepReason)> {
    kept_of(in_time_order(snapshots), snapshots.len() as int, now, config)
}

/// What the policy gives up of `snapshots`, oldest first.
pub open spec fn policy_deletes(
    snapshots: Seq<Seq<char>>,
    now: Timestamp,
    config: RetentionConfig,
) -> Seq<Seq<char>> {
    deleted_of(in_time_order(snapshots), snapshots.len() as int, now, config)
}

/// The texts and reasons of a list of kept snapshots.
pub open spec fn kept_texts(v: Seq<(String, KeepReason)>) -> Seq<(Seq<char>, KeepReason)> {
    v.map_values(|e: (String, KeepReason)| (e.0@, e.1))
}

/// What the calendar says of an instant.
#[derive(Clone, Copy, Debug, PartialEq, Eq, Structural)]
pub struct CalendarDate {
    pub year: i32,
    pub month: u32,
    /// The year that the ISO week belongs to.
    pub iso_year: i32,
    pub iso_week: u32,
}

/// What the calendar says of an instant.
pub open spec fn date_of(t: Timestamp) -> CalendarDate {
    CalendarDate {
        year: calendar_year(t.secs),
        month: calendar_month(t.secs),
        iso_year: iso_week(t.secs).0,
        iso_week: iso_week(t.secs).1,
    }
}

fn date_at(t: Timestamp) -> (r: CalendarDate)
    requires
        t.valid(),
    ensures
        r == date_of(t),
{
    let (iso_year, week) = iso_week_of(t);
    CalendarDate { year: year_of(t), month: month_of(t), iso_year, iso_week: week }
}

/// The stretch of the calendar that decides over a snapshot taken at `t`, which lies on
/// `date`: its ISO week behind the weekly cutoff, its month behind the monthly one, its
/// year before that.
pub fn choose_bucket(
    t: Timestamp,
    date: CalendarDate,
    weekly_cutoff: &Timestamp,
    monthly_cutoff: &Timestamp,
) -> (r: Bucket)
    ensures
        r == (if weekly_cutoff.before(t) {
            Bucket::Week(date.iso_year, date.iso_week)
        } else if monthly_cutoff.before(t) {
            Bucket::Month(date.year, date.month)
        } else {
            Bucket::Year(date.year)
        }),
{
    if weekly_cutoff.is_before(&t) {
        Bucket::Week(date.iso_year, date.iso_week)
    } else if monthly_cutoff.is_before(&t) {
        Bucket::Month(date.year, date.month)
    } else {
        Bucket::Year(date.year)
    }
}

fn seen_before(seen: &Vec<Bucket>, b: Bucket) -> (r: bool)
    ensures
        r == seen@.contains(b),
{
    let mut i: usize = 0;
    while i < seen.len()
        invariant
            i <= seen@.len(),
            forall|j: int| 0 <= j < i ==> seen@[j] != b,
        decreases seen@.len() - i,
    {
        if seen[i] == b {
            return true;
        }
        i = i + 1;
    }
    false
}

/// A snapshot, with when it was taken and the stretch that decides over it, where it is
/// a managed one.
#[derive(Debug)]
pub struct Dated {
    pub name: String,
    pub taken: Option<(Timestamp, Bucket)>,
}

impl Dated {
    /// The stretch that decides over it.
    pub open spec fn bucket(self) -> Option<Bucket> {
        match self.taken {
            Some((_, b)) => Some(b),
            None => None,
        }
    }

    /// The instant it was taken.
    pub open spec fn time(self) -> Option<Timestamp> {
        match self.taken {
            Some((t, _)) => Some(t),
            None => None,
        }
    }
}

/// The instant a snapshot was taken.
pub open spec fn dated_time() -> spec_fn(Dated) -> Option<Timestamp> {
    |d: Dated| d.time()
}

/// Why the `i`-th of `order`, oldest first, is kept; `None` where it may go.
pub open spec fn fate_in(order: Seq<Dated>, i: int, recent: int) -> Option<KeepReason> {
    if i >= order.len() - recent {
        Some(KeepReason::Daily)
    } else {
        match order[i].bucket() {
            None => Some(KeepReason::Unmanaged),
            Some(b) => if exists|j: int| 0 <= j < i && (#[trigger] order[j]).bucket() == Some(b) {
                None
            } else {
                Some(b.reason())
            },
        }
    }
}

/// What is kept of the first `n` of `order`, with the reasons.
pub open spec fn kept_in(order: Seq<Dated>, n: int, recent: int) -> Seq<(Seq<char>, KeepReason)>
    decreases n,
{
    if n <= 0 {
        seq![]
    } else {
        match fate_in(order, n - 1, recent) {
            Some(reason) => kept_in(order, n - 1, recent).push((order[n - 1].name@, reason)),
            None => kept_in(order, n - 1, recent),
        }
    }
}

/// What may go of the first `n` of `order`.
pub open spec fn deleted_in(order: Seq<Dated>, n: int, recent: int) -> Seq<Seq<char>>
    decreases n,
{
    if n <= 0 {
        seq![]
    } else {
        match fate_in(order, n - 1, recent) {
            Some(_) => deleted_in(order, n - 1, recent),
            None => deleted_in(order, n - 1, recent).push(order[n - 1].name@),
        }
    }
}

fn oldest_to_newest(snapshots: &[Dated]) -> (r: Vec<Dated>)
    ensures
        r@ == ordered_by_time(snapshots@, dated_time()),
{
    let ghost all = snapshots@;
    let mut sorted: Vec<Dated> = Vec::new();
    let mut stamps: Vec<Option<Timestamp>> = Vec::new();
    let mut i: usize = 0;
    proof {
        assert(all.take(0) =~= seq![]);
        assert(stamps@ =~= sorted@.map_values(dated_time()));
    }
    while i < snapshots.len()
        invariant
            i <= snapshots@.len(),
            all == snapshots@,
            sorted@ == ordered_by_time(all.take(i as int), dated_time()),
            stamps@ == sorted@.map_values(dated_time()),
        decreases snapshots@.len() - i,
    {
        let d = Dated { name: snapshots[i].name.clone(), taken: snapshots[i].taken };
        let t = match d.taken {
            Some((t, _)) => Some(t),
            None => None,
        };
        proof {
            assert(all.take(i + 1).drop_last() =~= all.take(i as int));
            assert(all.take(i + 1).last() == d);
        }
        put_by_time(&mut sorted, &mut stamps, d, t, Ghost(dated_time()));
        i = i + 1;
    }
    assert(all.take(all.len() as int) =~= all);
    sorted
}

/// Parts snapshots into what is kept, each with its reason, and what may be deleted,
/// both oldest first. The newest `recent` are kept, and of the rest the oldest in each
/// stretch. Snapshots that are not managed are kept.
pub fn part(snapshots: &[Dated], recent: usize) -> (r: (Vec<(String, KeepReason)>, Vec<String>))
    ensures
        ({
            let order = ordered_by_time(snapshots@, dated_time());
            let n = snapshots@.len() as int;
            &&& kept_texts(r.0@) == kept_in(order, n, recent as int)
            &&& texts(r.1@) == deleted_in(order, n, recent as int)
        }),
{
    proof {
        ordering_is_a_stable_sort(snapshots@, dated_time());
    }
    let order = oldest_to_newest(snapshots);
    let ghost sorted = order@;
    let total: usize = order.len();
    let recent_start: usize = if recent > total {
        0
    } else {
        total - recent
    };
    let mut seen: Vec<Bucket> = Vec::new();
    let mut keep: Vec<(String, KeepReason)> = Vec::new();
    let mut delete: Vec<String> = Vec::new();
    let mut i: usize = 0;
    assert(kept_texts(keep@) =~= kept_in(sorted, 0, recent as int));
    assert(texts(delete@) =~= deleted_in(sorted, 0, recent as int));
    while i < total
        invariant
            i <= total,
            total == order@.len(),
            sorted == order@,
            recent_start == if recent > total {
                0
            } else {
                total - recent
            },
            kept_texts(keep@) == kept_in(sorted, i as int, recent as int),
            texts(delete@) == deleted_in(sorted, i as int, recent as int),
            forall|b: Bucket| #[trigger]
                seen@.contains(b) ==> exists|j: int|
                    0 <= j < i && (#[trigger] sorted[j]).bucket() == Some(b),
            forall|j: int|
                0 <= j < i && j < recent_start && (#[trigger] sorted[j]).bucket() is Some
                    ==> seen@.contains(sorted[j].bucket()->0),
        decreases total - i,
    {
        let name = &order[i].name;
        let ghost keep0 = keep@;
        let ghost delete0 = delete@;
        let ghost seen0 = seen@;
        assert(sorted[i as int].name@ == name@);
        if i >= recent_start {
            keep.push((name.clone(), KeepReason::Daily));
            assert(kept_texts(keep@) =~= kept_texts(keep0).push((name@, KeepReason::Daily)));
        } else {
            match order[i].taken {
                None => {
                    keep.push((name.clone(), KeepReason::Unmanaged));
                    assert(kept_texts(keep@) =~= kept_texts(keep0).push(
                        (name@, KeepReason::Unmanaged),
                    ));
                },
                Some((_, b)) => {
                    assert(sorted[i as int].bucket() == Some(b));
                    if seen_before(&seen, b) {
                        delete.push(name.clone());
                        proof {
                            lemma_texts_push(delete0, *name);
                        }
                    } else {
                        let reason = b.keep_reason();
                        keep.push((name.clone(), reason));
                        assert(kept_texts(keep@) =~= kept_texts(keep0).push((name@, reason)));
                        seen.push(b);
                        assert(seen@.last() == b);
                        assert forall|c: Bucket| #[trigger] seen@.contains(c) implies exists|j: int|
                            0 <= j < i + 1 && (#[trigger] sorted[j]).bucket() == Some(c) by {
                            if c == b {
                                assert(sorted[i as int].bucket() == Some(c));
                            } else {
                                let k = choose|k: int| 0 <= k < seen@.len() && seen@[k] == c;
                                assert(seen0[k] == c);
                                assert(seen0.contains(c));
                            }
                        }
                        assert forall|j: int|
                            0 <= j < i + 1 && j < recent_start && (
                            #[trigger] sorted[j]).bucket() is Some implies seen@.contains(
                            sorted[j].bucket()->0,
                        ) by {
                            if j < i {
                                let c = sorted[j].bucket()->0;
                                assert(seen0.contains(c));
                                let k = choose|k: int| 0 <= k < seen0.len() && seen0[k] == c;
                                assert(seen@[k] == c);
                            }
                        }
                    }
                },
            }
        }
        i = i + 1;
    }
    (keep, delete)
}

/// Whether a snapshot has the time and the stretch that its name gives.
spec fn well_dated(d: Dated, now: Timestamp, config: RetentionConfig) -> bool {
    d.time() == stamp(d.name@) && d.bucket() == bucket(d.name@, now, config)
}

proof fn lemma_well_dated(
    order: Seq<Dated>,
    names: Seq<Seq<char>>,
    n: int,
    now: Timestamp,
    config: RetentionConfig,
)
    requires
        0 <= n <= order.len() == names.len(),
        forall|i: int| 0 <= i < order.len() ==> (#[trigger] order[i]).name@ == names[i],
        forall|i: int| 0 <= i < order.len() ==> well_dated(#[trigger] order[i], now, config),
    ensures
        kept_in(order, n, config.recent as int) == kept_of(names, n, now, config),
        deleted_in(order, n, config.recent as int) == deleted_of(names, n, now, config),
    decreases n,
{
    if n > 0 {
        lemma_well_dated(order, names, n - 1, now, config);
        let i = n - 1;
        assert(well_dated(order[i], now, config));
        match bucket(names[i], now, config) {
            Some(b) => {
                if exists|j: int| 0 <= j < i && (#[trigger] order[j]).bucket() == Some(b) {
                    let j = choose|j: int| 0 <= j < i && (#[trigger] order[j]).bucket() == Some(b);
                    assert(bucket(names[j], now, config) == Some(b));
                }
                if exists|j: int| 0 <= j < i && bucket(#[trigger] names[j], now, config) == Some(b) {
                    let j = choose|j: int|
                        0 <= j < i && bucket(#[trigger] names[j], now, config) == Some(b);
                    assert(order[j].bucket() == Some(b));
                }
            },
            None => {},
        }
        assert(fate_in(order, i, config.recent as int) == fate(names, i, now, config));
    }
}

/// Parts `snapshots` into what the policy keeps, each with its reason, and what
/// may be deleted, both oldest first.
///
/// The newest `config.recent` are kept. Of the rest, the oldest in each ISO week,
/// month or year is kept, by the window it falls in. Snapshots that are not
/// managed are kept.
pub fn apply(snapshots: &[String], now: Timestamp, config: &RetentionConfig) -> (r: (
    Vec<(String, KeepReason)>,
    Vec<String>,
))
    requires
        config.fits(now),
    ensures
        kept_texts(r.0@) == policy_keeps(texts(snapshots@), now, *config),
        texts(r.1@) == policy_deletes(texts(snapshots@), now, *config),
{
    let weekly_cutoff = minus_days(now, config.weekly_for_days);
    let monthly_cutoff = minus_days(now, config.monthly_for_days);
    let mut dated: Vec<Dated> = Vec::new();
    let mut i: usize = 0;
    while i < snapshots.len()
        invariant
            i <= snapshots@.len(),
            dated@.len() == i,
            weekly_cutoff == cutoff(now, config.weekly_for_days),
            monthly_cutoff == cutoff(now, config.monthly_for_days),
            forall|j: int| 0 <= j < i ==> (#[trigger] dated@[j]).name@ == snapshots@[j]@,
            forall|j: int| 0 <= j < i ==> well_dated(#[trigger] dated@[j], now, *config),
        decreases snapshots@.len() - i,
    {
        let name = snapshots[i].clone();
        let taken = match parse(name.as_str()) {
            Some(t) => Some((t, choose_bucket(t, date_at(t), &weekly_cutoff, &monthly_cutoff))),
            None => None,
        };
        dated.push(Dated { name, taken });
        i = i + 1;
    }
    proof {
        let all = dated@;
        let name = |d: Dated| d.name@;
        let order = ordered_by_time(all, dated_time());
        let names = in_time_order(texts(snapshots@));
        assert(all.map_values(name) =~= texts(snapshots@));
        assert forall|j: int| 0 <= j < all.len() implies dated_time()(#[trigger] all[j]) == stamp(
            name(all[j]),
        ) by {
            assert(well_dated(all[j], now, *config));
        }
        lemma_ordered_names(all, dated_time(), name);
        ordering_is_a_stable_sort(all, dated_time());
        assert forall|j: int| 0 <= j < order.len() implies (#[trigger] order[j]).name@
            == names[j] by {
            assert(order.map_values(name)[j] == name(order[j]));
        }
        assert forall|j: int| 0 <= j < order.len() implies well_dated(
            #[trigger] order[j],
            now,
            *config,
        ) by {
            assert(all.contains(order[j]));
            let k = choose|k: int| 0 <= k < all.len() && all[k] == order[j];
            assert(well_dated(all[k], now, *config));
        }
        time_order_is_a_stable_sort(texts(snapshots@));
        lemma_well_dated(order, names, order.len() as int, now, *config);
    }
    part(dated.as_slice(), config.recent)
}

// ---------------------------------------------------------------------------
// Laws
// ---------------------------------------------------------------------------

/// The names in a list of kept snapshots.
pub open spec fn kept_names(kept: Seq<(Seq<char>, KeepReason)>) -> Seq<Seq<char>> {
    kept.map_values(|e: (Seq<char>, KeepReason)| e.0)
}

proof fn lemma_kept_push(kept: Seq<(Seq<char>, KeepReason)>, e: (Seq<char>, KeepReason))
    ensures
        kept_names(kept.push(e)) == kept_names(kept).push(e.0),
{
    assert(kept_names(kept.push(e)) =~= kept_names(kept).push(e.0));
}

proof fn lemma_partition(
    order: Seq<Seq<char>>,
    n: int,
    now: Timestamp,
    config: RetentionConfig,
)
    requires
        0 <= n <= order.len(),
    ensures
        kept_names(kept_of(order, n, now, config)).to_multiset().add(
            deleted_of(order, n, now, config).to_multiset(),
        ) == order.take(n).to_multiset(),
    decreases n,
{
    broadcast use vstd::seq_lib::group_to_multiset_ensures;

    if n == 0 {
        assert(order.take(0) =~= Seq::empty());
        assert(kept_names(kept_of(order, 0, now, config)) =~= Seq::empty());
        assert(deleted_of(order, 0, now, config) =~= Seq::empty());
        assert(Seq::<Seq<char>>::empty().to_multiset().add(
            Seq::<Seq<char>>::empty().to_multiset(),
        ) =~= Seq::<Seq<char>>::empty().to_multiset());
    } else {
        lemma_partition(order, n - 1, now, config);
        let x = order[n - 1];
        assert(order.take(n) =~= order.take(n - 1).push(x));
        let k = kept_of(order, n - 1, now, config);
        let d = deleted_of(order, n - 1, now, config);
        match fate(order, n - 1, now, config) {
            Some(reason) => {
                lemma_kept_push(k, (x, reason));
                assert(kept_names(k).push(x).to_multiset().add(d.to_multiset())
                    =~= order.take(n).to_multiset());
            },
            None => {
                assert(kept_names(k).to_multiset().add(d.push(x).to_multiset()) =~= order.take(
                    n,
                ).to_multiset());
            },
        }
    }
}

/// Every snapshot is either kept or given up, once for each time it is listed,
/// and nothing else is.
pub proof fn policy_partitions_the_snapshots(
    snapshots: Seq<Seq<char>>,
    now: Timestamp,
    config: RetentionConfig,
)
    ensures
        kept_names(policy_keeps(snapshots, now, config)).to_multiset().add(
            policy_deletes(snapshots, now, config).to_multiset(),
        ) == snapshots.to_multiset(),
{
    time_order_is_a_stable_sort(snapshots);
    let order = in_time_order(snapshots);
    lemma_partition(order, snapshots.len() as int, now, config);
    assert(order.take(order.len() as int) =~= order);
}

/// The place in `order` from which the `k`-th kept snapshot comes.
spec fn place_of(
    order: Seq<Seq<char>>,
    n: int,
    now: Timestamp,
    config: RetentionConfig,
    k: int,
    i: int,
) -> bool {
    &&& 0 <= i < n
    &&& kept_of(order, i, now, config).len() == k
    &&& fate(order, i, now, config) == Some(kept_of(order, n, now, config)[k].1)
    &&& order[i] == kept_of(order, n, now, config)[k].0
}

/// Every kept snapshot comes from a place.
proof fn lemma_place_of(
    order: Seq<Seq<char>>,
    n: int,
    now: Timestamp,
    config: RetentionConfig,
    k: int,
) -> (i: int)
    requires
        0 <= n <= order.len(),
        0 <= k < kept_of(order, n, now, config).len(),
    ensures
        place_of(order, n, now, config, k, i),
    decreases n,
{
    let before = kept_of(order, n - 1, now, config);
    if k < before.len() {
        lemma_place_of(order, n - 1, now, config, k)
    } else {
        n - 1
    }
}

/// What is kept of the first `m` stands first in what is kept of more.
pub proof fn lemma_kept_grows(
    order: Seq<Seq<char>>,
    m: int,
    n: int,
    now: Timestamp,
    config: RetentionConfig,
)
    requires
        0 <= m <= n <= order.len(),
    ensures
        kept_of(order, m, now, config).len() <= kept_of(order, n, now, config).len(),
        kept_of(order, n, now, config).len() <= kept_of(order, m, now, config).len() + (n - m),
        kept_of(order, m, now, config) == kept_of(order, n, now, config).take(
            kept_of(order, m, now, config).len() as int,
        ),
    decreases n,
{
    let a = kept_of(order, m, now, config);
    if m < n {
        lemma_kept_grows(order, m, n - 1, now, config);
        let b = kept_of(order, n - 1, now, config);
        let c = kept_of(order, n, now, config);
        assert(c.take(a.len() as int) =~= b.take(a.len() as int));
    } else {
        assert(a.take(a.len() as int) =~= a);
    }
}

/// The newest snapshots, as many as the configuration says, are kept.
pub proof fn newest_are_kept(
    snapshots: Seq<Seq<char>>,
    now: Timestamp,
    config: RetentionConfig,
    i: int,
)
    requires
        0 <= i < snapshots.len(),
        i >= snapshots.len() - config.recent,
    ensures
        policy_keeps(snapshots, now, config).contains(
            (in_time_order(snapshots)[i], KeepReason::Daily),
        ),
{
    time_order_is_a_stable_sort(snapshots);
    let order = in_time_order(snapshots);
    let n = snapshots.len() as int;
    lemma_kept_grows(order, i + 1, n, now, config);
    let k = kept_of(order, i, now, config).len() as int;
    assert(kept_of(order, i + 1, now, config)[k] == (order[i], KeepReason::Daily));
    assert(policy_keeps(snapshots, now, config)[k] == (order[i], KeepReason::Daily));
}

/// The place in `order` from which a snapshot comes that is given up.
pub proof fn lemma_deleted(
    order: Seq<Seq<char>>,
    n: int,
    now: Timestamp,
    config: RetentionConfig,
    d: int,
) -> (i: int)
    requires
        0 <= n <= order.len(),
        0 <= d < deleted_of(order, n, now, config).len(),
    ensures
        0 <= i < n,
        order[i] == deleted_of(order, n, now, config)[d],
        fate(order, i, now, config) is None,
    decreases n,
{
    let before = deleted_of(order, n - 1, now, config);
    if d < before.len() {
        lemma_deleted(order, n - 1, now, config, d)
    } else {
        n - 1
    }
}

/// What may go at a place is among what may go of all.
pub proof fn lemma_deleted_grows(
    order: Seq<Seq<char>>,
    i: int,
    n: int,
    now: Timestamp,
    config: RetentionConfig,
)
    requires
        0 <= i < n <= order.len(),
        fate(order, i, now, config) is None,
    ensures
        deleted_of(order, n, now, config).contains(order[i]),
    decreases n,
{
    let all = deleted_of(order, n, now, config);
    let before = deleted_of(order, n - 1, now, config);
    if i == n - 1 {
        assert(all[before.len() as int] == order[i]);
    } else {
        lemma_deleted_grows(order, i, n - 1, now, config);
        let k = choose|k: int| 0 <= k < before.len() && before[k] == order[i];
        assert(all[k] == order[i]);
    }
}

/// The first of `order` in the stretch `b`.
proof fn lemma_first_of_bucket(
    order: Seq<Seq<char>>,
    i: int,
    now: Timestamp,
    config: RetentionConfig,
    b: Bucket,
) -> (j: int)
    requires
        0 <= i < order.len(),
        bucket(order[i], now, config) == Some(b),
    ensures
        0 <= j <= i,
        bucket(order[j], now, config) == Some(b),
        forall|k: int| 0 <= k < j ==> bucket(#[trigger] order[k], now, config) != Some(b),
    decreases i,
{
    if exists|k: int| 0 <= k < i && bucket(#[trigger] order[k], now, config) == Some(b) {
        let k = choose|k: int| 0 <= k < i && bucket(#[trigger] order[k], now, config) == Some(b);
        lemma_first_of_bucket(order, k, now, config, b)
    } else {
        i
    }
}

/// A snapshot that is given up is a managed one, and of its week, month or year
/// another is kept that is not later.
pub proof fn deleted_have_an_older_survivor(
    snapshots: Seq<Seq<char>>,
    now: Timestamp,
    config: RetentionConfig,
    d: int,
)
    requires
        0 <= d < policy_deletes(snapshots, now, config).len(),
    ensures
        stamp(policy_deletes(snapshots, now, config)[d]) is Some,
        exists|k: int|
            0 <= k < policy_keeps(snapshots, now, config).len() && bucket(
                (#[trigger] policy_keeps(snapshots, now, config)[k]).0,
                now,
                config,
            ) == bucket(policy_deletes(snapshots, now, config)[d], now, config) && stamp_le(
                stamp(policy_keeps(snapshots, now, config)[k].0),
                stamp(policy_deletes(snapshots, now, config)[d]),
            ),
{
    time_order_is_a_stable_sort(snapshots);
    let order = in_time_order(snapshots);
    let n = snapshots.len() as int;
    let i = lemma_deleted(order, n, now, config, d);
    let b = bucket(order[i], now, config)->0;
    let j = lemma_first_of_bucket(order, i, now, config, b);
    assert(fate(order, j, now, config) == Some(b.reason()));
    lemma_kept_grows(order, j + 1, n, now, config);
    let k = kept_of(order, j, now, config).len() as int;
    assert(kept_of(order, j + 1, now, config)[k] == (order[j], b.reason()));
    assert(policy_keeps(snapshots, now, config)[k] == (order[j], b.reason()));
    if j < i {
        assert(stamp_le(stamp(order[j]), stamp(order[i])));
    }
}

/// Beyond the newest, one snapshot at most is kept of a week, month or year.
pub proof fn one_survivor_per_bucket(
    snapshots: Seq<Seq<char>>,
    now: Timestamp,
    config: RetentionConfig,
    a: int,
    b: int,
)
    requires
        0 <= a < b < policy_keeps(snapshots, now, config).len(),
        policy_keeps(snapshots, now, config)[b].1 != KeepReason::Daily,
        stamp(policy_keeps(snapshots, now, config)[b].0) is Some,
    ensures
        bucket(policy_keeps(snapshots, now, config)[a].0, now, config) != bucket(
            policy_keeps(snapshots, now, config)[b].0,
            now,
            config,
        ),
{
    time_order_is_a_stable_sort(snapshots);
    let order = in_time_order(snapshots);
    let n = snapshots.len() as int;
    let i = lemma_place_of(order, n, now, config, a);
    let j = lemma_place_of(order, n, now, config, b);
    if j <= i {
        lemma_kept_grows(order, j, i, now, config);
    }
    assert(i < j);
}

proof fn lemma_kept_chronological(
    order: Seq<Seq<char>>,
    n: int,
    now: Timestamp,
    config: RetentionConfig,
)
    requires
        0 <= n <= order.len(),
        chronological(order),
    ensures
        chronological(kept_names(kept_of(order, n, now, config))),
{
    let kept = kept_of(order, n, now, config);
    let names = kept_names(kept);
    assert forall|a: int, b: int| 0 <= a < b < names.len() implies stamp_le(
        stamp(#[trigger] names[a]),
        stamp(#[trigger] names[b]),
    ) by {
        let i = lemma_place_of(order, n, now, config, a);
        let j = lemma_place_of(order, n, now, config, b);
        if j <= i {
            lemma_kept_grows(order, j, i, now, config);
        }
        assert(stamp_le(stamp(order[i]), stamp(order[j])));
    }
}

/// At one instant the policy is settled after one run: of what it keeps, it gives
/// up nothing, and keeps all in the same order.
pub proof fn pruning_again_deletes_nothing(
    snapshots: Seq<Seq<char>>,
    now: Timestamp,
    config: RetentionConfig,
)
    ensures
        policy_deletes(kept_names(policy_keeps(snapshots, now, config)), now, config).len() == 0,
        kept_names(policy_keeps(kept_names(policy_keeps(snapshots, now, config)), now, config))
            == kept_names(policy_keeps(snapshots, now, config)),
{
    time_order_is_a_stable_sort(snapshots);
    let order = in_time_order(snapshots);
    let n = snapshots.len() as int;
    let kept = policy_keeps(snapshots, now, config);
    let names = kept_names(kept);
    lemma_kept_chronological(order, n, now, config);
    lemma_sorted_stays(names);
    assert forall|k: int| 0 <= k < names.len() implies fate(names, k, now, config) is Some by {
        let i = lemma_place_of(order, n, now, config, k);
        if k < names.len() - config.recent {
            lemma_kept_grows(order, i + 1, n, now, config);
            assert(i < order.len() - config.recent);
            match bucket(names[k], now, config) {
                Some(b) => {
                    if exists|j: int|
                        0 <= j < k && bucket(#[trigger] names[j], now, config) == Some(b) {
                        let j = choose|j: int|
                            0 <= j < k && bucket(#[trigger] names[j], now, config) == Some(b);
                        let h = lemma_place_of(order, n, now, config, j);
                        if i <= h {
                            lemma_kept_grows(order, i, h, now, config);
                        }
                        assert(bucket(order[h], now, config) == Some(b));
                    }
                },
                None => {},
            }
        }
    }
    lemma_nothing_deleted(names, names.len() as int, now, config);
    assert(names.take(names.len() as int) =~= names);
}

proof fn lemma_nothing_deleted(
    order: Seq<Seq<char>>,
    n: int,
    now: Timestamp,
    config: RetentionConfig,
)
    requires
        0 <= n <= order.len(),
        forall|k: int| 0 <= k < n ==> (#[trigger] fate(order, k, now, config)) is Some,
    ensures
        deleted_of(order, n, now, config).len() == 0,
        kept_names(kept_of(order, n, now, config)) == order.take(n),
    decreases n,
{
    if n > 0 {
        lemma_nothing_deleted(order, n - 1, now, config);
        assert(fate(order, n - 1, now, config) is Some);
        let kept = kept_of(order, n - 1, now, config);
        lemma_kept_push(kept, (order[n - 1], fate(order, n - 1, now, config)->0));
        assert(order.take(n) =~= order.take(n - 1).push(order[n - 1]));
    } else {
        assert(kept_names(kept_of(order, 0, now, config)) =~= order.take(0));
    }
}

} // verus!
