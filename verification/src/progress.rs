//! Progress of transfers, as lines of text.

use crate::double::{
    divided, double_quotient, nearest, quotient_rounded, reaches, rounded_quotient, rounded_times,
    seconds_of, whole_of, Double,
};
use crate::number::{decimal, decimal_text};
use crate::text::{
    chars_of, distinct_keys, insert_sorted, lookup, str_eq, string_of, texts, texts_sorted,
};
use crate::tui::SendEvent;
use vstd::prelude::*;
use vstd::string::*;

verus! {

// ---------------------------------------------------------------------------
// Text
// ---------------------------------------------------------------------------

/// A number of tenths with its decimal point.
pub open spec fn tenths_text(n: int) -> Seq<char> {
    decimal_text(n / 10) + "."@ + decimal_text(n % 10)
}

/// A number of bytes in the unit that suits it: gigabytes with one decimal, mega- and
/// kilobytes without. The quotient is a floating-point number.
pub open spec fn bytes_text(bytes: int) -> Seq<char> {
    if bytes >= 1_000_000_000 {
        let (t, g) = double_quotient(bytes, 1_000_000_000);
        tenths_text(rounded_times(t, g, 10)) + " GB"@
    } else if bytes >= 1_000_000 {
        let (t, g) = double_quotient(bytes, 1_000_000);
        decimal_text(rounded_times(t, g, 1)) + " MB"@
    } else if bytes >= 1_000 {
        let (t, g) = double_quotient(bytes, 1_000);
        decimal_text(rounded_times(t, g, 1)) + " KB"@
    } else {
        decimal_text(bytes) + " B"@
    }
}

/// A speed in bytes per second, in the unit that suits it: megabytes with one decimal,
/// kilobytes and bytes without. The quotient is a floating-point number.
pub open spec fn speed_text(bps: (int, int)) -> Seq<char> {
    if reaches(bps, 1_000_000) {
        tenths_text(rounded_quotient(bps, 1_000_000, 10)) + " MB/s"@
    } else if reaches(bps, 1_000) {
        decimal_text(rounded_quotient(bps, 1_000, 1)) + " KB/s"@
    } else {
        decimal_text(rounded_times(bps.0, bps.1, 1)) + " B/s"@
    }
}

/// Whole seconds, and minutes where there are any.
pub open spec fn duration_text(seconds: (int, int)) -> Seq<char> {
    let secs = whole_of(seconds);
    if secs >= 60 {
        decimal_text(secs / 60) + "m "@ + (if secs % 60 < 10 {
            "0"@
        } else {
            ""@
        }) + decimal_text(secs % 60) + "s"@
    } else {
        decimal_text(secs) + "s"@
    }
}

/// The time left, where it is known.
pub open spec fn eta_text(eta_secs: Option<Double>) -> Seq<char> {
    match eta_secs {
        Some(secs) => "ETA "@ + duration_text(secs.parts()),
        None => "ETA ?"@,
    }
}

/// How much of a transfer is done, in percent; never more than all of it, and nothing
/// of one without a size.
pub open spec fn percent_of(bytes_sent: int, total_bytes: int) -> int {
    if total_bytes == 0 {
        0
    } else if bytes_sent * 100 / total_bytes > 100 {
        100
    } else {
        bytes_sent * 100 / total_bytes
    }
}

/// The line of a transfer that goes on.
pub open spec fn active_line(
    remote: Seq<char>,
    bytes_sent: u64,
    total_bytes: u64,
    speed_bps: Double,
    eta_secs: Option<Double>,
) -> Seq<char> {
    remote + ": "@ + bytes_text(bytes_sent as int) + " / "@ + bytes_text(total_bytes as int)
        + " ("@ + decimal_text(percent_of(bytes_sent as int, total_bytes as int)) + "%) "@
        + speed_text(speed_bps.parts()) + "  "@ + eta_text(eta_secs)
}

fn tenths(n: u128) -> (r: String)
    ensures
        r@ == tenths_text(n as int),
{
    decimal(n / 10).concat(".").concat(decimal(n % 10).as_str())
}

/// A number of bytes in the unit that suits it.
pub fn fmt_bytes(bytes: u64) -> (r: String)
    ensures
        r@ == bytes_text(bytes as int),
{
    if bytes >= 1_000_000_000 {
        tenths(quotient_rounded(bytes, 1_000_000_000, 10)).concat(" GB")
    } else if bytes >= 1_000_000 {
        decimal(quotient_rounded(bytes, 1_000_000, 1)).concat(" MB")
    } else if bytes >= 1_000 {
        decimal(quotient_rounded(bytes, 1_000, 1)).concat(" KB")
    } else {
        decimal(bytes as u128).concat(" B")
    }
}

/// A speed in bytes per second, in the unit that suits it.
pub fn fmt_speed(bps: Double) -> (r: String)
    requires
        bps.valid(),
    ensures
        r@ == speed_text(bps.parts()),
{
    if bps.at_least(1_000_000) {
        tenths(bps.quotient(1_000_000, 10)).concat(" MB/s")
    } else if bps.at_least(1_000) {
        decimal(bps.quotient(1_000, 1)).concat(" KB/s")
    } else {
        decimal(bps.rounded()).concat(" B/s")
    }
}

/// Whole seconds, and minutes where there are any.
pub fn fmt_duration(secs: Double) -> (r: String)
    requires
        secs.valid(),
    ensures
        r@ == duration_text(secs.parts()),
{
    let s: u64 = secs.whole();
    if s >= 60 {
        let zero = if s % 60 < 10 {
            "0"
        } else {
            ""
        };
        decimal((s / 60) as u128).concat("m ").concat(zero).concat(
            decimal((s % 60) as u128).as_str(),
        ).concat("s")
    } else {
        decimal(s as u128).concat("s")
    }
}

/// Whether a time is one, where there is one.
pub open spec fn valid_eta(eta_secs: Option<Double>) -> bool {
    match eta_secs {
        Some(secs) => secs.valid(),
        None => true,
    }
}

/// The time left, where it is known.
pub fn fmt_eta(eta_secs: Option<Double>) -> (r: String)
    requires
        valid_eta(eta_secs),
    ensures
        r@ == eta_text(eta_secs),
{
    match eta_secs {
        Some(secs) => "ETA ".to_owned().concat(fmt_duration(secs).as_str()),
        None => "ETA ?".to_owned(),
    }
}

/// How much of a transfer is done, in percent.
pub fn percent(bytes_sent: u64, total_bytes: u64) -> (r: u8)
    ensures
        r == percent_of(bytes_sent as int, total_bytes as int),
        r <= 100,
{
    if total_bytes == 0 {
        return 0;
    }
    let p: u128 = bytes_sent as u128 * 100 / total_bytes as u128;
    if p > 100 {
        100
    } else {
        p as u8
    }
}

/// The line of a transfer that goes on.
pub fn fmt_active_line(
    remote: &str,
    bytes_sent: u64,
    total_bytes: u64,
    speed_bps: Double,
    eta_secs: Option<Double>,
) -> (r: String)
    requires
        speed_bps.valid(),
        valid_eta(eta_secs),
    ensures
        r@ == active_line(remote@, bytes_sent, total_bytes, speed_bps, eta_secs),
{
    remote.to_owned().concat(": ").concat(fmt_bytes(bytes_sent).as_str()).concat(" / ").concat(
        fmt_bytes(total_bytes).as_str(),
    ).concat(" (").concat(decimal(percent(bytes_sent, total_bytes) as u128).as_str()).concat(
        "%) ",
    ).concat(fmt_speed(speed_bps).as_str()).concat("  ").concat(fmt_eta(eta_secs).as_str())
}

// ---------------------------------------------------------------------------
// Speed
// ---------------------------------------------------------------------------

/// `a - b`, or zero.
pub open spec fn minus(a: u64, b: u64) -> u64 {
    if a > b {
        (a - b) as u64
    } else {
        0
    }
}

/// Bytes per second, where so many were sent in so many nanoseconds.
pub open spec fn speed_of(sent: u64, nanos: u64) -> (int, int) {
    divided(nearest(sent as int, 1), seconds_of(nanos as int))
}

/// Seconds that `left` bytes take at a speed.
pub open spec fn time_of(left: u64, bps: (int, int)) -> (int, int) {
    divided(nearest(left as int, 1), bps)
}

/// Speed and time left after `bytes_sent` bytes at the time `now`, where `last` is the
/// time and the count of the report before. Without time between the two, `speed_bps` and
/// `eta_secs` stand. Where nothing was sent, the time left is not known.
pub open spec fn measured(
    last: Option<(u64, u64)>,
    total_bytes: u64,
    speed_bps: Double,
    eta_secs: Option<Double>,
    now: u64,
    bytes_sent: u64,
) -> (Double, Option<Double>) {
    match last {
        Some((time, bytes)) => if now > time {
            let sent = minus(bytes_sent, bytes);
            let speed = speed_of(sent, (now - time) as u64);
            (
                Double::of(speed),
                if sent > 0 {
                    Some(Double::of(time_of(minus(total_bytes, bytes_sent), speed)))
                } else {
                    None
                },
            )
        } else {
            (speed_bps, eta_secs)
        },
        None => (Double::nothing(), None),
    }
}

/// Speed and time left after `bytes_sent` bytes at the time `now`.
pub fn measure(
    last: Option<(u64, u64)>,
    total_bytes: u64,
    speed_bps: Double,
    eta_secs: Option<Double>,
    now: u64,
    bytes_sent: u64,
) -> (r: (Double, Option<Double>))
    requires
        speed_bps.valid(),
        valid_eta(eta_secs),
    ensures
        r == measured(last, total_bytes, speed_bps, eta_secs, now, bytes_sent),
        r.0.valid(),
        valid_eta(r.1),
{
    match last {
        Some((time, bytes)) => {
            if now > time {
                let sent: u64 = bytes_sent.saturating_sub(bytes);
                let speed = Double::from_u64(sent).divided_by(Double::from_nanos(now - time));
                if sent > 0 {
                    let left: u64 = total_bytes.saturating_sub(bytes_sent);
                    (speed, Some(Double::from_u64(left).divided_by(speed)))
                } else {
                    (speed, None)
                }
            } else {
                (speed_bps, eta_secs)
            }
        },
        None => (Double::zero(), None),
    }
}

// ---------------------------------------------------------------------------
// The tracker
// ---------------------------------------------------------------------------

/// Where the transfer to a remote stands.
#[derive(Clone, Copy, Debug, PartialEq, Eq, Structural)]
pub enum RemoteEntryState {
    Waiting,
    Active { bytes_sent: u64, total_bytes: u64, speed_bps: Double, eta_secs: Option<Double> },
    /// It is over, one way or another.
    Terminal,
}

/// The transfer to a remote.
#[derive(Clone, Copy, Debug, PartialEq, Eq)]
pub struct RemoteEntry {
    pub state: RemoteEntryState,
    /// The time of the last report and the count it gave.
    pub last_progress: Option<(u64, u64)>,
}

impl RemoteEntry {
    /// Whether its speed and the time left are numbers.
    pub open spec fn valid(self) -> bool {
        match self.state {
            RemoteEntryState::Active { speed_bps, eta_secs, .. } => speed_bps.valid()
                && valid_eta(eta_secs),
            _ => true,
        }
    }

    /// A transfer that has not begun.
    pub open spec fn idle() -> RemoteEntry {
        RemoteEntry { state: RemoteEntryState::Waiting, last_progress: None }
    }

    fn waiting() -> (r: RemoteEntry)
        ensures
            r == RemoteEntry::idle(),
    {
        RemoteEntry { state: RemoteEntryState::Waiting, last_progress: None }
    }
}

/// The transfers to all remotes, by row key.
#[derive(Debug)]
pub struct ProgressTracker {
    pub remotes: Vec<(String, RemoteEntry)>,
    pub done: bool,
}

/// Entry of a transfer that has just begun.
pub open spec fn started(total_bytes: u64, now: u64) -> RemoteEntry {
    RemoteEntry {
        state: RemoteEntryState::Active {
            bytes_sent: 0,
            total_bytes,
            speed_bps: Double::nothing(),
            eta_secs: None,
        },
        last_progress: Some((now, 0)),
    }
}

/// Entry of a transfer after a report.
pub open spec fn reported(entry: RemoteEntry, bytes_sent: u64, now: u64) -> RemoteEntry {
    RemoteEntry {
        state: match entry.state {
            RemoteEntryState::Active { total_bytes, speed_bps, eta_secs, .. } => {
                let (rate, eta) = measured(
                    entry.last_progress,
                    total_bytes,
                    speed_bps,
                    eta_secs,
                    now,
                    bytes_sent,
                );
                RemoteEntryState::Active { bytes_sent, total_bytes, speed_bps: rate, eta_secs: eta }
            },
            s => s,
        },
        last_progress: Some((now, bytes_sent)),
    }
}

/// Entry of a transfer that is over.
pub open spec fn ended(entry: RemoteEntry) -> RemoteEntry {
    RemoteEntry { state: RemoteEntryState::Terminal, last_progress: entry.last_progress }
}

/// What a table holds under `name` after an event. Only a transfer that begins makes a
/// new entry.
pub open spec fn entry_after(
    table: Seq<(String, RemoteEntry)>,
    event: SendEvent,
    now: u64,
    name: Seq<char>,
) -> Option<RemoteEntry> {
    let before = lookup(table, name);
    match event {
        SendEvent::RemoteStarted { remote, total_bytes } => if remote@ == name {
            Some(started(total_bytes, now))
        } else {
            before
        },
        SendEvent::RemoteProgress { remote, bytes_sent } => if remote@ == name && before is Some {
            Some(reported(before->0, bytes_sent, now))
        } else {
            before
        },
        SendEvent::RemoteCompleted { remote, .. } => if remote@ == name && before is Some {
            Some(ended(before->0))
        } else {
            before
        },
        SendEvent::RemoteFailed { remote, .. } => if remote@ == name && before is Some {
            Some(ended(before->0))
        } else {
            before
        },
        SendEvent::RemoteSkipped { remote } => if remote@ == name && before is Some {
            Some(ended(before->0))
        } else {
            before
        },
        _ => before,
    }
}

/// The line to print at once after an event.
pub open spec fn line_after(event: SendEvent) -> Option<Seq<char>> {
    match event {
        SendEvent::RemoteCompleted { remote, elapsed_nanos, bytes } => Some(
            remote@ + ": done \u{2014} "@ + bytes_text(bytes as int) + " in "@ + duration_text(
                seconds_of(elapsed_nanos as int),
            ),
        ),
        SendEvent::RemoteFailed { remote, error } => Some(
            remote@ + ": failed \u{2014} "@ + error@,
        ),
        SendEvent::RemoteSkipped { remote } => Some(remote@ + ": skipped"@),
        _ => None,
    }
}

/// The lines of the transfers that go on.
pub open spec fn active_lines(table: Seq<(String, RemoteEntry)>) -> Seq<Seq<char>>
    decreases table.len(),
{
    if table.len() == 0 {
        seq![]
    } else {
        let before = active_lines(table.drop_last());
        match table.last().1.state {
            RemoteEntryState::Active { bytes_sent, total_bytes, speed_bps, eta_secs } => before.push(
                active_line(table.last().0@, bytes_sent, total_bytes, speed_bps, eta_secs),
            ),
            _ => before,
        }
    }
}

/// Whether `lines` are those of the transfers that go on, in order.
pub open spec fn ticks(table: Seq<(String, RemoteEntry)>, lines: Seq<Seq<char>>) -> bool {
    &&& texts_sorted(lines)
    &&& lines.to_multiset() == active_lines(table).to_multiset()
}

proof fn lemma_lookup_index(table: Seq<(String, RemoteEntry)>, name: Seq<char>)
    ensures
        match lookup(table, name) {
            Some(e) => exists|i: int|
                0 <= i < table.len() && (#[trigger] table[i]).0@ == name && table[i].1 == e
                    && forall|j: int| 0 <= j < i ==> (#[trigger] table[j]).0@ != name,
            None => forall|i: int| 0 <= i < table.len() ==> (#[trigger] table[i]).0@ != name,
        },
    decreases table.len(),
{
    if table.len() > 0 && table[0].0@ != name {
        let rest = table.drop_first();
        lemma_lookup_index(rest, name);
        match lookup(rest, name) {
            Some(e) => {
                let i = choose|i: int|
                    0 <= i < rest.len() && (#[trigger] rest[i]).0@ == name && rest[i].1 == e
                        && forall|j: int| 0 <= j < i ==> (#[trigger] rest[j]).0@ != name;
                assert(table[i + 1] == rest[i]);
                assert forall|j: int| 0 <= j < i + 1 implies (#[trigger] table[j]).0@ != name by {
                    if j > 0 {
                        assert(rest[j - 1] == table[j]);
                    }
                }
            },
            None => {
                assert forall|i: int| 0 <= i < table.len() implies (#[trigger] table[i]).0@
                    != name by {
                    if i > 0 {
                        assert(rest[i - 1] == table[i]);
                    }
                }
            },
        }
    }
}

proof fn lemma_lookup_at(table: Seq<(String, RemoteEntry)>, i: int)
    requires
        0 <= i < table.len(),
        forall|j: int| 0 <= j < i ==> (#[trigger] table[j]).0@ != table[i].0@,
    ensures
        lookup(table, table[i].0@) == Some(table[i].1),
    decreases table.len(),
{
    if i > 0 {
        let rest = table.drop_first();
        assert(table[0].0@ != table[i].0@);
        assert forall|j: int| 0 <= j < i - 1 implies (#[trigger] rest[j]).0@ != rest[i - 1].0@ by {
            assert(table[j + 1].0@ != table[i].0@);
        }
        lemma_lookup_at(rest, i - 1);
    }
}

/// What a table holds, once the entry at `i` is `e`.
proof fn lemma_lookup_update(table: Seq<(String, RemoteEntry)>, i: int, e: RemoteEntry, name: Seq<char>)
    requires
        distinct_keys(table),
        0 <= i < table.len(),
    ensures
        lookup(table.update(i, (table[i].0, e)), name) == if name == table[i].0@ {
            Some(e)
        } else {
            lookup(table, name)
        },
        distinct_keys(table.update(i, (table[i].0, e))),
{
    let next = table.update(i, (table[i].0, e));
    assert forall|a: int, b: int| 0 <= a < b < next.len() implies (#[trigger] next[a]).0@ != (
    #[trigger] next[b]).0@ by {
        assert(table[a].0@ != table[b].0@);
    }
    lemma_lookup_index(table, name);
    lemma_lookup_index(next, name);
    if name == table[i].0@ {
        lemma_lookup_at(next, i);
    } else {
        match lookup(table, name) {
            Some(x) => {
                let k = choose|k: int|
                    0 <= k < table.len() && (#[trigger] table[k]).0@ == name && table[k].1 == x
                        && forall|j: int| 0 <= j < k ==> (#[trigger] table[j]).0@ != name;
                assert(next[k] == table[k]);
                lemma_lookup_at(next, k);
            },
            None => {
                if lookup(next, name) is Some {
                    let k = choose|k: int|
                        0 <= k < next.len() && (#[trigger] next[k]).0@ == name && next[k].1
                            == lookup(next, name)->0 && forall|j: int|
                            0 <= j < k ==> (#[trigger] next[j]).0@ != name;
                    assert(table[k].0@ == name);
                }
            },
        }
    }
}

/// What a table holds, once an entry under a new name stands behind the last.
proof fn lemma_lookup_push(table: Seq<(String, RemoteEntry)>, key: String, e: RemoteEntry, name: Seq<char>)
    requires
        distinct_keys(table),
        lookup(table, key@) is None,
    ensures
        lookup(table.push((key, e)), name) == if name == key@ {
            Some(e)
        } else {
            lookup(table, name)
        },
        distinct_keys(table.push((key, e))),
{
    let next = table.push((key, e));
    lemma_lookup_index(table, key@);
    assert forall|a: int, b: int| 0 <= a < b < next.len() implies (#[trigger] next[a]).0@ != (
    #[trigger] next[b]).0@ by {
        assert(next[a] == table[a]);
        if b < table.len() {
            assert(next[b] == table[b]);
        }
    }
    lemma_lookup_index(table, name);
    lemma_lookup_index(next, name);
    if name == key@ {
        assert forall|j: int| 0 <= j < table.len() implies (#[trigger] next[j]).0@ != name by {
            assert(next[j] == table[j]);
        }
        lemma_lookup_at(next, table.len() as int);
    } else {
        match lookup(table, name) {
            Some(x) => {
                let k = choose|k: int|
                    0 <= k < table.len() && (#[trigger] table[k]).0@ == name && table[k].1 == x
                        && forall|j: int| 0 <= j < k ==> (#[trigger] table[j]).0@ != name;
                assert(next[k] == table[k]);
                assert forall|j: int| 0 <= j < k implies (#[trigger] next[j]).0@ != name by {
                    assert(next[j] == table[j]);
                }
                lemma_lookup_at(next, k);
            },
            None => {
                if lookup(next, name) is Some {
                    let k = choose|k: int|
                        0 <= k < next.len() && (#[trigger] next[k]).0@ == name && next[k].1
                            == lookup(next, name)->0 && forall|j: int|
                            0 <= j < k ==> (#[trigger] next[j]).0@ != name;
                    assert(table[k].0@ == name);
                }
            },
        }
    }
}

impl ProgressTracker {
    /// Whether every name stands in the table once, and every speed is a number.
    pub open spec fn valid(self) -> bool {
        &&& distinct_keys(self.remotes@)
        &&& forall|i: int| 0 <= i < self.remotes@.len() ==> (#[trigger] self.remotes@[i]).1.valid()
    }

    fn index_of(&self, name: &str) -> (r: Option<usize>)
        requires
            self.valid(),
        ensures
            match r {
                Some(i) => i < self.remotes@.len() && self.remotes@[i as int].0@ == name@ && lookup(
                    self.remotes@,
                    name@,
                ) == Some(self.remotes@[i as int].1),
                None => lookup(self.remotes@, name@) is None,
            },
    {
        let mut i: usize = 0;
        while i < self.remotes.len()
            invariant
                i <= self.remotes@.len(),
                forall|j: int| 0 <= j < i ==> (#[trigger] self.remotes@[j]).0@ != name@,
            decreases self.remotes@.len() - i,
        {
            if str_eq(self.remotes[i].0.as_str(), name) {
                proof {
                    lemma_lookup_at(self.remotes@, i as int);
                }
                return Some(i);
            }
            i = i + 1;
        }
        proof {
            lemma_lookup_index(self.remotes@, name@);
        }
        None
    }

    /// All remotes waiting. A name that stands twice counts once.
    pub fn new(remote_names: &[String]) -> (r: ProgressTracker)
        ensures
            r.valid(),
            !r.done,
            forall|name: Seq<char>| #[trigger]
                lookup(r.remotes@, name) == if texts(remote_names@).contains(name) {
                    Some(RemoteEntry::idle())
                } else {
                    None
                },
    {
        let mut tracker = ProgressTracker { remotes: Vec::new(), done: false };
        let mut i: usize = 0;
        let ghost all = texts(remote_names@);
        while i < remote_names.len()
            invariant
                i <= remote_names@.len(),
                all == texts(remote_names@),
                tracker.valid(),
                !tracker.done,
                forall|name: Seq<char>| #[trigger]
                    lookup(tracker.remotes@, name) == if all.take(i as int).contains(name) {
                        Some(RemoteEntry::idle())
                    } else {
                        None
                    },
            decreases remote_names@.len() - i,
        {
            let name = &remote_names[i];
            let ghost before = tracker.remotes@;
            let ghost some = all.take(i as int);
            let ghost more = all.take(i + 1);
            proof {
                assert(more =~= some.push(name@));
                assert(more[i as int] == name@);
                assert forall|n: Seq<char>| #[trigger]
                    more.contains(n) <==> some.contains(n) || n == name@ by {
                    if more.contains(n) {
                        let k = choose|k: int| 0 <= k < more.len() && more[k] == n;
                        if k < i {
                            assert(some[k] == n);
                        }
                    }
                    if some.contains(n) {
                        let k = choose|k: int| 0 <= k < some.len() && some[k] == n;
                        assert(more[k] == n);
                    }
                }
            }
            if tracker.index_of(name.as_str()).is_none() {
                tracker.remotes.push((name.clone(), RemoteEntry::waiting()));
                proof {
                    assert forall|n: Seq<char>| #[trigger]
                        lookup(tracker.remotes@, n) == if more.contains(n) {
                            Some(RemoteEntry::idle())
                        } else {
                            None
                        } by {
                        lemma_lookup_push(before, *name, RemoteEntry::idle(), n);
                        assert(lookup(before, n) == if some.contains(n) {
                            Some(RemoteEntry::idle())
                        } else {
                            None
                        });
                    }
                    lemma_lookup_push(before, *name, RemoteEntry::idle(), name@);
                    assert forall|k: int| 0 <= k < tracker.remotes@.len() implies (
                    #[trigger] tracker.remotes@[k]).1.valid() by {
                        if k < before.len() {
                            assert(tracker.remotes@[k] == before[k]);
                        }
                    }
                }
            } else {
                proof {
                    assert(lookup(before, name@) is Some);
                    assert(some.contains(name@));
                }
            }
            i = i + 1;
        }
        assert(all.take(all.len() as int) =~= all);
        tracker
    }

    fn set_entry(&mut self, i: usize, e: RemoteEntry)
        requires
            old(self).valid(),
            i < old(self).remotes@.len(),
            e.valid(),
        ensures
            final(self).valid(),
            final(self).done == old(self).done,
            forall|name: Seq<char>| #[trigger]
                lookup(final(self).remotes@, name) == if name == old(self).remotes@[i as int].0@ {
                    Some(e)
                } else {
                    lookup(old(self).remotes@, name)
                },
    {
        let ghost before = self.remotes@;
        self.remotes[i].1 = e;
        proof {
            assert(self.remotes@ =~= before.update(i as int, (before[i as int].0, e)));
            assert forall|name: Seq<char>| #[trigger]
                lookup(self.remotes@, name) == if name == before[i as int].0@ {
                    Some(e)
                } else {
                    lookup(before, name)
                } by {
                lemma_lookup_update(before, i as int, e, name);
            }
            lemma_lookup_update(before, i as int, e, before[i as int].0@);
            assert forall|k: int| 0 <= k < self.remotes@.len() implies (
            #[trigger] self.remotes@[k]).1.valid() by {
                if k != i {
                    assert(self.remotes@[k] == before[k]);
                }
            }
        }
    }

    fn end(&mut self, remote: &str)
        requires
            old(self).valid(),
        ensures
            final(self).valid(),
            final(self).done == old(self).done,
            forall|name: Seq<char>| #[trigger]
                lookup(final(self).remotes@, name) == if name == remote@ && lookup(
                    old(self).remotes@,
                    name,
                ) is Some {
                    Some(ended(lookup(old(self).remotes@, name)->0))
                } else {
                    lookup(old(self).remotes@, name)
                },
    {
        if let Some(i) = self.index_of(remote) {
            let entry = self.remotes[i].1;
            let over = RemoteEntry {
                state: RemoteEntryState::Terminal,
                last_progress: entry.last_progress,
            };
            self.set_entry(i, over);
        }
    }

    /// Takes in an event at the time `now`, in nanoseconds of a steady clock. Returns
    /// the line to print at once.
    pub fn handle_event(&mut self, event: &SendEvent, now: u64) -> (r: Option<String>)
        requires
            old(self).valid(),
        ensures
            final(self).valid(),
            final(self).done == (old(self).done || *event is AllDone),
            forall|name: Seq<char>| #[trigger]
                lookup(final(self).remotes@, name) == entry_after(
                    old(self).remotes@,
                    *event,
                    now,
                    name,
                ),
            match r {
                Some(line) => line_after(*event) == Some(line@),
                None => line_after(*event) is None,
            },
    {
        match event {
            SendEvent::RemoteStarted { remote, total_bytes } => {
                let entry = RemoteEntry {
                    state: RemoteEntryState::Active {
                        bytes_sent: 0,
                        total_bytes: *total_bytes,
                        speed_bps: Double::zero(),
                        eta_secs: None,
                    },
                    last_progress: Some((now, 0)),
                };
                match self.index_of(remote.as_str()) {
                    Some(i) => {
                        self.set_entry(i, entry);
                    },
                    None => {
                        let ghost before = self.remotes@;
                        self.remotes.push((remote.clone(), entry));
                        proof {
                            assert forall|name: Seq<char>| #[trigger]
                                lookup(self.remotes@, name) == entry_after(
                                    before,
                                    *event,
                                    now,
                                    name,
                                ) by {
                                lemma_lookup_push(before, *remote, entry, name);
                            }
                            lemma_lookup_push(before, *remote, entry, remote@);
                            assert forall|k: int| 0 <= k < self.remotes@.len() implies (
                            #[trigger] self.remotes@[k]).1.valid() by {
                                if k < before.len() {
                                    assert(self.remotes@[k] == before[k]);
                                }
                            }
                        }
                    },
                }
                None
            },
            SendEvent::RemoteProgress { remote, bytes_sent } => {
                if let Some(i) = self.index_of(remote.as_str()) {
                    let entry = self.remotes[i].1;
                    assert(entry.valid());
                    let state = match entry.state {
                        RemoteEntryState::Active { total_bytes, speed_bps, eta_secs, .. } => {
                            let (rate, eta) = measure(
                                entry.last_progress,
                                total_bytes,
                                speed_bps,
                                eta_secs,
                                now,
                                *bytes_sent,
                            );
                            RemoteEntryState::Active {
                                bytes_sent: *bytes_sent,
                                total_bytes,
                                speed_bps: rate,
                                eta_secs: eta,
                            }
                        },
                        s => s,
                    };
                    self.set_entry(
                        i,
                        RemoteEntry { state, last_progress: Some((now, *bytes_sent)) },
                    );
                }
                None
            },
            SendEvent::RemoteCompleted { remote, elapsed_nanos, bytes } => {
                self.end(remote.as_str());
                Some(
                    remote.clone().concat(": done \u{2014} ").concat(
                        fmt_bytes(*bytes).as_str(),
                    ).concat(" in ").concat(fmt_duration(Double::from_nanos(*elapsed_nanos)).as_str()),
                )
            },
            SendEvent::RemoteFailed { remote, error } => {
                self.end(remote.as_str());
                Some(remote.clone().concat(": failed \u{2014} ").concat(error.as_str()))
            },
            SendEvent::RemoteSkipped { remote } => {
                self.end(remote.as_str());
                Some(remote.clone().concat(": skipped"))
            },
            SendEvent::AllDone => {
                self.done = true;
                None
            },
            _ => None,
        }
    }

    /// The lines of the transfers that go on, in order.
    pub fn tick_lines(&self) -> (r: Vec<String>)
        requires
            self.valid(),
        ensures
            ticks(self.remotes@, texts(r@)),
    {
        let mut out: Vec<String> = Vec::new();
        let mut i: usize = 0;
        let ghost all = self.remotes@;
        assert(texts(out@) =~= active_lines(all.take(0)));
        while i < self.remotes.len()
            invariant
                i <= self.remotes@.len(),
                all == self.remotes@,
                self.valid(),
                texts_sorted(texts(out@)),
                texts(out@).to_multiset() == active_lines(all.take(i as int)).to_multiset(),
            decreases self.remotes@.len() - i,
        {
            proof {
                assert(all.take(i + 1).drop_last() =~= all.take(i as int));
                assert(all.take(i + 1).last() == all[i as int]);
            }
            let entry = self.remotes[i].1;
            assert(entry.valid());
            if let RemoteEntryState::Active { bytes_sent, total_bytes, speed_bps, eta_secs }
                = entry.state {
                let line = fmt_active_line(
                    self.remotes[i].0.as_str(),
                    bytes_sent,
                    total_bytes,
                    speed_bps,
                    eta_secs,
                );
                proof {
                    vstd::seq_lib::to_multiset_build(active_lines(all.take(i as int)), line@);
                }
                insert_sorted(&mut out, line);
            }
            i = i + 1;
        }
        assert(all.take(all.len() as int) =~= all);
        out
    }

    /// Whether all transfers are over.
    pub fn is_done(&self) -> (r: bool)
        ensures
            r == self.done,
    {
        self.done
    }
}

// ---------------------------------------------------------------------------
// Bars
// ---------------------------------------------------------------------------

/// What an event does to the bar of its transfer.
#[derive(Debug, PartialEq, Eq)]
pub enum BarChange {
    /// Nothing.
    Keep,
    /// It begins anew, with this length.
    Begin { total_bytes: u64, message: String },
    /// It moves on.
    Move { bytes_sent: u64 },
    /// It is finished.
    Finish { message: String },
    /// It is given up where it stands.
    Abandon { message: String },
    /// Every bar that is not finished is given up where it stands.
    AbandonRest { message: String },
}

/// Bytes that a character takes in UTF-8.
pub open spec fn char_bytes(c: char) -> int {
    if c <= '\u{7f}' {
        1
    } else if c <= '\u{7ff}' {
        2
    } else if c <= '\u{ffff}' {
        3
    } else {
        4
    }
}

/// How many characters of a text, from `i` on, fit into so many bytes.
pub open spec fn fitting(s: Seq<char>, i: int, room: int) -> int
    decreases s.len() - i,
{
    if i < 0 || i >= s.len() || char_bytes(s[i]) > room {
        0
    } else {
        1 + fitting(s, i + 1, room - char_bytes(s[i]))
    }
}

/// The longest beginning of a text that fits into so many bytes.
pub fn first_bytes(s: &str, room: usize) -> (r: String)
    ensures
        r@ == s@.take(fitting(s@, 0, room as int)),
{
    let cs = chars_of(s);
    let n: usize = cs.len();
    let mut i: usize = 0;
    let mut left: usize = room;
    while i < n
        invariant
            cs@ == s@,
            n == cs@.len(),
            i <= n,
            fitting(s@, 0, room as int) == i + fitting(s@, i as int, left as int),
        decreases n - i,
    {
        let c = cs[i];
        let size: usize = if c <= '\u{7f}' {
            1
        } else if c <= '\u{7ff}' {
            2
        } else if c <= '\u{ffff}' {
            3
        } else {
            4
        };
        if size > left {
            let r = string_of(cs.as_slice(), 0, i);
            assert(r@ =~= s@.take(i as int));
            return r;
        }
        left = left - size;
        i = i + 1;
    }
    let r = string_of(cs.as_slice(), 0, n);
    assert(r@ =~= s@.take(n as int));
    r
}

/// Whether `change` is what an event does to the bar of its transfer.
pub open spec fn changes_bar(event: SendEvent, change: BarChange) -> bool {
    match event {
        SendEvent::RemoteStarted { total_bytes, .. } => match change {
            BarChange::Begin { total_bytes: t, message } => t == total_bytes && message@
                == "starting\u{2026}"@,
            _ => false,
        },
        SendEvent::RemoteProgress { bytes_sent, .. } => match change {
            BarChange::Move { bytes_sent: b } => b == bytes_sent,
            _ => false,
        },
        SendEvent::RemoteCompleted { elapsed_nanos, bytes, .. } => match change {
            BarChange::Finish { message } => message@ == "\u{2713} "@ + bytes_text(bytes as int)
                + "  "@ + duration_text(seconds_of(elapsed_nanos as int)),
            _ => false,
        },
        SendEvent::RemoteFailed { error, .. } => match change {
            BarChange::Abandon { message } => message@ == "\u{2717} "@ + error@.take(
                fitting(error@, 0, 40),
            ),
            _ => false,
        },
        SendEvent::RemoteSkipped { .. } => match change {
            BarChange::Finish { message } => message@ == "skipped"@,
            _ => false,
        },
        SendEvent::AllDone => match change {
            BarChange::AbandonRest { message } => message@
                == "\u{2717} not reached \u{2014} check logs"@,
            _ => false,
        },
        _ => change is Keep,
    }
}

/// What an event does to the bar of its transfer.
pub fn bar_change(event: &SendEvent) -> (r: BarChange)
    ensures
        changes_bar(*event, r),
{
    match event {
        SendEvent::RemoteStarted { total_bytes, .. } => BarChange::Begin {
            total_bytes: *total_bytes,
            message: "starting\u{2026}".to_owned(),
        },
        SendEvent::RemoteProgress { bytes_sent, .. } => BarChange::Move { bytes_sent: *bytes_sent },
        SendEvent::RemoteCompleted { elapsed_nanos, bytes, .. } => BarChange::Finish {
            message: "\u{2713} ".to_owned().concat(fmt_bytes(*bytes).as_str()).concat("  ").concat(
                fmt_duration(Double::from_nanos(*elapsed_nanos)).as_str(),
            ),
        },
        SendEvent::RemoteFailed { error, .. } => BarChange::Abandon {
            message: "\u{2717} ".to_owned().concat(first_bytes(error.as_str(), 40).as_str()),
        },
        SendEvent::RemoteSkipped { .. } => BarChange::Finish { message: "skipped".to_owned() },
        SendEvent::AllDone => BarChange::AbandonRest {
            message: "\u{2717} not reached \u{2014} check logs".to_owned(),
        },
        _ => BarChange::Keep,
    }
}

/// What the bar of a transfer that goes on shows: length, position and message.
pub fn bar_of(entry: &RemoteEntry) -> (r: Option<(u64, u64, String)>)
    requires
        entry.valid(),
    ensures
        match entry.state {
            RemoteEntryState::Active { bytes_sent, total_bytes, speed_bps, eta_secs } => match r {
                Some((length, position, message)) => length == total_bytes && position
                    == bytes_sent && message@ == bytes_text(bytes_sent as int) + " / "@
                    + bytes_text(total_bytes as int) + "  "@ + speed_text(speed_bps.parts()) + "  "@
                    + eta_text(eta_secs),
                None => false,
            },
            _ => r is None,
        },
{
    match entry.state {
        RemoteEntryState::Active { bytes_sent, total_bytes, speed_bps, eta_secs } => {
            let message = fmt_bytes(bytes_sent).concat(" / ").concat(
                fmt_bytes(total_bytes).as_str(),
            ).concat("  ").concat(fmt_speed(speed_bps).as_str()).concat("  ").concat(
                fmt_eta(eta_secs).as_str(),
            );
            Some((total_bytes, bytes_sent, message))
        },
        _ => None,
    }
}

// ---------------------------------------------------------------------------
// Laws
// ---------------------------------------------------------------------------

/// A transfer that is over has no line, until it begins again.
pub proof fn ended_transfers_have_no_line(table: Seq<(String, RemoteEntry)>, i: int)
    requires
        0 <= i < table.len(),
        !(table[i].1.state is Active),
    ensures
        active_lines(table) == active_lines(table.remove(i)),
    decreases table.len(),
{
    let rest = table.drop_last();
    if i == table.len() - 1 {
        assert(table.remove(i) =~= rest);
    } else {
        ended_transfers_have_no_line(rest, i);
        assert(table.remove(i).drop_last() =~= rest.remove(i));
        assert(table.remove(i).last() == table.last());
    }
}

/// A transfer is never more than done, and one of which all is sent is done.
pub proof fn percent_is_at_most_a_hundred(bytes_sent: int, total_bytes: int)
    requires
        bytes_sent >= 0,
        total_bytes >= 0,
    ensures
        0 <= percent_of(bytes_sent, total_bytes) <= 100,
        bytes_sent == total_bytes && total_bytes > 0 ==> percent_of(bytes_sent, total_bytes) == 100,
{
    if total_bytes > 0 {
        assert(bytes_sent * 100 / total_bytes >= 0) by (nonlinear_arith)
            requires
                bytes_sent >= 0,
                total_bytes > 0,
        ;
        if bytes_sent == total_bytes {
            assert(bytes_sent * 100 / total_bytes == 100) by (nonlinear_arith)
                requires
                    bytes_sent == total_bytes,
                    total_bytes > 0,
            ;
        }
    }
}

} // verus!
