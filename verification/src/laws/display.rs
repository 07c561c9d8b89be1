//! Progress and the screen.

use crate::double::{divided, nearest, seconds_of, Double};
use crate::laws::config::lemma_same_contents;
use crate::number::decimal_text;
use crate::progress::{
    active_line, active_lines, bytes_text, changes_bar, char_bytes, duration_text, entry_after,
    eta_text, fitting, line_after, measured, percent_of, speed_text, ticks, BarChange, RemoteEntry,
    RemoteEntryState,
};
use crate::text::{lookup, text_less};
use crate::tui::{
    bar_text, cancelled_after_key, countdown_after, countdown_texts, fitted, focus_after_key,
    footer_text, heading, is_sign_of_life, joined, longest_name, meaning, names_width,
    none_called_off, outcome, row_index, row_text, rows_after, rows_after_key, shows_focus,
    state_after, state_after_key, summary_text, waiting_rows, Mood, Pressed, RemoteRow,
    RemoteRowState, SendEvent, TuiApp, TuiKey, TuiState,
};
use vstd::prelude::*;
use vstd::string::*;

verus! {

// ---------------------------------------------------------------------------
// Measuring
// ---------------------------------------------------------------------------

/// Percent are the hundredths that were sent, rounded down, and a hundred where more was
/// sent than there is; nothing of nothing is none.
pub proof fn percent_are_hundredths(sent: int, total: int)
    requires
        sent >= 0,
        total >= 0,
    ensures
        total == 0 ==> percent_of(sent, total) == 0,
        total > 0 && sent >= total ==> percent_of(sent, total) == 100,
        total > 0 && sent < total ==> percent_of(sent, total) * total <= sent * 100 < (percent_of(
            sent,
            total,
        ) + 1) * total,
{
    if total > 0 {
        let q = sent * 100 / total;
        vstd::arithmetic::div_mod::lemma_fundamental_div_mod(sent * 100, total);
        vstd::arithmetic::div_mod::lemma_mod_bound(sent * 100, total);
        assert(total * q == q * total) by (nonlinear_arith);
        assert((q + 1) * total == q * total + total) by (nonlinear_arith);
        if sent >= total {
            assert(q >= 100) by (nonlinear_arith)
                requires
                    (q + 1) * total > sent * 100,
                    sent >= total,
                    total > 0,
            ;
        } else {
            assert(q < 100) by (nonlinear_arith)
                requires
                    q * total <= sent * 100,
                    sent < total,
                    total > 0,
            ;
        }
    }
}

/// The speed is that of the bytes since the report before, over the time since then; the
/// time left is that of the bytes left at this speed. Where nothing was sent, the time
/// left is not known; where no time has passed, nothing changes; and the first report
/// gives neither.
pub proof fn speed_is_of_the_last_stretch(
    time: u64,
    bytes: u64,
    total: u64,
    speed: Double,
    eta: Option<Double>,
    now: u64,
    sent: u64,
)
    ensures
        measured(None, total, speed, eta, now, sent) == (Double::nothing(), None::<Double>),
        now <= time ==> measured(Some((time, bytes)), total, speed, eta, now, sent) == (speed, eta),
        now > time ==> ({
            let (rate, left) = measured(Some((time, bytes)), total, speed, eta, now, sent);
            let new = if sent > bytes {
                sent - bytes
            } else {
                0
            };
            let rest = if total > sent {
                total - sent
            } else {
                0
            };
            let bps = divided(nearest(new, 1), seconds_of(now - time));
            &&& rate == Double::of(bps)
            &&& left is Some <==> sent > bytes
            &&& left is Some ==> left->0 == Double::of(divided(nearest(rest, 1), bps))
        }),
{
}

// ---------------------------------------------------------------------------
// The tracker
// ---------------------------------------------------------------------------

/// An event changes the entry of its own transfer and no other. A transfer begins with
/// nothing sent; a report moves on one that goes on, and no other; and what ends a transfer
/// ends it. Only a beginning makes an entry.
pub proof fn events_change_their_own_entry(
    table: Seq<(String, RemoteEntry)>,
    event: SendEvent,
    now: u64,
    name: Seq<char>,
)
    ensures
        ({
            let before = lookup(table, name);
            let after = entry_after(table, event, now, name);
            match event {
                SendEvent::RemoteStarted { remote, total_bytes } => if remote@ == name {
                    &&& after is Some
                    &&& after->0.last_progress == Some((now, 0u64))
                    &&& after->0.state matches RemoteEntryState::Active {
                        bytes_sent,
                        total_bytes: t,
                        eta_secs,
                        ..
                    } && bytes_sent == 0 && t == total_bytes && eta_secs is None
                } else {
                    after == before
                },
                SendEvent::RemoteProgress { remote, bytes_sent } => if remote@ == name {
                    &&& after is Some <==> before is Some
                    &&& after is Some ==> after->0.last_progress == Some((now, bytes_sent))
                    &&& after is Some ==> match before->0.state {
                        RemoteEntryState::Active { total_bytes, speed_bps, eta_secs, .. } => {
                            let (rate, left) = measured(
                                before->0.last_progress,
                                total_bytes,
                                speed_bps,
                                eta_secs,
                                now,
                                bytes_sent,
                            );
                            after->0.state == (RemoteEntryState::Active {
                                bytes_sent,
                                total_bytes,
                                speed_bps: rate,
                                eta_secs: left,
                            })
                        },
                        s => after->0.state == s,
                    }
                } else {
                    after == before
                },
                SendEvent::RemoteCompleted { remote, .. } => if remote@ == name {
                    (after is Some <==> before is Some) && (after is Some
                        ==> after->0.state is Terminal)
                } else {
                    after == before
                },
                SendEvent::RemoteFailed { remote, .. } => if remote@ == name {
                    (after is Some <==> before is Some) && (after is Some
                        ==> after->0.state is Terminal)
                } else {
                    after == before
                },
                SendEvent::RemoteSkipped { remote } => if remote@ == name {
                    (after is Some <==> before is Some) && (after is Some
                        ==> after->0.state is Terminal)
                } else {
                    after == before
                },
                _ => after == before,
            }
        }),
{
}

/// What ends a transfer is said at once, with the transfer's name in front: how much in
/// what time, why it failed, or that it was skipped. Nothing else is said at once.
pub proof fn endings_are_said_at_once(event: SendEvent)
    ensures
        match event {
            SendEvent::RemoteCompleted { remote, elapsed_nanos, bytes } => line_after(event)
                == Some(
                remote@ + ": done \u{2014} "@ + bytes_text(bytes as int) + " in "@ + duration_text(
                    seconds_of(elapsed_nanos as int),
                ),
            ),
            SendEvent::RemoteFailed { remote, error } => line_after(event) == Some(
                remote@ + ": failed \u{2014} "@ + error@,
            ),
            SendEvent::RemoteSkipped { remote } => line_after(event) == Some(
                remote@ + ": skipped"@,
            ),
            _ => line_after(event) is None,
        },
{
}

/// Every transfer that goes on has its line, and no other has one.
pub proof fn every_active_transfer_has_its_line(
    table: Seq<(String, RemoteEntry)>,
    name: String,
    entry: RemoteEntry,
)
    ensures
        active_lines(seq![]).len() == 0,
        match entry.state {
            RemoteEntryState::Active { bytes_sent, total_bytes, speed_bps, eta_secs } =>
                active_lines(table.push((name, entry))) == active_lines(table).push(
                name@ + ": "@ + bytes_text(bytes_sent as int) + " / "@ + bytes_text(
                    total_bytes as int,
                ) + " ("@ + decimal_text(percent_of(bytes_sent as int, total_bytes as int)) + "%) "@
                    + speed_text(speed_bps.parts()) + "  "@ + eta_text(eta_secs),
            ),
            _ => active_lines(table.push((name, entry))) == active_lines(table),
        },
{
    let all = table.push((name, entry));
    assert(all.drop_last() =~= table);
}

/// What an event does to its bar.
pub proof fn bars_follow_events(event: SendEvent, change: BarChange)
    requires
        changes_bar(event, change),
    ensures
        match event {
            SendEvent::RemoteStarted { total_bytes, .. } => change matches BarChange::Begin {
                total_bytes: t,
                ..
            } && t == total_bytes,
            SendEvent::RemoteProgress { bytes_sent, .. } => change == (BarChange::Move {
                bytes_sent,
            }),
            SendEvent::RemoteCompleted { elapsed_nanos, bytes, .. } => change matches BarChange::Finish {
                message,
            } && message@ == "\u{2713} "@ + bytes_text(bytes as int) + "  "@ + duration_text(
                seconds_of(elapsed_nanos as int),
            ),
            SendEvent::RemoteFailed { .. } => change is Abandon,
            SendEvent::RemoteSkipped { .. } => change is Finish,
            SendEvent::AllDone => change is AbandonRest,
            _ => change is Keep,
        },
{
}

/// Bytes that some characters take in UTF-8.
pub open spec fn bytes_of(s: Seq<char>) -> int
    decreases s.len(),
{
    if s.len() == 0 {
        0
    } else {
        bytes_of(s.drop_last()) + if s.last() <= '\u{7f}' {
            1int
        } else if s.last() <= '\u{7ff}' {
            2
        } else if s.last() <= '\u{ffff}' {
            3
        } else {
            4
        }
    }
}

proof fn lemma_fitting(s: Seq<char>, i: int, room: int)
    requires
        0 <= i <= s.len(),
        room >= 0,
    ensures
        0 <= fitting(s, i, room) <= s.len() - i,
        bytes_of(s.take(i + fitting(s, i, room))) <= bytes_of(s.take(i)) + room,
        i + fitting(s, i, room) < s.len() ==> bytes_of(s.take(i + fitting(s, i, room) + 1))
            > bytes_of(s.take(i)) + room,
    decreases s.len() - i,
{
    if i < s.len() {
        assert(s.take(i + 1).drop_last() =~= s.take(i));
        assert(s.take(i + 1).last() == s[i]);
        assert(bytes_of(s.take(i + 1)) == bytes_of(s.take(i)) + char_bytes(s[i]));
        if char_bytes(s[i]) <= room {
            lemma_fitting(s, i + 1, room - char_bytes(s[i]));
        }
    }
}

/// A text that is cut to so many bytes keeps as many of its first characters as fit, and
/// one more would not.
pub proof fn cut_texts_are_as_long_as_fits(s: Seq<char>, room: int)
    requires
        room >= 0,
    ensures
        0 <= fitting(s, 0, room) <= s.len(),
        bytes_of(s.take(fitting(s, 0, room))) <= room,
        fitting(s, 0, room) < s.len() ==> bytes_of(s.take(fitting(s, 0, room) + 1)) > room,
{
    lemma_fitting(s, 0, room);
    assert(s.take(0) =~= seq![]);
}

// ---------------------------------------------------------------------------
// The screen
// ---------------------------------------------------------------------------

proof fn lemma_first_row(rows: Seq<RemoteRow>, name: Seq<char>)
    ensures
        match row_index(rows, name) {
            Some(i) => 0 <= i < rows.len() && rows[i].name@ == name && forall|j: int|
                0 <= j < i ==> (#[trigger] rows[j]).name@ != name,
            None => forall|j: int| 0 <= j < rows.len() ==> (#[trigger] rows[j]).name@ != name,
        },
    decreases rows.len(),
{
    if rows.len() > 0 && rows[0].name@ != name {
        let rest = rows.drop_first();
        lemma_first_row(rest, name);
        match row_index(rest, name) {
            Some(i) => {
                assert forall|j: int| 0 <= j < i + 1 implies (#[trigger] rows[j]).name@ != name by {
                    if j > 0 {
                        assert(rest[j - 1] == rows[j]);
                    }
                }
            },
            None => {
                assert forall|j: int| 0 <= j < rows.len() implies (#[trigger] rows[j]).name@
                    != name by {
                    if j > 0 {
                        assert(rest[j - 1] == rows[j]);
                    }
                }
            },
        }
    }
}

/// An event that ends a transfer, or begins one, puts the first row of its name into that
/// state; a report moves on one that goes on. No other row changes, and none where no row
/// has the name.
#[verifier::rlimit(40)]
pub proof fn events_change_their_own_row(
    rows: Seq<RemoteRow>,
    event: SendEvent,
    now: u64,
    name: Seq<char>,
    i: int,
)
    requires
        0 <= i < rows.len(),
        match event {
            SendEvent::RemoteStarted { remote, .. } => remote@ == name,
            SendEvent::RemoteProgress { remote, .. } => remote@ == name,
            SendEvent::RemoteCompleted { remote, .. } => remote@ == name,
            SendEvent::RemoteFailed { remote, .. } => remote@ == name,
            SendEvent::RemoteSkipped { remote } => remote@ == name,
            SendEvent::RemoteUpToDate { remote } => remote@ == name,
            _ => false,
        },
    ensures
        rows_after(rows, event, now).len() == rows.len(),
        rows_after(rows, event, now)[i].name == rows[i].name,
        rows[i].name@ != name || (exists|j: int|
            0 <= j < i && (#[trigger] rows[j]).name@ == name) ==> rows_after(rows, event, now)[i]
            == rows[i],
        rows[i].name@ == name && (forall|j: int|
            0 <= j < i ==> (#[trigger] rows[j]).name@ != name) ==> ({
            let after = rows_after(rows, event, now)[i];
            match event {
                SendEvent::RemoteStarted { total_bytes, .. } => after.last_progress == Some(
                    (now, 0u64),
                ) && (after.state matches RemoteRowState::Active {
                    bytes_sent,
                    total_bytes: t,
                    eta_secs,
                    ..
                } && bytes_sent == 0 && t == total_bytes && eta_secs is None),
                SendEvent::RemoteProgress { bytes_sent, .. } => after.last_progress == Some(
                    (now, bytes_sent),
                ) && match rows[i].state {
                    RemoteRowState::Active { total_bytes, speed_bps, eta_secs, .. } => {
                        let (rate, left) = measured(
                            rows[i].last_progress,
                            total_bytes,
                            speed_bps,
                            eta_secs,
                            now,
                            bytes_sent,
                        );
                        after.state == (RemoteRowState::Active {
                            bytes_sent,
                            total_bytes,
                            speed_bps: rate,
                            eta_secs: left,
                        })
                    },
                    s => after.state == s,
                },
                SendEvent::RemoteCompleted { elapsed_nanos, bytes, .. } => after.state == (
                RemoteRowState::Done { bytes, elapsed_nanos }),
                SendEvent::RemoteFailed { error, .. } => after.state == (RemoteRowState::Failed {
                    error,
                }),
                SendEvent::RemoteSkipped { .. } => after.state is Skipped,
                SendEvent::RemoteUpToDate { .. } => after.state is UpToDate,
                _ => false,
            }
        }),
{
    lemma_first_row(rows, name);
    if let Some(k) = row_index(rows, name) {
        if k < i {
            assert(rows[k].name@ == name);
        }
        if i < k {
            assert(rows[i].name@ != name);
        }
    }
}

/// Events about no transfer change no row.
pub proof fn other_events_change_no_row(rows: Seq<RemoteRow>, event: SendEvent, now: u64)
    requires
        event is CountdownTick || event is CountdownAborted || event is AllDone
            || event is SummaryTick,
    ensures
        rows_after(rows, event, now) == rows,
{
}

/// The countdown counts down to the transfers, unless it is called off; the transfers lead
/// to the summary; and the summary closes when its seconds are over. It stays longer where
/// a transfer failed.
pub proof fn screens_follow_each_other(app: TuiApp, event: SendEvent)
    ensures
        match event {
            SendEvent::CountdownTick { remaining_secs } => state_after(app, event) == (
            if !(app.state is Countdown) {
                app.state
            } else if remaining_secs == 0 {
                TuiState::Transferring
            } else {
                TuiState::Countdown { remaining: remaining_secs }
            }),
            SendEvent::CountdownAborted => state_after(app, event) == (if app.state is Countdown {
                TuiState::Aborted
            } else {
                app.state
            }),
            SendEvent::AllDone => state_after(app, event) == (if app.state is Transferring {
                TuiState::Summary
            } else {
                app.state
            }) && (app.state is Transferring ==> ((exists|i: int|
                0 <= i < app.remotes@.len() && (#[trigger] app.remotes@[i]).state is Failed)
                ==> countdown_after(app, event) == 30) && (!(exists|i: int|
                0 <= i < app.remotes@.len() && (#[trigger] app.remotes@[i]).state is Failed)
                ==> countdown_after(app, event) == 10)),
            SendEvent::SummaryTick => app.state is Summary ==> (state_after(app, event) == (
            if app.summary_countdown <= 1 {
                TuiState::Exiting
            } else {
                TuiState::Summary
            }) && countdown_after(app, event) == (if app.summary_countdown == 0 {
                0int
            } else {
                app.summary_countdown - 1
            })),
            _ => state_after(app, event) == app.state && countdown_after(app, event)
                == app.summary_countdown,
        },
        is_sign_of_life(app, event) ==> event is CountdownTick || event is RemoteProgress
            || event is SummaryTick,
{
}

/// Any key calls the backup off during the countdown and closes the summary. During the
/// transfers, to quit gives up all that goes on or waits; to skip gives up the row in focus
/// alone, and ends the transfers where it is the only one; and up and down move the focus
/// by one, within the rows.
#[verifier::rlimit(40)]
pub proof fn keys_do_what_they_say(app: TuiApp, key: TuiKey, i: int)
    requires
        0 <= i < app.remotes@.len(),
    ensures
        app.state is Countdown ==> state_after_key(app, key) is Aborted,
        app.state is Summary ==> state_after_key(app, key) is Exiting,
        !(app.state is Transferring) ==> rows_after_key(app, key) == app.remotes@
            && cancelled_after_key(app, key) == app.cancelled@ && focus_after_key(app, key)
            == app.focused,
        app.state is Transferring ==> ({
            let after = rows_after_key(app, key)[i];
            let before = app.remotes@[i];
            let given_up = key == TuiKey::Quit || (key == TuiKey::Skip && (app.remotes@.len() == 1
                || i == app.focused));
            &&& rows_after_key(app, key).len() == app.remotes@.len()
            &&& after.name == before.name
            &&& given_up && (before.state is Active || before.state is Waiting)
                ==> after.state is Skipped
            &&& !(given_up && (before.state is Active || before.state is Waiting)) ==> after
                == before
            &&& state_after_key(app, key) == (if key == TuiKey::Quit || (key == TuiKey::Skip
                && app.remotes@.len() == 1) {
                TuiState::Summary
            } else {
                TuiState::Transferring
            })
        }),
        app.state is Transferring && app.focused < app.remotes@.len() ==> focus_after_key(app, key)
            == (if key == TuiKey::Up && app.focused > 0 {
            app.focused - 1
        } else if key == TuiKey::Down && app.focused + 1 < app.remotes@.len() {
            app.focused + 1
        } else {
            app.focused as int
        }),
{
}

/// A transfer that is given up is called off, and no other is: to quit calls off all, and
/// to skip the one in focus where it goes on or waits, or the only one.
pub proof fn given_up_transfers_are_called_off(app: TuiApp, key: TuiKey, k: int)
    requires
        app.state is Transferring,
        0 <= k < app.cancelled@.len(),
    ensures
        cancelled_after_key(app, key).len() == app.cancelled@.len(),
        cancelled_after_key(app, key)[k].0 == app.cancelled@[k].0,
        key == TuiKey::Quit ==> cancelled_after_key(app, key)[k].1,
        key == TuiKey::Skip && app.remotes@.len() > 1 && app.focused < app.remotes@.len() && (
        app.remotes@[app.focused as int].state is Active
            || app.remotes@[app.focused as int].state is Waiting) ==> cancelled_after_key(
            app,
            key,
        )[k].1 == (app.cancelled@[k].1 || app.cancelled@[k].0@
            == app.remotes@[app.focused as int].name@),
        key == TuiKey::Skip && app.remotes@.len() > 1 && app.focused < app.remotes@.len() && !(
        app.remotes@[app.focused as int].state is Active
            || app.remotes@[app.focused as int].state is Waiting) ==> cancelled_after_key(
            app,
            key,
        )[k] == app.cancelled@[k],
        key == TuiKey::Skip && app.remotes@.len() == 1 ==> cancelled_after_key(app, key)[k].1 == (
        app.cancelled@[k].1 || app.cancelled@[k].0@ == app.remotes@[0].name@),
        key != TuiKey::Quit && key != TuiKey::Skip ==> cancelled_after_key(app, key)
            == app.cancelled@,
{
}

/// A screen of transfers begins with a waiting row for each name, in order, and with none
/// called off.
pub proof fn every_name_has_a_waiting_row(names: Seq<String>, i: int)
    requires
        0 <= i < names.len(),
    ensures
        waiting_rows(names).len() == names.len(),
        waiting_rows(names)[i].name == names[i],
        waiting_rows(names)[i].state is Waiting,
        waiting_rows(names)[i].last_progress is None,
        none_called_off(names).len() == names.len(),
        none_called_off(names)[i] == (names[i], false),
{
}

/// A bar has as many blocks as it is wide; of these the first are filled, as many as the
/// percent say, rounded down, and all from a hundred on.
pub proof fn bars_are_filled_from_the_left(pct: int, width: int, i: int)
    requires
        0 <= pct,
        0 <= width,
        0 <= i < width,
    ensures
        bar_text(pct, width).len() == width,
        bar_text(pct, width)[i] == (if (i + 1) * 100 <= pct * width {
            '\u{2588}'
        } else {
            '\u{2591}'
        }),
{
    let n = pct * width;
    let q = n / 100;
    assert(n >= 0) by (nonlinear_arith)
        requires
            n == pct * width,
            pct >= 0,
            width >= 0,
    ;
    assert((i + 1) * 100 <= n <==> i < q);
}

/// What a row says: what it waits for, how far it is, what came of it, or why it failed,
/// in forty characters at most.
pub proof fn rows_say_where_they_stand(state: RemoteRowState)
    ensures
        match state {
            RemoteRowState::Waiting => row_text(state) == "  waiting\u{2026}"@,
            RemoteRowState::Active { bytes_sent, total_bytes, speed_bps, eta_secs } => {
                let pct = percent_of(bytes_sent as int, total_bytes as int);
                exists|p: Seq<char>|
                    row_text(state) == "  ["@ + bar_text(pct, 16) + "] "@ + #[trigger] (p
                        + decimal_text(pct)) + "%  "@ + bytes_text(bytes_sent as int) + " / "@
                        + bytes_text(total_bytes as int) + "  "@ + speed_text(speed_bps.parts())
                        + "  "@ + eta_text(eta_secs) && forall|i: int|
                        0 <= i < p.len() ==> #[trigger] p[i] == ' '
            },
            RemoteRowState::Done { bytes, elapsed_nanos } => row_text(state) == "  \u{2713} "@
                + bytes_text(bytes as int) + "  "@ + duration_text(
                seconds_of(elapsed_nanos as int),
            ),
            RemoteRowState::Failed { error } => row_text(state) == "  \u{2717} "@ + (
            if error@.len() <= 40 {
                error@
            } else {
                error@.take(40)
            }),
            RemoteRowState::Skipped => row_text(state) == "  skipped"@,
            RemoteRowState::UpToDate => row_text(state) == "  up to date"@,
        },
{
    if let RemoteRowState::Active { bytes_sent, total_bytes, .. } = state {
        let t = decimal_text(percent_of(bytes_sent as int, total_bytes as int));
        let p = if t.len() < 3 {
            crate::tui::repeated(' ', 3 - t.len())
        } else {
            Seq::<char>::empty()
        };
        assert(crate::tui::padded_left(t, 3) =~= p + t);
    }
}

/// The remotes of a dataset are listed with a comma and a space between them.
pub proof fn remotes_are_listed_with_commas(list: Seq<Seq<char>>, last: Seq<char>)
    ensures
        joined(seq![]).len() == 0,
        joined(list.push(last)) == if list.len() == 0 {
            last
        } else {
            joined(list) + seq![',', ' '] + last
        },
{
    reveal_strlit(", ");
    assert(", "@ =~= seq![',', ' ']);
    assert(list.push(last).drop_last() =~= list);
}

/// A box is as large as desired where that leaves a margin of two, and else as large as
/// leaves one.
pub proof fn boxes_leave_a_margin(desired: u16, available: u16)
    ensures
        fitted(desired, available) <= desired,
        available >= 2 ==> fitted(desired, available) + 2 <= available,
        available < 2 ==> fitted(desired, available) == 0,
        available >= 2 && desired + 2 <= available ==> fitted(desired, available) == desired,
        available >= 2 && desired + 2 > available ==> fitted(desired, available) + 2 == available,
{
}

/// The column of names is as wide as the longest of them, and eight wide where there are
/// none.
pub proof fn names_fit_their_column(rows: Seq<RemoteRow>, i: int)
    requires
        0 <= i < rows.len(),
        forall|k: int|
            0 <= k < rows.len() ==> vstd::utf8::encode_utf8((#[trigger] rows[k]).name@).len()
                <= usize::MAX,
    ensures
        vstd::utf8::encode_utf8(rows[i].name@).len() <= names_width(rows),
        names_width(seq![]) == 8,
        names_width(rows) == 0 || exists|k: int|
            0 <= k < rows.len() && vstd::utf8::encode_utf8((#[trigger] rows[k]).name@).len()
                == names_width(rows),
{
    lemma_longest(rows, i);
}

proof fn lemma_longest(rows: Seq<RemoteRow>, i: int)
    requires
        forall|k: int|
            0 <= k < rows.len() ==> vstd::utf8::encode_utf8((#[trigger] rows[k]).name@).len()
                <= usize::MAX,
    ensures
        0 <= i < rows.len() ==> vstd::utf8::encode_utf8(rows[i].name@).len() <= longest_name(rows),
        longest_name(rows) == 0 || exists|k: int|
            0 <= k < rows.len() && vstd::utf8::encode_utf8((#[trigger] rows[k]).name@).len()
                == longest_name(rows),
        longest_name(rows) >= 0,
    decreases rows.len(),
{
    if rows.len() > 0 {
        let rest = rows.drop_last();
        let n = rows.len() - 1;
        assert forall|k: int| 0 <= k < rest.len() implies vstd::utf8::encode_utf8(
            (#[trigger] rest[k]).name@,
        ).len() <= usize::MAX by {
            assert(rest[k] == rows[k]);
        }
        lemma_longest(rest, i);
        assert(vstd::utf8::encode_utf8(rows[n].name@).len() <= usize::MAX);
        if i < n {
            assert(0 <= i ==> rest[i] == rows[i]);
        }
        if longest_name(rows) == longest_name(rest) && longest_name(rest) != 0 {
            let k = choose|k: int|
                0 <= k < rest.len() && vstd::utf8::encode_utf8((#[trigger] rest[k]).name@).len()
                    == longest_name(rest);
            assert(rows[k] == rest[k]);
        } else if longest_name(rows) != longest_name(rest) {
            assert(vstd::utf8::encode_utf8(rows[n].name@).len() == longest_name(rows));
        }
    }
}

/// A sign of life is a tick of the countdown while it runs, a report about a row that there
/// is, and a tick of the summary while it is shown.
pub proof fn signs_of_life_are_ticks_and_reports(app: TuiApp, event: SendEvent)
    ensures
        event is CountdownTick ==> (is_sign_of_life(app, event) <==> app.state is Countdown),
        event is SummaryTick ==> (is_sign_of_life(app, event) <==> app.state is Summary),
        event matches SendEvent::RemoteProgress { remote, .. } ==> (is_sign_of_life(app, event)
            <==> exists|i: int|
            0 <= i < app.remotes@.len() && (#[trigger] app.remotes@[i]).name@ == remote@),
{
    if let SendEvent::RemoteProgress { remote, .. } = event {
        lemma_first_row(app.remotes@, remote@);
    }
}

/// Before the transfers the screen says how many seconds are left, or that the backup was
/// skipped.
pub proof fn countdowns_say_what_is_left(state: TuiState)
    ensures
        match state {
            TuiState::Countdown { remaining } => countdown_texts(state).len() == 3
                && countdown_texts(state)[0] == "  Starting in "@ + decimal_text(remaining as int)
                + "s\u{2026}"@,
            TuiState::Aborted => countdown_texts(state) == seq!["  Backup skipped."@],
            _ => countdown_texts(state).len() == 0,
        },
{
}

/// At a tick every transfer that goes on has its line, as often as it stands there, and the
/// lines are in order.
pub proof fn ticks_show_every_active_transfer(
    table: Seq<(String, RemoteEntry)>,
    lines: Seq<Seq<char>>,
    i: int,
)
    requires
        ticks(table, lines),
        0 <= i < table.len(),
    ensures
        table[i].1.state matches RemoteEntryState::Active {
            bytes_sent,
            total_bytes,
            speed_bps,
            eta_secs,
        } ==> lines.contains(
            active_line(table[i].0@, bytes_sent, total_bytes, speed_bps, eta_secs),
        ),
        lines.len() <= table.len(),
        forall|j: int, k: int|
            0 <= j < k < lines.len() ==> !text_less(#[trigger] lines[k], #[trigger] lines[j]),
{
    broadcast use vstd::seq_lib::group_to_multiset_ensures;

    lemma_active(table, i);
    assert(lines.to_multiset().len() == active_lines(table).to_multiset().len());
    if let RemoteEntryState::Active { bytes_sent, total_bytes, speed_bps, eta_secs }
        = table[i].1.state {
        lemma_same_contents(
            lines,
            active_lines(table),
            active_line(table[i].0@, bytes_sent, total_bytes, speed_bps, eta_secs),
        );
    }
}

proof fn lemma_active(table: Seq<(String, RemoteEntry)>, i: int)
    ensures
        0 <= i < table.len() ==> (table[i].1.state matches RemoteEntryState::Active {
            bytes_sent,
            total_bytes,
            speed_bps,
            eta_secs,
        } ==> active_lines(table).contains(
            active_line(table[i].0@, bytes_sent, total_bytes, speed_bps, eta_secs),
        )),
        active_lines(table).len() <= table.len(),
    decreases table.len(),
{
    if table.len() > 0 {
        let rest = table.drop_last();
        let n = table.len() - 1;
        lemma_active(rest, i);
        let before = active_lines(rest);
        let after = active_lines(table);
        if 0 <= i < table.len() {
            if let RemoteEntryState::Active { bytes_sent, total_bytes, speed_bps, eta_secs }
                = table[i].1.state {
                let line = active_line(table[i].0@, bytes_sent, total_bytes, speed_bps, eta_secs);
                if i < n {
                    assert(rest[i] == table[i]);
                    let k = choose|k: int| 0 <= k < before.len() && before[k] == line;
                    assert(after[k] == line);
                } else {
                    assert(after[before.len() as int] == line);
                }
            }
        }
    }
}

/// The letters S and Q have a meaning, large and small; no other letter and no other key
/// has one of its own but the arrows.
pub proof fn keys_have_their_meanings(pressed: Pressed)
    ensures
        meaning(pressed) is Skip <==> pressed == Pressed::Char('s') || pressed == Pressed::Char('S'),
        meaning(pressed) is Quit <==> pressed == Pressed::Char('q') || pressed == Pressed::Char('Q'),
        meaning(pressed) is Up <==> pressed is Up,
        meaning(pressed) is Down <==> pressed is Down,
{
}

/// Whether a row came to no harm.
pub open spec fn unharmed(state: RemoteRowState) -> bool {
    state is Done || state is UpToDate || state is Waiting || state is Active
}

/// The backup is called complete exactly where every row came to no harm, and finished
/// everywhere else. The frame is good or bad alike, and neutral before the summary.
pub proof fn titles_tell_of_failures(state: TuiState, rows: Seq<RemoteRow>)
    ensures
        (forall|i: int| 0 <= i < rows.len() ==> unharmed((#[trigger] rows[i]).state)) ==> {
            &&& summary_text(rows) == " Backup Complete "@
            &&& state is Summary || state is Exiting ==> heading(state, rows) == (
                " Backup Complete "@,
                Mood::Good,
            )
        },
        (exists|i: int| 0 <= i < rows.len() && !unharmed((#[trigger] rows[i]).state)) ==> {
            &&& summary_text(rows) == " Backup Finished "@
            &&& state is Summary || state is Exiting ==> heading(state, rows) == (
                " Backup Finished "@,
                Mood::Bad,
            )
        },
        !(state is Summary || state is Exiting) ==> heading(state, rows) == (
            " ZRB ZFS Backup "@,
            Mood::Neutral,
        ),
{
    if forall|i: int| 0 <= i < rows.len() ==> unharmed((#[trigger] rows[i]).state) {
        assert forall|i: int| 0 <= i < rows.len() implies !((#[trigger] rows[i]).state is Failed)
            && !(rows[i].state is Skipped) by {
            assert(unharmed(rows[i].state));
        }
    }
    if exists|i: int| 0 <= i < rows.len() && !unharmed((#[trigger] rows[i]).state) {
        let i = choose|i: int| 0 <= i < rows.len() && !unharmed((#[trigger] rows[i]).state);
        assert(rows[i].state is Failed || rows[i].state is Skipped);
    }
}

/// The line below the rows says which keys there are while transfers go on, and how long the
/// summary stays after them. Before them there is none.
pub proof fn footers_say_what_comes(app: TuiApp)
    ensures
        app.state is Transferring ==> footer_text(app) == Some("[S] Skip remote   [Q] Quit"@),
        app.state is Summary ==> footer_text(app) == Some(
            "Closing in "@ + decimal_text(app.summary_countdown as int)
                + "s \u{2014} press any key to dismiss"@,
        ),
        app.state is Exiting ==> footer_text(app) == Some("Closing\u{2026}"@),
        app.state is Countdown || app.state is Aborted ==> footer_text(app) is None,
{
}

/// While transfers go on one row has the focus; otherwise none is shown with it.
pub proof fn one_row_has_the_focus(app: TuiApp, i: int, j: int)
    ensures
        shows_focus(app, app.focused as int) <==> app.state is Transferring,
        shows_focus(app, i) && shows_focus(app, j) ==> i == j,
{
}

/// The countdown goes on while seconds are counted; it ends with the transfers, or without
/// them where it was aborted.
pub proof fn countdowns_end_one_way(state: TuiState)
    ensures
        state is Countdown ==> outcome(state) is None,
        outcome(state) == Some(true) <==> state is Transferring,
        outcome(state) == Some(false) <==> state is Aborted,
{
}

} // verus!
