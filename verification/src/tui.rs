//! The full-screen display: its state and how events and keys change it.

use crate::double::{seconds_of, Double};
use crate::number::{decimal, decimal_text};
use crate::progress::{
    bytes_text, duration_text, eta_text, fmt_bytes, fmt_duration, fmt_eta, fmt_speed, measure,
    measured, percent, percent_of, speed_text, valid_eta,
};
use crate::text::{chars_of, str_eq, string_of, texts};
use vstd::prelude::*;
use vstd::string::*;

verus! {

/// Seconds for which the summary of a good run is shown.
pub const SUMMARY_TIMEOUT_OK_SECS: u8 = 10;

/// Seconds for which the summary of a run with a failure is shown.
pub const SUMMARY_TIMEOUT_FAIL_SECS: u8 = 30;

/// What happened to a transfer, or on the clock.
#[derive(Debug, Clone)]
pub enum SendEvent {
    CountdownTick { remaining_secs: u8 },
    CountdownAborted,
    RemoteStarted { remote: String, total_bytes: u64 },
    RemoteProgress { remote: String, bytes_sent: u64 },
    RemoteCompleted { remote: String, elapsed_nanos: u64, bytes: u64 },
    RemoteFailed { remote: String, error: String },
    RemoteSkipped { remote: String },
    RemoteUpToDate { remote: String },
    AllDone,
    SummaryTick,
}

/// A key, by what it means.
#[derive(Debug, Clone, Copy, PartialEq, Eq, Structural)]
pub enum TuiKey {
    Any,
    Skip,
    Quit,
    Up,
    Down,
}

/// A key, by what is on it.
#[derive(Debug, Clone, Copy, PartialEq, Eq, Structural)]
pub enum Pressed {
    Char(char),
    Up,
    Down,
    Other,
}

/// What a key means during a transfer.
pub open spec fn meaning(pressed: Pressed) -> TuiKey {
    match pressed {
        Pressed::Char(c) => if c == 's' || c == 'S' {
            TuiKey::Skip
        } else if c == 'q' || c == 'Q' {
            TuiKey::Quit
        } else {
            TuiKey::Any
        },
        Pressed::Up => TuiKey::Up,
        Pressed::Down => TuiKey::Down,
        Pressed::Other => TuiKey::Any,
    }
}

/// What a key means during a transfer.
pub fn tui_key(pressed: Pressed) -> (r: TuiKey)
    ensures
        r == meaning(pressed),
{
    match pressed {
        Pressed::Char(c) => if c == 's' || c == 'S' {
            TuiKey::Skip
        } else if c == 'q' || c == 'Q' {
            TuiKey::Quit
        } else {
            TuiKey::Any
        },
        Pressed::Up => TuiKey::Up,
        Pressed::Down => TuiKey::Down,
        Pressed::Other => TuiKey::Any,
    }
}

// ---------------------------------------------------------------------------
// Rows
// ---------------------------------------------------------------------------

/// Where the transfer of a row stands.
#[derive(Debug, Clone, PartialEq, Eq)]
pub enum RemoteRowState {
    Waiting,
    Active { bytes_sent: u64, total_bytes: u64, speed_bps: Double, eta_secs: Option<Double> },
    Done { bytes: u64, elapsed_nanos: u64 },
    Failed { error: String },
    Skipped,
    UpToDate,
}

/// A transfer on the screen.
#[derive(Debug, Clone)]
pub struct RemoteRow {
    pub name: String,
    pub state: RemoteRowState,
    /// The time of the last report and the count it gave.
    pub last_progress: Option<(u64, u64)>,
}

impl RemoteRow {
    /// Whether its speed and the time left are numbers.
    pub open spec fn valid(self) -> bool {
        match self.state {
            RemoteRowState::Active { speed_bps, eta_secs, .. } => speed_bps.valid() && valid_eta(
                eta_secs,
            ),
            _ => true,
        }
    }

    /// A transfer that has not begun.
    pub open spec fn idle(name: String) -> RemoteRow {
        RemoteRow { name, state: RemoteRowState::Waiting, last_progress: None }
    }
}

/// Whether a transfer has not come to an end.
pub open spec fn unfinished(state: RemoteRowState) -> bool {
    state is Active || state is Waiting
}

fn is_unfinished(state: &RemoteRowState) -> (r: bool)
    ensures
        r == unfinished(*state),
{
    matches!(state, RemoteRowState::Active { .. } | RemoteRowState::Waiting)
}

/// The place of the first row with this name.
pub open spec fn row_index(rows: Seq<RemoteRow>, name: Seq<char>) -> Option<int>
    decreases rows.len(),
{
    if rows.len() == 0 {
        None
    } else if rows[0].name@ == name {
        Some(0)
    } else {
        match row_index(rows.drop_first(), name) {
            Some(i) => Some(i + 1),
            None => None,
        }
    }
}

/// The row that an event is about.
pub open spec fn event_row(event: SendEvent) -> Option<Seq<char>> {
    match event {
        SendEvent::RemoteStarted { remote, .. } => Some(remote@),
        SendEvent::RemoteProgress { remote, .. } => Some(remote@),
        SendEvent::RemoteCompleted { remote, .. } => Some(remote@),
        SendEvent::RemoteFailed { remote, .. } => Some(remote@),
        SendEvent::RemoteSkipped { remote } => Some(remote@),
        SendEvent::RemoteUpToDate { remote } => Some(remote@),
        _ => None,
    }
}

/// A row after an event that is about it.
pub open spec fn row_after(row: RemoteRow, event: SendEvent, now: u64) -> RemoteRow {
    match event {
        SendEvent::RemoteStarted { total_bytes, .. } => RemoteRow {
            name: row.name,
            state: RemoteRowState::Active {
                bytes_sent: 0,
                total_bytes,
                speed_bps: Double::nothing(),
                eta_secs: None,
            },
            last_progress: Some((now, 0)),
        },
        SendEvent::RemoteProgress { bytes_sent, .. } => RemoteRow {
            name: row.name,
            state: match row.state {
                RemoteRowState::Active { total_bytes, speed_bps, eta_secs, .. } => {
                    let (rate, eta) = measured(
                        row.last_progress,
                        total_bytes,
                        speed_bps,
                        eta_secs,
                        now,
                        bytes_sent,
                    );
                    RemoteRowState::Active { bytes_sent, total_bytes, speed_bps: rate, eta_secs: eta }
                },
                s => s,
            },
            last_progress: Some((now, bytes_sent)),
        },
        SendEvent::RemoteCompleted { elapsed_nanos, bytes, .. } => RemoteRow {
            name: row.name,
            state: RemoteRowState::Done { bytes, elapsed_nanos },
            last_progress: row.last_progress,
        },
        SendEvent::RemoteFailed { error, .. } => RemoteRow {
            name: row.name,
            state: RemoteRowState::Failed { error },
            last_progress: row.last_progress,
        },
        SendEvent::RemoteSkipped { .. } => RemoteRow {
            name: row.name,
            state: RemoteRowState::Skipped,
            last_progress: row.last_progress,
        },
        SendEvent::RemoteUpToDate { .. } => RemoteRow {
            name: row.name,
            state: RemoteRowState::UpToDate,
            last_progress: row.last_progress,
        },
        _ => row,
    }
}

/// The rows after an event. One that is about no row changes none.
pub open spec fn rows_after(rows: Seq<RemoteRow>, event: SendEvent, now: u64) -> Seq<RemoteRow> {
    match event_row(event) {
        Some(name) => match row_index(rows, name) {
            Some(i) => rows.update(i, row_after(rows[i], event, now)),
            None => rows,
        },
        None => rows,
    }
}

/// A row whose transfer is given up, unless it has come to an end.
pub open spec fn skipped(row: RemoteRow) -> RemoteRow {
    if unfinished(row.state) {
        RemoteRow {
            name: row.name,
            state: RemoteRowState::Skipped,
            last_progress: row.last_progress,
        }
    } else {
        row
    }
}

/// The rows once all transfers are given up that have not come to an end.
pub open spec fn all_skipped(rows: Seq<RemoteRow>) -> Seq<RemoteRow> {
    rows.map_values(|row: RemoteRow| skipped(row))
}

/// Whether a row's transfer failed.
pub open spec fn any_failed(rows: Seq<RemoteRow>) -> bool {
    exists|i: int| 0 <= i < rows.len() && (#[trigger] rows[i]).state is Failed
}

/// Whether a row's transfer failed or was given up.
pub open spec fn any_bad(rows: Seq<RemoteRow>) -> bool {
    exists|i: int|
        0 <= i < rows.len() && ((#[trigger] rows[i]).state is Failed || rows[i].state is Skipped)
}

// ---------------------------------------------------------------------------
// The screen
// ---------------------------------------------------------------------------

/// Which screen is shown.
#[derive(Debug, Clone, Copy, PartialEq, Eq, Structural)]
pub enum TuiState {
    Countdown { remaining: u8 },
    Aborted,
    Transferring,
    Summary,
    Exiting,
}

/// The display.
#[derive(Debug)]
pub struct TuiApp {
    pub state: TuiState,
    pub remotes: Vec<RemoteRow>,
    pub focused: usize,
    pub summary_countdown: u8,
    /// For each transfer, by its row key, whether it is called off.
    pub cancelled: Vec<(String, bool)>,
}

/// The screen after an event.
pub open spec fn state_after(app: TuiApp, event: SendEvent) -> TuiState {
    match event {
        SendEvent::CountdownTick { remaining_secs } => if app.state is Countdown {
            if remaining_secs == 0 {
                TuiState::Transferring
            } else {
                TuiState::Countdown { remaining: remaining_secs }
            }
        } else {
            app.state
        },
        SendEvent::CountdownAborted => if app.state is Countdown {
            TuiState::Aborted
        } else {
            app.state
        },
        SendEvent::AllDone => if app.state is Transferring {
            TuiState::Summary
        } else {
            app.state
        },
        SendEvent::SummaryTick => if app.state is Summary && app.summary_countdown <= 1 {
            TuiState::Exiting
        } else {
            app.state
        },
        _ => app.state,
    }
}

/// The seconds left of the summary after an event.
pub open spec fn countdown_after(app: TuiApp, event: SendEvent) -> u8 {
    match event {
        SendEvent::AllDone => if app.state is Transferring {
            if any_failed(app.remotes@) {
                SUMMARY_TIMEOUT_FAIL_SECS
            } else {
                SUMMARY_TIMEOUT_OK_SECS
            }
        } else {
            app.summary_countdown
        },
        SendEvent::SummaryTick => if app.state is Summary && app.summary_countdown > 0 {
            (app.summary_countdown - 1) as u8
        } else {
            app.summary_countdown
        },
        _ => app.summary_countdown,
    }
}

/// Whether an event is a sign of life: it moves the countdown, a transfer or the
/// summary on.
pub open spec fn is_sign_of_life(app: TuiApp, event: SendEvent) -> bool {
    match event {
        SendEvent::CountdownTick { .. } => app.state is Countdown,
        SendEvent::RemoteProgress { remote, .. } => row_index(app.remotes@, remote@) is Some,
        SendEvent::SummaryTick => app.state is Summary,
        _ => false,
    }
}

/// The screen after a key. During the countdown any key calls the backup off, and in
/// the summary any key closes it.
pub open spec fn state_after_key(app: TuiApp, key: TuiKey) -> TuiState {
    match app.state {
        TuiState::Countdown { .. } => TuiState::Aborted,
        TuiState::Summary => TuiState::Exiting,
        TuiState::Transferring => if key == TuiKey::Quit || (key == TuiKey::Skip
            && app.remotes@.len() == 1) {
            TuiState::Summary
        } else {
            app.state
        },
        _ => app.state,
    }
}

/// The rows after a key.
pub open spec fn rows_after_key(app: TuiApp, key: TuiKey) -> Seq<RemoteRow> {
    let rows = app.remotes@;
    if !(app.state is Transferring) {
        rows
    } else if key == TuiKey::Quit || (key == TuiKey::Skip && rows.len() == 1) {
        all_skipped(rows)
    } else if key == TuiKey::Skip && app.focused < rows.len() {
        rows.update(app.focused as int, skipped(rows[app.focused as int]))
    } else {
        rows
    }
}

/// The focus after a key: it stays among the rows.
pub open spec fn focus_after_key(app: TuiApp, key: TuiKey) -> int {
    if !(app.state is Transferring) {
        app.focused as int
    } else if key == TuiKey::Up && app.focused > 0 {
        app.focused - 1
    } else if key == TuiKey::Down && app.focused + 1 < app.remotes@.len() {
        app.focused + 1
    } else {
        app.focused as int
    }
}

/// The transfers of which `name` is called off.
pub open spec fn called_off(table: Seq<(String, bool)>, name: Seq<char>) -> Seq<(String, bool)> {
    table.map_values(
        |e: (String, bool)|
            if e.0@ == name {
                (e.0, true)
            } else {
                e
            },
    )
}

/// The transfers, all called off.
pub open spec fn all_called_off(table: Seq<(String, bool)>) -> Seq<(String, bool)> {
    table.map_values(|e: (String, bool)| (e.0, true))
}

/// Which transfers are called off after a key.
pub open spec fn cancelled_after_key(app: TuiApp, key: TuiKey) -> Seq<(String, bool)> {
    let rows = app.remotes@;
    let table = app.cancelled@;
    if !(app.state is Transferring) {
        table
    } else if key == TuiKey::Quit {
        all_called_off(table)
    } else if key == TuiKey::Skip && rows.len() == 1 {
        called_off(table, rows[0].name@)
    } else if key == TuiKey::Skip && app.focused < rows.len() && unfinished(
        rows[app.focused as int].state,
    ) {
        called_off(table, rows[app.focused as int].name@)
    } else {
        table
    }
}

/// Rows that wait, one for each name.
pub open spec fn waiting_rows(names: Seq<String>) -> Seq<RemoteRow> {
    names.map_values(|name: String| RemoteRow::idle(name))
}

/// A table in which no transfer is called off.
pub open spec fn none_called_off(names: Seq<String>) -> Seq<(String, bool)> {
    names.map_values(|name: String| (name, false))
}

/// A table in which no transfer is called off.
pub fn build_cancel_map(remote_names: &[String]) -> (r: Vec<(String, bool)>)
    ensures
        r@ == none_called_off(remote_names@),
{
    let mut out: Vec<(String, bool)> = Vec::new();
    let mut i: usize = 0;
    while i < remote_names.len()
        invariant
            i <= remote_names@.len(),
            out@ == none_called_off(remote_names@.take(i as int)),
        decreases remote_names@.len() - i,
    {
        out.push((remote_names[i].clone(), false));
        assert(out@ =~= none_called_off(remote_names@.take(i + 1)));
        i = i + 1;
    }
    assert(remote_names@.take(remote_names@.len() as int) =~= remote_names@);
    out
}

impl TuiApp {
    /// Whether every speed is a number.
    pub open spec fn valid(self) -> bool {
        forall|i: int| 0 <= i < self.remotes@.len() ==> (#[trigger] self.remotes@[i]).valid()
    }

    /// The display before the transfers: a countdown of five seconds.
    pub fn new() -> (r: TuiApp)
        ensures
            r.state == (TuiState::Countdown { remaining: 5 }),
            r.remotes@.len() == 0,
            r.focused == 0,
            r.summary_countdown == SUMMARY_TIMEOUT_OK_SECS,
            r.cancelled@.len() == 0,
            r.valid(),
    {
        TuiApp {
            state: TuiState::Countdown { remaining: 5 },
            remotes: Vec::new(),
            focused: 0,
            summary_countdown: SUMMARY_TIMEOUT_OK_SECS,
            cancelled: Vec::new(),
        }
    }

    /// The display of transfers, none of which is called off.
    pub fn for_transfer(remote_names: Vec<String>) -> (r: TuiApp)
        ensures
            r.state == TuiState::Transferring,
            r.remotes@ == waiting_rows(remote_names@),
            r.focused == 0,
            r.summary_countdown == SUMMARY_TIMEOUT_OK_SECS,
            r.cancelled@ == none_called_off(remote_names@),
            r.valid(),
    {
        let cancelled = build_cancel_map(remote_names.as_slice());
        TuiApp::for_transfer_with_tokens(remote_names, cancelled)
    }

    /// The display of transfers, some of which may be called off.
    pub fn for_transfer_with_tokens(
        remote_names: Vec<String>,
        cancelled: Vec<(String, bool)>,
    ) -> (r: TuiApp)
        ensures
            r.state == TuiState::Transferring,
            r.remotes@ == waiting_rows(remote_names@),
            r.focused == 0,
            r.summary_countdown == SUMMARY_TIMEOUT_OK_SECS,
            r.cancelled == cancelled,
            r.valid(),
    {
        let mut remotes: Vec<RemoteRow> = Vec::new();
        let mut i: usize = 0;
        while i < remote_names.len()
            invariant
                i <= remote_names@.len(),
                remotes@ == waiting_rows(remote_names@.take(i as int)),
            decreases remote_names@.len() - i,
        {
            remotes.push(
                RemoteRow {
                    name: remote_names[i].clone(),
                    state: RemoteRowState::Waiting,
                    last_progress: None,
                },
            );
            assert(remotes@ =~= waiting_rows(remote_names@.take(i + 1)));
            i = i + 1;
        }
        assert(remote_names@.take(remote_names@.len() as int) =~= remote_names@);
        TuiApp {
            state: TuiState::Transferring,
            remotes,
            focused: 0,
            summary_countdown: SUMMARY_TIMEOUT_OK_SECS,
            cancelled,
        }
    }

    /// Which transfers are called off, by row key.
    pub fn cancel_map(&self) -> (r: Vec<(String, bool)>)
        ensures
            r@ == self.cancelled@,
    {
        let mut out: Vec<(String, bool)> = Vec::new();
        let mut i: usize = 0;
        while i < self.cancelled.len()
            invariant
                i <= self.cancelled@.len(),
                out@ == self.cancelled@.take(i as int),
            decreases self.cancelled@.len() - i,
        {
            out.push((self.cancelled[i].0.clone(), self.cancelled[i].1));
            assert(out@ =~= self.cancelled@.take(i + 1));
            i = i + 1;
        }
        assert(out@ =~= self.cancelled@);
        out
    }

    fn find_row(&self, name: &str) -> (r: Option<usize>)
        ensures
            match r {
                Some(i) => i < self.remotes@.len() && row_index(self.remotes@, name@) == Some(
                    i as int,
                ),
                None => row_index(self.remotes@, name@) is None,
            },
    {
        let mut i: usize = 0;
        assert(self.remotes@.skip(0) =~= self.remotes@);
        while i < self.remotes.len()
            invariant
                i <= self.remotes@.len(),
                row_index(self.remotes@, name@) == (match row_index(
                    self.remotes@.skip(i as int),
                    name@,
                ) {
                    Some(k) => Some(k + i),
                    None => None,
                }),
            decreases self.remotes@.len() - i,
        {
            if str_eq(self.remotes[i].name.as_str(), name) {
                return Some(i);
            }
            assert(self.remotes@.skip(i as int).drop_first() =~= self.remotes@.skip(i + 1));
            i = i + 1;
        }
        None
    }

    fn failed(&self) -> (r: bool)
        ensures
            r == any_failed(self.remotes@),
    {
        let mut i: usize = 0;
        while i < self.remotes.len()
            invariant
                i <= self.remotes@.len(),
                forall|j: int| 0 <= j < i ==> !((#[trigger] self.remotes@[j]).state is Failed),
            decreases self.remotes@.len() - i,
        {
            if matches!(self.remotes[i].state, RemoteRowState::Failed { .. }) {
                assert(self.remotes@[i as int].state is Failed);
                return true;
            }
            i = i + 1;
        }
        false
    }

    fn set_state(&mut self, remote: &str, state: RemoteRowState)
        requires
            old(self).valid(),
            !(state is Active),
        ensures
            final(self).valid(),
            final(self).state == old(self).state,
            final(self).focused == old(self).focused,
            final(self).summary_countdown == old(self).summary_countdown,
            final(self).cancelled == old(self).cancelled,
            final(self).remotes@ == (match row_index(old(self).remotes@, remote@) {
                Some(i) => old(self).remotes@.update(
                    i,
                    RemoteRow {
                        name: old(self).remotes@[i].name,
                        state,
                        last_progress: old(self).remotes@[i].last_progress,
                    },
                ),
                None => old(self).remotes@,
            }),
    {
        if let Some(i) = self.find_row(remote) {
            let ghost before = self.remotes@;
            self.remotes[i].state = state;
            proof {
                let row = RemoteRow {
                    name: before[i as int].name,
                    state,
                    last_progress: before[i as int].last_progress,
                };
                assert(self.remotes@ =~= before.update(i as int, row));
                assert forall|k: int| 0 <= k < self.remotes@.len() implies (
                #[trigger] self.remotes@[k]).valid() by {
                    if k != i {
                        assert(self.remotes@[k] == before[k]);
                    }
                }
            }
        }
    }

    fn start_row(&mut self, remote: &str, total_bytes: u64, now: u64)
        requires
            old(self).valid(),
        ensures
            final(self).valid(),
            final(self).state == old(self).state,
            final(self).focused == old(self).focused,
            final(self).summary_countdown == old(self).summary_countdown,
            final(self).cancelled == old(self).cancelled,
            final(self).remotes@ == (match row_index(old(self).remotes@, remote@) {
                Some(i) => old(self).remotes@.update(
                    i,
                    RemoteRow {
                        name: old(self).remotes@[i].name,
                        state: RemoteRowState::Active {
                            bytes_sent: 0,
                            total_bytes,
                            speed_bps: Double::nothing(),
                            eta_secs: None,
                        },
                        last_progress: Some((now, 0)),
                    },
                ),
                None => old(self).remotes@,
            }),
    {
        if let Some(i) = self.find_row(remote) {
            let ghost before = self.remotes@;
            let state = RemoteRowState::Active {
                bytes_sent: 0,
                total_bytes,
                speed_bps: Double::zero(),
                eta_secs: None,
            };
            let row = RemoteRow {
                name: self.remotes[i].name.clone(),
                state,
                last_progress: Some((now, 0)),
            };
            self.remotes.set(i, row);
            proof {
                assert forall|k: int| 0 <= k < self.remotes@.len() implies (
                #[trigger] self.remotes@[k]).valid() by {
                    if k != i {
                        assert(self.remotes@[k] == before[k]);
                    }
                }
            }
        }
    }

    fn report_row(&mut self, remote: &str, bytes_sent: u64, now: u64) -> (r: bool)
        requires
            old(self).valid(),
        ensures
            final(self).valid(),
            final(self).state == old(self).state,
            final(self).focused == old(self).focused,
            final(self).summary_countdown == old(self).summary_countdown,
            final(self).cancelled == old(self).cancelled,
            r == (row_index(old(self).remotes@, remote@) is Some),
            forall|event: SendEvent| #[trigger]
                event_row(event) == Some(remote@) && event is RemoteProgress
                    && event->RemoteProgress_bytes_sent == bytes_sent ==> final(self).remotes@
                    == rows_after(old(self).remotes@, event, now),
    {
        match self.find_row(remote) {
            None => false,
            Some(i) => {
                let ghost before = self.remotes@;
                let last = self.remotes[i].last_progress;
                assert(self.remotes@[i as int].valid());
                let active = match &self.remotes[i].state {
                    RemoteRowState::Active { total_bytes, speed_bps, eta_secs, .. } => Some(
                        (*total_bytes, *speed_bps, *eta_secs),
                    ),
                    _ => None,
                };
                if let Some((total_bytes, speed_bps, eta_secs)) = active {
                    let (rate, eta) = measure(last, total_bytes, speed_bps, eta_secs, now, bytes_sent);
                    self.remotes[i].state = RemoteRowState::Active {
                        bytes_sent,
                        total_bytes,
                        speed_bps: rate,
                        eta_secs: eta,
                    };
                }
                self.remotes[i].last_progress = Some((now, bytes_sent));
                proof {
                    assert forall|event: SendEvent| #[trigger]
                        event_row(event) == Some(remote@) && event is RemoteProgress
                            && event->RemoteProgress_bytes_sent == bytes_sent implies self.remotes@
                        == rows_after(before, event, now) by {
                        let row = row_after(before[i as int], event, now);
                        assert(self.remotes@[i as int] == row);
                        assert(self.remotes@ =~= before.update(i as int, row));
                    }
                    assert forall|k: int| 0 <= k < self.remotes@.len() implies (
                    #[trigger] self.remotes@[k]).valid() by {
                        if k != i {
                            assert(self.remotes@[k] == before[k]);
                        }
                    }
                }
                true
            },
        }
    }

    /// Takes in an event at the time `now`, in nanoseconds of a steady clock. Returns
    /// whether it is a sign of life.
    pub fn handle_send_event(&mut self, event: &SendEvent, now: u64) -> (r: bool)
        requires
            old(self).valid(),
        ensures
            final(self).valid(),
            final(self).state == state_after(*old(self), *event),
            final(self).summary_countdown == countdown_after(*old(self), *event),
            final(self).remotes@ == rows_after(old(self).remotes@, *event, now),
            final(self).focused == old(self).focused,
            final(self).cancelled == old(self).cancelled,
            r == is_sign_of_life(*old(self), *event),
    {
        match event {
            SendEvent::CountdownTick { remaining_secs } => {
                if let TuiState::Countdown { .. } = self.state {
                    self.state =
                    if *remaining_secs == 0 {
                        TuiState::Transferring
                    } else {
                        TuiState::Countdown { remaining: *remaining_secs }
                    };
                    true
                } else {
                    false
                }
            },
            SendEvent::CountdownAborted => {
                if let TuiState::Countdown { .. } = self.state {
                    self.state = TuiState::Aborted;
                }
                false
            },
            SendEvent::RemoteProgress { remote, bytes_sent } => {
                assert(event_row(*event) == Some(remote@));
                self.report_row(remote.as_str(), *bytes_sent, now)
            },
            SendEvent::RemoteStarted { remote, total_bytes } => {
                self.start_row(remote.as_str(), *total_bytes, now);
                false
            },
            SendEvent::RemoteCompleted { remote, elapsed_nanos, bytes } => {
                let state = RemoteRowState::Done { bytes: *bytes, elapsed_nanos: *elapsed_nanos };
                self.set_state(remote.as_str(), state);
                false
            },
            SendEvent::RemoteFailed { remote, error } => {
                let state = RemoteRowState::Failed { error: error.clone() };
                self.set_state(remote.as_str(), state);
                false
            },
            SendEvent::RemoteSkipped { remote } => {
                self.set_state(remote.as_str(), RemoteRowState::Skipped);
                false
            },
            SendEvent::RemoteUpToDate { remote } => {
                self.set_state(remote.as_str(), RemoteRowState::UpToDate);
                false
            },
            SendEvent::AllDone => {
                if let TuiState::Transferring = self.state {
                    self.summary_countdown =
                    if self.failed() {
                        SUMMARY_TIMEOUT_FAIL_SECS
                    } else {
                        SUMMARY_TIMEOUT_OK_SECS
                    };
                    self.state = TuiState::Summary;
                }
                false
            },
            SendEvent::SummaryTick => {
                if let TuiState::Summary = self.state {
                    if self.summary_countdown > 0 {
                        self.summary_countdown = self.summary_countdown - 1;
                    }
                    if self.summary_countdown == 0 {
                        self.state = TuiState::Exiting;
                    }
                    true
                } else {
                    false
                }
            },
        }
    }

    fn skip_all_active(&mut self)
        requires
            old(self).valid(),
        ensures
            final(self).valid(),
            final(self).remotes@ == all_skipped(old(self).remotes@),
            final(self).state == old(self).state,
            final(self).focused == old(self).focused,
            final(self).summary_countdown == old(self).summary_countdown,
            final(self).cancelled == old(self).cancelled,
    {
        let ghost before = self.remotes@;
        let n: usize = self.remotes.len();
        let mut i: usize = 0;
        while i < n
            invariant
                i <= n,
                n == before.len(),
                before == old(self).remotes@,
                self.remotes@.len() == n,
                self.state == old(self).state,
                self.focused == old(self).focused,
                self.summary_countdown == old(self).summary_countdown,
                self.cancelled == old(self).cancelled,
                forall|j: int| 0 <= j < i ==> #[trigger] self.remotes@[j] == skipped(before[j]),
                forall|j: int| i <= j < n ==> #[trigger] self.remotes@[j] == before[j],
            decreases n - i,
        {
            if is_unfinished(&self.remotes[i].state) {
                self.remotes[i].state = RemoteRowState::Skipped;
            }
            i = i + 1;
        }
        proof {
            assert(self.remotes@ =~= all_skipped(before));
            assert forall|k: int| 0 <= k < self.remotes@.len() implies (
            #[trigger] self.remotes@[k]).valid() by {
                assert(self.remotes@[k] == skipped(before[k]));
                assert(before[k].valid());
            }
        }
    }

    fn call_off(&mut self, name: &str)
        requires
            old(self).valid(),
        ensures
            final(self).valid(),
            final(self).cancelled@ == called_off(old(self).cancelled@, name@),
            final(self).remotes == old(self).remotes,
            final(self).state == old(self).state,
            final(self).focused == old(self).focused,
            final(self).summary_countdown == old(self).summary_countdown,
    {
        let ghost before = self.cancelled@;
        let n: usize = self.cancelled.len();
        let mut i: usize = 0;
        while i < n
            invariant
                i <= n,
                n == before.len(),
                before == old(self).cancelled@,
                self.cancelled@.len() == n,
                self.remotes == old(self).remotes,
                self.state == old(self).state,
                self.focused == old(self).focused,
                self.summary_countdown == old(self).summary_countdown,
                forall|j: int|
                    0 <= j < i ==> #[trigger] self.cancelled@[j] == called_off(before, name@)[j],
                forall|j: int| i <= j < n ==> #[trigger] self.cancelled@[j] == before[j],
            decreases n - i,
        {
            if str_eq(self.cancelled[i].0.as_str(), name) {
                self.cancelled[i].1 = true;
            }
            i = i + 1;
        }
        assert(self.cancelled@ =~= called_off(before, name@));
    }

    fn call_all_off(&mut self)
        requires
            old(self).valid(),
        ensures
            final(self).valid(),
            final(self).cancelled@ == all_called_off(old(self).cancelled@),
            final(self).remotes == old(self).remotes,
            final(self).state == old(self).state,
            final(self).focused == old(self).focused,
            final(self).summary_countdown == old(self).summary_countdown,
    {
        let ghost before = self.cancelled@;
        let n: usize = self.cancelled.len();
        let mut i: usize = 0;
        while i < n
            invariant
                i <= n,
                n == before.len(),
                before == old(self).cancelled@,
                self.cancelled@.len() == n,
                self.remotes == old(self).remotes,
                self.state == old(self).state,
                self.focused == old(self).focused,
                self.summary_countdown == old(self).summary_countdown,
                forall|j: int|
                    0 <= j < i ==> #[trigger] self.cancelled@[j] == (before[j].0, true),
                forall|j: int| i <= j < n ==> #[trigger] self.cancelled@[j] == before[j],
            decreases n - i,
        {
            self.cancelled[i].1 = true;
            i = i + 1;
        }
        assert(self.cancelled@ =~= all_called_off(before));
    }

    /// Takes in a key.
    pub fn handle_key(&mut self, key: TuiKey)
        requires
            old(self).valid(),
        ensures
            final(self).valid(),
            final(self).state == state_after_key(*old(self), key),
            final(self).remotes@ == rows_after_key(*old(self), key),
            final(self).focused == focus_after_key(*old(self), key),
            final(self).cancelled@ == cancelled_after_key(*old(self), key),
            final(self).summary_countdown == old(self).summary_countdown,
    {
        match self.state {
            TuiState::Countdown { .. } => {
                self.state = TuiState::Aborted;
            },
            TuiState::Summary => {
                self.state = TuiState::Exiting;
            },
            TuiState::Transferring => match key {
                TuiKey::Skip => {
                    let n: usize = self.remotes.len();
                    if n == 1 {
                        let name = self.remotes[0].name.clone();
                        self.call_off(name.as_str());
                        self.skip_all_active();
                        self.state = TuiState::Summary;
                    } else if self.focused < n {
                        let i: usize = self.focused;
                        let ghost before = self.remotes@;
                        if is_unfinished(&self.remotes[i].state) {
                            let name = self.remotes[i].name.clone();
                            self.call_off(name.as_str());
                            self.remotes[i].state = RemoteRowState::Skipped;
                        }
                        proof {
                            assert(self.remotes@ =~= before.update(
                                i as int,
                                skipped(before[i as int]),
                            ));
                            assert forall|k: int| 0 <= k < self.remotes@.len() implies (
                            #[trigger] self.remotes@[k]).valid() by {
                                assert(before[k].valid());
                            }
                        }
                    }
                },
                TuiKey::Quit => {
                    self.call_all_off();
                    self.skip_all_active();
                    self.state = TuiState::Summary;
                },
                TuiKey::Up => {
                    if self.focused > 0 {
                        self.focused = self.focused - 1;
                    }
                },
                TuiKey::Down => {
                    let n: usize = self.remotes.len();
                    if self.focused < n && self.focused + 1 < n {
                        self.focused = self.focused + 1;
                    }
                },
                TuiKey::Any => {},
            },
            _ => {},
        }
    }
}

impl Default for TuiApp {
    fn default() -> (r: TuiApp)
        ensures
            r.state == (TuiState::Countdown { remaining: 5 }),
            r.remotes@.len() == 0,
            r.focused == 0,
            r.summary_countdown == SUMMARY_TIMEOUT_OK_SECS,
            r.cancelled@.len() == 0,
            r.valid(),
    {
        TuiApp::new()
    }
}

// ---------------------------------------------------------------------------
// Laws
// ---------------------------------------------------------------------------

/// A backup that was called off stays called off, whatever happens.
pub proof fn aborted_stays_aborted(app: TuiApp, event: SendEvent, key: TuiKey)
    requires
        app.state is Aborted,
    ensures
        state_after(app, event) is Aborted,
        state_after_key(app, key) is Aborted,
{
}

/// The focus stays on a row, as long as there is one.
pub proof fn focus_stays_on_a_row(app: TuiApp, key: TuiKey)
    requires
        app.focused < app.remotes@.len(),
    ensures
        0 <= focus_after_key(app, key) < app.remotes@.len(),
        rows_after_key(app, key).len() == app.remotes@.len(),
{
}

/// To quit gives up what has not come to an end and calls off every transfer, and
/// leaves alone what is done, has failed or was up to date.
pub proof fn quitting_spares_what_is_over(app: TuiApp, i: int)
    requires
        app.state is Transferring,
        0 <= i < app.remotes@.len(),
    ensures
        state_after_key(app, TuiKey::Quit) is Summary,
        !unfinished(app.remotes@[i].state) ==> rows_after_key(app, TuiKey::Quit)[i]
            == app.remotes@[i],
        unfinished(app.remotes@[i].state) ==> rows_after_key(app, TuiKey::Quit)[i].state
            is Skipped,
        forall|k: int|
            0 <= k < app.cancelled@.len() ==> (#[trigger] cancelled_after_key(
                app,
                TuiKey::Quit,
            )[k]).1,
{
}

/// To skip one of several touches no other row.
pub proof fn skipping_touches_one_row(app: TuiApp, i: int)
    requires
        app.state is Transferring,
        app.remotes@.len() > 1,
        0 <= i < app.remotes@.len(),
        i != app.focused,
    ensures
        rows_after_key(app, TuiKey::Skip)[i] == app.remotes@[i],
        state_after_key(app, TuiKey::Skip) is Transferring,
{
}

/// A row's name never changes, and no row comes or goes.
pub proof fn rows_keep_their_names(rows: Seq<RemoteRow>, event: SendEvent, now: u64, i: int)
    requires
        0 <= i < rows.len(),
    ensures
        rows_after(rows, event, now).len() == rows.len(),
        rows_after(rows, event, now)[i].name == rows[i].name,
{
    if event_row(event) is Some {
        lemma_row_index(rows, event_row(event)->0);
    }
}

proof fn lemma_row_index(rows: Seq<RemoteRow>, name: Seq<char>)
    ensures
        match row_index(rows, name) {
            Some(i) => 0 <= i < rows.len() && rows[i].name@ == name,
            None => true,
        },
    decreases rows.len(),
{
    if rows.len() > 0 && rows[0].name@ != name {
        lemma_row_index(rows.drop_first(), name);
    }
}

/// Seconds of the summary that are left after so many ticks.
pub open spec fn ticked(app: TuiApp, ticks: int) -> (TuiState, int)
    decreases ticks,
{
    if ticks <= 0 {
        (app.state, app.summary_countdown as int)
    } else {
        let (state, left) = ticked(app, ticks - 1);
        if state is Summary {
            (
                if left <= 1 {
                    TuiState::Exiting
                } else {
                    state
                },
                if left > 0 {
                    left - 1
                } else {
                    0
                },
            )
        } else {
            (state, left)
        }
    }
}

/// A tick does to the display what [`ticked`] says.
pub proof fn a_tick_is_a_tick(app: TuiApp)
    ensures
        ticked(app, 1) == (
            state_after(app, SendEvent::SummaryTick),
            countdown_after(app, SendEvent::SummaryTick) as int,
        ),
{
    reveal_with_fuel(ticked, 2);
}

/// The summary closes by itself after as many ticks as it counts down, and not
/// before.
pub proof fn summary_closes_in_time(app: TuiApp, ticks: int)
    requires
        app.state is Summary,
        app.summary_countdown > 0,
        ticks >= 0,
    ensures
        ticks < app.summary_countdown ==> ticked(app, ticks) == (
            TuiState::Summary,
            app.summary_countdown - ticks,
        ),
        ticks >= app.summary_countdown ==> ticked(app, ticks).0 is Exiting,
    decreases ticks,
{
    if ticks > 0 {
        summary_closes_in_time(app, ticks - 1);
    }
}

// ---------------------------------------------------------------------------
// What is shown
// ---------------------------------------------------------------------------

/// The title of the summary.
pub open spec fn summary_text(rows: Seq<RemoteRow>) -> Seq<char> {
    if any_bad(rows) {
        " Backup Finished "@
    } else {
        " Backup Complete "@
    }
}

/// The title of the summary.
pub fn summary_title(app: &TuiApp) -> (r: &'static str)
    ensures
        r@ == summary_text(app.remotes@),
{
    if has_bad(app) {
        " Backup Finished "
    } else {
        " Backup Complete "
    }
}

fn has_bad(app: &TuiApp) -> (r: bool)
    ensures
        r == any_bad(app.remotes@),
{
    let mut i: usize = 0;
    while i < app.remotes.len()
        invariant
            i <= app.remotes@.len(),
            forall|j: int|
                0 <= j < i ==> !((#[trigger] app.remotes@[j]).state is Failed)
                    && !(app.remotes@[j].state is Skipped),
        decreases app.remotes@.len() - i,
    {
        if matches!(app.remotes[i].state, RemoteRowState::Failed { .. } | RemoteRowState::Skipped) {
            assert(app.remotes@[i as int].state is Failed || app.remotes@[i as int].state
                is Skipped);
            return true;
        }
        i = i + 1;
    }
    false
}

/// The colour of the frame.
#[derive(Debug, Clone, Copy, PartialEq, Eq, Structural)]
pub enum Mood {
    Neutral,
    Good,
    Bad,
}

/// The title and the mood of the screen.
pub open spec fn heading(state: TuiState, rows: Seq<RemoteRow>) -> (Seq<char>, Mood) {
    if state is Summary || state is Exiting {
        (
            summary_text(rows),
            if any_bad(rows) {
                Mood::Bad
            } else {
                Mood::Good
            },
        )
    } else {
        (" ZRB ZFS Backup "@, Mood::Neutral)
    }
}

/// The title and the mood of the screen: those of the summary once it is shown.
pub fn screen_title(app: &TuiApp) -> (r: (&'static str, Mood))
    ensures
        (r.0@, r.1) == heading(app.state, app.remotes@),
{
    match app.state {
        TuiState::Summary | TuiState::Exiting => {
            let mood = if has_bad(app) {
                Mood::Bad
            } else {
                Mood::Good
            };
            (summary_title(app), mood)
        },
        _ => (" ZRB ZFS Backup ", Mood::Neutral),
    }
}

/// The line below the rows.
pub open spec fn footer_text(app: TuiApp) -> Option<Seq<char>> {
    match app.state {
        TuiState::Transferring => Some("[S] Skip remote   [Q] Quit"@),
        TuiState::Summary => Some(
            "Closing in "@ + decimal_text(app.summary_countdown as int)
                + "s \u{2014} press any key to dismiss"@,
        ),
        TuiState::Exiting => Some("Closing\u{2026}"@),
        _ => None,
    }
}

/// The line below the rows.
pub fn footer(app: &TuiApp) -> (r: Option<String>)
    ensures
        match r {
            Some(line) => footer_text(*app) == Some(line@),
            None => footer_text(*app) is None,
        },
{
    match app.state {
        TuiState::Transferring => Some("[S] Skip remote   [Q] Quit".to_owned()),
        TuiState::Summary => Some(
            "Closing in ".to_owned().concat(decimal(app.summary_countdown as u128).as_str()).concat(
                "s \u{2014} press any key to dismiss",
            ),
        ),
        TuiState::Exiting => Some("Closing\u{2026}".to_owned()),
        _ => None,
    }
}

/// Whether row `i` is shown as the one with the focus.
pub open spec fn shows_focus(app: TuiApp, i: int) -> bool {
    i == app.focused && app.state is Transferring
}

/// Whether row `i` is shown as the one with the focus.
pub fn is_focused(app: &TuiApp, i: usize) -> (r: bool)
    ensures
        r == shows_focus(*app, i as int),
{
    i == app.focused && matches!(app.state, TuiState::Transferring)
}

/// A character so many times.
pub open spec fn repeated(c: char, n: int) -> Seq<char> {
    Seq::new(n as nat, |i: int| c)
}

fn push_times(s: &mut String, c: char, n: usize)
    ensures
        final(s)@ == old(s)@ + repeated(c, n as int),
{
    let mut i: usize = 0;
    assert(s@ =~= old(s)@ + repeated(c, 0));
    while i < n
        invariant
            i <= n,
            s@ == old(s)@ + repeated(c, i as int),
        decreases n - i,
    {
        s.push(c);
        i = i + 1;
        assert(s@ =~= old(s)@ + repeated(c, i as int));
    }
}

/// Blocks of a bar that are filled at so many percent.
pub open spec fn filled_blocks(pct: int, width: int) -> int {
    if pct * width / 100 > width {
        width
    } else {
        pct * width / 100
    }
}

/// A bar of `width` blocks.
pub open spec fn bar_text(pct: int, width: int) -> Seq<char> {
    repeated('\u{2588}', filled_blocks(pct, width)) + repeated(
        '\u{2591}',
        width - filled_blocks(pct, width),
    )
}

/// A bar of `width` blocks, of which so many percent are filled.
pub fn make_bar(pct: u8, width: usize) -> (r: String)
    ensures
        r@ == bar_text(pct as int, width as int),
{
    proof {
        assert(0 <= pct * width <= 255 * 0xffff_ffff_ffff_ffff) by (nonlinear_arith)
            requires
                0 <= pct <= 255,
                0 <= width <= 0xffff_ffff_ffff_ffff,
        ;
    }
    let part: u128 = pct as u128 * width as u128 / 100;
    let filled: usize = if part > width as u128 {
        width
    } else {
        part as usize
    };
    let mut out = String::new();
    push_times(&mut out, '\u{2588}', filled);
    push_times(&mut out, '\u{2591}', width - filled);
    assert(out@ =~= bar_text(pct as int, width as int));
    out
}

/// The first `max_chars` characters of a text.
pub fn truncate_str(s: &str, max_chars: usize) -> (r: String)
    ensures
        r@ == (if s@.len() > max_chars {
            s@.take(max_chars as int)
        } else {
            s@
        }),
{
    let cs = chars_of(s);
    if cs.len() > max_chars {
        let r = string_of(cs.as_slice(), 0, max_chars);
        assert(r@ =~= s@.take(max_chars as int));
        r
    } else {
        s.to_owned()
    }
}

/// A text with spaces behind it, up to `width` characters.
pub open spec fn padded_right(s: Seq<char>, width: int) -> Seq<char> {
    if s.len() < width {
        s + repeated(' ', width - s.len())
    } else {
        s
    }
}

/// A text with spaces behind it, up to `width` characters.
pub fn pad_right(s: &str, width: usize) -> (r: String)
    ensures
        r@ == padded_right(s@, width as int),
{
    let n: usize = s.unicode_len();
    let mut out = s.to_owned();
    if n < width {
        push_times(&mut out, ' ', width - n);
    }
    out
}

/// A text with spaces before it, up to `width` characters.
pub open spec fn padded_left(s: Seq<char>, width: int) -> Seq<char> {
    if s.len() < width {
        repeated(' ', width - s.len()) + s
    } else {
        s
    }
}

fn pad_left(s: &str, width: usize) -> (r: String)
    ensures
        r@ == padded_left(s@, width as int),
{
    let n: usize = s.unicode_len();
    let mut out = String::new();
    if n < width {
        push_times(&mut out, ' ', width - n);
    }
    out.append(s);
    assert(out@ =~= padded_left(s@, width as int));
    out
}

/// Width of the column of names: the longest, in bytes; eight without rows.
pub open spec fn names_width(rows: Seq<RemoteRow>) -> int {
    if rows.len() == 0 {
        8
    } else {
        longest_name(rows)
    }
}

/// Bytes of the longest name.
pub open spec fn longest_name(rows: Seq<RemoteRow>) -> int
    decreases rows.len(),
{
    if rows.len() == 0 {
        0
    } else {
        let before = longest_name(rows.drop_last());
        let last = rows.last().name@;
        let n = vstd::utf8::encode_utf8(last).len() as usize as int;
        if n > before {
            n
        } else {
            before
        }
    }
}

/// Width of the column of names.
pub fn name_width(app: &TuiApp) -> (r: usize)
    ensures
        r == names_width(app.remotes@),
{
    let n: usize = app.remotes.len();
    if n == 0 {
        return 8;
    }
    let mut width: usize = 0;
    let mut i: usize = 0;
    while i < n
        invariant
            i <= n,
            n == app.remotes@.len(),
            width == longest_name(app.remotes@.take(i as int)),
        decreases n - i,
    {
        let len: usize = app.remotes[i].name.as_str().len();
        proof {
            assert(app.remotes@.take(i + 1).drop_last() =~= app.remotes@.take(i as int));
            assert(app.remotes@.take(i + 1).last() == app.remotes@[i as int]);
        }
        if len > width {
            width = len;
        }
        i = i + 1;
    }
    assert(app.remotes@.take(n as int) =~= app.remotes@);
    width
}

/// What a row says behind its name.
pub open spec fn row_text(state: RemoteRowState) -> Seq<char> {
    match state {
        RemoteRowState::Waiting => "  waiting\u{2026}"@,
        RemoteRowState::Active { bytes_sent, total_bytes, speed_bps, eta_secs } => "  ["@ + bar_text(
            percent_of(bytes_sent as int, total_bytes as int),
            16,
        ) + "] "@ + padded_left(
            decimal_text(percent_of(bytes_sent as int, total_bytes as int)),
            3,
        ) + "%  "@ + bytes_text(bytes_sent as int) + " / "@ + bytes_text(total_bytes as int)
            + "  "@ + speed_text(speed_bps.parts()) + "  "@ + eta_text(eta_secs),
        RemoteRowState::Done { bytes, elapsed_nanos } => "  \u{2713} "@ + bytes_text(bytes as int)
            + "  "@ + duration_text(seconds_of(elapsed_nanos as int)),
        RemoteRowState::Failed { error } => "  \u{2717} "@ + (if error@.len() > 40 {
            error@.take(40)
        } else {
            error@
        }),
        RemoteRowState::Skipped => "  skipped"@,
        RemoteRowState::UpToDate => "  up to date"@,
    }
}

/// What a row says behind its name.
pub fn render_remote_row(row: &RemoteRow) -> (r: String)
    requires
        row.valid(),
    ensures
        r@ == row_text(row.state),
{
    match &row.state {
        RemoteRowState::Waiting => "  waiting\u{2026}".to_owned(),
        RemoteRowState::Active { bytes_sent, total_bytes, speed_bps, eta_secs } => {
            let pct = percent(*bytes_sent, *total_bytes);
            let bar = make_bar(pct, 16);
            let number = pad_left(decimal(pct as u128).as_str(), 3);
            "  [".to_owned().concat(bar.as_str()).concat("] ").concat(number.as_str()).concat(
                "%  ",
            ).concat(fmt_bytes(*bytes_sent).as_str()).concat(" / ").concat(
                fmt_bytes(*total_bytes).as_str(),
            ).concat("  ").concat(fmt_speed(*speed_bps).as_str()).concat("  ").concat(
                fmt_eta(*eta_secs).as_str(),
            )
        },
        RemoteRowState::Done { bytes, elapsed_nanos } => "  \u{2713} ".to_owned().concat(
            fmt_bytes(*bytes).as_str(),
        ).concat("  ").concat(fmt_duration(Double::from_nanos(*elapsed_nanos)).as_str()),
        RemoteRowState::Failed { error } => "  \u{2717} ".to_owned().concat(
            truncate_str(error.as_str(), 40).as_str(),
        ),
        RemoteRowState::Skipped => "  skipped".to_owned(),
        RemoteRowState::UpToDate => "  up to date".to_owned(),
    }
}

/// Texts with `, ` between them.
pub open spec fn joined(list: Seq<Seq<char>>) -> Seq<char>
    decreases list.len(),
{
    if list.len() == 0 {
        seq![]
    } else if list.len() == 1 {
        list[0]
    } else {
        joined(list.drop_last()) + ", "@ + list.last()
    }
}

fn join(list: &Vec<String>) -> (r: String)
    ensures
        r@ == joined(texts(list@)),
{
    let mut out = String::new();
    let mut i: usize = 0;
    let ghost all = texts(list@);
    assert(out@ =~= joined(all.take(0)));
    while i < list.len()
        invariant
            i <= list@.len(),
            all == texts(list@),
            out@ == joined(all.take(i as int)),
        decreases list@.len() - i,
    {
        proof {
            assert(all.take(i + 1).drop_last() =~= all.take(i as int));
            assert(all.take(i + 1).last() == list@[i as int]@);
        }
        if i > 0 {
            out.append(", ");
        }
        out.append(list[i].as_str());
        assert(i == 0 ==> out@ =~= list@[0]@);
        i = i + 1;
    }
    assert(all.take(all.len() as int) =~= all);
    out
}

/// The line of a dataset and its remotes before the transfers.
pub fn dataset_line(dataset: &str, remotes: &Vec<String>) -> (r: String)
    ensures
        r@ == "  "@ + dataset@ + "  \u{2192}  "@ + (if remotes@.len() == 0 {
            "(no remotes)"@
        } else {
            joined(texts(remotes@))
        }),
{
    let names = if remotes.len() == 0 {
        "(no remotes)".to_owned()
    } else {
        join(remotes)
    };
    "  ".to_owned().concat(dataset).concat("  \u{2192}  ").concat(names.as_str())
}

/// The lines below the datasets before the transfers.
pub open spec fn countdown_texts(state: TuiState) -> Seq<Seq<char>> {
    match state {
        TuiState::Countdown { remaining } => seq![
            "  Starting in "@ + decimal_text(remaining as int) + "s\u{2026}"@,
            ""@,
            "  Press any key to cancel"@,
        ],
        TuiState::Aborted => seq!["  Backup skipped."@],
        _ => seq![],
    }
}

/// The lines below the datasets before the transfers.
pub fn countdown_lines(state: TuiState) -> (r: Vec<String>)
    ensures
        texts(r@) == countdown_texts(state),
{
    let mut out: Vec<String> = Vec::new();
    match state {
        TuiState::Countdown { remaining } => {
            out.push(
                "  Starting in ".to_owned().concat(decimal(remaining as u128).as_str()).concat(
                    "s\u{2026}",
                ),
            );
            out.push("".to_owned());
            out.push("  Press any key to cancel".to_owned());
        },
        TuiState::Aborted => {
            out.push("  Backup skipped.".to_owned());
        },
        _ => {},
    }
    assert(texts(out@) =~= countdown_texts(state));
    out
}

/// How the countdown ended, once it did: whether the transfers are to begin.
pub open spec fn outcome(state: TuiState) -> Option<bool> {
    match state {
        TuiState::Aborted => Some(false),
        TuiState::Transferring => Some(true),
        _ => None,
    }
}

/// How the countdown ended, once it did: whether the transfers are to begin.
pub fn countdown_outcome(state: TuiState) -> (r: Option<bool>)
    ensures
        r == outcome(state),
{
    match state {
        TuiState::Aborted => Some(false),
        TuiState::Transferring => Some(true),
        _ => None,
    }
}

/// Part of the screen.
#[derive(Debug, Clone, Copy, PartialEq, Eq, Structural)]
pub struct Area {
    pub x: u16,
    pub y: u16,
    pub width: u16,
    pub height: u16,
}

/// A size that leaves a margin of two where it can.
pub open spec fn fitted(desired: u16, available: u16) -> u16 {
    let room = if available > 2 {
        (available - 2) as u16
    } else {
        0
    };
    if desired < room {
        desired
    } else {
        room
    }
}

fn fit(desired: u16, available: u16) -> (r: u16)
    ensures
        r == fitted(desired, available),
        r <= available,
{
    let room: u16 = if available > 2 {
        available - 2
    } else {
        0
    };
    if desired < room {
        desired
    } else {
        room
    }
}

/// A box in the middle of an area, as large as desired where it fits.
pub fn centered_box(area: Area, desired_w: u16, desired_h: u16) -> (r: Area)
    requires
        area.x + (area.width - fitted(desired_w, area.width)) / 2 <= u16::MAX,
        area.y + (area.height - fitted(desired_h, area.height)) / 2 <= u16::MAX,
    ensures
        r.width == fitted(desired_w, area.width),
        r.height == fitted(desired_h, area.height),
        r.x == area.x + (area.width - r.width) / 2,
        r.y == area.y + (area.height - r.height) / 2,
{
    let width = fit(desired_w, area.width);
    let height = fit(desired_h, area.height);
    let x: u16 = area.x + (area.width - width) / 2;
    let y: u16 = area.y + (area.height - height) / 2;
    Area { x, y, width, height }
}

/// The box lies within the area.
pub proof fn box_lies_inside(area: Area, w: u16, h: u16)
    ensures
        fitted(w, area.width) <= area.width,
        fitted(h, area.height) <= area.height,
        (area.width - fitted(w, area.width)) / 2 + fitted(w, area.width) <= area.width,
        (area.height - fitted(h, area.height)) / 2 + fitted(h, area.height) <= area.height,
{
}

/// Rows of the box before the transfers: one for each dataset, and seven more.
pub fn dataset_box_height(datasets: usize) -> (r: u16)
    requires
        datasets <= u16::MAX - 7,
    ensures
        r == datasets + 7,
{
    datasets as u16 + 7
}

} // verus!
