use chrono::{DateTime, Duration, TimeZone, Utc};
use zrb::ops::prune::{
    classify_candidates, prune, resume_decision, zrb_holds_from_tags, PruneAction, PruneResult,
    ResumeDecision,
};
use zrb::retention::policy::{KeepReason, RetentionConfig};
use zrb::time::Timestamp;
use zrb::zfs::client::{ClientError, HoldsTable};

fn stamp(dt: DateTime<Utc>) -> Timestamp {
    Timestamp::new(dt.timestamp(), dt.timestamp_subsec_nanos()).unwrap()
}

fn utc_now() -> DateTime<Utc> {
    Utc.with_ymd_and_hms(2026, 5, 23, 12, 0, 0).unwrap()
}

fn now() -> Timestamp {
    stamp(utc_now())
}

fn days_ago(days: i64) -> Timestamp {
    stamp(utc_now() - Duration::days(days))
}

// ── resume_decision ───────────────────────────────────────────────────

#[test]
fn no_token_is_idle() {
    assert_eq!(
        resume_decision(false, None, now(), Some(3)),
        ResumeDecision::Idle
    );
}

#[test]
fn no_token_with_stale_since_is_idle() {
    let stale = days_ago(5);
    assert_eq!(
        resume_decision(false, Some(stale), now(), Some(3)),
        ResumeDecision::Idle
    );
}

#[test]
fn token_no_since_is_wait() {
    assert_eq!(
        resume_decision(true, None, now(), Some(3)),
        ResumeDecision::Wait
    );
}

#[test]
fn token_no_since_no_hold_days_is_wait() {
    assert_eq!(
        resume_decision(true, None, now(), None),
        ResumeDecision::Wait
    );
}

#[test]
fn token_within_hold_period_is_wait() {
    let since = days_ago(2);
    assert_eq!(
        resume_decision(true, Some(since), now(), Some(3)),
        ResumeDecision::Wait
    );
}

#[test]
fn token_exactly_at_hold_boundary_is_expire() {
    let since = days_ago(3);
    assert_eq!(
        resume_decision(true, Some(since), now(), Some(3)),
        ResumeDecision::Expire
    );
}

#[test]
fn token_past_hold_period_is_expire() {
    let since = days_ago(5);
    assert_eq!(
        resume_decision(true, Some(since), now(), Some(3)),
        ResumeDecision::Expire
    );
}

#[test]
fn token_with_no_hold_days_always_expires() {
    let ancient = days_ago(-9999);
    assert_eq!(
        resume_decision(true, Some(ancient), now(), None),
        ResumeDecision::Expire
    );
}

// ── zrb_holds_from_tags ───────────────────────────────────────────────

#[test]
fn empty_holds_gives_empty_vec() {
    assert_eq!(zrb_holds_from_tags(&[]), Vec::<String>::new());
}

#[test]
fn non_zrb_holds_excluded() {
    let holds = vec!["manual".to_owned(), "other-tool:data".to_owned()];
    assert_eq!(zrb_holds_from_tags(&holds), Vec::<String>::new());
}

#[test]
fn single_zrb_hold_returned_as_is() {
    let holds = vec!["zrb:primary".to_owned()];
    assert_eq!(zrb_holds_from_tags(&holds), vec!["zrb:primary"]);
}

#[test]
fn multiple_zrb_holds_all_returned() {
    let holds = vec![
        "zrb:primary".to_owned(),
        "zrb:offsite".to_owned(),
        "manual".to_owned(),
    ];
    let got = zrb_holds_from_tags(&holds);
    assert_eq!(got, vec!["zrb:primary", "zrb:offsite"]);
}

#[test]
fn server_side_received_tag_is_a_zrb_hold() {
    let holds = vec!["zrb:received".to_owned()];
    assert_eq!(zrb_holds_from_tags(&holds), vec!["zrb:received"]);
}

// ── classify_candidates ───────────────────────────────────────────────

fn holds(snap: &str, tags: &[&str]) -> (String, Vec<String>) {
    (
        snap.to_owned(),
        tags.iter().map(|t| (*t).to_owned()).collect(),
    )
}

#[test]
fn no_holds_all_candidates_go_to_delete() {
    let candidates = vec!["tank/data@zrb-A".to_owned(), "tank/data@zrb-B".to_owned()];
    let map: HoldsTable = Vec::new();
    let (to_delete, hold_skipped) = classify_candidates(candidates.clone(), &map);
    assert_eq!(to_delete, candidates);
    assert!(hold_skipped.is_empty());
}

#[test]
fn zrb_held_snapshot_goes_to_hold_skipped_not_deleted() {
    let candidates = vec!["tank/data@zrb-A".to_owned()];
    let map = vec![holds("tank/data@zrb-A", &["zrb:backup"])];
    let (to_delete, hold_skipped) = classify_candidates(candidates, &map);
    assert!(to_delete.is_empty());
    assert_eq!(
        hold_skipped,
        vec![("tank/data@zrb-A".to_owned(), "zrb:backup".to_owned())]
    );
}

#[test]
fn non_zrb_hold_does_not_protect_snapshot() {
    let candidates = vec!["tank/data@zrb-A".to_owned()];
    let map = vec![holds("tank/data@zrb-A", &["manual"])];
    let (to_delete, hold_skipped) = classify_candidates(candidates.clone(), &map);
    assert_eq!(to_delete, candidates);
    assert!(hold_skipped.is_empty());
}

#[test]
fn multiple_zrb_tags_on_one_snapshot_produces_multiple_hold_skipped_entries() {
    let candidates = vec!["tank/data@zrb-A".to_owned()];
    let map = vec![holds("tank/data@zrb-A", &["zrb:primary", "zrb:offsite"])];
    let (to_delete, hold_skipped) = classify_candidates(candidates, &map);
    assert!(to_delete.is_empty());
    assert_eq!(hold_skipped.len(), 2);
    assert!(hold_skipped.contains(&("tank/data@zrb-A".to_owned(), "zrb:primary".to_owned())));
    assert!(hold_skipped.contains(&("tank/data@zrb-A".to_owned(), "zrb:offsite".to_owned())));
}

#[test]
fn mix_of_held_and_unheld_classified_correctly() {
    let candidates = vec![
        "tank/data@zrb-A".to_owned(),
        "tank/data@zrb-B".to_owned(),
        "tank/data@zrb-C".to_owned(),
    ];
    let map = vec![holds("tank/data@zrb-B", &["zrb:backup"])];
    let (to_delete, hold_skipped) = classify_candidates(candidates, &map);
    assert_eq!(to_delete, vec!["tank/data@zrb-A", "tank/data@zrb-C"]);
    assert_eq!(
        hold_skipped,
        vec![("tank/data@zrb-B".to_owned(), "zrb:backup".to_owned())]
    );
}

// ── pruning a dataset ─────────────────────────────────────────────────

/// A pool that answers each command by what its arguments begin with, and remembers
/// what it was asked.
struct Pool {
    answers: Vec<(&'static str, Result<String, ClientError>)>,
    asked: Vec<String>,
}

impl Pool {
    fn new(token: &str, since: &str, snapshots: &str, holds: &str) -> Pool {
        Pool {
            answers: vec![
                ("get -H -o value receive_resume_token", Ok(token.to_owned())),
                ("get -H -o value zrb:resume-since", Ok(since.to_owned())),
                ("list", Ok(snapshots.to_owned())),
                ("holds", Ok(holds.to_owned())),
                ("destroy", Ok(String::new())),
                ("inherit", Ok(String::new())),
                ("receive -A", Ok(String::new())),
            ],
            asked: Vec::new(),
        }
    }

    fn fail(mut self, command: &str) -> Pool {
        for (prefix, answer) in &mut self.answers {
            if prefix.starts_with(command) {
                *answer = Err(ClientError::CommandFailed {
                    stderr: format!("{command} failed"),
                });
            }
        }
        self
    }

    fn ask(&mut self, args: &[String]) -> Result<String, ClientError> {
        let line = args.join(" ");
        self.asked.push(line.clone());
        for (prefix, answer) in &self.answers {
            if line.starts_with(prefix) {
                return answer.clone();
            }
        }
        panic!("unexpected command: {line}");
    }

    fn prune(&mut self, hold_days: Option<u32>, dry_run: bool, abort: bool) -> Result<PruneResult, ClientError> {
        let config = RetentionConfig {
            recent: 3,
            weekly_for_days: 7,
            monthly_for_days: 30,
        };
        let (plan, mut state, mut action) = prune("tank/data", &config, hold_days, dry_run, abort);
        loop {
            match action {
                PruneAction::Done(result) => return result,
                PruneAction::Run(command) => {
                    let reply = self.ask(&command.args());
                    let (next, todo) = plan.step(state, reply, now());
                    state = next;
                    action = todo;
                }
            }
        }
    }

    fn destroyed(&self) -> Vec<&str> {
        self.asked
            .iter()
            .filter_map(|l| l.strip_prefix("destroy "))
            .collect()
    }
}

fn snapshots() -> String {
    let mut out = "tank/data@manual-backup\n".to_owned();
    for day in 1..=6 {
        out.push_str(&format!("tank/data@zrb-2026-01-{day:02}T00:00:00Z\n"));
    }
    out
}

fn day(n: u32) -> String {
    format!("tank/data@zrb-2026-01-{n:02}T00:00:00Z")
}

#[test]
fn pruning_keeps_recent_and_one_per_year() {
    let mut pool = Pool::new("-\n", "-\n", &snapshots(), "");
    let result = pool.prune(None, false, false).unwrap();
    assert_eq!(pool.destroyed(), vec![day(2), day(3)]);
    assert_eq!(result.deleted, vec![day(2), day(3)]);
    assert_eq!(
        result.kept,
        vec![
            (day(1), KeepReason::Yearly),
            (day(4), KeepReason::Daily),
            (day(5), KeepReason::Daily),
            (day(6), KeepReason::Daily),
        ]
    );
    assert!(!result.resume_skipped);
    assert!(result.hold_skipped.is_empty());
}

#[test]
fn held_snapshots_are_not_destroyed() {
    let holds = format!("{}\tzrb:primary\tdate\n{}\tmanual\tdate\n", day(2), day(3));
    let mut pool = Pool::new("-\n", "-\n", &snapshots(), &holds);
    let result = pool.prune(None, false, false).unwrap();
    assert_eq!(pool.destroyed(), vec![day(3)]);
    assert_eq!(result.deleted, vec![day(3)]);
    assert_eq!(result.hold_skipped, vec![(day(2), "zrb:primary".to_owned())]);
    assert!(pool.asked.contains(&format!("holds -H {} {}", day(2), day(3))));
}

#[test]
fn dry_runs_change_nothing() {
    let mut pool = Pool::new("tok\n", "2026-01-01T00:00:00Z\n", &snapshots(), "");
    let result = pool.prune(Some(3), true, false).unwrap();
    assert_eq!(result.deleted, vec![day(2), day(3)]);
    for line in &pool.asked {
        assert!(
            line.starts_with("get ") || line.starts_with("list ") || line.starts_with("holds "),
            "a dry run must not run: {line}"
        );
    }
}

#[test]
fn dry_runs_show_what_runs_destroy() {
    let holds = format!("{}\tzrb:primary\tdate\n", day(2));
    for (token, since) in [("-\n", "-\n"), ("tok\n", "2026-05-20T00:00:00Z\n")] {
        let mut preview = Pool::new(token, since, &snapshots(), &holds);
        let shown = preview.prune(Some(3), true, false).unwrap();
        let mut pool = Pool::new(token, since, &snapshots(), &holds);
        let result = pool.prune(Some(3), false, false).unwrap();
        assert_eq!(shown.kept, result.kept);
        assert_eq!(shown.deleted, result.deleted);
        assert_eq!(shown.resume_skipped, result.resume_skipped);
        assert_eq!(shown.hold_skipped, result.hold_skipped);
        assert_eq!(pool.destroyed(), shown.deleted);
        assert!(preview.destroyed().is_empty());
    }
}

#[test]
fn a_run_that_fails_destroys_no_more_than_was_shown() {
    let mut pool = Pool::new("-\n", "-\n", &snapshots(), "").fail("destroy");
    assert!(pool.prune(None, false, false).is_err());
    assert_eq!(pool.destroyed(), vec![day(2)]);
}

#[test]
fn pending_transfer_keeps_everything() {
    let mut pool = Pool::new("tok\n", "2026-05-22T00:00:00Z\n", &snapshots(), "");
    let result = pool.prune(Some(3), false, false).unwrap();
    assert!(result.resume_skipped);
    assert!(result.kept.is_empty() && result.deleted.is_empty());
    assert_eq!(pool.asked.len(), 2);
}

#[test]
fn expired_transfer_is_given_up_first() {
    let mut pool = Pool::new("tok\n", "2026-05-20T00:00:00Z\n", &snapshots(), "");
    let result = pool.prune(Some(3), false, false).unwrap();
    assert!(!result.resume_skipped);
    assert_eq!(pool.asked[2], "receive -A tank/data");
    assert_eq!(pool.asked[3], "inherit zrb:resume-since tank/data");
    assert_eq!(pool.destroyed().len(), 2);
}

#[test]
fn order_to_abort_gives_up_a_pending_transfer() {
    let mut pool = Pool::new("tok\n", "-\n", &snapshots(), "");
    let result = pool.prune(Some(3), false, true).unwrap();
    assert!(!result.resume_skipped);
    assert_eq!(pool.asked[2], "receive -A tank/data");
}

#[test]
fn stale_note_is_dropped() {
    let mut pool = Pool::new("-\n", "2026-05-20T00:00:00Z\n", &snapshots(), "");
    pool.prune(Some(3), false, false).unwrap();
    assert_eq!(pool.asked[2], "inherit zrb:resume-since tank/data");
    let mut pool = Pool::new("-\n", "2026-05-20T00:00:00Z\n", &snapshots(), "");
    pool.prune(Some(3), true, false).unwrap();
    assert!(!pool.asked.iter().any(|l| l.starts_with("inherit")));
}

#[test]
fn nothing_to_prune_asks_for_no_holds() {
    let mut pool = Pool::new("none\n", "-\n", "", "");
    let result = pool.prune(None, false, false).unwrap();
    assert!(result.kept.is_empty() && result.deleted.is_empty());
    assert_eq!(pool.asked.len(), 3);
}

#[test]
fn failures_end_the_pruning() {
    for command in ["get", "list", "holds", "destroy"] {
        let mut pool = Pool::new("-\n", "-\n", &snapshots(), "").fail(command);
        let err = pool.prune(None, false, false).unwrap_err();
        assert_eq!(err.message(), format!("zfs command failed: {command} failed"));
    }
    for command in ["receive", "inherit"] {
        let mut pool = Pool::new("t\n", "2026-01-01T00:00:00Z\n", &snapshots(), "").fail(command);
        let err = pool.prune(Some(1), false, false).unwrap_err();
        assert_eq!(err.message(), format!("zfs command failed: {command} failed"));
    }
}
