use zrb::config::{RemoteConfig, RemoteTargets, SourceConfig, SourceSection};
use zrb::ops::send::{
    collect_tasks, dataset_of, decide_transfer, dispatch_tasks, estimate_from_output,
    estimate_resume_size, estimate_size, is_cancelled, move_hold, place_transfer_hold,
    remote_receive_error, row_key_for, send, send_on, send_one_dataset, send_resume,
    send_to_remote,
    HoldRequest, SendError, SendSession, SendState, SessionAction, SessionEvent,
    TransferDecision,
};
use zrb::protocol::codec::{ClientReady, CodecError, ServerHello, ServerStatus};
use zrb::retention::policy::RetentionConfig;
use zrb::tui::SendEvent;
use zrb::zfs::client::{ClientError, CommandOutput};
use zrb::VERSION;

fn test_remote_cfg() -> RemoteConfig {
    RemoteConfig {
        host: "backup.example.com".to_owned(),
        port: Some(22),
        user: Some("zfsbackup".to_owned()),
        ssh_key: None,
        ssh_opts: vec![],
        zfs_send_opts: vec![],
        bandwidth_limit: None,
    }
}

fn hello(head: Option<&str>, resume_token: Option<&str>) -> ServerHello {
    ServerHello {
        version: VERSION.to_owned(),
        head: head.map(str::to_owned),
        resume_token: resume_token.map(str::to_owned),
    }
}

// ── decide_transfer ───────────────────────────────────────────────────

#[test]
fn decide_transfer_already_up_to_date_wins_over_resume_token() {
    let h = hello(Some("backup/data@zrb-2026-01-10T00:00:00Z"), Some("tok"));
    let local = vec!["tank/data@zrb-2026-01-10T00:00:00Z".to_owned()];
    let result = decide_transfer(&h, &local, "tank/data@zrb-2026-01-10T00:00:00Z").unwrap();
    assert_eq!(result, TransferDecision::AlreadyUpToDate);
}

#[test]
fn decide_transfer_resume_token_used_when_latest_not_yet_on_remote() {
    let h = hello(Some("backup/data@zrb-2026-01-01T00:00:00Z"), Some("tok"));
    let local = vec![
        "tank/data@zrb-2026-01-01T00:00:00Z".to_owned(),
        "tank/data@zrb-2026-01-10T00:00:00Z".to_owned(),
    ];
    let result = decide_transfer(&h, &local, "tank/data@zrb-2026-01-10T00:00:00Z").unwrap();
    assert_eq!(result, TransferDecision::ResumeSend { token: "tok".to_owned() });
}

#[test]
fn decide_transfer_already_up_to_date_when_head_matches_latest() {
    let h = hello(Some("backup/data@zrb-2026-01-10T00:00:00Z"), None);
    let local = vec!["tank/data@zrb-2026-01-10T00:00:00Z".to_owned()];
    let result = decide_transfer(&h, &local, "tank/data@zrb-2026-01-10T00:00:00Z").unwrap();
    assert_eq!(result, TransferDecision::AlreadyUpToDate);
}

#[test]
fn decide_transfer_full_send_when_no_server_head() {
    let h = hello(None, None);
    let local = vec!["tank/data@zrb-2026-01-01T00:00:00Z".to_owned()];
    let result = decide_transfer(&h, &local, "tank/data@zrb-2026-01-01T00:00:00Z").unwrap();
    assert_eq!(result, TransferDecision::FullSend);
}

#[test]
fn decide_transfer_incremental_when_head_in_local() {
    let h = hello(Some("backup/data@zrb-2026-01-01T00:00:00Z"), None);
    let local = vec![
        "tank/data@zrb-2026-01-01T00:00:00Z".to_owned(),
        "tank/data@zrb-2026-01-10T00:00:00Z".to_owned(),
    ];
    let result = decide_transfer(&h, &local, "tank/data@zrb-2026-01-10T00:00:00Z").unwrap();
    assert_eq!(
        result,
        TransferDecision::IncrementalSend {
            base: "tank/data@zrb-2026-01-01T00:00:00Z".to_owned()
        }
    );
}

#[test]
fn decide_transfer_error_when_head_absent_from_local() {
    let h = hello(Some("backup/data@zrb-2026-01-20T00:00:00Z"), None);
    let local = vec!["tank/data@zrb-2026-01-01T00:00:00Z".to_owned()];
    let err = decide_transfer(&h, &local, "tank/data@zrb-2026-01-25T00:00:00Z").unwrap_err();
    assert!(
        err.contains("zrb-2026-01-20"),
        "error should name the missing snapshot: {err}"
    );
    assert!(err.starts_with("histories have diverged: "));
    assert!(err.ends_with("shared with this machine, then retry."));
    assert_eq!(err.lines().count(), 5);
}

#[test]
fn head_without_a_snapshot_name_diverges() {
    let err = decide_transfer(&hello(Some("backup"), None), &[], "tank@x").unwrap_err();
    assert!(err.contains("snapshot `` does not exist locally."));
}

// ── send_on ───────────────────────────────────────────────────────────

fn open_session(latest: &str, local: &[String]) -> SendSession {
    let (session, hello) = send_on(latest, local, &test_remote_cfg(), "backup/home", "my-laptop");
    assert_eq!(hello.version, VERSION);
    assert_eq!(hello.client_name, "my-laptop");
    assert_eq!(hello.target, "backup/home");
    let (session, action) = session.step(SessionEvent::HelloWritten(Ok(())));
    assert!(matches!(action, SessionAction::ReadVersion));
    session
}

fn status(ok: bool, message: &str) -> ServerStatus {
    ServerStatus {
        ok,
        message: message.to_owned(),
    }
}

fn accepted(latest: &str, local: &[String]) -> SendSession {
    let session = open_session(latest, local);
    let (session, action) = session.step(SessionEvent::VersionRead(Ok(status(true, "ok"))));
    assert!(matches!(action, SessionAction::ReadHello));
    session
}

fn finish_of(action: SessionAction) -> (Option<ClientReady>, Result<u64, SendError>) {
    match action {
        SessionAction::Finish { last, result } => (last, result),
        other => panic!("expected the session to finish, got {other:?}"),
    }
}

#[test]
fn send_on_errors_on_version_rejection() {
    let latest = "tank/home@zrb-2026-01-20T00:00:00Z";
    let session = open_session(latest, &[latest.to_owned()]);
    let (_, action) = session.step(SessionEvent::VersionRead(Ok(status(
        false,
        "version mismatch: client 0.1.0, server 0.2.0",
    ))));
    let (_, result) = finish_of(action);
    assert!(result.is_err());
    let msg = result.unwrap_err().full_message();
    assert!(msg.contains("version mismatch"), "unexpected: {msg}");
}

#[test]
fn send_on_emits_no_progress_on_version_rejection() {
    let latest = "tank/home@zrb-2026-01-20T00:00:00Z";
    let session = open_session(latest, &[latest.to_owned()]);
    let (session, action) = session.step(SessionEvent::VersionRead(Ok(status(
        false,
        "version mismatch: client 0.1.0, server 0.2.0",
    ))));
    assert!(matches!(action, SessionAction::Finish { last: None, .. }));
    assert!(matches!(session.state, SendState::Finished));
}

#[test]
fn send_on_emits_no_progress_when_already_up_to_date() {
    let latest = "tank/home@zrb-2026-01-20T00:00:00Z";
    let session = accepted(latest, &[latest.to_owned()]);
    let h = hello(Some("backup/home@zrb-2026-01-20T00:00:00Z"), None);
    let (session, action) = session.step(SessionEvent::HelloRead(Ok(h)));
    assert!(matches!(action, SessionAction::Finish { .. }));
    assert!(matches!(session.state, SendState::Finished));
}

#[test]
fn send_on_errors_when_remote_head_absent_from_local() {
    let latest = "tank/data@zrb-2026-01-25T00:00:00Z";
    let local = vec!["tank/data@zrb-2026-01-01T00:00:00Z".to_owned(), latest.to_owned()];
    let session = accepted(latest, &local);
    let h = hello(Some("backup/data@zrb-2026-01-20T00:00:00Z"), None);
    let (_, action) = session.step(SessionEvent::HelloRead(Ok(h)));
    let (_, result) = finish_of(action);
    assert!(result.is_err());
    let msg = result.unwrap_err().full_message();
    assert!(
        msg.contains("zrb-2026-01-20"),
        "expected missing snapshot name in error: {msg}"
    );
}

#[test]
fn send_on_resume_token_errors_gracefully() {
    let session = accepted("tank/home@zrb-2026-01-20T00:00:00Z", &[]);
    let (session, action) =
        session.step(SessionEvent::HelloRead(Ok(hello(None, Some("1-fake-resume-token")))));
    match action {
        SessionAction::StartSource { stream, estimate } => {
            assert_eq!(stream.args(), ["send", "-t", "1-fake-resume-token"]);
            assert_eq!(estimate.args(), ["send", "-n", "-v", "-t", "1-fake-resume-token"]);
        }
        other => panic!("expected a source, got {other:?}"),
    }
    let failure = ClientError::Spawn("no zfs".to_owned());
    let (_, action) = session.step(SessionEvent::SourceStarted(Err(failure)));
    let (last, result) = finish_of(action);
    assert!(result.is_err(), "expected Err with fake resume token, got Ok");
    let err = result.unwrap_err();
    assert_eq!(err.message, "zfs send -t");
    assert_eq!(
        err.full_message(),
        "zfs send -t: failed to spawn zfs process: no zfs"
    );
    let ready = last.unwrap();
    assert!(!ready.ok);
    assert_eq!(ready.message, "zfs send -t");
}

#[test]
fn send_on_writes_client_not_ready_when_already_up_to_date() {
    let latest = "tank/home@zrb-2026-01-20T00:00:00Z";
    let session = accepted(latest, &[latest.to_owned()]);
    let h = hello(Some("backup/home@zrb-2026-01-20T00:00:00Z"), None);
    let (_, action) = session.step(SessionEvent::HelloRead(Ok(h)));
    let (last, _) = finish_of(action);
    let ready = last.unwrap();
    assert!(!ready.ok, "ClientReady.ok should be false when already up to date");
    assert!(
        ready.message.contains("already up to date"),
        "unexpected message: {}",
        ready.message
    );
}

#[test]
fn send_on_succeeds_silently_when_snapshot_already_on_server() {
    let latest = "tank/home@zrb-2026-01-20T00:00:00Z";
    let session = accepted(latest, &[latest.to_owned()]);
    let h = hello(Some("backup/home@zrb-2026-01-20T00:00:00Z"), None);
    let (_, action) = session.step(SessionEvent::HelloRead(Ok(h)));
    let (_, result) = finish_of(action);
    assert!(
        result.is_ok(),
        "send_on should succeed silently when already on server, got: {:?}",
        result.err()
    );
    assert_eq!(result, Ok(0));
}

fn streaming() -> SendSession {
    let latest = "tank/home@zrb-2026-01-20T00:00:00Z";
    let base = "tank/home@zrb-2026-01-10T00:00:00Z";
    let session = accepted(latest, &[base.to_owned(), latest.to_owned()]);
    let h = hello(Some("backup/home@zrb-2026-01-10T00:00:00Z"), None);
    let (session, action) = session.step(SessionEvent::HelloRead(Ok(h)));
    match action {
        SessionAction::StartSource { stream, estimate } => {
            assert_eq!(stream.args(), ["send", "-i", base, latest]);
            assert_eq!(estimate.args(), ["send", "-n", "-v", "-i", base, latest]);
        }
        other => panic!("expected a source, got {other:?}"),
    }
    let (session, action) = session.step(SessionEvent::SourceStarted(Ok(1_000)));
    match action {
        SessionAction::WriteReady(ready) => {
            assert!(ready.ok);
            assert_eq!(ready.message, "ok");
        }
        other => panic!("expected readiness, got {other:?}"),
    }
    let (session, action) = session.step(SessionEvent::ReadyWritten(Ok(())));
    assert!(matches!(action, SessionAction::Stream { total_bytes: 1_000, rate_limit: None }));
    session
}

#[test]
fn complete_session_reports_and_returns_the_bytes() {
    let (session, action) = streaming().step(SessionEvent::ChunkSent(400));
    assert!(matches!(action, SessionAction::Report { bytes_sent: 400 }));
    let (session, _) = session.step(SessionEvent::ChunkSent(900));
    let (session, action) = session.step(SessionEvent::StreamEnded(Ok(())));
    assert!(matches!(action, SessionAction::ReadStatus));
    let (_, action) = session.step(SessionEvent::StatusRead(Ok(status(true, "ok"))));
    assert_eq!(finish_of(action), (None, Ok(900)));
}

#[test]
fn remote_failure_comes_with_a_hint() {
    let (session, _) = streaming().step(SessionEvent::StreamEnded(Ok(())));
    let (_, action) = session.step(SessionEvent::StatusRead(Ok(status(false, "no space"))));
    let err = finish_of(action).1.unwrap_err();
    assert_eq!(err.message, remote_receive_error("no space"));
    assert!(!is_cancelled(&err));
}

#[test]
fn broken_stream_asks_the_server_why() {
    let broken = || SessionEvent::StreamEnded(Err(CodecError::Io("broken pipe".to_owned())));
    let (session, action) = streaming().step(broken());
    assert!(matches!(action, SessionAction::ReadStatus));
    let (_, action) = session.step(SessionEvent::StatusRead(Ok(status(false, "rejected"))));
    assert_eq!(
        finish_of(action).1.unwrap_err().message,
        remote_receive_error("rejected")
    );
    for read in [
        Ok(status(true, "ok")),
        Err(CodecError::Io("eof".to_owned())),
    ] {
        let (session, _) = streaming().step(broken());
        let (_, action) = session.step(SessionEvent::StatusRead(read));
        let err = finish_of(action).1.unwrap_err();
        assert_eq!(err.message, "transferring stream");
        assert_eq!(err.full_message(), "transferring stream: I/O error: broken pipe");
    }
}

#[test]
fn cancelled_stream_ends_at_once() {
    let (_, action) = streaming().step(SessionEvent::StreamEnded(Err(CodecError::Cancelled)));
    let err = finish_of(action).1.unwrap_err();
    assert!(is_cancelled(&err));
    assert_eq!(err.message, "transferring stream");
}

#[test]
fn io_errors_say_what_was_being_done() {
    let eof = || CodecError::Io("eof".to_owned());
    let latest = "t@zrb-2026-01-20T00:00:00Z";
    let (session, _) = send_on(latest, &[], &test_remote_cfg(), "b", "c");
    let (_, action) = session.step(SessionEvent::HelloWritten(Err(eof())));
    assert_eq!(
        finish_of(action).1.unwrap_err().full_message(),
        "writing ClientHello: I/O error: eof"
    );
    let (_, action) = open_session(latest, &[]).step(SessionEvent::VersionRead(Err(eof())));
    assert_eq!(
        finish_of(action).1.unwrap_err().full_message(),
        "reading version ServerStatus: I/O error: eof"
    );
    let (_, action) = accepted(latest, &[]).step(SessionEvent::HelloRead(Err(
        CodecError::Json("bad".to_owned()),
    )));
    assert_eq!(
        finish_of(action).1.unwrap_err().full_message(),
        "reading ServerHello: JSON error: bad"
    );
    let (session, _) = accepted(latest, &[]).step(SessionEvent::HelloRead(Ok(hello(None, None))));
    let (session, _) = session.step(SessionEvent::SourceStarted(Ok(0)));
    let (_, action) = session.step(SessionEvent::ReadyWritten(Err(eof())));
    assert_eq!(
        finish_of(action).1.unwrap_err().full_message(),
        "writing ClientReady: I/O error: eof"
    );
    let (session, _) = streaming().step(SessionEvent::StreamEnded(Ok(())));
    let (_, action) = session.step(SessionEvent::StatusRead(Err(eof())));
    assert_eq!(
        finish_of(action).1.unwrap_err().full_message(),
        "reading ServerStatus: I/O error: eof"
    );
}

#[test]
fn full_send_failure_names_zfs_send() {
    let latest = "t@zrb-2026-01-20T00:00:00Z";
    let (session, action) = accepted(latest, &[]).step(SessionEvent::HelloRead(Ok(hello(None, None))));
    match action {
        SessionAction::StartSource { stream, estimate } => {
            assert_eq!(stream.args(), ["send", latest]);
            assert_eq!(estimate.args(), ["send", "-n", "-v", latest]);
        }
        other => panic!("expected a source, got {other:?}"),
    }
    let failure = ClientError::Spawn("no zfs".to_owned());
    let (_, action) = session.step(SessionEvent::SourceStarted(Err(failure)));
    let (last, result) = finish_of(action);
    assert_eq!(last.unwrap().message, "zfs send");
    assert_eq!(result.unwrap_err().message, "zfs send");
}

// ── collect_tasks ─────────────────────────────────────────────────────

fn targets(list: &[(&str, &str)]) -> RemoteTargets {
    list.iter()
        .map(|(n, t)| (n.to_string(), t.to_string()))
        .collect()
}

fn remotes(list: &[&str]) -> Vec<(String, RemoteConfig)> {
    list.iter()
        .map(|n| (n.to_string(), test_remote_cfg()))
        .collect()
}

#[test]
fn collect_tasks_filters_by_remote_name() {
    let dataset_remotes = targets(&[("primary", "backup/home"), ("secondary", "offsite/home")]);
    let all_remotes = remotes(&["primary", "secondary"]);
    let tasks = collect_tasks(&dataset_remotes, Some(&["primary"]), &all_remotes).unwrap();
    assert_eq!(tasks.len(), 1);
    assert_eq!(tasks[0].0, "primary");
    assert_eq!(tasks[0].2, "backup/home");
}

#[test]
fn collect_tasks_no_filter_returns_all() {
    let dataset_remotes = targets(&[("primary", "backup/home"), ("secondary", "offsite/home")]);
    let all_remotes = remotes(&["primary", "secondary"]);
    let tasks = collect_tasks(&dataset_remotes, None, &all_remotes).unwrap();
    assert_eq!(tasks.len(), 2);
}

#[test]
fn collect_tasks_errors_on_unknown_remote() {
    let dataset_remotes = targets(&[("ghost", "backup/home")]);
    let all_remotes = Vec::new();
    let err = collect_tasks(&dataset_remotes, None, &all_remotes).unwrap_err();
    assert!(err.contains("ghost"), "expected remote name in error: {err}");
    assert_eq!(err, "remote 'ghost' not in config");
}

#[test]
fn filtered_out_remotes_need_no_configuration() {
    let dataset_remotes = targets(&[("ghost", "a"), ("primary", "b")]);
    let all_remotes = remotes(&["primary"]);
    let tasks = collect_tasks(&dataset_remotes, Some(&["primary"]), &all_remotes).unwrap();
    assert_eq!(tasks.len(), 1);
}

fn source_config() -> SourceConfig {
    SourceConfig {
        source: SourceSection {
            name: "laptop".to_owned(),
        },
        remotes: remotes(&["primary"]),
        datasets: vec![(
            "tank/home".to_owned(),
            targets(&[("primary", "backup/home")]),
        )],
        retention: RetentionConfig {
            recent: 1,
            weekly_for_days: 1,
            monthly_for_days: 1,
        },
    }
}

#[test]
fn a_send_needs_snapshots_and_a_mapping() {
    let config = source_config();
    let raw = || {
        Ok(vec![
            "tank/home@zrb-2026-01-02T00:00:00Z".to_owned(),
            "tank/home@x".to_owned(),
            "tank/home@zrb-2026-01-01T00:00:00Z".to_owned(),
        ])
    };
    let plan = send_one_dataset("tank/home", raw(), &config, None).unwrap();
    assert_eq!(plan.latest, "tank/home@zrb-2026-01-02T00:00:00Z");
    assert_eq!(plan.local_snaps.len(), 2);
    assert_eq!(plan.tasks.len(), 1);
    assert_eq!(
        send_one_dataset("tank/home", Ok(Vec::new()), &config, None).unwrap_err(),
        "no local snapshots for 'tank/home'; run `zrb snapshot` first"
    );
    assert_eq!(
        send_one_dataset("tank/x", raw(), &config, None).unwrap_err(),
        "dataset 'tank/x' not found in config"
    );
    let failure = ClientError::CommandFailed {
        stderr: "boom".to_owned(),
    };
    assert_eq!(
        send_one_dataset("tank/home", Err(failure), &config, None).unwrap_err(),
        "listing local snapshots for tank/home: zfs command failed: boom"
    );
}

// ── estimates ─────────────────────────────────────────────────────────

#[test]
fn estimate_from_output_parses_gib() {
    let out = "send from @zrb-2026-05-01T00:00:00Z to tank/home@zrb-2026-05-22T14:30:00Z \
               estimated size is 1.23G\n";
    assert_eq!(estimate_from_output(out), 1_320_702_443u64);
}

#[test]
fn estimate_from_output_falls_back_to_zero_on_missing_line() {
    assert_eq!(estimate_from_output("no relevant output\n"), 0);
}

fn output(stdout: &str, stderr: &str) -> CommandOutput {
    CommandOutput {
        success: false,
        stdout: stdout.as_bytes().to_vec(),
        stderr: stderr.as_bytes().to_vec(),
    }
}

#[test]
fn estimates_read_both_outputs_in_order() {
    let both = output("estimated size is 1K", "estimated size is 2K");
    assert_eq!(estimate_size(Ok(both.clone())), Ok(1_024));
    assert_eq!(estimate_resume_size(Ok(both)), 2_048);
    assert_eq!(estimate_size(Ok(output("", "estimated size is 3"))), Ok(3));
    assert_eq!(estimate_resume_size(Ok(output("estimated size is 4B", ""))), 4);
    assert_eq!(estimate_resume_size(Err("no zfs".to_owned())), 0);
    assert_eq!(
        estimate_size(Err("no zfs".to_owned())),
        Err("running zfs send -n -v: no zfs".to_owned())
    );
    assert_eq!(
        estimate_size(Ok(output("", ""))),
        Err("expected 'estimated size is <value><unit>' line not found in output".to_owned())
    );
    assert_eq!(
        estimate_size(Ok(output("estimated size is 5X", ""))),
        Err("could not parse size value '5X'".to_owned())
    );
}

// ── outcomes ──────────────────────────────────────────────────────────

#[test]
fn remote_receive_error_includes_original_message_and_hint() {
    let msg = remote_receive_error("cannot receive: destination has snapshots (pool/data)");
    assert!(msg.contains("cannot receive:"), "missing original in: {msg}");
    assert!(msg.contains("hint:"), "missing hint in: {msg}");
    assert!(msg.contains("zfs rollback"), "missing rollback hint in: {msg}");
}

fn error(cancelled: bool) -> SendError {
    SendError {
        cancelled,
        message: "m".to_owned(),
        cause: Some("c".to_owned()),
    }
}

#[test]
fn bandwidth_limit_reaches_the_stream() {
    let latest = "tank/home@zrb-2026-01-20T00:00:00Z";
    let mut remote = test_remote_cfg();
    remote.bandwidth_limit = Some(125_000);
    let (session, _) = send_on(latest, &[latest.to_owned()], &remote, "backup/home", "my-laptop");
    let (session, _) = session.step(SessionEvent::HelloWritten(Ok(())));
    let (session, _) = session.step(SessionEvent::VersionRead(Ok(status(true, "ok"))));
    let (session, _) = session.step(SessionEvent::HelloRead(Ok(hello(None, None))));
    let (session, _) = session.step(SessionEvent::SourceStarted(Ok(1_000)));
    let (_, action) = session.step(SessionEvent::ReadyWritten(Ok(())));
    assert!(matches!(
        action,
        SessionAction::Stream { total_bytes: 1_000, rate_limit: Some(125_000) }
    ));
}

#[test]
fn outcomes_follow_from_results() {
    let latest = "tank/home@zrb-2026-01-01T00:00:00Z";
    let key = "tank/home → primary";
    let outcome = |result| send_to_remote(latest, "primary", 9, &result);

    let r = outcome(Ok(0));
    assert!(r.hold.is_none());
    assert!(matches!(r.event, SendEvent::RemoteUpToDate { remote } if remote == key));

    let r = outcome(Ok(7));
    assert_eq!(
        r.hold,
        Some(HoldRequest {
            dataset: "tank/home".to_owned(),
            snapshot: latest.to_owned(),
            remote_name: "primary".to_owned(),
        })
    );
    assert!(matches!(
        r.event,
        SendEvent::RemoteCompleted { remote, elapsed_nanos: 9, bytes: 7 } if remote == key
    ));

    let r = outcome(Err(error(true)));
    assert!(r.hold.is_none());
    assert!(matches!(r.event, SendEvent::RemoteSkipped { remote } if remote == key));

    let r = outcome(Err(error(false)));
    assert!(r.hold.is_none());
    assert!(matches!(
        r.event,
        SendEvent::RemoteFailed { remote, error } if remote == key && error == "m"
    ));
}

#[test]
fn nothing_to_resume_is_an_error() {
    assert_eq!(send_resume(Ok(5)), Ok(5));
    assert_eq!(send_resume(Err(error(true))), Err(error(true)));
    let err = send_resume(Ok(0)).unwrap_err();
    assert_eq!(err.full_message(), "newest snapshot already on server");
    assert!(!err.cancelled);
}

#[test]
fn one_failed_remote_fails_the_dataset() {
    assert_eq!(dispatch_tasks(&[]), Ok(()));
    assert_eq!(dispatch_tasks(&[Ok(1), Err(error(true))]), Ok(()));
    assert_eq!(
        dispatch_tasks(&[Ok(1), Err(error(false)), Ok(0)]),
        Err("one or more remotes failed".to_owned())
    );
}

#[test]
fn one_failed_dataset_fails_the_send() {
    assert_eq!(send(&[]), Ok(()));
    assert_eq!(send(&[Ok(()), Ok(())]), Ok(()));
    assert_eq!(
        send(&[Ok(()), Err("x".to_owned())]),
        Err("one or more datasets failed to send".to_owned())
    );
}

#[test]
fn row_keys_name_dataset_and_remote() {
    assert_eq!(
        row_key_for("tank/home@zrb-2026-01-01T00:00:00Z", "primary"),
        "tank/home → primary"
    );
    assert_eq!(row_key_for("tank", "r"), "tank → r");
    assert_eq!(dataset_of("a@b@c"), "a");
}

// ── holds ─────────────────────────────────────────────────────────────

#[test]
fn transfer_hold_is_placed_before_others_are_released() {
    let held = vec!["t@zrb-1".to_owned(), "t@zrb-2".to_owned(), "t@zrb-3".to_owned()];
    let plan = place_transfer_hold("t@zrb-2", "primary", Ok(held));
    assert_eq!(plan.hold.args(), ["hold", "zrb:primary", "t@zrb-2"]);
    assert_eq!(plan.releases.len(), 2);
    assert_eq!(plan.releases[0].args(), ["release", "zrb:primary", "t@zrb-1"]);
    assert_eq!(plan.releases[1].args(), ["release", "zrb:primary", "t@zrb-3"]);
}

#[test]
fn nothing_is_released_where_the_hold_is_not_placed() {
    let plan = || {
        let held = vec!["t@zrb-1".to_owned(), "t@zrb-2".to_owned()];
        place_transfer_hold("t@zrb-2", "primary", Ok(held))
    };
    let failure = ClientError::CommandFailed {
        stderr: "boom".to_owned(),
    };
    assert!(plan().after_hold(Err(failure)).is_empty());
    let releases = plan().after_hold(Ok(String::new()));
    assert_eq!(releases.len(), 1);
    assert_eq!(releases[0].args(), ["release", "zrb:primary", "t@zrb-1"]);
}

#[test]
fn unknown_holds_are_not_released() {
    let failure = ClientError::CommandFailed {
        stderr: "boom".to_owned(),
    };
    let plan = move_hold("t@zrb-2", "zrb:x", Err(failure));
    assert_eq!(plan.hold.args(), ["hold", "zrb:x", "t@zrb-2"]);
    assert!(plan.releases.is_empty());
}
