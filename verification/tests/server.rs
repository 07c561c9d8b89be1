use zrb::config::{ClientConfig, ServerConfig, ServerSection};
use zrb::ops::server::{
    annotate_resume_if_needed, place_server_transfer_hold, run_server_on, Conclusion, ServerAction,
    ServerEvent, ServerState, StreamEnd,
};
use zrb::protocol::codec::{ClientHello, ClientReady, CodecError, ServerStatus};
use zrb::retention::policy::RetentionConfig;
use zrb::time::Timestamp;
use zrb::zfs::client::{ClientError, ZfsCommand};
use zrb::VERSION;

fn config() -> ServerConfig {
    ServerConfig {
        server: ServerSection { resume_hold_days: 3 },
        clients: vec![(
            "my-laptop".to_string(),
            ClientConfig {
                allow: vec!["backup/home".to_string()],
                zfs_receive_opts: vec!["-u".to_string()],
            },
        )],
        retention: RetentionConfig {
            recent: 1,
            weekly_for_days: 1,
            monthly_for_days: 1,
        },
    }
}

fn step(state: ServerState, event: ServerEvent) -> (ServerState, ServerAction) {
    run_server_on(&config(), &["my-laptop"], state, event)
}

fn hello() -> ClientHello {
    ClientHello {
        version: VERSION.to_string(),
        client_name: "my-laptop".to_string(),
        target: "backup/home".to_string(),
    }
}

fn receiving() -> ServerState {
    let (state, _) = step(ServerState::AwaitHello, ServerEvent::HelloRead(Ok(hello())));
    let (state, action) = step(state, ServerEvent::Answered(Ok(None), Ok(Vec::new())));
    assert!(matches!(action, ServerAction::SendHello(_)));
    let ready = ClientReady {
        ok: true,
        message: "ok".to_string(),
    };
    let (state, action) = step(state, ServerEvent::ReadyRead(Ok(ready)));
    match action {
        ServerAction::StartReceiver(command) => {
            assert_eq!(command.args(), ["receive", "-s", "backup/home", "-u"]);
        }
        other => panic!("expected the receiver to start, got {other:?}"),
    }
    let (state, action) = step(state, ServerEvent::ReceiverStarted(Ok(())));
    assert!(matches!(action, ServerAction::TakeIn));
    state
}

fn failed(stderr: &str) -> ClientError {
    ClientError::CommandFailed {
        stderr: stderr.to_string(),
    }
}

fn told(action: ServerAction) -> Vec<ServerStatus> {
    match action {
        ServerAction::Close { replies, result } => {
            assert_eq!(result, Ok(()));
            replies
        }
        other => panic!("expected the session to close, got {other:?}"),
    }
}

fn noted(action: ServerAction) -> String {
    match action {
        ServerAction::Note { target } => target,
        other => panic!("expected a note, got {other:?}"),
    }
}

#[test]
fn permitted_but_unconfigured_client_closes_in_good_order() {
    let request = ClientHello {
        client_name: "desktop".to_string(),
        ..hello()
    };
    let (state, action) = run_server_on(
        &config(),
        &["my-laptop", "desktop"],
        ServerState::AwaitHello,
        ServerEvent::HelloRead(Ok(request)),
    );
    assert!(matches!(state, ServerState::Closed));
    let replies = told(action);
    assert_eq!(replies.len(), 2);
    assert!(replies[0].ok);
    assert!(!replies[1].ok);
    assert_eq!(replies[1].message, "unknown client: desktop");
}

#[test]
fn complete_stream_is_held_and_confirmed() {
    let (state, action) = step(receiving(), ServerEvent::StreamEnded(Ok(false)));
    assert!(matches!(action, ServerAction::FinishReceiver));
    let (state, action) = step(state, ServerEvent::ReceiverFinished(Ok(())));
    assert!(matches!(state, ServerState::Closed));
    match action {
        ServerAction::HoldAndClose { target, replies } => {
            assert_eq!(target, "backup/home");
            assert_eq!(replies.len(), 1);
            assert!(replies[0].ok);
            assert_eq!(replies[0].message, "ok");
        }
        other => panic!("expected a hold, got {other:?}"),
    }
}

#[test]
fn failed_receive_is_noted_and_told() {
    let (state, _) = step(receiving(), ServerEvent::StreamEnded(Ok(false)));
    let (state, action) = step(state, ServerEvent::ReceiverFinished(Err(failed("no space"))));
    assert_eq!(noted(action), "backup/home");
    let (_, action) = step(state, ServerEvent::Noted(Ok(())));
    let replies = told(action);
    assert_eq!(replies.len(), 1);
    assert!(!replies[0].ok);
    assert_eq!(replies[0].message, "zfs command failed: no space");
}

#[test]
fn broken_stream_is_told_with_the_receivers_reason() {
    let broken = || ServerEvent::StreamEnded(Err(CodecError::Io("early eof".to_string())));
    let (state, _) = step(receiving(), broken());
    let (state, _) = step(state, ServerEvent::ReceiverFinished(Err(failed("bad magic"))));
    let (_, action) = step(state, ServerEvent::Noted(Ok(())));
    assert_eq!(told(action)[0].message, "zfs command failed: bad magic");
    let (state, _) = step(receiving(), broken());
    let (state, _) = step(state, ServerEvent::ReceiverFinished(Ok(())));
    let (_, action) = step(state, ServerEvent::Noted(Ok(())));
    assert_eq!(told(action)[0].message, "stream error");
}

#[test]
fn closed_connection_ends_in_silence() {
    let (state, _) = step(receiving(), ServerEvent::StreamEnded(Ok(true)));
    assert!(matches!(
        state,
        ServerState::AwaitExit {
            ended: StreamEnd::Cancelled,
            ..
        }
    ));
    let (state, action) = step(state, ServerEvent::ReceiverFinished(Err(failed("eof"))));
    assert_eq!(noted(action), "backup/home");
    assert!(matches!(
        state,
        ServerState::AwaitNote {
            conclusion: Conclusion::Silent,
            ..
        }
    ));
    let (_, action) = step(state, ServerEvent::Noted(Ok(())));
    assert!(told(action).is_empty());
}

#[test]
fn failure_to_note_is_an_error_without_a_reply() {
    let (state, _) = step(receiving(), ServerEvent::StreamEnded(Ok(false)));
    let (state, _) = step(state, ServerEvent::ReceiverFinished(Err(failed("x"))));
    let (_, action) = step(state, ServerEvent::Noted(Err("setting resume-since: y".to_string())));
    match action {
        ServerAction::Close { replies, result } => {
            assert!(replies.is_empty());
            assert_eq!(result, Err("setting resume-since: y".to_string()));
        }
        other => panic!("expected an error, got {other:?}"),
    }
}

#[test]
fn client_that_declines_starts_no_receiver() {
    let (state, _) = step(ServerState::AwaitHello, ServerEvent::HelloRead(Ok(hello())));
    let (state, _) = step(state, ServerEvent::Answered(Ok(None), Ok(Vec::new())));
    let ready = ClientReady {
        ok: false,
        message: "already up to date".to_string(),
    };
    let (state, action) = step(state, ServerEvent::ReadyRead(Ok(ready)));
    assert!(matches!(state, ServerState::Closed));
    assert!(told(action).is_empty());
}

fn error_of(action: ServerAction) -> String {
    match action {
        ServerAction::Close { replies, result } => {
            assert!(replies.is_empty());
            result.unwrap_err()
        }
        other => panic!("expected an error, got {other:?}"),
    }
}

#[test]
fn errors_say_what_was_being_done() {
    let eof = || CodecError::Io("eof".to_string());
    let (_, action) = step(ServerState::AwaitHello, ServerEvent::HelloRead(Err(eof())));
    assert_eq!(error_of(action), "reading ClientHello: I/O error: eof");

    let asking = || step(ServerState::AwaitHello, ServerEvent::HelloRead(Ok(hello()))).0;
    let (_, action) = step(asking(), ServerEvent::Answered(Err(failed("a")), Ok(Vec::new())));
    assert_eq!(error_of(action), "checking resume token: zfs command failed: a");
    let (_, action) = step(asking(), ServerEvent::Answered(Ok(None), Err(failed("b"))));
    assert_eq!(error_of(action), "listing snapshots: zfs command failed: b");

    let (state, _) = step(asking(), ServerEvent::Answered(Ok(None), Ok(Vec::new())));
    let (_, action) = step(state, ServerEvent::ReadyRead(Err(eof())));
    assert_eq!(error_of(action), "reading ClientReady: I/O error: eof");

    let (_, action) = step(
        ServerState::AwaitReceiver {
            target: "backup/home".to_string(),
        },
        ServerEvent::ReceiverStarted(Err(ClientError::Spawn("no zfs".to_string()))),
    );
    assert_eq!(
        error_of(action),
        "spawning zfs receive: failed to spawn zfs process: no zfs"
    );
}

fn names(list: &[&str]) -> Vec<String> {
    list.iter().map(|s| s.to_string()).collect()
}

#[test]
fn received_hold_moves_to_the_newest() {
    let raw = names(&[
        "b@zrb-2026-01-02T00:00:00Z",
        "b@manual",
        "b@zrb-2026-01-01T00:00:00Z",
    ]);
    let held = names(&["b@zrb-2026-01-01T00:00:00Z", "b@zrb-2026-01-02T00:00:00Z"]);
    let plan = place_server_transfer_hold(Ok(raw), Ok(held)).unwrap();
    assert_eq!(
        plan.hold.args(),
        ["hold", "zrb:received", "b@zrb-2026-01-02T00:00:00Z"]
    );
    assert_eq!(plan.releases.len(), 1);
    assert_eq!(
        plan.releases[0].args(),
        ["release", "zrb:received", "b@zrb-2026-01-01T00:00:00Z"]
    );
}

#[test]
fn received_hold_needs_a_snapshot() {
    assert!(place_server_transfer_hold(Err(failed("x")), Ok(Vec::new())).is_none());
    assert!(place_server_transfer_hold(Ok(names(&["b@manual"])), Ok(Vec::new())).is_none());
    let plan = place_server_transfer_hold(
        Ok(names(&["b@zrb-2026-01-01T00:00:00Z"])),
        Err(failed("x")),
    )
    .unwrap();
    assert!(plan.releases.is_empty());
}

#[test]
fn interrupted_transfer_is_noted_once() {
    let now = Timestamp::new(1_779_537_600, 0).unwrap();
    let token = || Ok(Some("tok".to_string()));
    let command = annotate_resume_if_needed("b", token(), Ok(None), now)
        .unwrap()
        .unwrap();
    assert_eq!(
        command,
        ZfsCommand::SetResumeSince {
            dataset: "b".to_string(),
            since: now
        }
    );
    assert_eq!(
        command.args(),
        ["set", "zrb:resume-since=2026-05-23T12:00:00+00:00", "b"]
    );
    assert_eq!(annotate_resume_if_needed("b", token(), Ok(Some(now)), now), Ok(None));
    assert_eq!(annotate_resume_if_needed("b", Ok(None), Err(failed("x")), now), Ok(None));
    assert_eq!(
        annotate_resume_if_needed("b", Err(failed("x")), Ok(None), now),
        Err("checking resume token for annotation: zfs command failed: x".to_string())
    );
    assert_eq!(
        annotate_resume_if_needed("b", token(), Err(failed("x")), now),
        Err("checking resume-since for annotation: zfs command failed: x".to_string())
    );
}
