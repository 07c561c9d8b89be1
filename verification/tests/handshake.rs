use zrb::config::{ClientConfig, ServerConfig, ServerSection};
use zrb::ops::server::{run_server_on, ServerAction, ServerEvent, ServerState};
use zrb::protocol::codec::{ClientHello, ServerStatus};
use zrb::protocol::handshake::{
    client_handshake, client_hello, server_handshake, server_hello, version_compatible, Outcome,
};
use zrb::retention::policy::RetentionConfig;
use zrb::zfs::client::ClientError;
use zrb::VERSION;

fn test_config() -> ServerConfig {
    ServerConfig {
        server: ServerSection { resume_hold_days: 3 },
        clients: vec![(
            "my-laptop".to_string(),
            ClientConfig {
                allow: vec!["backup/laptop/home".to_string()],
                zfs_receive_opts: Vec::new(),
            },
        )],
        retention: RetentionConfig {
            recent: 14,
            weekly_for_days: 60,
            monthly_for_days: 730,
        },
    }
}

fn make_client_hello(version: &str, client_name: &str, target: &str) -> ClientHello {
    ClientHello {
        version: version.to_owned(),
        client_name: client_name.to_owned(),
        target: target.to_owned(),
    }
}

#[test]
fn version_major_mismatch_returns_none_and_sends_rejection() {
    let cfg = test_config();
    let hello = make_client_hello("1.0.0", "my-laptop", "backup/laptop/home");
    let answer = server_handshake(&cfg, &["my-laptop"], hello);
    assert!(matches!(answer.outcome, Outcome::Close));
    assert_eq!(answer.replies.len(), 1);
    assert!(!answer.replies[0].ok);
    assert!(answer.replies[0].message.contains("version mismatch"));
}

#[test]
fn version_minor_mismatch_returns_none_and_sends_rejection() {
    let cfg = test_config();
    let hello = make_client_hello("0.99.0", "my-laptop", "backup/laptop/home");
    let answer = server_handshake(&cfg, &["my-laptop"], hello);
    assert!(matches!(answer.outcome, Outcome::Close));
    assert!(!answer.replies[0].ok);
    assert!(answer.replies[0].message.contains("version mismatch"));
    assert_eq!(
        answer.replies[0].message,
        format!("version mismatch: client 0.99.0, server {VERSION}")
    );
}

#[test]
fn unknown_client_returns_none_after_version_ok() {
    let cfg = test_config();
    let hello = make_client_hello(VERSION, "rogue-host", "backup/laptop/home");
    let answer = server_handshake(&cfg, &["my-laptop"], hello);
    assert!(matches!(answer.outcome, Outcome::Close));
    assert_eq!(answer.replies.len(), 2);
    assert!(answer.replies[0].ok, "version gate should pass");
    assert!(!answer.replies[1].ok);
    assert!(answer.replies[1].message.contains("unknown client"));
}

#[test]
fn dataset_not_allowed_returns_none_after_version_ok() {
    let cfg = test_config();
    let hello = make_client_hello(VERSION, "my-laptop", "backup/laptop/secret");
    let answer = server_handshake(&cfg, &["my-laptop"], hello);
    assert!(matches!(answer.outcome, Outcome::Close));
    assert!(answer.replies[0].ok, "version gate should pass");
    assert!(!answer.replies[1].ok);
    assert!(answer.replies[1].message.contains("not allowed"));
}

#[test]
fn admissible_request_is_admitted() {
    let mut cfg = test_config();
    cfg.clients[0].1.zfs_receive_opts = vec!["-u".to_string()];
    let hello = make_client_hello(VERSION, "my-laptop", "backup/laptop/home");
    let answer = server_handshake(&cfg, &["other", "my-laptop"], hello);
    assert_eq!(answer.replies.len(), 1);
    assert!(answer.replies[0].ok);
    match answer.outcome {
        Outcome::Admit(result) => {
            assert_eq!(result.target, "backup/laptop/home");
            assert_eq!(result.zfs_receive_opts, ["-u"]);
        }
        other => panic!("expected admission, got {other:?}"),
    }
}

#[test]
fn permitted_but_unconfigured_client_is_told() {
    let cfg = test_config();
    let hello = make_client_hello(VERSION, "desktop", "backup/laptop/home");
    let answer = server_handshake(&cfg, &["desktop"], hello);
    assert!(matches!(answer.outcome, Outcome::Close));
    assert_eq!(answer.replies.len(), 2);
    assert!(answer.replies[0].ok, "version gate should pass");
    assert!(!answer.replies[1].ok);
    assert_eq!(answer.replies[1].message, "unknown client: desktop");
}

#[test]
fn client_handshake_propagates_version_rejection() {
    let rejection = ServerStatus {
        ok: false,
        message: "version mismatch: client 0.1.0, server 0.2.0".to_owned(),
    };
    let result = client_handshake(&rejection);
    assert!(result.is_err());
    assert!(result.unwrap_err().contains("version mismatch"));
    let accepted = ServerStatus {
        ok: true,
        message: "ok".to_owned(),
    };
    assert!(client_handshake(&accepted).is_ok());
}

#[test]
fn client_hello_declares_the_version() {
    assert_eq!(
        client_hello("backup/home", "my-laptop"),
        make_client_hello(VERSION, "my-laptop", "backup/home")
    );
}

#[test]
fn versions_agree_on_major_and_minor() {
    assert!(version_compatible("0.3.0", "0.3.99"));
    assert!(version_compatible("0.3", "0.3.1"));
    assert!(version_compatible("0.03.x-y", "0.3"));
    assert!(!version_compatible("0.3.0", "0.4.0"));
    assert!(!version_compatible("1.3.0", "0.3.0"));
    assert!(!version_compatible("3", "3"));
    assert!(!version_compatible("", ""));
    assert!(!version_compatible("a.b.c", "a.b.c"));
    assert!(!version_compatible("18446744073709551616.0", "18446744073709551616.0"));
    assert!(version_compatible("18446744073709551615.0", "18446744073709551615.0"));
}

#[test]
fn server_hello_names_the_newest_managed_snapshot() {
    let raw = vec![
        "b@zrb-2026-01-02T00:00:00Z".to_string(),
        "b@manual".to_string(),
        "b@zrb-2026-01-03T00:00:00Z".to_string(),
        "b@zrb-2026-01-01T00:00:00Z".to_string(),
    ];
    let hello = server_hello(Ok(Some("tok".to_string())), Ok(raw)).unwrap();
    assert_eq!(hello.version, VERSION);
    assert_eq!(hello.head.as_deref(), Some("b@zrb-2026-01-03T00:00:00Z"));
    assert_eq!(hello.resume_token.as_deref(), Some("tok"));
    let empty = server_hello(Ok(None), Ok(vec!["b@manual".to_string()])).unwrap();
    assert_eq!(empty.head, None);
    assert_eq!(empty.resume_token, None);
}

#[test]
fn server_hello_says_what_failed() {
    let gone = || ClientError::Spawn("no zfs".to_string());
    assert_eq!(
        server_hello(Err(gone()), Err(gone())),
        Err("checking resume token: failed to spawn zfs process: no zfs".to_string())
    );
    assert_eq!(
        server_hello(Ok(None), Err(gone())),
        Err("listing snapshots: failed to spawn zfs process: no zfs".to_string())
    );
}

fn first_action(version: &str, client_name: &str, target: &str) -> ServerAction {
    let hello = make_client_hello(version, client_name, target);
    let (_, action) = run_server_on(
        &test_config(),
        &["my-laptop"],
        ServerState::AwaitHello,
        ServerEvent::HelloRead(Ok(hello)),
    );
    action
}

fn closing_replies(action: ServerAction) -> Vec<ServerStatus> {
    match action {
        ServerAction::Close { replies, result } => {
            assert_eq!(result, Ok(()));
            replies
        }
        other => panic!("expected the session to close, got {other:?}"),
    }
}

#[test]
fn version_major_mismatch_gets_rejection() {
    let replies = closing_replies(first_action("1.0.0", "my-laptop", "backup/laptop/home"));
    assert!(!replies[0].ok);
    assert!(
        replies[0].message.contains("version mismatch"),
        "unexpected: {}",
        replies[0].message
    );
}

#[test]
fn version_minor_mismatch_gets_rejection() {
    let replies = closing_replies(first_action("0.99.0", "my-laptop", "backup/laptop/home"));
    assert!(!replies[0].ok);
    assert!(
        replies[0].message.contains("version mismatch"),
        "unexpected: {}",
        replies[0].message
    );
}

#[test]
fn version_patch_difference_is_accepted() {
    let major_minor = VERSION.rsplitn(2, '.').nth(1).unwrap_or("0.1");
    let patched_version = format!("{major_minor}.99");
    match first_action(&patched_version, "my-laptop", "backup/laptop/home") {
        ServerAction::Ask { replies, target } => {
            assert!(
                replies[0].ok,
                "patch-only version diff should be accepted: {}",
                replies[0].message
            );
            assert_eq!(target, "backup/laptop/home");
        }
        other => panic!("expected the session to go on, got {other:?}"),
    }
}

#[test]
fn unknown_client_gets_rejection() {
    let replies = closing_replies(first_action(VERSION, "rogue-host", "backup/laptop/home"));
    assert!(replies[0].ok, "version gate should pass");
    assert!(!replies[1].ok);
    assert!(replies[1].message.contains("unknown client"));
}

#[test]
fn dataset_not_in_allow_list_gets_rejection() {
    let replies = closing_replies(first_action(VERSION, "my-laptop", "backup/laptop/secret"));
    assert!(replies[0].ok, "version gate should pass");
    assert!(!replies[1].ok);
    assert!(replies[1].message.contains("not allowed"));
}
