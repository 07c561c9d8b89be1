use zrb::cli::{
    check_zfs_version, parse_zfs_version_line, print_grouped, print_prune_dry_run, prune_settings,
    prune_summary, remotes_of, resolve_datasets, row_keys, validate_dataset, validate_datasets,
};
use zrb::config::{
    ClientConfig, ConfigError, RemoteConfig, ServerConfig, ServerSection, SourceConfig,
    SourceSection,
};
use zrb::ops::prune::PruneResult;
use zrb::retention::policy::{KeepReason, RetentionConfig};
use zrb::tui::SendEvent;
use zrb::zfs::client::CommandOutput;

#[test]
fn send_event_variants_accessible() {
    let _ = SendEvent::AllDone;
    let _ = SendEvent::RemoteStarted {
        remote: "r".into(),
        total_bytes: 0,
    };
    let _ = SendEvent::RemoteProgress {
        remote: "r".into(),
        bytes_sent: 0,
    };
    let _ = SendEvent::RemoteCompleted {
        remote: "r".into(),
        elapsed_nanos: 0,
        bytes: 0,
    };
    let _ = SendEvent::RemoteFailed {
        remote: "r".into(),
        error: "e".into(),
    };
    let _ = SendEvent::RemoteSkipped { remote: "r".into() };
    let _ = SendEvent::CountdownTick { remaining_secs: 5 };
    let _ = SendEvent::CountdownAborted;
}

#[test]
fn validate_dataset_rejects_absolute_path() {
    let err = validate_dataset("/something").unwrap_err();
    assert!(err.contains("/something"));
    assert_eq!(
        err,
        "invalid dataset \"/something\": ZFS dataset paths must not start with \"/\""
    );
}

#[test]
fn validate_dataset_accepts_pool_slash_dataset() {
    assert!(validate_dataset("tank/home").is_ok());
}

#[test]
fn validate_dataset_accepts_bare_pool() {
    assert!(validate_dataset("tank").is_ok());
    assert!(validate_dataset("").is_ok());
}

#[test]
fn version_parse_exact_floor_accepted() {
    assert_eq!(parse_zfs_version_line("zfs-2.3.0-1").unwrap(), (2, 3, 0));
}

#[test]
fn version_parse_below_floor_rejected() {
    let (major, minor, _) = parse_zfs_version_line("zfs-2.2.99-1").unwrap();
    assert!((major, minor) < (2, 3), "2.2.x should be below floor");
}

#[test]
fn version_parse_patch_release_accepted() {
    assert_eq!(parse_zfs_version_line("zfs-2.3.7-1").unwrap(), (2, 3, 7));
}

#[test]
fn version_parse_major_bump_accepted() {
    assert_eq!(parse_zfs_version_line("zfs-3.0.0-1").unwrap(), (3, 0, 0));
}

#[test]
fn version_parse_ubuntu_build_tag_accepted() {
    assert_eq!(
        parse_zfs_version_line("zfs-2.3.7-0ubuntu1").unwrap(),
        (2, 3, 7)
    );
}

#[test]
fn version_parse_ubuntu_old_rejected() {
    let (major, minor, _) = parse_zfs_version_line("zfs-2.2.2-0ubuntu9.4").unwrap();
    assert!((major, minor) < (2, 3));
}

#[test]
fn version_parse_malformed_is_err() {
    assert!(parse_zfs_version_line("not-a-version").is_err());
    assert!(parse_zfs_version_line("zfs-bad").is_err());
    assert_eq!(
        parse_zfs_version_line("zfs-2.3-1"),
        Err("unexpected zfs version format: zfs-2.3-1".to_string())
    );
    assert!(parse_zfs_version_line("zfs-2.3.x").is_err());
    assert!(parse_zfs_version_line("zfs-2.3.4294967296").is_err());
    assert_eq!(parse_zfs_version_line("zfs-2.3.1.9"), Ok((2, 3, 1)));
    assert_eq!(parse_zfs_version_line("zfs-2.3.4294967295"), Ok((2, 3, u32::MAX)));
}

fn printed(stdout: &str) -> Result<CommandOutput, String> {
    Ok(CommandOutput {
        success: true,
        stdout: stdout.as_bytes().to_vec(),
        stderr: Vec::new(),
    })
}

#[test]
fn old_versions_are_refused() {
    assert_eq!(check_zfs_version(printed("zfs-2.3.0-1\nzfs-kmod-2.3.0-1\n")), Ok(()));
    assert_eq!(check_zfs_version(printed("  zfs-3.0.0  \n")), Ok(()));
    assert_eq!(
        check_zfs_version(printed("zfs-2.2.2-0ubuntu9.4\n")),
        Err("zrb requires zfs >= 2.3.0, found 2.2.2-0ubuntu9.4".to_string())
    );
    assert_eq!(
        check_zfs_version(printed("zfs-1.9.0\n")),
        Err("zrb requires zfs >= 2.3.0, found 1.9.0".to_string())
    );
    assert_eq!(
        check_zfs_version(printed("")),
        Err("could not determine zfs version: unexpected zfs version format: ".to_string())
    );
    assert_eq!(
        check_zfs_version(Err("no such file".to_string())),
        Err("could not determine zfs version: no such file".to_string())
    );
}

fn config() -> SourceConfig {
    let remote = || RemoteConfig {
        host: "h".to_string(),
        port: None,
        user: None,
        ssh_key: None,
        ssh_opts: Vec::new(),
        zfs_send_opts: Vec::new(),
        bandwidth_limit: None,
    };
    SourceConfig {
        source: SourceSection {
            name: "laptop".to_string(),
        },
        remotes: vec![("primary".to_string(), remote()), ("offsite".to_string(), remote())],
        datasets: vec![
            (
                "tank/home".to_string(),
                vec![
                    ("primary".to_string(), "backup/home".to_string()),
                    ("offsite".to_string(), "off/home".to_string()),
                ],
            ),
            (
                "tank/documents".to_string(),
                vec![("primary".to_string(), "backup/documents".to_string())],
            ),
        ],
        retention: RetentionConfig {
            recent: 7,
            weekly_for_days: 30,
            monthly_for_days: 365,
        },
    }
}

#[test]
fn all_datasets_are_checked_before_any_is_used() {
    let names = |list: &[&str]| list.iter().map(|s| (*s).to_string()).collect::<Vec<_>>();
    assert_eq!(validate_datasets(&[]), Ok(()));
    assert_eq!(validate_datasets(&names(&["tank", "tank/home", ""])), Ok(()));
    assert_eq!(
        validate_datasets(&names(&["tank", "/a", "/b"])),
        validate_dataset("/a")
    );
}

#[test]
fn a_servers_configuration_comes_first() {
    let server = || ServerConfig {
        server: ServerSection { resume_hold_days: 3 },
        clients: vec![(
            "laptop".to_string(),
            ClientConfig {
                allow: vec!["backup/b".to_string(), "backup/a".to_string()],
                zfs_receive_opts: Vec::new(),
            },
        )],
        retention: RetentionConfig {
            recent: 1,
            weekly_for_days: 2,
            monthly_for_days: 3,
        },
    };
    let io = || ConfigError::Io("gone".to_string());
    let toml = || ConfigError::Toml("bad".to_string());
    for source in [Ok(config()), Err(io())] {
        let by = prune_settings(Ok(server()), source).unwrap();
        assert_eq!(by.retention, server().retention);
        assert_eq!(by.hold_days, Some(3));
        assert_eq!(by.datasets, vec!["backup/a", "backup/b"]);
    }
    let by = prune_settings(Err(toml()), Ok(config())).unwrap();
    assert_eq!(by.retention, config().retention);
    assert_eq!(by.hold_days, None);
    assert_eq!(by.datasets, vec!["tank/documents", "tank/home"]);
    let error = prune_settings(Err(toml()), Err(io())).unwrap_err();
    assert_eq!(error.message(), "cannot read config file: gone");
}

#[test]
fn resolve_datasets_empty_returns_all_config_datasets() {
    let cfg = config();
    let result = resolve_datasets(vec![], cfg.configured_datasets());
    assert_eq!(result, vec!["tank/documents", "tank/home"]);
}

#[test]
fn resolve_datasets_explicit_passthrough() {
    let cfg = config();
    let result = resolve_datasets(vec!["tank/home".to_owned()], cfg.configured_datasets());
    assert_eq!(result, vec!["tank/home"]);
}

#[test]
fn listings_are_grouped() {
    let groups = vec![
        ("a".to_string(), vec!["a@1".to_string(), "a@2".to_string()]),
        ("b".to_string(), Vec::new()),
    ];
    assert_eq!(print_grouped(&groups), ["a", "  a@1", "  a@2", "", "b"]);
    assert!(print_grouped(&Vec::new()).is_empty());
}

#[test]
fn dry_runs_are_printed_oldest_first() {
    let day = |n: u32| format!("t@zrb-2026-01-{n:02}T00:00:00Z");
    let results = vec![
        (
            "t".to_string(),
            PruneResult {
                kept: vec![
                    (day(1), KeepReason::Yearly),
                    (day(4), KeepReason::Daily),
                ],
                deleted: vec![day(2), day(3)],
                resume_skipped: false,
                hold_skipped: vec![
                    (day(9), "zrb:a".to_string()),
                    (day(9), "zrb:b".to_string()),
                    (day(8), "zrb:a".to_string()),
                ],
            },
        ),
        (
            "u".to_string(),
            PruneResult {
                kept: Vec::new(),
                deleted: Vec::new(),
                resume_skipped: true,
                hold_skipped: Vec::new(),
            },
        ),
    ];
    assert_eq!(
        print_prune_dry_run(&results),
        [
            "t".to_string(),
            format!("  \u{2713} yearly    {}", day(1)),
            format!("  \u{2717}           {}", day(2)),
            format!("  \u{2717}           {}", day(3)),
            format!("  \u{2713} daily     {}", day(4)),
            format!("  \u{23f8} held       {} (zrb:a)", day(9)),
            format!("  \u{23f8} held       {} (zrb:a)", day(8)),
            String::new(),
            "u".to_string(),
            "  \u{23f8} skipped \u{2014} resume transfer in progress".to_string(),
        ]
    );
    assert_eq!(
        prune_summary("t", &results[0].1),
        "pruned t: kept 2, deleted 2, held 2"
    );
}

#[test]
fn remotes_are_shown_in_order() {
    let cfg = config();
    assert_eq!(remotes_of("tank/home", &cfg, None), ["offsite", "primary"]);
    assert_eq!(remotes_of("tank/home", &cfg, Some(&["primary"])), ["primary"]);
    assert!(remotes_of("tank/none", &cfg, None).is_empty());
    let groups = vec![
        ("tank/home".to_string(), vec!["offsite".to_string(), "primary".to_string()]),
        ("tank/docs".to_string(), vec!["primary".to_string()]),
    ];
    assert_eq!(
        row_keys(&groups),
        ["tank/docs → primary", "tank/home → offsite", "tank/home → primary"]
    );
}
