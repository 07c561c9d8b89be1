use chrono::Datelike;
use zrb::time::Timestamp;
use zrb::zfs::client::{
    batch_snapshot_holds, completed, destroy_snapshot, discover_datasets, find_held_snapshot,
    find_held_snapshot_in, find_held_snapshots, find_held_snapshots_in, get_resume_since,
    get_resume_token, is_dataset_not_found, is_destroyable, list_snapshots,
    parse_discovered_datasets, parse_held_snapshots_for_tag, parse_holds_output,
    parse_list_output, parse_resume_since, parse_resume_token, release_hold, resume_since_value,
    run, snapshot_holds, ClientError, CommandOutput, ZfsCommand,
};

#[test]
fn only_managed_snapshots_may_be_destroyed() {
    assert!(is_destroyable("tank/data@zrb-2026-01-01T00:00:00Z"));
    assert!(is_destroyable("tank/data@zrb-"));
    assert!(!is_destroyable("zrb-tank/data"));
    assert!(!is_destroyable("tank/data@manual-backup"));
    assert!(!is_destroyable("tank@data@zrb-1"));
    assert!(!is_destroyable("tank@zrb-1@zrb-2"));
    assert_eq!(
        destroy_snapshot("t@zrb-1".to_string()).args(),
        ["destroy", "t@zrb-1"]
    );
}

#[test]
fn discover_empty_output_gives_empty_vec() {
    assert_eq!(parse_discovered_datasets(""), Vec::<String>::new());
}

#[test]
fn discover_non_zrb_snapshots_excluded() {
    let out = "tank/home@manual-backup\ntank/data@nightly\n";
    assert_eq!(parse_discovered_datasets(out), Vec::<String>::new());
}

#[test]
fn discover_zrb_snapshots_returns_dataset() {
    let out = "tank/home@zrb-2026-01-01T00:00:00Z\n";
    assert_eq!(parse_discovered_datasets(out), vec!["tank/home"]);
}

#[test]
fn discover_multiple_snapshots_same_dataset_deduplicated() {
    let out = "tank/home@zrb-2026-01-01T00:00:00Z\ntank/home@zrb-2026-01-02T00:00:00Z\n";
    assert_eq!(parse_discovered_datasets(out), vec!["tank/home"]);
}

#[test]
fn discover_mix_of_zrb_and_non_zrb_includes_dataset() {
    let out = "tank/home@manual\ntank/home@zrb-2026-01-01T00:00:00Z\n";
    assert_eq!(parse_discovered_datasets(out), vec!["tank/home"]);
}

#[test]
fn discover_merges_neighbours_only() {
    let out = "a@zrb-1\nb@zrb-1\na@zrb-2\na@zrb-3\n";
    assert_eq!(parse_discovered_datasets(out), vec!["a", "b", "a"]);
}

#[test]
fn list_output_empty_string_gives_empty_vec() {
    assert_eq!(parse_list_output(""), Vec::<String>::new());
}

#[test]
fn list_output_parses_names() {
    let out = "tank/home@zrb-2026-01-01T00:00:00Z\ntank/home@zrb-2026-01-02T00:00:00Z\n";
    let got = parse_list_output(out);
    assert_eq!(
        got,
        [
            "tank/home@zrb-2026-01-01T00:00:00Z",
            "tank/home@zrb-2026-01-02T00:00:00Z"
        ]
    );
}

#[test]
fn list_output_is_trimmed() {
    assert_eq!(
        parse_list_output("  a \r\n\n \u{3000}\u{a0}\nb\u{2028}"),
        ["a", "b"]
    );
}

#[test]
fn parse_resume_since_dash_is_none() {
    assert_eq!(parse_resume_since("-"), None);
}

#[test]
fn parse_resume_since_valid_rfc3339_parses() {
    let ts = parse_resume_since("2026-05-23T12:00:00Z").unwrap();
    let ts = chrono::DateTime::from_timestamp(ts.secs, ts.nanos).unwrap();
    assert_eq!(ts.year(), 2026);
    assert_eq!(ts.month(), 5);
    assert_eq!(ts.day(), 23);
}

#[test]
fn parse_resume_since_malformed_is_none() {
    assert_eq!(parse_resume_since("not-a-timestamp"), None);
}

#[test]
fn resume_since_reads_back() {
    let since = Timestamp::new(1_779_537_600, 123_456_789).unwrap();
    let value = resume_since_value(since);
    assert_eq!(value, "2026-05-23T12:00:00.123456789+00:00");
    assert_eq!(parse_resume_since(&value), Some(since));
    let command = ZfsCommand::SetResumeSince {
        dataset: "b".to_string(),
        since,
    };
    assert_eq!(
        command.args(),
        ["set", "zrb:resume-since=2026-05-23T12:00:00.123456789+00:00", "b"]
    );
}

#[test]
fn resume_token_dash_is_none() {
    assert_eq!(parse_resume_token("-"), None);
}

#[test]
fn resume_token_none_string_is_none() {
    assert_eq!(parse_resume_token("none"), None);
}

#[test]
fn resume_token_real_value_is_some() {
    let tok = "1-abcdef0123456789abcdef0123456789";
    assert_eq!(parse_resume_token(tok), Some(tok.to_owned()));
}

#[test]
fn parse_holds_empty_output_gives_empty_vec() {
    assert_eq!(parse_holds_output(""), Vec::<String>::new());
}

#[test]
fn parse_holds_extracts_tag_column() {
    let out = "tank/data@snap1\tzrb:primary\tFri May 29 12:00 2026\n";
    assert_eq!(parse_holds_output(out), vec!["zrb:primary"]);
}

#[test]
fn parse_holds_multiple_snapshots_multiple_tags() {
    let out = "tank/data@snap1\tzrb:primary\tdate\ntank/data@snap2\tzrb:offsite\tdate\n";
    let got = parse_holds_output(out);
    assert_eq!(got, vec!["zrb:primary", "zrb:offsite"]);
}

#[test]
fn parse_holds_multiple_tags_on_same_snapshot() {
    let out = "tank/data@snap1\tzrb:primary\tdate\ntank/data@snap1\tzrb:offsite\tdate\n";
    let got = parse_holds_output(out);
    assert_eq!(got, vec!["zrb:primary", "zrb:offsite"]);
}

#[test]
fn parse_held_snapshots_for_tag_empty_output_gives_empty_vec() {
    assert_eq!(
        parse_held_snapshots_for_tag("", "zrb:primary"),
        Vec::<String>::new()
    );
}

#[test]
fn parse_held_snapshots_for_tag_returns_matching_snapshot() {
    let out = "tank/data@snap-A\tzrb:primary\t2026-01-01\n";
    assert_eq!(
        parse_held_snapshots_for_tag(out, "zrb:primary"),
        vec!["tank/data@snap-A"]
    );
}

#[test]
fn parse_held_snapshots_for_tag_returns_all_matching() {
    let out = "tank/data@snap-A\tzrb:primary\t2026-01-01\n\
               tank/data@snap-B\tzrb:primary\t2026-01-02\n";
    assert_eq!(
        parse_held_snapshots_for_tag(out, "zrb:primary"),
        vec!["tank/data@snap-A", "tank/data@snap-B"]
    );
}

#[test]
fn parse_held_snapshots_for_tag_excludes_other_tags() {
    let out = "tank/data@snap-A\tzrb:primary\t2026-01-01\n\
               tank/data@snap-B\tzrb:offsite\t2026-01-02\n";
    assert_eq!(
        parse_held_snapshots_for_tag(out, "zrb:primary"),
        vec!["tank/data@snap-A"]
    );
}

#[test]
fn lines_of_holds_need_two_fields() {
    assert_eq!(parse_holds_output("one\ntwo\ttag\n\tx\n"), vec!["tag", "x"]);
    assert_eq!(parse_held_snapshots_for_tag("a\tt\nb\nc\tt\textra\td\n", "t"), vec!["a", "c"]);
}

#[test]
fn json_parse_error_display_is_meaningful() {
    let cause = serde_json::from_str::<serde_json::Value>("not json").unwrap_err();
    let err = ClientError::JsonParse(cause.to_string());
    let msg = err.message();
    assert!(
        msg.contains("JSON"),
        "display should mention JSON, got: {msg}"
    );
}

fn output(success: bool, stdout: &[u8], stderr: &[u8]) -> CommandOutput {
    CommandOutput {
        success,
        stdout: stdout.to_vec(),
        stderr: stderr.to_vec(),
    }
}

fn failure(stderr: &str) -> ClientError {
    ClientError::CommandFailed {
        stderr: stderr.to_string(),
    }
}

#[test]
fn answers_are_text() {
    assert_eq!(run(Ok(output(true, b"out", b"err"))), Ok("out".to_string()));
    assert_eq!(run(Ok(output(false, b"out", b"err"))), Err(failure("err")));
    assert_eq!(
        run(Ok(output(true, b"a\xffb", b""))),
        Ok("a\u{fffd}b".to_string())
    );
    let err = run(Err("not found".to_string())).unwrap_err();
    assert_eq!(err, ClientError::Spawn("not found".to_string()));
    assert_eq!(err.message(), "failed to spawn zfs process: not found");
    assert_eq!(failure("x").message(), "zfs command failed: x");
    assert_eq!(completed(Ok("whatever".to_string())), Ok(()));
    assert_eq!(completed(Err(failure("x"))), Err(failure("x")));
}

#[test]
fn absent_datasets_are_empty() {
    let absent = || failure("cannot open 'b': dataset does not exist\n");
    let other = || failure("permission denied");
    assert!(is_dataset_not_found(&absent()));
    assert!(!is_dataset_not_found(&other()));
    assert!(!is_dataset_not_found(&ClientError::Spawn(
        "dataset does not exist".to_string()
    )));
    assert_eq!(list_snapshots(Err(absent())), Ok(Vec::new()));
    assert_eq!(list_snapshots(Err(other())), Err(other()));
    assert_eq!(get_resume_token(Err(absent())), Ok(None));
    assert_eq!(get_resume_token(Err(other())), Err(other()));
    assert_eq!(get_resume_since(Err(absent())), Ok(None));
    assert_eq!(get_resume_since(Err(other())), Err(other()));
    assert_eq!(discover_datasets(Err(absent())), Err(absent()));
}

#[test]
fn answers_are_interpreted() {
    assert_eq!(list_snapshots(Ok("a@b\n".to_string())), Ok(vec!["a@b".to_string()]));
    assert_eq!(discover_datasets(Ok("a@zrb-b\n".to_string())), Ok(vec!["a".to_string()]));
    assert_eq!(get_resume_token(Ok("tok\n".to_string())), Ok(Some("tok".to_string())));
    assert_eq!(get_resume_token(Ok(" - \n".to_string())), Ok(None));
    assert_eq!(
        get_resume_since(Ok("1970-01-01T00:00:07Z\n".to_string())),
        Ok(Timestamp::new(7, 0))
    );
    assert_eq!(
        snapshot_holds(Ok("a@b\tt\td\n".to_string())),
        Ok(vec!["t".to_string()])
    );
    assert_eq!(snapshot_holds(Err(failure("x"))), Err(failure("x")));
}

#[test]
fn releasing_twice_is_fine() {
    assert_eq!(release_hold(Ok(String::new())), Ok(()));
    assert_eq!(
        release_hold(Err(failure("cannot release: no such tag on this dataset"))),
        Ok(())
    );
    assert_eq!(release_hold(Err(failure("busy"))), Err(failure("busy")));
    let spawn = ClientError::Spawn("no such tag".to_string());
    assert_eq!(release_hold(Err(spawn.clone())), Err(spawn));
}

#[test]
fn held_snapshots_are_found_in_a_given_list() {
    let snaps = vec!["a@1".to_string(), "a@2".to_string()];
    let holds = || Ok("a@1\tt\td\na@2\tu\td\na@2\tt\td\n".to_string());
    assert_eq!(find_held_snapshots_in(&snaps, "t", holds()), Ok(snaps.clone()));
    assert_eq!(find_held_snapshot_in(&snaps, "u", holds()), Ok(Some("a@2".to_string())));
    assert_eq!(find_held_snapshots_in(&[], "t", Err(failure("x"))), Ok(Vec::new()));
    assert_eq!(
        find_held_snapshots_in(&snaps, "t", Err(failure("x"))),
        Err(failure("x"))
    );
}

#[test]
fn held_snapshots_of_a_dataset_are_managed_ones() {
    let first = "a@zrb-2026-01-01T00:00:00Z".to_string();
    let second = "a@zrb-2026-01-02T00:00:00Z".to_string();
    let listed = || Ok(vec!["a@manual".to_string(), first.clone(), second.clone()]);
    let holds = || {
        Ok(format!(
            "a@manual\tt\td\n{first}\tt\td\n{second}\tu\td\n{second}\tt\td\n"
        ))
    };
    let both = vec![first.clone(), second.clone()];
    assert_eq!(find_held_snapshots(listed(), "t", holds()), Ok(both));
    assert_eq!(find_held_snapshots(listed(), "u", holds()), Ok(vec![second.clone()]));
    assert_eq!(find_held_snapshots(listed(), "v", holds()), Ok(Vec::new()));
    assert_eq!(find_held_snapshot(listed(), "t", holds()), Ok(Some(first.clone())));
    assert_eq!(find_held_snapshot(listed(), "v", holds()), Ok(None));
    assert_eq!(
        find_held_snapshots(listed(), "t", Err(failure("x"))),
        Err(failure("x"))
    );
    assert_eq!(
        find_held_snapshot(Err(failure("y")), "t", holds()),
        Err(failure("y"))
    );
    // Without managed snapshots nothing is asked.
    let foreign = || Ok(vec!["a@manual".to_string()]);
    assert_eq!(find_held_snapshots(foreign(), "t", holds()), Ok(Vec::new()));
    assert_eq!(find_held_snapshots(foreign(), "t", Err(failure("x"))), Ok(Vec::new()));
    assert_eq!(find_held_snapshot(foreign(), "t", holds()), Ok(None));
}

#[test]
fn a_hold_can_be_released_twice() {
    assert_eq!(release_hold(Ok(String::new())), Ok(()));
    let gone = failure("cannot release hold from snapshot 'a@1': no such tag on this dataset");
    assert_eq!(release_hold(Err(gone)), Ok(()));
}

#[test]
fn holds_are_tallied_by_snapshot() {
    let snaps = vec!["a@1".to_string()];
    let out = "a@1\tx\td\na@2\ty\td\nnonsense\na@1\tz\td\n".to_string();
    assert_eq!(
        batch_snapshot_holds(&snaps, Ok(out)),
        Ok(vec![
            ("a@1".to_string(), vec!["x".to_string(), "z".to_string()]),
            ("a@2".to_string(), vec!["y".to_string()]),
        ])
    );
    assert_eq!(batch_snapshot_holds(&[], Err(failure("x"))), Ok(Vec::new()));
    assert_eq!(
        batch_snapshot_holds(&snaps, Err(failure("x"))),
        Err(failure("x"))
    );
}

#[test]
fn commands_have_arguments() {
    let d = || "tank/d".to_string();
    let opts = || vec!["-L".to_string(), "-e".to_string()];
    let cases = vec![
        (
            ZfsCommand::CreateSnapshot { dataset: d(), name: "zrb-1".to_string() },
            "snapshot tank/d@zrb-1",
        ),
        (ZfsCommand::ListSnapshots { dataset: d() }, "list -t snapshot -H -o name tank/d"),
        (ZfsCommand::DiscoverDatasets, "list -t snapshot -H -o name"),
        (ZfsCommand::DestroySnapshot { snapshot: "t@zrb-1".to_string() }, "destroy t@zrb-1"),
        (
            ZfsCommand::Send { base: None, snapshot: "t@2".to_string(), opts: opts() },
            "send t@2 -L -e",
        ),
        (
            ZfsCommand::Send {
                base: Some("t@1".to_string()),
                snapshot: "t@2".to_string(),
                opts: opts(),
            },
            "send -i t@1 t@2 -L -e",
        ),
        (ZfsCommand::SendResume { token: "k".to_string(), opts: opts() }, "send -t k -L -e"),
        (
            ZfsCommand::EstimateSend {
                base: Some("t@1".to_string()),
                snapshot: "t@2".to_string(),
                opts: opts(),
            },
            "send -n -v -i t@1 t@2 -L -e",
        ),
        (
            ZfsCommand::EstimateResume { token: "k".to_string(), opts: opts() },
            "send -n -v -t k -L -e",
        ),
        (ZfsCommand::Receive { dataset: d(), opts: opts() }, "receive -s tank/d -L -e"),
        (ZfsCommand::AbortResume { dataset: d() }, "receive -A tank/d"),
        (
            ZfsCommand::GetResumeToken { dataset: d() },
            "get -H -o value receive_resume_token tank/d",
        ),
        (
            ZfsCommand::GetResumeSince { dataset: d() },
            "get -H -o value zrb:resume-since tank/d",
        ),
        (ZfsCommand::ClearResumeSince { dataset: d() }, "inherit zrb:resume-since tank/d"),
        (
            ZfsCommand::Hold { snapshot: "t@1".to_string(), tag: "zrb:x".to_string() },
            "hold zrb:x t@1",
        ),
        (
            ZfsCommand::Release { snapshot: "t@1".to_string(), tag: "zrb:x".to_string() },
            "release zrb:x t@1",
        ),
        (
            ZfsCommand::Holds { snapshots: vec!["t@1".to_string(), "t@2".to_string()] },
            "holds -H t@1 t@2",
        ),
    ];
    for (command, line) in cases {
        assert_eq!(command.args().join(" "), line);
    }
}
