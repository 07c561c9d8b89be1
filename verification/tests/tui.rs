use zrb::double::Double;
use zrb::tui::{
    build_cancel_map, centered_box, countdown_lines, countdown_outcome, dataset_box_height,
    dataset_line, footer, is_focused, make_bar, name_width, pad_right, render_remote_row,
    screen_title, summary_title, truncate_str, tui_key, Area, Mood, Pressed, RemoteRow,
    RemoteRowState, SendEvent, TuiApp, TuiKey, TuiState, SUMMARY_TIMEOUT_FAIL_SECS,
    SUMMARY_TIMEOUT_OK_SECS,
};

fn started(remote: &str, total_bytes: u64) -> SendEvent {
    SendEvent::RemoteStarted {
        remote: remote.into(),
        total_bytes,
    }
}

#[test]
fn initial_state_is_countdown_5() {
    let app = TuiApp::new();
    assert_eq!(app.state, TuiState::Countdown { remaining: 5 });
    assert_eq!(TuiApp::default().state, app.state);
}

#[test]
fn countdown_tick_updates_remaining() {
    let mut app = TuiApp::new();
    app.handle_send_event(&SendEvent::CountdownTick { remaining_secs: 3 }, 0);
    assert_eq!(app.state, TuiState::Countdown { remaining: 3 });
}

#[test]
fn countdown_tick_zero_transitions_to_transferring() {
    let mut app = TuiApp::new();
    app.handle_send_event(&SendEvent::CountdownTick { remaining_secs: 0 }, 0);
    assert_eq!(app.state, TuiState::Transferring);
}

#[test]
fn key_in_countdown_state_transitions_to_aborted() {
    let mut app = TuiApp::new();
    app.handle_key(TuiKey::Any);
    assert_eq!(app.state, TuiState::Aborted);
}

#[test]
fn key_in_transferring_state_has_no_effect() {
    let mut app = TuiApp::new();
    app.handle_send_event(&SendEvent::CountdownTick { remaining_secs: 0 }, 0);
    assert_eq!(app.state, TuiState::Transferring);
    app.handle_key(TuiKey::Any);
    assert_eq!(app.state, TuiState::Transferring);
}

#[test]
fn countdown_aborted_event_transitions_to_aborted() {
    let mut app = TuiApp::new();
    app.handle_send_event(&SendEvent::CountdownAborted, 0);
    assert_eq!(app.state, TuiState::Aborted);
}

#[test]
fn ticks_do_not_change_aborted_state() {
    let mut app = TuiApp::new();
    app.handle_key(TuiKey::Any);
    assert_eq!(app.state, TuiState::Aborted);
    app.handle_send_event(&SendEvent::CountdownTick { remaining_secs: 2 }, 0);
    assert_eq!(app.state, TuiState::Aborted, "tick must not revive aborted state");
}

#[test]
fn for_transfer_starts_in_transferring_with_waiting_rows() {
    let app = TuiApp::for_transfer(vec!["primary".into(), "secondary".into()]);
    assert_eq!(app.state, TuiState::Transferring);
    assert_eq!(app.remotes.len(), 2);
    assert_eq!(app.remotes[0].name, "primary");
    assert!(matches!(app.remotes[0].state, RemoteRowState::Waiting));
    assert_eq!(app.remotes[1].name, "secondary");
    assert!(matches!(app.remotes[1].state, RemoteRowState::Waiting));
}

#[test]
fn remote_started_transitions_row_to_active() {
    let mut app = TuiApp::for_transfer(vec!["primary".into()]);
    app.handle_send_event(&started("primary", 1024), 0);
    assert!(
        matches!(
            app.remotes[0].state,
            RemoteRowState::Active {
                total_bytes: 1024,
                bytes_sent: 0,
                ..
            }
        ),
        "expected Active with total_bytes=1024, got {:?}",
        app.remotes[0].state
    );
}

#[test]
fn remote_progress_updates_bytes_sent_in_active_row() {
    let mut app = TuiApp::for_transfer(vec!["primary".into()]);
    app.handle_send_event(&started("primary", 1024), 0);
    app.handle_send_event(
        &SendEvent::RemoteProgress {
            remote: "primary".into(),
            bytes_sent: 512,
        },
        1,
    );
    match &app.remotes[0].state {
        RemoteRowState::Active { bytes_sent, .. } => assert_eq!(*bytes_sent, 512),
        s => panic!("expected Active, got {s:?}"),
    }
}

#[test]
fn remote_progress_on_unknown_remote_is_ignored() {
    let mut app = TuiApp::for_transfer(vec!["primary".into()]);
    app.handle_send_event(
        &SendEvent::RemoteProgress {
            remote: "ghost".into(),
            bytes_sent: 100,
        },
        0,
    );
    assert!(matches!(app.remotes[0].state, RemoteRowState::Waiting));
}

#[test]
fn remote_completed_transitions_row_to_done() {
    let mut app = TuiApp::for_transfer(vec!["primary".into()]);
    app.handle_send_event(&started("primary", 100), 0);
    app.handle_send_event(
        &SendEvent::RemoteCompleted {
            remote: "primary".into(),
            elapsed_nanos: 1_500_000_000,
            bytes: 100,
        },
        0,
    );
    assert!(
        matches!(app.remotes[0].state, RemoteRowState::Done { bytes: 100, .. }),
        "expected Done, got {:?}",
        app.remotes[0].state
    );
}

#[test]
fn remote_failed_transitions_row_to_failed() {
    let mut app = TuiApp::for_transfer(vec!["primary".into()]);
    app.handle_send_event(&started("primary", 100), 0);
    app.handle_send_event(
        &SendEvent::RemoteFailed {
            remote: "primary".into(),
            error: "connection reset".into(),
        },
        0,
    );
    match &app.remotes[0].state {
        RemoteRowState::Failed { error } => assert_eq!(error, "connection reset"),
        s => panic!("expected Failed, got {s:?}"),
    }
}

#[test]
fn remote_skipped_event_transitions_row_to_skipped() {
    let mut app = TuiApp::for_transfer(vec!["primary".into()]);
    app.handle_send_event(&SendEvent::RemoteSkipped { remote: "primary".into() }, 0);
    assert!(matches!(app.remotes[0].state, RemoteRowState::Skipped));
}

#[test]
fn remote_up_to_date_event_transitions_row_to_up_to_date() {
    let mut app = TuiApp::for_transfer(vec!["primary".into()]);
    app.handle_send_event(&SendEvent::RemoteUpToDate { remote: "primary".into() }, 0);
    assert!(matches!(app.remotes[0].state, RemoteRowState::UpToDate));
}

fn two_active() -> TuiApp {
    let mut app = TuiApp::for_transfer(vec!["primary".into(), "secondary".into()]);
    app.handle_send_event(&started("primary", 100), 0);
    app.handle_send_event(&started("secondary", 100), 0);
    app
}

#[test]
fn s_key_skips_focused_active_row() {
    let mut app = two_active();
    app.focused = 0;
    app.handle_key(TuiKey::Skip);
    assert!(
        matches!(app.remotes[0].state, RemoteRowState::Skipped),
        "focused row should be skipped"
    );
    assert!(
        matches!(app.remotes[1].state, RemoteRowState::Active { .. }),
        "unfocused row should be untouched"
    );
    assert_eq!(app.state, TuiState::Transferring, "state should stay Transferring");
}

#[test]
fn s_key_with_single_remote_behaves_like_q() {
    let mut app = TuiApp::for_transfer(vec!["primary".into()]);
    app.handle_send_event(&started("primary", 100), 0);
    app.handle_key(TuiKey::Skip);
    assert!(matches!(app.remotes[0].state, RemoteRowState::Skipped));
    assert_eq!(app.state, TuiState::Summary);
}

#[test]
fn q_key_skips_all_active_and_transitions_to_summary() {
    let mut app = two_active();
    app.handle_key(TuiKey::Quit);
    assert!(matches!(app.remotes[0].state, RemoteRowState::Skipped));
    assert!(matches!(app.remotes[1].state, RemoteRowState::Skipped));
    assert_eq!(app.state, TuiState::Summary);
}

#[test]
fn q_key_does_not_skip_done_rows() {
    let mut app = TuiApp::for_transfer(vec!["primary".into(), "secondary".into()]);
    app.handle_send_event(
        &SendEvent::RemoteCompleted {
            remote: "primary".into(),
            elapsed_nanos: 1_000_000_000,
            bytes: 100,
        },
        0,
    );
    app.handle_send_event(&started("secondary", 100), 0);
    app.handle_key(TuiKey::Quit);
    assert!(
        matches!(app.remotes[0].state, RemoteRowState::Done { .. }),
        "Done row should not be changed"
    );
    assert!(matches!(app.remotes[1].state, RemoteRowState::Skipped));
    assert_eq!(app.state, TuiState::Summary);
}

#[test]
fn arrow_keys_move_focus() {
    let mut app = TuiApp::for_transfer(vec!["a".into(), "b".into(), "c".into()]);
    assert_eq!(app.focused, 0);
    app.handle_key(TuiKey::Down);
    assert_eq!(app.focused, 1);
    app.handle_key(TuiKey::Down);
    assert_eq!(app.focused, 2);
    app.handle_key(TuiKey::Down); // clamps at end
    assert_eq!(app.focused, 2);
    app.handle_key(TuiKey::Up);
    assert_eq!(app.focused, 1);
    app.handle_key(TuiKey::Up);
    assert_eq!(app.focused, 0);
    app.handle_key(TuiKey::Up); // clamps at start
    assert_eq!(app.focused, 0);
}

#[test]
fn any_key_in_summary_transitions_to_exiting() {
    let mut app = TuiApp::for_transfer(vec!["r".into()]);
    app.handle_send_event(&SendEvent::AllDone, 0);
    assert_eq!(app.state, TuiState::Summary);
    app.handle_key(TuiKey::Any);
    assert_eq!(app.state, TuiState::Exiting);
}

#[test]
fn all_done_in_transferring_transitions_to_summary() {
    let mut app = TuiApp::new();
    app.handle_send_event(&SendEvent::CountdownTick { remaining_secs: 0 }, 0);
    assert_eq!(app.state, TuiState::Transferring);
    app.handle_send_event(&SendEvent::AllDone, 0);
    assert_eq!(app.state, TuiState::Summary);
}

#[test]
fn summary_countdown_starts_at_ok_timeout_when_no_failures() {
    let mut app = TuiApp::for_transfer(vec!["r".into()]);
    app.handle_send_event(&SendEvent::AllDone, 0);
    assert_eq!(app.state, TuiState::Summary);
    assert_eq!(app.summary_countdown, SUMMARY_TIMEOUT_OK_SECS);
}

#[test]
fn summary_countdown_starts_at_fail_timeout_when_remote_failed() {
    let mut app = TuiApp::for_transfer(vec!["r".into()]);
    app.handle_send_event(
        &SendEvent::RemoteFailed {
            remote: "r".into(),
            error: "connection reset".into(),
        },
        0,
    );
    app.handle_send_event(&SendEvent::AllDone, 0);
    assert_eq!(app.state, TuiState::Summary);
    assert_eq!(app.summary_countdown, SUMMARY_TIMEOUT_FAIL_SECS);
}

#[test]
fn summary_countdown_is_ok_timeout_when_only_skipped() {
    let mut app = TuiApp::for_transfer(vec!["r".into()]);
    app.handle_send_event(&SendEvent::RemoteSkipped { remote: "r".into() }, 0);
    app.handle_send_event(&SendEvent::AllDone, 0);
    assert_eq!(app.state, TuiState::Summary);
    assert_eq!(app.summary_countdown, SUMMARY_TIMEOUT_OK_SECS);
}

#[test]
fn one_summary_tick_decrements_countdown() {
    let mut app = TuiApp::for_transfer(vec!["r".into()]);
    app.handle_send_event(&SendEvent::AllDone, 0);
    app.handle_send_event(&SendEvent::SummaryTick, 0);
    assert_eq!(app.state, TuiState::Summary, "still Summary after one tick");
    assert_eq!(app.summary_countdown, SUMMARY_TIMEOUT_OK_SECS - 1);
}

#[test]
fn enough_summary_ticks_transition_to_exiting() {
    let mut app = TuiApp::for_transfer(vec!["r".into()]);
    app.handle_send_event(&SendEvent::AllDone, 0);
    for _ in 0..SUMMARY_TIMEOUT_OK_SECS {
        app.handle_send_event(&SendEvent::SummaryTick, 0);
    }
    assert_eq!(app.state, TuiState::Exiting);
}

#[test]
fn summary_tick_outside_summary_is_ignored() {
    let mut app = TuiApp::for_transfer(vec!["r".into()]);
    assert_eq!(app.state, TuiState::Transferring);
    app.handle_send_event(&SendEvent::SummaryTick, 0);
    assert_eq!(app.state, TuiState::Transferring);
}

fn is_cancelled(app: &TuiApp, name: &str) -> bool {
    app.cancel_map().iter().find(|t| t.0 == name).unwrap().1
}

#[test]
fn skip_key_cancels_focused_remote_token() {
    let mut app = two_active();
    app.focused = 0;
    app.handle_key(TuiKey::Skip);
    assert!(
        is_cancelled(&app, "primary"),
        "primary token cancelled after Skip on primary"
    );
    assert!(!is_cancelled(&app, "secondary"), "secondary token untouched");
}

#[test]
fn quit_key_cancels_all_tokens() {
    let mut app = two_active();
    assert!(!is_cancelled(&app, "primary"));
    app.handle_key(TuiKey::Quit);
    assert!(is_cancelled(&app, "primary"), "primary token cancelled after Quit");
    assert!(is_cancelled(&app, "secondary"), "secondary token cancelled after Quit");
}

#[test]
fn skip_with_single_remote_cancels_its_token() {
    let mut app = TuiApp::for_transfer(vec!["primary".into()]);
    app.handle_send_event(&started("primary", 100), 0);
    app.handle_key(TuiKey::Skip);
    assert!(
        is_cancelled(&app, "primary"),
        "single-remote Skip cancels its token"
    );
}

#[test]
fn summary_countdown_is_ok_timeout_when_only_up_to_date() {
    let mut app = TuiApp::for_transfer(vec!["r".into()]);
    app.handle_send_event(&SendEvent::RemoteUpToDate { remote: "r".into() }, 0);
    app.handle_send_event(&SendEvent::AllDone, 0);
    assert_eq!(app.state, TuiState::Summary);
    assert_eq!(app.summary_countdown, SUMMARY_TIMEOUT_OK_SECS);
}

#[test]
fn summary_title_is_complete_when_all_up_to_date() {
    let mut app = TuiApp::for_transfer(vec!["r".into()]);
    app.handle_send_event(&SendEvent::RemoteUpToDate { remote: "r".into() }, 0);
    app.handle_send_event(&SendEvent::AllDone, 0);
    assert_eq!(summary_title(&app), " Backup Complete ");
}

#[test]
fn summary_title_is_finished_when_skipped_not_up_to_date() {
    let mut app = TuiApp::for_transfer(vec!["r".into()]);
    app.handle_send_event(&SendEvent::RemoteSkipped { remote: "r".into() }, 0);
    app.handle_send_event(&SendEvent::AllDone, 0);
    assert_eq!(summary_title(&app), " Backup Finished ");
}

#[test]
fn signs_of_life_are_reported() {
    let mut app = TuiApp::new();
    assert!(app.handle_send_event(&SendEvent::CountdownTick { remaining_secs: 0 }, 0));
    assert!(!app.handle_send_event(&SendEvent::CountdownTick { remaining_secs: 0 }, 0));
    let mut app = two_active();
    let progress = |remote: &str| SendEvent::RemoteProgress {
        remote: remote.into(),
        bytes_sent: 1,
    };
    assert!(app.handle_send_event(&progress("primary"), 1));
    assert!(!app.handle_send_event(&progress("ghost"), 1));
    assert!(!app.handle_send_event(&SendEvent::SummaryTick, 1));
    assert!(!app.handle_send_event(&SendEvent::AllDone, 1));
    assert!(app.handle_send_event(&SendEvent::SummaryTick, 1));
}

#[test]
fn skipping_a_finished_row_does_nothing() {
    let mut app = two_active();
    app.handle_send_event(&SendEvent::RemoteUpToDate { remote: "primary".into() }, 0);
    app.handle_key(TuiKey::Skip);
    assert!(matches!(app.remotes[0].state, RemoteRowState::UpToDate));
    assert!(!is_cancelled(&app, "primary"));
}

#[test]
fn keys_have_meanings() {
    assert_eq!(tui_key(Pressed::Char('s')), TuiKey::Skip);
    assert_eq!(tui_key(Pressed::Char('S')), TuiKey::Skip);
    assert_eq!(tui_key(Pressed::Char('q')), TuiKey::Quit);
    assert_eq!(tui_key(Pressed::Char('Q')), TuiKey::Quit);
    assert_eq!(tui_key(Pressed::Char('x')), TuiKey::Any);
    assert_eq!(tui_key(Pressed::Up), TuiKey::Up);
    assert_eq!(tui_key(Pressed::Down), TuiKey::Down);
    assert_eq!(tui_key(Pressed::Other), TuiKey::Any);
}

fn row(state: RemoteRowState) -> RemoteRow {
    RemoteRow {
        name: "r".into(),
        state,
        last_progress: None,
    }
}

#[test]
fn rows_say_where_they_stand() {
    assert_eq!(render_remote_row(&row(RemoteRowState::Waiting)), "  waiting…");
    assert_eq!(
        render_remote_row(&row(RemoteRowState::Active {
            bytes_sent: 500_000,
            total_bytes: 1_000_000,
            speed_bps: Double::from_u64(250_000),
            eta_secs: Some(Double::from_u64(2)),
        })),
        "  [████████░░░░░░░░]  50%  500 KB / 1 MB  250 KB/s  ETA 2s"
    );
    assert_eq!(
        render_remote_row(&row(RemoteRowState::Done {
            bytes: 3_000_000_000,
            elapsed_nanos: 90_000_000_000
        })),
        "  ✓ 3.0 GB  1m 30s"
    );
    assert_eq!(
        render_remote_row(&row(RemoteRowState::Failed {
            error: "é".repeat(50)
        })),
        format!("  ✗ {}", "é".repeat(40))
    );
    assert_eq!(render_remote_row(&row(RemoteRowState::Skipped)), "  skipped");
    assert_eq!(render_remote_row(&row(RemoteRowState::UpToDate)), "  up to date");
}

#[test]
fn bars_are_filled_by_percent() {
    assert_eq!(make_bar(0, 4), "░░░░");
    assert_eq!(make_bar(49, 4), "█░░░");
    assert_eq!(make_bar(100, 4), "████");
    assert_eq!(make_bar(255, 4), "████");
    assert_eq!(make_bar(50, 0), "");
}

#[test]
fn texts_are_cut_and_padded() {
    assert_eq!(truncate_str("héllo", 2), "hé");
    assert_eq!(truncate_str("hi", 2), "hi");
    assert_eq!(pad_right("é", 3), "é  ");
    assert_eq!(pad_right("long", 3), "long");
    let app = TuiApp::for_transfer(vec!["é".into(), "abc".into()]);
    assert_eq!(name_width(&app), 3);
    assert_eq!(name_width(&TuiApp::for_transfer(vec!["éé".into(), "abc".into()])), 4);
    assert_eq!(name_width(&TuiApp::new()), 8);
}

#[test]
fn screens_have_titles_and_footers() {
    let mut app = two_active();
    assert_eq!(screen_title(&app), (" ZRB ZFS Backup ", Mood::Neutral));
    assert_eq!(footer(&app).as_deref(), Some("[S] Skip remote   [Q] Quit"));
    assert!(is_focused(&app, 0));
    assert!(!is_focused(&app, 1));
    app.handle_key(TuiKey::Quit);
    assert_eq!(screen_title(&app), (" Backup Finished ", Mood::Bad));
    assert_eq!(
        footer(&app).as_deref(),
        Some("Closing in 10s — press any key to dismiss")
    );
    assert!(!is_focused(&app, 0));
    app.handle_key(TuiKey::Any);
    assert_eq!(footer(&app).as_deref(), Some("Closing…"));
    let mut app = TuiApp::for_transfer(vec![]);
    app.handle_send_event(&SendEvent::AllDone, 0);
    assert_eq!(screen_title(&app), (" Backup Complete ", Mood::Good));
    assert_eq!(footer(&TuiApp::new()), None);
}

#[test]
fn the_countdown_is_shown() {
    assert_eq!(
        countdown_lines(TuiState::Countdown { remaining: 4 }),
        ["  Starting in 4s…", "", "  Press any key to cancel"]
    );
    assert_eq!(countdown_lines(TuiState::Aborted), ["  Backup skipped."]);
    assert!(countdown_lines(TuiState::Summary).is_empty());
    assert_eq!(countdown_outcome(TuiState::Aborted), Some(false));
    assert_eq!(countdown_outcome(TuiState::Transferring), Some(true));
    assert_eq!(countdown_outcome(TuiState::Countdown { remaining: 1 }), None);
    assert_eq!(dataset_line("t", &vec![]), "  t  →  (no remotes)");
    assert_eq!(dataset_line("t", &vec!["a".into(), "b".into()]), "  t  →  a, b");
    assert_eq!(dataset_box_height(3), 10);
}

#[test]
fn boxes_are_centred() {
    let area = Area {
        x: 0,
        y: 0,
        width: 80,
        height: 24,
    };
    assert_eq!(
        centered_box(area, 62, 9),
        Area {
            x: 9,
            y: 7,
            width: 62,
            height: 9
        }
    );
    let small = Area {
        x: 5,
        y: 5,
        width: 10,
        height: 1,
    };
    assert_eq!(
        centered_box(small, 62, 9),
        Area {
            x: 6,
            y: 5,
            width: 8,
            height: 0
        }
    );
}

#[test]
fn no_transfer_is_called_off_at_first() {
    let table = build_cancel_map(&["a".to_string(), "b".to_string()]);
    assert_eq!(table, vec![("a".to_string(), false), ("b".to_string(), false)]);
    let app = TuiApp::for_transfer_with_tokens(vec!["a".into()], vec![("a".into(), true)]);
    assert!(is_cancelled(&app, "a"));
}
