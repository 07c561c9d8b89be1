use std::time::Duration;
use zrb::double::Double;
use zrb::progress::{
    bar_change, bar_of, first_bytes, fmt_active_line, fmt_bytes, fmt_duration, fmt_eta, fmt_speed,
    measure, percent, BarChange, ProgressTracker,
};
use zrb::tui::SendEvent;

const SECOND: u64 = 1_000_000_000;

fn rate(bytes: u64, nanos: u64) -> Double {
    Double::from_u64(bytes).divided_by(Double::from_nanos(nanos))
}

fn secs(n: u64) -> Double {
    Double::from_u64(n)
}

fn machine(d: Double) -> f64 {
    d.mantissa as f64 * 2f64.powi(d.exponent as i32)
}

fn machine_speed(bps: f64) -> String {
    if bps >= 1_000_000.0 {
        format!("{:.1} MB/s", bps / 1_000_000.0)
    } else if bps >= 1_000.0 {
        format!("{:.0} KB/s", bps / 1_000.0)
    } else {
        format!("{bps:.0} B/s")
    }
}

fn started(remote: &str, total_bytes: u64) -> SendEvent {
    SendEvent::RemoteStarted {
        remote: remote.to_owned(),
        total_bytes,
    }
}

#[test]
fn fmt_active_line_formats_bytes_speed_eta() {
    let line = fmt_active_line(
        "tank/home \u{2192} primary",
        500_000_000,
        1_000_000_000,
        rate(10_000_000, SECOND),
        Some(secs(50)),
    );
    assert!(line.contains("tank/home → primary"), "should contain remote name");
    assert!(line.contains("500 MB"), "should contain bytes_sent");
    assert!(line.contains("1.0 GB"), "should contain total_bytes");
    assert!(line.contains("50%"), "should contain percentage");
    assert!(line.contains("10.0 MB/s"), "should contain speed");
    assert!(line.contains("ETA 50s"), "should contain ETA");
    assert_eq!(
        line,
        "tank/home → primary: 500 MB / 1.0 GB (50%) 10.0 MB/s  ETA 50s"
    );
}

#[test]
fn tracker_starts_all_waiting() {
    let names = vec!["tank/home → primary".to_owned(), "tank/data → backup".to_owned()];
    let tracker = ProgressTracker::new(&names);
    assert!(!tracker.is_done());
    assert!(tracker.tick_lines().is_empty(), "no active remotes yet");
}

#[test]
fn remote_started_appears_in_tick_lines() {
    let names = vec!["tank/home → primary".to_owned()];
    let mut tracker = ProgressTracker::new(&names);
    tracker.handle_event(&started("tank/home → primary", 1_000_000), 0);
    let lines = tracker.tick_lines();
    assert_eq!(lines.len(), 1, "one active remote");
    assert!(lines[0].contains("tank/home → primary"));
}

#[test]
fn remote_progress_updates_bytes_in_tick_line() {
    let names = vec!["tank/home → primary".to_owned()];
    let mut tracker = ProgressTracker::new(&names);
    tracker.handle_event(&started("tank/home → primary", 1_000_000), 0);
    tracker.handle_event(
        &SendEvent::RemoteProgress {
            remote: "tank/home → primary".to_owned(),
            bytes_sent: 500_000,
        },
        SECOND,
    );
    let lines = tracker.tick_lines();
    assert!(lines[0].contains("500 KB"), "updated bytes_sent should appear");
    assert_eq!(
        lines[0],
        "tank/home → primary: 500 KB / 1 MB (50%) 500 KB/s  ETA 1s"
    );
}

#[test]
fn completed_returns_immediate_line_and_leaves_tick() {
    let names = vec!["tank/home → primary".to_owned()];
    let mut tracker = ProgressTracker::new(&names);
    tracker.handle_event(&started("tank/home → primary", 100), 0);
    let line = tracker.handle_event(
        &SendEvent::RemoteCompleted {
            remote: "tank/home → primary".to_owned(),
            elapsed_nanos: 2_500_000_000,
            bytes: 100,
        },
        SECOND,
    );
    assert!(line.is_some(), "should return immediate line");
    let text = line.unwrap();
    assert!(text.contains("tank/home → primary"), "line includes remote name");
    assert!(text.contains("done"), "line says done");
    assert_eq!(text, "tank/home → primary: done — 100 B in 2s");
    assert!(tracker.tick_lines().is_empty(), "terminal remote excluded from ticks");
}

#[test]
fn failed_returns_immediate_line_and_leaves_tick() {
    let names = vec!["tank/home → primary".to_owned()];
    let mut tracker = ProgressTracker::new(&names);
    tracker.handle_event(&started("tank/home → primary", 100), 0);
    let line = tracker.handle_event(
        &SendEvent::RemoteFailed {
            remote: "tank/home → primary".to_owned(),
            error: "connection reset".to_owned(),
        },
        SECOND,
    );
    assert!(line.is_some());
    let text = line.unwrap();
    assert!(text.contains("failed"), "line says failed");
    assert!(text.contains("connection reset"), "line includes error");
    assert!(tracker.tick_lines().is_empty());
}

#[test]
fn skipped_returns_immediate_line_and_leaves_tick() {
    let names = vec!["tank/home → primary".to_owned()];
    let mut tracker = ProgressTracker::new(&names);
    let line = tracker.handle_event(
        &SendEvent::RemoteSkipped {
            remote: "tank/home → primary".to_owned(),
        },
        0,
    );
    assert!(line.is_some());
    assert!(line.unwrap().contains("skipped"));
    assert!(tracker.tick_lines().is_empty());
}

#[test]
fn all_done_marks_tracker_done() {
    let mut tracker = ProgressTracker::new(&[]);
    assert!(!tracker.is_done());
    tracker.handle_event(&SendEvent::AllDone, 0);
    assert!(tracker.is_done());
}

#[test]
fn tick_lines_excludes_terminal_remotes() {
    let names = vec!["tank/home → primary".to_owned(), "tank/data → backup".to_owned()];
    let mut tracker = ProgressTracker::new(&names);
    tracker.handle_event(&started("tank/home → primary", 1_000), 0);
    tracker.handle_event(&started("tank/data → backup", 1_000), 0);
    tracker.handle_event(
        &SendEvent::RemoteCompleted {
            remote: "tank/home → primary".to_owned(),
            elapsed_nanos: SECOND,
            bytes: 1_000,
        },
        SECOND,
    );
    let lines = tracker.tick_lines();
    assert_eq!(lines.len(), 1, "only one active remote remains");
    assert!(lines[0].contains("tank/data → backup"));
}

#[test]
fn unknown_remotes_begin_but_do_not_progress() {
    let mut tracker = ProgressTracker::new(&[]);
    tracker.handle_event(
        &SendEvent::RemoteProgress {
            remote: "b".to_owned(),
            bytes_sent: 5,
        },
        0,
    );
    assert!(tracker.remotes.is_empty());
    tracker.handle_event(&started("b", 10), 0);
    tracker.handle_event(&started("a", 10), 0);
    let lines = tracker.tick_lines();
    assert_eq!(lines.len(), 2);
    assert!(lines[0].starts_with("a: ") && lines[1].starts_with("b: "));
    assert_eq!(lines[0], "a: 0 B / 10 B (0%) 0 B/s  ETA ?");
}

/// What the machine prints.
fn by_machine(bytes: u64) -> String {
    if bytes >= 1_000_000_000 {
        format!("{:.1} GB", bytes as f64 / 1_000_000_000u64 as f64)
    } else if bytes >= 1_000_000 {
        format!("{:.0} MB", bytes as f64 / 1_000_000u64 as f64)
    } else if bytes >= 1_000 {
        format!("{:.0} KB", bytes as f64 / 1_000u64 as f64)
    } else {
        format!("{bytes} B")
    }
}

#[test]
fn bytes_agree_with_the_machine() {
    for bytes in [
        0,
        999,
        1_000,
        1_499,
        1_500,
        2_500,
        999_499,
        999_500,
        999_999,
        1_000_000,
        1_500_000,
        2_500_000,
        999_999_999,
        1_000_000_000,
        1_050_000_000,
        1_150_000_000,
        1_250_000_000,
        1_350_000_000,
        u64::MAX,
        u64::MAX - 1,
        1 << 53,
        (1 << 53) + 1,
        (1 << 54) + 2,
    ] {
        assert_eq!(fmt_bytes(bytes), by_machine(bytes), "{bytes}");
    }
    let mut seed: u64 = 99;
    for i in 0..20_000u64 {
        seed = seed.wrapping_mul(6364136223846793005).wrapping_add(1442695040888963407);
        let bytes = seed >> (i % 64);
        assert_eq!(fmt_bytes(bytes), by_machine(bytes), "{bytes}");
        let round = bytes / 50_000_000 * 50_000_000;
        assert_eq!(fmt_bytes(round), by_machine(round), "{round}");
    }
}

#[test]
fn speeds_are_rounded() {
    assert_eq!(fmt_speed(rate(0, 1)), "0 B/s");
    assert_eq!(fmt_speed(rate(999, SECOND)), "999 B/s");
    assert_eq!(fmt_speed(rate(1, 2 * SECOND)), "0 B/s");
    assert_eq!(fmt_speed(rate(3, 2 * SECOND)), "2 B/s");
    assert_eq!(fmt_speed(rate(1_000, SECOND)), "1 KB/s");
    assert_eq!(fmt_speed(rate(1_500_000, SECOND)), "1.5 MB/s");
    assert_eq!(fmt_speed(rate(1, 1)), "1000.0 MB/s");
    assert_eq!(fmt_speed(rate(u64::MAX, 1)), machine_speed(u64::MAX as f64 / 1e-9));
    assert_eq!(fmt_speed(rate(1_150_000, SECOND)), "1.1 MB/s");
    assert_eq!(fmt_speed(rate(1_250_000, SECOND)), "1.2 MB/s");
    assert_eq!(fmt_speed(rate(1_350_000, SECOND)), "1.4 MB/s");
}

#[test]
fn speeds_and_times_agree_with_machine_arithmetic() {
    let agree = |sent: u64, nanos: u64, left: u64| {
        let dt = Duration::from_nanos(nanos).as_secs_f64();
        assert_eq!(machine(Double::from_nanos(nanos)), dt, "{nanos}");
        let total = sent.saturating_add(left);
        let (bps, eta) = measure(Some((0, 0)), total, Double::zero(), None, nanos, sent);
        let speed = sent as f64 / dt;
        assert_eq!(machine(bps), speed, "{sent} {nanos}");
        assert_eq!(fmt_speed(bps), machine_speed(speed), "{sent} {nanos}");
        assert_eq!(eta.is_some(), sent > 0);
        if let Some(eta) = eta {
            let expected = (total - sent) as f64 / speed;
            assert_eq!(machine(eta), expected, "{sent} {nanos} {left}");
            assert_eq!(eta.whole(), expected as u64, "{sent} {nanos} {left}");
        }
    };
    for nanos in [1, 2, 999_999_999, SECOND, SECOND + 1, 3 * SECOND / 2, u64::MAX] {
        for sent in [0, 1, 3, 999, 1_000, 1_150_000, (1 << 53) + 1, u64::MAX] {
            for left in [0, 1, 7, 1_000_000_007, u64::MAX] {
                agree(sent, nanos, left);
            }
        }
    }
    let mut seed: u64 = 7;
    let mut next = || {
        seed = seed.wrapping_mul(6364136223846793005).wrapping_add(1442695040888963407);
        seed >> 1
    };
    for i in 0..20_000u64 {
        let sent = next() >> (i % 63);
        let nanos = (next() >> (i / 63 % 63)).max(1);
        let left = next() >> (i / 7 % 63);
        agree(sent, nanos, left);
    }
}

#[test]
fn durations_have_minutes() {
    assert_eq!(fmt_duration(Double::zero()), "0s");
    assert_eq!(fmt_duration(Double::from_nanos(999_999_999)), "0s");
    assert_eq!(fmt_duration(secs(59)), "59s");
    assert_eq!(fmt_duration(secs(60)), "1m 00s");
    assert_eq!(fmt_duration(secs(125)), "2m 05s");
    assert_eq!(fmt_duration(Double::from_nanos(125 * SECOND + SECOND / 2)), "2m 05s");
    assert_eq!(fmt_duration(secs(3_671)), "61m 11s");
    assert_eq!(fmt_eta(None), "ETA ?");
    assert_eq!(fmt_eta(Some(secs(61))), "ETA 1m 01s");
}

#[test]
fn percentages_stop_at_a_hundred() {
    assert_eq!(percent(1, 0), 0);
    assert_eq!(percent(1, 3), 33);
    assert_eq!(percent(3, 3), 100);
    assert_eq!(percent(4, 3), 100);
    assert_eq!(percent(u64::MAX, u64::MAX), 100);
}

#[test]
fn speed_is_measured_between_reports() {
    let zero = Double::zero();
    assert_eq!(
        measure(Some((0, 0)), 1_000, zero, None, SECOND, 250),
        (rate(250, SECOND), Some(secs(3)))
    );
    assert_eq!(
        measure(Some((5, 100)), 1_000, rate(9, 9), Some(secs(4)), 5, 250),
        (rate(9, 9), Some(secs(4)))
    );
    assert_eq!(
        measure(Some((0, 300)), 1_000, zero, Some(secs(1)), SECOND, 250),
        (zero, None)
    );
    assert_eq!(
        measure(Some((0, 0)), 100, zero, None, SECOND, 250),
        (rate(250, SECOND), Some(zero))
    );
    assert_eq!(measure(None, 100, rate(9, 9), Some(secs(4)), 5, 6), (zero, None));
    let (_, eta) = measure(Some((0, 0)), u64::MAX, zero, None, u64::MAX, 1);
    assert_eq!(eta.map(|e| e.whole()), Some(u64::MAX));
}

#[test]
fn events_change_bars() {
    assert_eq!(
        bar_change(&started("r", 7)),
        BarChange::Begin {
            total_bytes: 7,
            message: "starting…".to_owned()
        }
    );
    assert_eq!(
        bar_change(&SendEvent::RemoteProgress {
            remote: "r".to_owned(),
            bytes_sent: 3
        }),
        BarChange::Move { bytes_sent: 3 }
    );
    assert_eq!(
        bar_change(&SendEvent::RemoteCompleted {
            remote: "r".to_owned(),
            elapsed_nanos: 61 * SECOND,
            bytes: 2_000
        }),
        BarChange::Finish {
            message: "✓ 2 KB  1m 01s".to_owned()
        }
    );
    assert_eq!(
        bar_change(&SendEvent::RemoteFailed {
            remote: "r".to_owned(),
            error: "x".repeat(50)
        }),
        BarChange::Abandon {
            message: format!("✗ {}", "x".repeat(40))
        }
    );
    assert_eq!(
        bar_change(&SendEvent::RemoteSkipped {
            remote: "r".to_owned()
        }),
        BarChange::Finish {
            message: "skipped".to_owned()
        }
    );
    assert_eq!(
        bar_change(&SendEvent::AllDone),
        BarChange::AbandonRest {
            message: "✗ not reached — check logs".to_owned()
        }
    );
    assert_eq!(bar_change(&SendEvent::SummaryTick), BarChange::Keep);
}

#[test]
fn long_errors_are_cut_by_bytes() {
    assert_eq!(first_bytes("short", 40), "short");
    assert_eq!(first_bytes("aé€😀", 3), "aé");
    assert_eq!(first_bytes("aé€😀", 6), "aé€");
    assert_eq!(first_bytes("aé€😀", 9), "aé€");
    assert_eq!(first_bytes("aé€😀", 10), "aé€😀");
    assert_eq!(first_bytes("é", 1), "");
}

#[test]
fn active_bars_have_a_message() {
    let mut tracker = ProgressTracker::new(&["r".to_owned()]);
    assert!(bar_of(&tracker.remotes[0].1).is_none());
    tracker.handle_event(&started("r", 4_000), 0);
    assert_eq!(
        bar_of(&tracker.remotes[0].1),
        Some((4_000, 0, "0 B / 4 KB  0 B/s  ETA ?".to_owned()))
    );
}
