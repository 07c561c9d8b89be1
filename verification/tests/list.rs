use zrb::ops::list::{datasets_matching, list, list_all, list_recursive};
use zrb::ops::snapshot::snapshot;
use zrb::time::Timestamp;

fn strs(v: &[&str]) -> Vec<String> {
    v.iter().map(std::string::ToString::to_string).collect()
}

#[test]
fn datasets_matching_excludes_prefix_substring() {
    let all = strs(&["tanker/docs"]);
    assert!(datasets_matching(&all, "tank").is_empty());
}

#[test]
fn datasets_matching_includes_exact_root() {
    let all = strs(&["tank"]);
    assert_eq!(datasets_matching(&all, "tank"), strs(&["tank"]));
}

#[test]
fn datasets_matching_includes_children_at_any_depth() {
    let all = strs(&["tank/home", "tank/home/sub", "tank/docs", "other/data"]);
    assert_eq!(
        datasets_matching(&all, "tank"),
        strs(&["tank/home", "tank/home/sub", "tank/docs"])
    );
}

#[test]
fn listing_is_managed_and_oldest_first() {
    let raw = strs(&[
        "t@zrb-2026-01-03T00:00:00Z",
        "t@manual",
        "t@zrb-2026-01-01T00:00:00Z",
        "t@zrb-nonsense",
        "t@zrb-2026-01-02T00:00:00Z",
    ]);
    assert_eq!(
        list(&raw),
        strs(&[
            "t@zrb-2026-01-01T00:00:00Z",
            "t@zrb-2026-01-02T00:00:00Z",
            "t@zrb-2026-01-03T00:00:00Z",
        ])
    );
}

#[test]
fn every_dataset_gets_its_group() {
    let raw = vec![
        strs(&["a@zrb-2026-01-01T00:00:00Z"]),
        strs(&["b@manual", "b@zrb-2026-01-02T00:00:00Z"]),
    ];
    let groups = list_all(strs(&["a", "b"]), &raw);
    assert_eq!(
        groups,
        vec![
            ("a".to_string(), strs(&["a@zrb-2026-01-01T00:00:00Z"])),
            ("b".to_string(), strs(&["b@zrb-2026-01-02T00:00:00Z"])),
        ]
    );
}

#[test]
fn recursive_listing_keeps_to_the_subtree() {
    let discovered = strs(&["tank", "tanker", "tank/a"]);
    let raw = vec![
        strs(&["tank@zrb-2026-01-01T00:00:00Z"]),
        strs(&["tank/a@zrb-2026-01-02T00:00:00Z"]),
    ];
    let groups = list_recursive(&discovered, "tank", &raw);
    assert_eq!(groups.len(), 2);
    assert_eq!(groups[0].0, "tank");
    assert_eq!(groups[1].0, "tank/a");
    assert_eq!(groups[1].1, strs(&["tank/a@zrb-2026-01-02T00:00:00Z"]));
}

#[test]
fn taking_a_snapshot_names_it() {
    let now = Timestamp::new(1_779_460_200, 5).unwrap();
    let (name, command) = snapshot("tank/home", now);
    assert_eq!(name, "tank/home@zrb-2026-05-22T14:30:00Z");
    assert_eq!(
        command.args(),
        ["snapshot", "tank/home@zrb-2026-05-22T14:30:00Z"]
    );
}
