use zrb::zfs::schema::{DatasetInfo, PropertyValue, ZfsOutput};

const SINGLE_SNAPSHOT: &str = r#"{
    "datasets": {
        "pool/ds@zrb-snap": {
            "properties": {
                "name": { "value": "pool/ds@zrb-snap", "source": { "type": "NONE", "data": "" } }
            }
        }
    }
}"#;

fn read(json: &str) -> ZfsOutput {
    let v: serde_json::Value = serde_json::from_str(json).unwrap();
    let mut datasets = Vec::new();
    for (name, info) in v["datasets"].as_object().unwrap() {
        let mut properties = Vec::new();
        for (key, p) in info["properties"].as_object().unwrap() {
            let value = p["value"].as_str().unwrap().to_string();
            properties.push((key.clone(), PropertyValue { value }));
        }
        datasets.push((name.clone(), DatasetInfo { properties }));
    }
    ZfsOutput { datasets }
}

#[test]
fn single_snapshot_round_trips() {
    let out = read(SINGLE_SNAPSHOT);
    let ds = &out.datasets.iter().find(|d| d.0 == "pool/ds@zrb-snap").unwrap().1;
    let name = &ds.properties.iter().find(|p| p.0 == "name").unwrap().1;
    assert_eq!(name.value, "pool/ds@zrb-snap");
}

#[test]
fn unknown_top_level_fields_ignored() {
    let json = r#"{
        "output_version": {"command": "zfs list", "vers_major": 0, "vers_minor": 1},
        "datasets": {},
        "future_field": "ignored"
    }"#;
    let out = read(json);
    assert!(out.datasets.is_empty());
}

#[test]
fn missing_property_key_returns_none() {
    let out = read(SINGLE_SNAPSHOT);
    let ds = &out.datasets.iter().find(|d| d.0 == "pool/ds@zrb-snap").unwrap().1;
    assert!(!ds.properties.iter().any(|p| p.0 == "nonexistent"));
}
