use zrb::config::{
    parse_bandwidth, BandwidthError, ClientConfig, ConfigError, RemoteConfig, ServerConfig,
    ServerSection, SourceConfig, SourceSection,
};
use zrb::retention::policy::RetentionConfig;

const SOURCE_TOML: &str = r#"
[source]
name = "my-laptop"

[remotes.primary]
host = "backup.example.com"
port = 22
user = "zfsbackup"
ssh_key = "/home/user/.ssh/id_zfsbackup"
ssh_opts = ["-o", "ServerAliveInterval=30"]
zfs_send_opts = []

[datasets."tank/home"]
primary = "backup/laptop/home"

[datasets."tank/documents"]
primary = "backup/laptop/documents"

[retention]
recent = 7
weekly_for_days = 30
monthly_for_days = 365
"#;

const SERVER_TOML: &str = r#"
[server]
resume_hold_days = 3

[clients.my-laptop]
allow = ["backup/laptop/home", "backup/laptop/documents"]
zfs_receive_opts = []

[retention]
recent = 14
weekly_for_days = 60
monthly_for_days = 730
"#;

fn string(v: &toml::Value) -> String {
    v.as_str().unwrap().to_string()
}

fn strings(v: Option<&toml::Value>) -> Vec<String> {
    match v {
        Some(v) => v.as_array().unwrap().iter().map(string).collect(),
        None => Vec::new(),
    }
}

fn retention(v: &toml::Value) -> RetentionConfig {
    RetentionConfig {
        recent: v["recent"].as_integer().unwrap() as usize,
        weekly_for_days: v["weekly_for_days"].as_integer().unwrap(),
        monthly_for_days: v["monthly_for_days"].as_integer().unwrap(),
    }
}

fn remote(v: &toml::Value) -> RemoteConfig {
    RemoteConfig {
        host: string(&v["host"]),
        port: v.get("port").map(|p| p.as_integer().unwrap() as u16),
        user: v.get("user").map(string),
        ssh_key: v.get("ssh_key").map(string),
        ssh_opts: strings(v.get("ssh_opts")),
        zfs_send_opts: strings(v.get("zfs_send_opts")),
        bandwidth_limit: v
            .get("bandwidth_limit")
            .map(|b| parse_bandwidth(b.as_str().unwrap()).unwrap()),
    }
}

fn source(text: &str) -> SourceConfig {
    let table: toml::Table = text.parse().expect("should parse");
    let v = toml::Value::Table(table);
    let mut remotes = Vec::new();
    for (name, r) in v["remotes"].as_table().unwrap() {
        remotes.push((name.clone(), remote(r)));
    }
    let mut datasets = Vec::new();
    for (name, targets) in v["datasets"].as_table().unwrap() {
        let mut list = Vec::new();
        for (r, t) in targets.as_table().unwrap() {
            list.push((r.clone(), string(t)));
        }
        datasets.push((name.clone(), list));
    }
    SourceConfig {
        source: SourceSection {
            name: string(&v["source"]["name"]),
        },
        remotes,
        datasets,
        retention: retention(&v["retention"]),
    }
}

fn server(text: &str) -> ServerConfig {
    let table: toml::Table = text.parse().expect("should parse");
    let v = toml::Value::Table(table);
    let mut clients = Vec::new();
    for (name, c) in v["clients"].as_table().unwrap() {
        clients.push((
            name.clone(),
            ClientConfig {
                allow: strings(c.get("allow")),
                zfs_receive_opts: strings(c.get("zfs_receive_opts")),
            },
        ));
    }
    ServerConfig {
        server: ServerSection {
            resume_hold_days: v["server"]["resume_hold_days"].as_integer().unwrap() as u32,
        },
        clients,
        retention: retention(&v["retention"]),
    }
}

fn primary(cfg: &SourceConfig) -> &RemoteConfig {
    &cfg.remotes.iter().find(|r| r.0 == "primary").expect("primary remote").1
}

#[test]
fn source_config_deserializes_prd_example() {
    let cfg = source(SOURCE_TOML);
    assert_eq!(cfg.name(), "my-laptop");
    let remote = primary(&cfg);
    assert_eq!(remote.host, "backup.example.com");
    assert_eq!(remote.port, Some(22));
    assert_eq!(remote.user.as_deref(), Some("zfsbackup"));
    assert_eq!(remote.ssh_opts, ["-o", "ServerAliveInterval=30"]);
    let home = &cfg
        .datasets
        .iter()
        .find(|d| d.0 == "tank/home")
        .expect("tank/home dataset")
        .1;
    assert_eq!(
        home.iter().find(|t| t.0 == "primary").map(|t| t.1.as_str()),
        Some("backup/laptop/home")
    );
    assert_eq!(cfg.retention.recent, 7);
    assert_eq!(cfg.retention.weekly_for_days, 30);
    assert_eq!(cfg.retention.monthly_for_days, 365);
}

#[test]
fn server_config_deserializes_prd_example() {
    let cfg = server(SERVER_TOML);
    assert_eq!(cfg.resume_hold_days(), 3);
    let client = &cfg
        .clients
        .iter()
        .find(|c| c.0 == "my-laptop")
        .expect("my-laptop client")
        .1;
    assert_eq!(
        client.allow,
        ["backup/laptop/home", "backup/laptop/documents"]
    );
    assert!(client.zfs_receive_opts.is_empty());
    assert_eq!(cfg.retention.recent, 14);
}

#[test]
fn remote_config_ssh_key_present_is_some() {
    let cfg = source(SOURCE_TOML);
    assert_eq!(
        primary(&cfg).ssh_key.as_deref(),
        Some("/home/user/.ssh/id_zfsbackup")
    );
}

#[test]
fn remote_config_ssh_key_absent_is_none() {
    let no_key = SOURCE_TOML.replace("ssh_key = \"/home/user/.ssh/id_zfsbackup\"\n", "");
    let cfg = source(&no_key);
    assert!(primary(&cfg).ssh_key.is_none());
}

#[test]
fn remote_config_bandwidth_limit_absent_is_none() {
    let cfg = source(SOURCE_TOML);
    assert!(primary(&cfg).bandwidth_limit.is_none());
}

fn with_limit(limit: &str) -> Option<u64> {
    let with_limit = SOURCE_TOML.replace(
        "zfs_send_opts = []",
        &format!("zfs_send_opts = []\nbandwidth_limit = \"{limit}\""),
    );
    primary(&source(&with_limit)).bandwidth_limit
}

#[test]
fn remote_config_bandwidth_limit_parses_megabytes() {
    assert_eq!(with_limit("10M"), Some(10_000_000));
}

#[test]
fn remote_config_bandwidth_limit_parses_mbit() {
    assert_eq!(with_limit("100Mbit"), Some(12_500_000));
}

#[test]
fn remote_config_bandwidth_limit_parses_decimal() {
    assert_eq!(with_limit("1.5M"), Some(1_500_000));
}

#[test]
fn remote_config_bandwidth_limit_parses_bare_integer() {
    assert_eq!(with_limit("1048576"), Some(1_048_576));
}

#[test]
fn parse_bandwidth_units() {
    assert_eq!(parse_bandwidth("1k").unwrap(), 1_000);
    assert_eq!(parse_bandwidth("1K").unwrap(), 1_000);
    assert_eq!(parse_bandwidth("1M").unwrap(), 1_000_000);
    assert_eq!(parse_bandwidth("1G").unwrap(), 1_000_000_000);
    assert_eq!(parse_bandwidth("100Mbit").unwrap(), 12_500_000);
    assert_eq!(parse_bandwidth("100Mbits").unwrap(), 12_500_000);
    assert_eq!(parse_bandwidth("1kbit").unwrap(), 125);
    assert_eq!(parse_bandwidth("1Gbit").unwrap(), 125_000_000);
    assert_eq!(parse_bandwidth("10MB").unwrap(), 10_000_000);
    assert_eq!(parse_bandwidth("500").unwrap(), 500);
}

#[test]
fn remote_config_user_absent_is_none() {
    let no_user = SOURCE_TOML.replace("user = \"zfsbackup\"\n", "");
    let cfg = source(&no_user);
    assert!(primary(&cfg).user.is_none());
}

#[test]
fn remote_config_port_absent_is_none() {
    let no_port = SOURCE_TOML.replace("port = 22\n", "");
    let cfg = source(&no_port);
    assert!(primary(&cfg).port.is_none());
}

#[test]
fn bandwidths_in_every_spelling() {
    assert_eq!(parse_bandwidth("  512K \n"), Ok(512_000));
    assert_eq!(parse_bandwidth("10b"), Ok(10));
    assert_eq!(parse_bandwidth("8BITS"), Ok(1));
    assert_eq!(parse_bandwidth("9Bit"), Ok(1));
    assert_eq!(parse_bandwidth("1.5G"), Ok(1_500_000_000));
    assert_eq!(parse_bandwidth("1e3"), Ok(1_000));
    assert_eq!(parse_bandwidth("1E+3k"), Ok(1_000_000));
    assert_eq!(parse_bandwidth("12500e-2"), Ok(125));
    assert_eq!(parse_bandwidth("+7"), Ok(7));
    assert_eq!(parse_bandwidth("-0"), Ok(0));
    assert_eq!(parse_bandwidth("NaN"), Ok(0));
    assert_eq!(parse_bandwidth("infinity"), Ok(u64::MAX));
    assert_eq!(parse_bandwidth("inf"), Ok(u64::MAX));
    assert_eq!(parse_bandwidth("1e99999999999999999999999999999999999999"), Ok(u64::MAX));
    assert_eq!(parse_bandwidth("0e99999999999999999999999999999999999999"), Ok(0));
    assert_eq!(parse_bandwidth("1e-99999999999999999999999999999999999999"), Ok(0));
    assert_eq!(parse_bandwidth("-1e-400"), Ok(0));
}

#[test]
fn thousandths_lose_what_the_format_loses() {
    assert_eq!(parse_bandwidth("1.001k"), Ok(1_000));
    assert_eq!(parse_bandwidth("1.005k"), Ok((1.005f64 * 1000.0) as u64));
    assert_eq!(parse_bandwidth("0.29k"), Ok(290));
}

#[test]
fn bad_bandwidths_are_told_apart() {
    assert_eq!(parse_bandwidth(""), Err(BandwidthError::Invalid(String::new())));
    assert_eq!(parse_bandwidth("fast"), Err(BandwidthError::Invalid("fast".to_string())));
    assert_eq!(parse_bandwidth("10 M"), Err(BandwidthError::Invalid("10 ".to_string())));
    assert_eq!(parse_bandwidth("Mbit"), Err(BandwidthError::Invalid(String::new())));
    assert_eq!(parse_bandwidth("1e"), Err(BandwidthError::Invalid("1e".to_string())));
    assert_eq!(parse_bandwidth("."), Err(BandwidthError::Invalid(".".to_string())));
    assert_eq!(parse_bandwidth("-5M"), Err(BandwidthError::Negative("-5".to_string())));
    assert_eq!(parse_bandwidth("-inf"), Err(BandwidthError::Negative("-inf".to_string())));
    assert_eq!(
        parse_bandwidth("-5e-324"),
        Err(BandwidthError::Negative("-5e-324".to_string()))
    );
}

/// What the arithmetic of the machine gives.
fn by_machine(number: &str, scale: u64, bits: bool) -> Option<u64> {
    let value: f64 = number.parse().ok()?;
    if value < 0.0 {
        return None;
    }
    let divisor = if bits { 8.0f64 } else { 1.0f64 };
    Some((value * (scale as f64) / divisor) as u64)
}

#[test]
fn bandwidths_agree_with_the_machine() {
    let mut seed: u64 = 7;
    let mut next = || {
        seed = seed.wrapping_mul(6364136223846793005).wrapping_add(1442695040888963407);
        seed
    };
    for i in 0..4_000u64 {
        let a = next() >> (i % 61);
        let b = next();
        let number = match i % 6 {
            0 => format!("{a}"),
            1 => format!("{a}.{b}"),
            2 => format!("{a}.{b}e-{}", b % 45),
            3 => format!("{}e{}", a % 1_000, b % 30),
            4 => format!("-{}.{}e-{}", a % 10, b % 100, 300 + b % 40),
            _ => format!("{}.{:04}", a % 10_000, b % 10_000),
        };
        for (prefix, scale) in [("", 1), ("k", 1_000), ("M", 1_000_000), ("g", 1_000_000_000)] {
            for (unit, bits) in [("", false), ("B", false), ("bit", true)] {
                assert_eq!(
                    parse_bandwidth(&format!("{number}{prefix}{unit}")).ok(),
                    by_machine(&number, scale, bits),
                    "{number}{prefix}{unit}"
                );
            }
        }
    }
}

#[test]
fn configured_datasets_are_in_order() {
    assert_eq!(
        source(SOURCE_TOML).configured_datasets(),
        ["tank/documents", "tank/home"]
    );
    let mut cfg = server(SERVER_TOML);
    cfg.clients.push((
        "desktop".to_string(),
        ClientConfig {
            allow: vec!["backup/a".to_string(), "backup/laptop/home".to_string()],
            zfs_receive_opts: Vec::new(),
        },
    ));
    assert_eq!(
        cfg.configured_datasets(),
        ["backup/a", "backup/laptop/documents", "backup/laptop/home"]
    );
}

#[test]
fn config_errors_have_texts() {
    assert_eq!(
        ConfigError::Io("gone".to_string()).message(),
        "cannot read config file: gone"
    );
    assert_eq!(
        ConfigError::Toml("bad".to_string()).message(),
        "cannot parse config: bad"
    );
}
