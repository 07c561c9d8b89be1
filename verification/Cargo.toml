[package]
name = "zrb"
version = "0.3.0"
edition = "2021"
publish = false

[dependencies]
anyhow = "1"
chrono = "0.4"
clap = { version = "4", features = ["derive"] }
clap_complete = "4"
clap_complete_nushell = "4"
clap_mangen = "0.3"
crossterm = { version = "0.29", features = ["event-stream"] }
env_logger = "0.11"
futures-util = "0.3"
indicatif = "0.18"
libc = "0.2"
log = "0.4"
ratatui = "0.30"
sd-notify = "0.5"
serde = { version = "1", features = ["derive"] }
serde_json = "1"
thiserror = "2"
tokio = { version = "1", features = ["full"] }
tokio-util = "0.7"
toml = "1"
