use zrb::config::RemoteConfig;
use zrb::ssh::transport::{connect, TransportError};

fn no_such_file() -> String {
    std::io::Error::new(std::io::ErrorKind::NotFound, "No such file").to_string()
}

#[test]
fn spawn_error_includes_host_and_port() {
    let err = TransportError::Spawn {
        destination: "nas.local:2222".to_owned(),
        source: no_such_file(),
    };
    let msg = err.message();
    assert!(msg.contains("nas.local"), "missing host in: {msg}");
    assert!(msg.contains("2222"), "missing port in: {msg}");
}

#[test]
fn spawn_error_without_port_has_no_port_number() {
    let err = TransportError::Spawn {
        destination: "nas.local".to_owned(),
        source: no_such_file(),
    };
    let msg = err.message();
    assert!(
        msg.starts_with("SSH connect to nas.local: "),
        "unexpected format: {msg}"
    );
}

#[test]
fn connections_pass_on_what_is_set() {
    let mut remote = RemoteConfig {
        host: "nas.local".to_string(),
        port: Some(2222),
        user: Some("zfsbackup".to_string()),
        ssh_key: Some("/key".to_string()),
        ssh_opts: vec!["-o".to_string(), "ServerAliveInterval=30".to_string()],
        zfs_send_opts: Vec::new(),
        bandwidth_limit: None,
    };
    let (args, destination) = connect(&remote, &["-v".to_string()]);
    assert_eq!(
        args,
        [
            "-p",
            "2222",
            "-l",
            "zfsbackup",
            "-i",
            "/key",
            "-o",
            "ServerAliveInterval=30",
            "-v",
            "nas.local",
            "zrb server"
        ]
    );
    assert_eq!(destination, "nas.local:2222");
    remote.port = None;
    remote.user = None;
    remote.ssh_key = None;
    remote.ssh_opts = Vec::new();
    let (args, destination) = connect(&remote, &[]);
    assert_eq!(args, ["nas.local", "zrb server"]);
    assert_eq!(destination, "nas.local");
}
