use walrusfox::config::{Config, MAX_MSG_LEN};
use walrusfox::server::{admit_line, broadcast_payload, Registry};

#[test]
fn identifiers_are_fresh_and_monotonic() {
    let mut reg = Registry::new();
    assert_eq!(reg.register(), 0);
    assert_eq!(reg.register(), 1);
    assert_eq!(reg.register(), 2);
    reg.deregister(1);
    // an identifier is never reused, even after a disconnect
    assert_eq!(reg.register(), 3);
    assert_eq!(reg.ids, vec![0, 2, 3]);
}

#[test]
fn broadcast_targets_every_other_client_once() {
    let mut reg = Registry::new();
    for _ in 0..4 {
        reg.register();
    }
    let targets = reg.targets(1);
    assert_eq!(targets, vec![0, 2, 3]);
    assert!(!targets.contains(&1));
    for id in &targets {
        assert_eq!(targets.iter().filter(|t| *t == id).count(), 1);
    }
}

#[test]
fn disconnected_client_gets_no_further_broadcasts() {
    let mut reg = Registry::new();
    for _ in 0..3 {
        reg.register();
    }
    reg.deregister(0);
    assert!(!reg.targets(1).contains(&0));
    assert_eq!(reg.targets(1), vec![2]);
    // a client connecting later is absent from the earlier snapshot
    let before = reg.targets(2);
    let late = reg.register();
    assert!(!before.contains(&late));
    assert!(reg.targets(2).contains(&late));
}

#[test]
fn relayed_line_gets_trailing_newline() {
    assert_eq!(broadcast_payload("dark"), b"dark\n".to_vec());
    assert_eq!(broadcast_payload(""), b"\n".to_vec());
}

#[test]
fn overlong_lines_are_dropped() {
    let ok = "x".repeat(MAX_MSG_LEN);
    let too_long = "x".repeat(MAX_MSG_LEN + 1);
    assert!(admit_line(&ok));
    assert!(!admit_line(&too_long));
    assert!(admit_line("update"));
}

#[test]
fn config_keeps_paths() {
    let c = Config::new("/run/x.sock".to_string(), "/tmp/x.log".to_string());
    assert_eq!(c.socket_path, "/run/x.sock");
    assert_eq!(c.log_file, "/tmp/x.log");
}
