use rmap::scan::{ping_applies, ping_permits, sort_ports, ScanTable};
use rmap::types::{HostAddr, PortResult, PortStatus};

fn v4(a: u8, b: u8, c: u8, d: u8) -> HostAddr {
    HostAddr::V4(u32::from_be_bytes([a, b, c, d]))
}

fn port(p: u16, status: PortStatus) -> PortResult {
    PortResult { port: p, status, service: None, version: None }
}

#[test]
fn ping_sweep_then_ports() {
    let mut t = ScanTable::new();
    t.record_ping(v4(10, 0, 0, 2), true);
    t.record_ping(v4(10, 0, 0, 1), false);
    t.record_ping(v4(10, 0, 0, 3), true);
    t.record_port(v4(10, 0, 0, 2), 443, PortStatus::Open, None, None, false);
    t.record_port(v4(10, 0, 0, 2), 22, PortStatus::Closed, None, None, false);
    t.record_port(v4(10, 0, 0, 3), 80, PortStatus::Open, Some("http".into()), Some("nginx 1.2".into()), false);
    // A host the table does not know is ignored.
    t.record_port(v4(10, 0, 0, 9), 80, PortStatus::Open, None, None, false);
    let out = t.finish();
    assert_eq!(out.len(), 3);
    assert_eq!(out[0].ip, v4(10, 0, 0, 1));
    assert_eq!(out[0].alive, Some(false));
    assert!(out[0].ports.is_empty());
    assert_eq!(out[1].ip, v4(10, 0, 0, 2));
    assert_eq!(out[1].ports.iter().map(|p| p.port).collect::<Vec<_>>(), vec![22, 443]);
    assert_eq!(out[2].ports[0].service.as_deref(), Some("http"));
    assert_eq!(out[2].ports[0].version.as_deref(), Some("nginx 1.2"));
}

#[test]
fn alive_hosts_are_listed_for_port_scan() {
    let mut t = ScanTable::new();
    t.record_ping(v4(1, 1, 1, 1), true);
    t.record_ping(v4(1, 1, 1, 2), false);
    t.record_ping(v4(1, 1, 1, 3), true);
    assert_eq!(t.alive_hosts(), &vec![v4(1, 1, 1, 1), v4(1, 1, 1, 3)]);
}

#[test]
fn open_only_keeps_open_ports() {
    let mut t = ScanTable::new();
    t.record_ping(v4(10, 0, 0, 1), true);
    t.record_port(v4(10, 0, 0, 1), 22, PortStatus::Closed, None, None, true);
    t.record_port(v4(10, 0, 0, 1), 23, PortStatus::Filtered, None, None, true);
    t.record_port(v4(10, 0, 0, 1), 80, PortStatus::Open, None, None, true);
    let out = t.finish();
    assert_eq!(out[0].ports.len(), 1);
    assert_eq!(out[0].ports[0].port, 80);
}

#[test]
fn unprobed_targets() {
    let targets = vec![HostAddr::V6(1), v4(192, 168, 0, 2), v4(192, 168, 0, 1), v4(192, 168, 0, 2)];
    let t = ScanTable::unprobed(&targets);
    assert_eq!(t.alive_hosts(), &targets);
    let out = t.finish();
    assert_eq!(out.len(), 3);
    assert_eq!(out[0].ip, v4(192, 168, 0, 1));
    assert_eq!(out[1].ip, v4(192, 168, 0, 2));
    assert_eq!(out[2].ip, HostAddr::V6(1));
    assert!(out.iter().all(|h| h.alive.is_none()));
}

#[test]
fn repeated_ping_replaces_host() {
    let mut t = ScanTable::new();
    t.record_ping(v4(1, 2, 3, 4), true);
    t.record_port(v4(1, 2, 3, 4), 80, PortStatus::Open, None, None, false);
    t.record_ping(v4(1, 2, 3, 4), false);
    let out = t.finish();
    assert_eq!(out.len(), 1);
    assert_eq!(out[0].alive, Some(false));
    assert!(out[0].ports.is_empty());
}

#[test]
fn ports_sort_stably() {
    let v = vec![
        port(443, PortStatus::Open),
        port(22, PortStatus::Closed),
        port(80, PortStatus::Open),
        port(22, PortStatus::Open),
    ];
    let s = sort_ports(v);
    let got: Vec<(u16, PortStatus)> = s.iter().map(|p| (p.port, p.status)).collect();
    assert_eq!(
        got,
        vec![(22, PortStatus::Closed), (22, PortStatus::Open), (80, PortStatus::Open), (443, PortStatus::Open)]
    );
}

#[test]
fn ping_permit_cap() {
    assert_eq!(ping_permits(1000), 256);
    assert_eq!(ping_permits(256), 256);
    assert_eq!(ping_permits(10), 10);
    assert_eq!(ping_permits(0), 0);
}

#[test]
fn only_ipv4_is_pinged() {
    assert!(ping_applies(v4(192, 168, 0, 1)));
    assert!(!ping_applies(HostAddr::V6(1)));
}
