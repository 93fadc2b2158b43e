use rmap::service::{
    apply_version_template, find_probe_bytes, try_match_probes, DetectAction, DetectEvent,
    DetectSession, DetectStage, ServiceDetector,
};

const PROBES: &str = "Probe TCP NULL q||\n\
match ssh m|^SSH-([\\d.]+)-OpenSSH_([\\w._-]+)| p|OpenSSH| v|$2| i|protocol $1|\n\
match ftp m|^220 ([\\w.]+) FTP|i p|$1|\n\
Probe TCP GetRequest q|GET / HTTP/1.0\\r\\n\\r\\n|\n\
ports 80,8080\n\
match http m|^HTTP/1\\.[01] \\d\\d\\d .*\\r\\nServer: nginx/([\\d.]+)|s p|nginx| v|$1|\n\
match http m|^HTTP/1\\.[01] |\n\
Probe TCP Help q|HELP\\r\\n|\n\
ports 25\n\
match smtp m|^214 | p|SMTP server|\n";

fn detector() -> ServiceDetector {
    ServiceDetector::new(PROBES)
}

#[test]
fn template_groups_are_filled() {
    let groups = vec![Some("whole".to_string()), Some("2.0".to_string()), Some("8.9p1".to_string())];
    assert_eq!(apply_version_template("OpenSSH $2", &groups), "OpenSSH 8.9p1");
    assert_eq!(apply_version_template("  $1 and $2  ", &groups), "2.0 and 8.9p1");
    let missing = vec![Some("w".to_string()), None];
    assert_eq!(apply_version_template("v$1", &missing), "v");
    // No groups beyond the whole match: placeholders stay.
    let only = vec![Some("w".to_string())];
    assert_eq!(apply_version_template("x $1", &only), "x $1");
}

#[test]
fn higher_groups_are_replaced_first() {
    let mut groups: Vec<Option<String>> = vec![Some("all".to_string())];
    for i in 1..=11 {
        groups.push(Some(format!("g{}", i)));
    }
    assert_eq!(apply_version_template("$11 $1", &groups), "g11 g1");
}

#[test]
fn passive_banner_matches_null_probe() {
    let d = detector();
    let found = try_match_probes("SSH-2.0-OpenSSH_8.9p1 Ubuntu-3\r\n", 22, d.probes(), true);
    assert_eq!(found, Some((Some("ssh".to_string()), Some("OpenSSH 8.9p1".to_string()))));
    let ftp = try_match_probes("220 files.example FTP ready\r\n", 21, d.probes(), true);
    assert_eq!(ftp, Some((Some("ftp".to_string()), Some("files.example".to_string()))));
    assert_eq!(try_match_probes("hello", 22, d.probes(), true), None);
}

#[test]
fn active_answer_uses_port_probes() {
    let d = detector();
    let answer = "HTTP/1.1 200 OK\r\nServer: nginx/1.24.0\r\n\r\n";
    assert_eq!(
        try_match_probes(answer, 80, d.probes(), false),
        Some((Some("http".to_string()), Some("nginx 1.24.0".to_string())))
    );
    // On a port no probe is meant for, only the listening probe applies.
    assert_eq!(try_match_probes(answer, 9999, d.probes(), false), None);
    // The passive pass never tries probes that send something.
    assert_eq!(try_match_probes(answer, 80, d.probes(), true), None);
}

#[test]
fn probe_choice() {
    let d = detector();
    assert_eq!(find_probe_bytes(25, d.probes()), b"HELP\r\n".to_vec());
    assert_eq!(find_probe_bytes(80, d.probes()), b"GET / HTTP/1.0\r\n\r\n".to_vec());
    // Fallback to GetRequest.
    assert_eq!(find_probe_bytes(1234, d.probes()), b"GET / HTTP/1.0\r\n\r\n".to_vec());
    let only_null = ServiceDetector::new("Probe TCP NULL q||\n");
    assert!(find_probe_bytes(80, only_null.probes()).is_empty());
}

fn finish_of(a: DetectAction) -> (Option<String>, Option<String>) {
    match a {
        DetectAction::Finish { service, version } => (service, version),
        _ => panic!("expected the dialogue to finish"),
    }
}

#[test]
fn dialogue_banner_identifies() {
    let d = detector();
    let (mut s, first) = DetectSession::start(22, 5_000_000_000);
    match first {
        DetectAction::Read { wait_nanos } => assert_eq!(wait_nanos, 1_500_000_000),
        _ => panic!("expected a read"),
    }
    let a = s.step(&d, DetectEvent::Received(Some(b"SSH-2.0-OpenSSH_9.6\r\n".to_vec())));
    assert_eq!(finish_of(a), (Some("ssh".to_string()), Some("OpenSSH 9.6".to_string())));
    assert!(s.stage == DetectStage::Done);
}

#[test]
fn dialogue_sends_probe_then_matches() {
    let d = detector();
    let (mut s, first) = DetectSession::start(80, 1_000_000_000);
    match first {
        DetectAction::Read { wait_nanos } => assert_eq!(wait_nanos, 1_000_000_000),
        _ => panic!("expected a read"),
    }
    let a = s.step(&d, DetectEvent::Received(None));
    match a {
        DetectAction::Write { bytes, wait_nanos } => {
            assert_eq!(bytes, b"GET / HTTP/1.0\r\n\r\n".to_vec());
            assert_eq!(wait_nanos, 1_000_000_000);
        }
        _ => panic!("expected the probe to be written"),
    }
    let a = s.step(&d, DetectEvent::Written { timed_out: false });
    match a {
        DetectAction::Read { wait_nanos } => assert_eq!(wait_nanos, 1_000_000_000),
        _ => panic!("expected a read"),
    }
    let a = s.step(&d, DetectEvent::Received(Some(b"HTTP/1.0 404 Not Found\r\n\r\n".to_vec())));
    assert_eq!(finish_of(a), (Some("http".to_string()), None));
}

#[test]
fn dialogue_gives_up() {
    let d = detector();
    let (mut s, _) = DetectSession::start(80, 9_000_000_000);
    let a = s.step(&d, DetectEvent::Received(Some(Vec::new())));
    match a {
        DetectAction::Write { wait_nanos, .. } => assert_eq!(wait_nanos, 2_000_000_000),
        _ => panic!("expected a write"),
    }
    let a = s.step(&d, DetectEvent::Written { timed_out: true });
    assert_eq!(finish_of(a), (None, None));

    let only_null = ServiceDetector::new("Probe TCP NULL q||\n");
    let (mut s, _) = DetectSession::start(80, 9_000_000_000);
    let a = s.step(&only_null, DetectEvent::Received(None));
    assert_eq!(finish_of(a), (None, None));

    let (mut s, _) = DetectSession::start(80, 9_000_000_000);
    let _ = s.step(&d, DetectEvent::Received(None));
    let _ = s.step(&d, DetectEvent::Written { timed_out: false });
    let a = s.step(&d, DetectEvent::Received(Some(b"garbage".to_vec())));
    assert_eq!(finish_of(a), (None, None));
}

#[test]
fn invalid_utf8_answer_is_decoded_leniently() {
    let d = detector();
    let (mut s, _) = DetectSession::start(22, 9_000_000_000);
    let mut banner = b"SSH-2.0-OpenSSH_7.4".to_vec();
    banner.push(0xFF);
    let a = s.step(&d, DetectEvent::Received(Some(banner)));
    assert_eq!(finish_of(a), (Some("ssh".to_string()), Some("OpenSSH 7.4".to_string())));
}
