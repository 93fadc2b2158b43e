use rmap::echo::{build_echo_request, check_echo_reply, checksum, ReplyVerdict};
use rmap::tcp::{port_status, ConnectOutcome};
use rmap::types::PortStatus;

#[test]
fn checksum_values() {
    assert_eq!(checksum(&[]), 0xFFFF);
    assert_eq!(checksum(&[0x00, 0x01, 0xF2, 0x03, 0xF4, 0xF5, 0xF6, 0xF7]), 0x220D);
    assert_eq!(checksum(&[0xFF]), 0x00FF);
    assert_eq!(checksum(&[0xFF, 0xFF]), 0x0000);
}

#[test]
fn echo_request_layout() {
    let p = build_echo_request(0x1234, 1);
    assert_eq!(p.len(), 16);
    assert_eq!(&p[0..2], &[8, 0]);
    assert_eq!(&p[4..8], &[0x12, 0x34, 0x00, 0x01]);
    assert_eq!(&p[8..], b"rmap0000");
    let mut zeroed = p.clone();
    zeroed[2] = 0;
    zeroed[3] = 0;
    let ck = checksum(&zeroed);
    assert_eq!(p[2], (ck >> 8) as u8);
    assert_eq!(p[3], ck as u8);
}

#[test]
fn echo_request_checksum_verifies() {
    for (id, seq) in [(0u16, 0u16), (1, 1), (0xFFFF, 0xFFFF), (0x1234, 0xABCD)] {
        assert_eq!(checksum(&build_echo_request(id, seq)), 0);
    }
}

fn reply(id: u16) -> Vec<u8> {
    vec![0, 0, 0, 0, (id >> 8) as u8, id as u8, 0, 1]
}

#[test]
fn replies_are_recognised() {
    assert_eq!(check_echo_reply(&reply(7), 7), ReplyVerdict::Ours);
    assert_eq!(check_echo_reply(&reply(8), 7), ReplyVerdict::NotOurs);
    let mut with_ip = vec![0x45u8];
    with_ip.extend(std::iter::repeat(0).take(19));
    with_ip.extend(reply(300));
    assert_eq!(check_echo_reply(&with_ip, 300), ReplyVerdict::Ours);
    // An echo request (type 8) is not a reply.
    let mut req = reply(7);
    req[0] = 8;
    assert_eq!(check_echo_reply(&req, 7), ReplyVerdict::NotOurs);
    assert_eq!(check_echo_reply(&[0, 0, 0], 7), ReplyVerdict::NotOurs);
}

#[test]
fn header_longer_than_datagram() {
    let mut d = vec![0x4Fu8];
    d.extend(std::iter::repeat(0).take(29));
    assert_eq!(check_echo_reply(&d, 0), ReplyVerdict::Truncated);
}

#[test]
fn connect_outcomes() {
    assert_eq!(port_status(ConnectOutcome::Connected), PortStatus::Open);
    assert_eq!(port_status(ConnectOutcome::Refused), PortStatus::Closed);
    assert_eq!(port_status(ConnectOutcome::Failed), PortStatus::Filtered);
    assert_eq!(port_status(ConnectOutcome::TimedOut), PortStatus::Filtered);
}

#[test]
fn status_texts() {
    assert_eq!(PortStatus::Open.text(), "open");
    assert_eq!(PortStatus::Closed.text(), "closed");
    assert_eq!(PortStatus::Filtered.text(), "filtered");
}

#[test]
fn inserted_checksum_verifies() {
    let mut p = vec![0x45, 0x00, 0x00, 0x1c, 0x00, 0x00, 0x40, 0x00, 0x40, 0x01, 0, 0, 0xc0, 0xa8, 0x00, 0x01];
    let ck = checksum(&p);
    p[10] = (ck >> 8) as u8;
    p[11] = ck as u8;
    assert_eq!(checksum(&p), 0);
}

#[test]
fn odd_tail_is_zero_padded() {
    assert_eq!(checksum(&[0x12, 0x34, 0x56]), checksum(&[0x12, 0x34, 0x56, 0x00]));
    assert_eq!(checksum(&[0xAB]), checksum(&[0xAB, 0x00]));
}
