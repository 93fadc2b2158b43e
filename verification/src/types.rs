//! Scan results and settings.
use vstd::prelude::*;
use crate::text::{opt_chars, push_char};

verus! {

/// State of a TCP port.
#[derive(PartialEq, Eq, Structural, Clone, Copy, Debug)]
pub enum PortStatus {
    Open,
    Closed,
    Filtered,
}

/// How a status is written in reports: `open`, `closed` or `filtered`.
pub open spec fn status_text(s: PortStatus) -> Seq<char> {
    match s {
        PortStatus::Open => seq!['o', 'p', 'e', 'n'],
        PortStatus::Closed => seq!['c', 'l', 'o', 's', 'e', 'd'],
        PortStatus::Filtered => seq!['f', 'i', 'l', 't', 'e', 'r', 'e', 'd'],
    }
}

impl PortStatus {
    /// The status as reports write it (see `status_text`).
    pub fn text(&self) -> (r: String)
        ensures
            r@ == status_text(*self),
    {
        let mut s = String::new();
        match self {
            PortStatus::Open => {
                push_char(&mut s, 'o');
                push_char(&mut s, 'p');
                push_char(&mut s, 'e');
                push_char(&mut s, 'n');
            },
            PortStatus::Closed => {
                push_char(&mut s, 'c');
                push_char(&mut s, 'l');
                push_char(&mut s, 'o');
                push_char(&mut s, 's');
                push_char(&mut s, 'e');
                push_char(&mut s, 'd');
            },
            PortStatus::Filtered => {
                push_char(&mut s, 'f');
                push_char(&mut s, 'i');
                push_char(&mut s, 'l');
                push_char(&mut s, 't');
                push_char(&mut s, 'e');
                push_char(&mut s, 'r');
                push_char(&mut s, 'e');
                push_char(&mut s, 'd');
            },
        }
        assert(s@ =~= status_text(*self));
        s
    }
}

/// A host address: IPv4 as its 32-bit value, IPv6 as its 128-bit value.
#[derive(PartialEq, Eq, Structural, Clone, Copy, Debug)]
pub enum HostAddr {
    V4(u32),
    V6(u128),
}

/// The order of addresses: every IPv4 address before every IPv6 address, and
/// addresses of one family by value.
pub open spec fn addr_lt(a: HostAddr, b: HostAddr) -> bool {
    match (a, b) {
        (HostAddr::V4(x), HostAddr::V4(y)) => x < y,
        (HostAddr::V4(_), HostAddr::V6(_)) => true,
        (HostAddr::V6(_), HostAddr::V4(_)) => false,
        (HostAddr::V6(x), HostAddr::V6(y)) => x < y,
    }
}

/// Address order is a strict total order in which IPv4 addresses compare
/// by their 32-bit value (most significant octet first), every IPv4 address
/// comes before every IPv6 address, and IPv6 addresses compare by their
/// 128-bit value.
pub proof fn lemma_addr_order(a: HostAddr, b: HostAddr, c: HostAddr)
    ensures
        !addr_lt(a, a),
        a != b ==> (addr_lt(a, b) || addr_lt(b, a)),
        !(addr_lt(a, b) && addr_lt(b, a)),
        addr_lt(a, b) && addr_lt(b, c) ==> addr_lt(a, c),
        (a is V4 && b is V4) ==> (addr_lt(a, b) == (a->V4_0 < b->V4_0)),
        (a is V6 && b is V6) ==> (addr_lt(a, b) == (a->V6_0 < b->V6_0)),
        (a is V4 && b is V6) ==> addr_lt(a, b),
{
}

/// Whether `a` comes before `b` (see `addr_lt`).
pub fn addr_less(a: &HostAddr, b: &HostAddr) -> (r: bool)
    ensures
        r == addr_lt(*a, *b),
{
    match (a, b) {
        (HostAddr::V4(x), HostAddr::V4(y)) => *x < *y,
        (HostAddr::V4(_), HostAddr::V6(_)) => true,
        (HostAddr::V6(_), HostAddr::V4(_)) => false,
        (HostAddr::V6(x), HostAddr::V6(y)) => *x < *y,
    }
}

/// One scanned port.
#[derive(Debug)]
pub struct PortResult {
    pub port: u16,
    pub status: PortStatus,
    pub service: Option<String>,
    pub version: Option<String>,
}

pub struct PortView {
    pub port: u16,
    pub status: PortStatus,
    pub service: Option<Seq<char>>,
    pub version: Option<Seq<char>>,
}

impl View for PortResult {
    type V = PortView;

    open spec fn view(&self) -> PortView {
        PortView {
            port: self.port,
            status: self.status,
            service: opt_chars(self.service),
            version: opt_chars(self.version),
        }
    }
}

/// One scanned host: whether it answered the ping (`None` when it was not
/// pinged) and its ports.
#[derive(Debug)]
pub struct HostResult {
    pub ip: HostAddr,
    pub alive: Option<bool>,
    pub ports: Vec<PortResult>,
}

pub struct HostView {
    pub ip: HostAddr,
    pub alive: Option<bool>,
    pub ports: Seq<PortView>,
}

pub open spec fn ports_view(p: Seq<PortResult>) -> Seq<PortView> {
    p.map_values(|r: PortResult| r@)
}

impl View for HostResult {
    type V = HostView;

    open spec fn view(&self) -> HostView {
        HostView { ip: self.ip, alive: self.alive, ports: ports_view(self.ports@) }
    }
}

/// What to scan and how.
#[derive(Debug)]
pub struct ScanConfig {
    pub targets: Vec<HostAddr>,
    pub ports: Vec<u16>,
    pub concurrency: usize,
    pub timeout_ms: u64,
    /// Skip the ping sweep and scan every target directly.
    pub skip_icmp: bool,
    /// Skip the port scan (ping only).
    pub skip_ports: bool,
    pub open_only: bool,
    /// Run service and version detection on open ports.
    pub detect_services: bool,
}

} // verus!
