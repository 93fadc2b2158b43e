//! Bookkeeping of a scan: which hosts answered the ping, which ports were
//! found on each, and the final report in address and port order.
use vstd::prelude::*;
use vstd::multiset::Multiset;
use crate::types::{
    addr_less, addr_lt, ports_view, HostAddr, HostResult, HostView, PortResult, PortStatus,
    PortView,
};

verus! {

broadcast use vstd::seq_lib::group_to_multiset_ensures;

pub open spec fn hosts_view(s: Seq<HostResult>) -> Seq<HostView> {
    s.map_values(|h: HostResult| h@)
}

/// No address occurs twice.
pub open spec fn unique_ips(s: Seq<HostView>) -> bool {
    forall|i: int, j: int| 0 <= i < j < s.len() ==> #[trigger] s[i].ip != #[trigger] s[j].ip
}

pub open spec fn has_ip(s: Seq<HostView>, a: HostAddr) -> bool {
    exists|i: int| 0 <= i < s.len() && #[trigger] s[i].ip == a
}

/// The hosts of a list, keyed by address.
pub open spec fn host_map(s: Seq<HostView>) -> Map<HostAddr, HostView> {
    Map::new(
        |a: HostAddr| has_ip(s, a),
        |a: HostAddr| s[choose|i: int| 0 <= i < s.len() && #[trigger] s[i].ip == a],
    )
}

pub proof fn lemma_host_map_index(s: Seq<HostView>, i: int)
    requires
        unique_ips(s),
        0 <= i < s.len(),
    ensures
        host_map(s).dom().contains(s[i].ip),
        host_map(s)[s[i].ip] == s[i],
{
    assert(has_ip(s, s[i].ip));
    let j = choose|j: int| 0 <= j < s.len() && #[trigger] s[j].ip == s[i].ip;
    if j < i {
        assert(s[j].ip != s[i].ip);
    } else if i < j {
        assert(s[i].ip != s[j].ip);
    }
}

proof fn lemma_host_map_push(s: Seq<HostView>, h: HostView)
    requires
        unique_ips(s),
        !has_ip(s, h.ip),
    ensures
        unique_ips(s.push(h)),
        host_map(s.push(h)) =~= host_map(s).insert(h.ip, h),
{
    let t = s.push(h);
    assert forall|i: int, j: int| 0 <= i < j < t.len() implies #[trigger] t[i].ip
        != #[trigger] t[j].ip by {
        if j == s.len() {
            if t[i].ip == h.ip {
                assert(s[i].ip == h.ip);
            }
        } else {
            assert(s[i].ip != s[j].ip);
        }
    }
    assert forall|a: HostAddr| has_ip(t, a) <==> (has_ip(s, a) || a == h.ip) by {
        if has_ip(t, a) {
            let i = choose|i: int| 0 <= i < t.len() && #[trigger] t[i].ip == a;
            if i < s.len() {
                assert(s[i].ip == a);
            }
        }
        if has_ip(s, a) {
            let i = choose|i: int| 0 <= i < s.len() && #[trigger] s[i].ip == a;
            assert(t[i].ip == a);
        }
        if a == h.ip {
            assert(t[s.len() as int].ip == a);
        }
    }
    assert forall|a: HostAddr| #[trigger] host_map(t).dom().contains(a) implies host_map(t)[a]
        == host_map(s).insert(h.ip, h)[a] by {
        if a == h.ip {
            lemma_host_map_index(t, s.len() as int);
        } else {
            let i = choose|i: int| 0 <= i < s.len() && #[trigger] s[i].ip == a;
            lemma_host_map_index(s, i);
            lemma_host_map_index(t, i);
        }
    }
}

proof fn lemma_host_map_update(s: Seq<HostView>, i: int, h: HostView)
    requires
        unique_ips(s),
        0 <= i < s.len(),
        s[i].ip == h.ip,
    ensures
        unique_ips(s.update(i, h)),
        host_map(s.update(i, h)) =~= host_map(s).insert(h.ip, h),
{
    let t = s.update(i, h);
    assert forall|k: int, j: int| 0 <= k < j < t.len() implies #[trigger] t[k].ip
        != #[trigger] t[j].ip by {
        assert(t[k].ip == s[k].ip && t[j].ip == s[j].ip);
    }
    assert forall|a: HostAddr| has_ip(t, a) <==> has_ip(s, a) by {
        if has_ip(t, a) {
            let k = choose|k: int| 0 <= k < t.len() && #[trigger] t[k].ip == a;
            assert(s[k].ip == a);
        }
        if has_ip(s, a) {
            let k = choose|k: int| 0 <= k < s.len() && #[trigger] s[k].ip == a;
            assert(t[k].ip == a);
        }
    }
    lemma_host_map_index(s, i);
    assert forall|a: HostAddr| #[trigger] host_map(t).dom().contains(a) implies host_map(t)[a]
        == host_map(s).insert(h.ip, h)[a] by {
        let k = choose|k: int| 0 <= k < s.len() && #[trigger] s[k].ip == a;
        lemma_host_map_index(s, k);
        lemma_host_map_index(t, k);
    }
}

pub proof fn lemma_push_contains<A>(s: Seq<A>, x: A)
    ensures
        forall|a: A| #[trigger] s.push(x).contains(a) <==> (s.contains(a) || a == x),
{
    let t = s.push(x);
    assert forall|a: A| #[trigger] t.contains(a) <==> (s.contains(a) || a == x) by {
        if t.contains(a) {
            let i = choose|i: int| 0 <= i < t.len() && t[i] == a;
            if i < s.len() {
                assert(s[i] == a);
            }
        }
        if s.contains(a) {
            let i = choose|i: int| 0 <= i < s.len() && s[i] == a;
            assert(t[i] == a);
        }
        if a == x {
            assert(t[s.len() as int] == a);
        }
    }
}

/// What a scan table holds: the addresses found alive, in the order reported,
/// and the hosts by address.
pub struct TableView {
    pub alive: Seq<HostAddr>,
    pub hosts: Map<HostAddr, HostView>,
}

/// Results gathered while a scan runs.
pub struct ScanTable {
    alive: Vec<HostAddr>,
    hosts: Vec<HostResult>,
}

impl View for ScanTable {
    type V = TableView;

    closed spec fn view(&self) -> TableView {
        TableView { alive: self.alive@, hosts: host_map(hosts_view(self.hosts@)) }
    }
}

/// A host with no ports yet.
pub open spec fn fresh_host(ip: HostAddr, alive: Option<bool>) -> HostView {
    HostView { ip, alive, ports: seq![] }
}

fn copy_addrs(v: &Vec<HostAddr>) -> (r: Vec<HostAddr>)
    ensures
        r@ == v@,
{
    let mut out: Vec<HostAddr> = Vec::new();
    let mut i: usize = 0;
    while i < v.len()
        invariant
            i <= v@.len(),
            out@ == v@.take(i as int),
        decreases v@.len() - i,
    {
        out.push(v[i]);
        assert(v@.take(i + 1) =~= v@.take(i as int).push(v@[i as int]));
        i = i + 1;
    }
    assert(v@.take(i as int) =~= v@);
    out
}

impl ScanTable {
    /// The table's hosts have distinct addresses.
    pub closed spec fn wf(&self) -> bool {
        unique_ips(hosts_view(self.hosts@))
    }

    /// Index of the host with address `ip`.
    fn find(&self, ip: HostAddr) -> (r: Option<usize>)
        requires
            self.wf(),
        ensures
            match r {
                Some(i) => i < self.hosts@.len() && self.hosts@[i as int].ip == ip,
                None => !has_ip(hosts_view(self.hosts@), ip),
            },
    {
        let mut i: usize = 0;
        while i < self.hosts.len()
            invariant
                i <= self.hosts@.len(),
                forall|j: int| 0 <= j < i ==> self.hosts@[j].ip != ip,
            decreases self.hosts@.len() - i,
        {
            if self.hosts[i].ip == ip {
                return Some(i);
            }
            i = i + 1;
        }
        assert forall|j: int| 0 <= j < self.hosts@.len() implies #[trigger] hosts_view(
            self.hosts@,
        )[j].ip != ip by {
            assert(hosts_view(self.hosts@)[j].ip == self.hosts@[j].ip);
        }
        None
    }

    /// The addresses to port-scan, in the order they were reported alive.
    pub fn alive_hosts(&self) -> (r: &Vec<HostAddr>)
        ensures
            r@ == self@.alive,
    {
        &self.alive
    }

    /// An empty table, for a scan that starts with a ping sweep.
    pub fn new() -> (t: ScanTable)
        ensures
            t.wf(),
            t@.alive == Seq::<HostAddr>::empty(),
            t@.hosts == Map::<HostAddr, HostView>::empty(),
    {
        let t = ScanTable { alive: Vec::new(), hosts: Vec::new() };
        assert(t@.hosts =~= Map::<HostAddr, HostView>::empty());
        t
    }

    /// The table for a scan without a ping sweep: every target counts as
    /// alive, and each address gets a host whose liveness is unknown.
    pub fn unprobed(targets: &Vec<HostAddr>) -> (t: ScanTable)
        ensures
            t.wf(),
            t@.alive == targets@,
            t@.hosts == Map::new(
                |a: HostAddr| targets@.contains(a),
                |a: HostAddr| fresh_host(a, None),
            ),
    {
        let mut t = ScanTable { alive: copy_addrs(targets), hosts: Vec::new() };
        let mut i: usize = 0;
        assert(t@.hosts =~= Map::new(
            |a: HostAddr| targets@.take(0).contains(a),
            |a: HostAddr| fresh_host(a, None),
        ));
        while i < targets.len()
            invariant
                i <= targets@.len(),
                t.wf(),
                t.alive@ == targets@,
                t@.hosts == Map::new(
                    |a: HostAddr| targets@.take(i as int).contains(a),
                    |a: HostAddr| fresh_host(a, None),
                ),
            decreases targets@.len() - i,
        {
            let ip = targets[i];
            let ghost before = t@.hosts;
            proof {
                lemma_push_contains(targets@.take(i as int), ip);
                assert(targets@.take(i + 1) =~= targets@.take(i as int).push(ip));
            }
            match t.find(ip) {
                Some(k) => {
                    proof {
                        lemma_host_map_index(hosts_view(t.hosts@), k as int);
                    }
                    assert(t@.hosts =~= Map::new(
                        |a: HostAddr| targets@.take(i + 1).contains(a),
                        |a: HostAddr| fresh_host(a, None),
                    ));
                },
                None => {
                    let h = HostResult { ip, alive: None, ports: Vec::new() };
                    assert(ports_view(h.ports@) =~= Seq::<PortView>::empty());
                    assert(h@ == fresh_host(ip, None));
                    let ghost before_seq = hosts_view(t.hosts@);
                    let ghost hv = h@;
                    proof {
                        lemma_host_map_push(before_seq, hv);
                    }
                    t.hosts.push(h);
                    assert(hosts_view(t.hosts@) =~= before_seq.push(hv));
                    assert(t@.hosts =~= Map::new(
                        |a: HostAddr| targets@.take(i + 1).contains(a),
                        |a: HostAddr| fresh_host(a, None),
                    ));
                },
            }
            i = i + 1;
        }
        assert(targets@.take(i as int) =~= targets@);
        t
    }

    /// Records the ping answer of `ip`: a live host is appended to the
    /// addresses to port-scan, and the host is (re)entered with no ports.
    pub fn record_ping(&mut self, ip: HostAddr, alive: bool)
        requires
            old(self).wf(),
        ensures
            final(self).wf(),
            final(self)@.alive == if alive {
                old(self)@.alive.push(ip)
            } else {
                old(self)@.alive
            },
            final(self)@.hosts == old(self)@.hosts.insert(ip, fresh_host(ip, Some(alive))),
    {
        if alive {
            self.alive.push(ip);
        }
        let h = HostResult { ip, alive: Some(alive), ports: Vec::new() };
        assert(ports_view(h.ports@) =~= Seq::<PortView>::empty());
        let ghost hv = h@;
        assert(hv == fresh_host(ip, Some(alive)));
        let ghost before = hosts_view(self.hosts@);
        match self.find(ip) {
            Some(k) => {
                proof {
                    lemma_host_map_update(before, k as int, hv);
                }
                self.hosts.set(k, h);
                assert(hosts_view(self.hosts@) =~= before.update(k as int, hv));
            },
            None => {
                proof {
                    lemma_host_map_push(before, hv);
                }
                self.hosts.push(h);
                assert(hosts_view(self.hosts@) =~= before.push(hv));
            },
        }
    }

    /// Records the state of `port` on `ip`, with the service and version found
    /// on it. Nothing is recorded for a host that is not in the table, nor,
    /// when only open ports are wanted, for a port that is not open.
    pub fn record_port(
        &mut self,
        ip: HostAddr,
        port: u16,
        status: PortStatus,
        service: Option<String>,
        version: Option<String>,
        open_only: bool,
    )
        requires
            old(self).wf(),
        ensures
            final(self).wf(),
            final(self)@.alive == old(self)@.alive,
            final(self)@.hosts == if old(self)@.hosts.dom().contains(ip) && (!open_only || status
                == PortStatus::Open) {
                old(self)@.hosts.insert(
                    ip,
                    HostView {
                        ports: old(self)@.hosts[ip].ports.push(
                            PortView {
                                port,
                                status,
                                service: crate::text::opt_chars(service),
                                version: crate::text::opt_chars(version),
                            },
                        ),
                        ..old(self)@.hosts[ip]
                    },
                )
            } else {
                old(self)@.hosts
            },
    {
        if open_only && status != PortStatus::Open {
            return;
        }
        let ghost before = hosts_view(self.hosts@);
        match self.find(ip) {
            Some(k) => {
                proof {
                    lemma_host_map_index(before, k as int);
                }
                let old_h = self.hosts.remove(k);
                let ghost oh = old_h@;
                assert(oh == before[k as int]);
                let HostResult { ip: hip, alive, ports } = old_h;
                let mut ports = ports;
                let r = PortResult { port, status, service, version };
                let ghost rv = r@;
                let ghost pbefore = ports@;
                ports.push(r);
                assert(ports_view(ports@) =~= ports_view(pbefore).push(rv));
                let h = HostResult { ip: hip, alive, ports };
                let ghost hv = h@;
                proof {
                    lemma_host_map_update(before, k as int, hv);
                }
                self.hosts.insert(k, h);
                assert(hosts_view(self.hosts@) =~= before.update(k as int, hv));
            },
            None => {},
        }
    }

    /// The hosts in address order, each with its ports in port order.
    pub fn finish(self) -> (out: Vec<HostResult>)
        requires
            self.wf(),
        ensures
            report_of(self@.hosts, hosts_view(out@)),
    {
        let ScanTable { alive: _, hosts } = self;
        let ghost orig = hosts_view(hosts@);
        sort_hosts(hosts)
    }
}


/// Ports in ascending port order.
pub open spec fn ports_sorted(p: Seq<PortView>) -> bool {
    forall|i: int, j: int| 0 <= i <= j < p.len() ==> (#[trigger] p[i]).port <= (#[trigger] p[j]).port
}

/// Addresses in strictly ascending order.
pub open spec fn hosts_sorted(s: Seq<HostView>) -> bool {
    forall|i: int, j: int| 0 <= i < j < s.len() ==> addr_lt((#[trigger] s[i]).ip, (#[trigger] s[j]).ip)
}

/// `out` is `h` with its ports put in port order; entries for one port keep
/// their order.
pub open spec fn sorted_host(h: HostView, out: HostView) -> bool {
    &&& out.ip == h.ip
    &&& out.alive == h.alive
    &&& ports_sorted(out.ports)
    &&& out.ports.to_multiset() == h.ports.to_multiset()
    &&& forall|p: u16| with_port(out.ports, p) == with_port(h.ports, p)
}

/// `out` reports the hosts of `hosts`: every host once, in address order,
/// each with its ports sorted.
pub open spec fn report_of(hosts: Map<HostAddr, HostView>, out: Seq<HostView>) -> bool {
    &&& hosts_sorted(out)
    &&& forall|a: HostAddr| has_ip(out, a) <==> hosts.dom().contains(a)
    &&& forall|i: int| 0 <= i < out.len() ==> sorted_host(hosts[(#[trigger] out[i]).ip], out[i])
}

/// The entries of `s` for port `p`, in their order in `s`.
pub open spec fn with_port(s: Seq<PortView>, p: u16) -> Seq<PortView> {
    s.filter(|x: PortView| x.port == p)
}

proof fn lemma_with_port_insert(ob: Seq<PortView>, k: int, x: PortView, p: u16)
    requires
        0 <= k <= ob.len(),
        forall|j: int| 0 <= j < k ==> ob[j].port < x.port,
    ensures
        with_port(ob.insert(k, x), p) == if x.port == p {
            seq![x] + with_port(ob, p)
        } else {
            with_port(ob, p)
        },
{
    let f = |y: PortView| y.port == p;
    let a = ob.take(k);
    let b = ob.skip(k);
    assert(ob.insert(k, x) =~= a + (seq![x] + b));
    assert(ob =~= a + b);
    Seq::filter_distributes_over_add(a, seq![x] + b, f);
    Seq::filter_distributes_over_add(a, b, f);
    b.lemma_filter_prepend(x, f);
    if x.port == p {
        assert(a.all(|y: PortView| !f(y)));
        a.lemma_all_neg_filter_empty(f);
        assert(a.filter(f) =~= Seq::<PortView>::empty());
        assert(with_port(ob.insert(k, x), p) =~= seq![x] + with_port(ob, p));
    } else {
        assert(with_port(ob.insert(k, x), p) =~= with_port(ob, p));
    }
}

/// In a report, IPv4 hosts come in ascending order of their 32-bit address,
/// before every IPv6 host, and IPv6 hosts in ascending order of theirs.
pub proof fn lemma_report_address_order(hosts: Map<HostAddr, HostView>, out: Seq<HostView>, i: int, j: int)
    requires
        report_of(hosts, out),
        0 <= i < j < out.len(),
    ensures
        (out[i].ip is V4 && out[j].ip is V4) ==> out[i].ip->V4_0 < out[j].ip->V4_0,
        (out[i].ip is V6 && out[j].ip is V6) ==> out[i].ip->V6_0 < out[j].ip->V6_0,
        out[i].ip is V6 ==> out[j].ip is V6,
{
    assert(addr_lt(out[i].ip, out[j].ip));
}

/// Puts ports in port order; ports with equal numbers keep their order.
pub fn sort_ports(v: Vec<PortResult>) -> (r: Vec<PortResult>)
    ensures
        ports_sorted(ports_view(r@)),
        ports_view(r@).to_multiset() == ports_view(v@).to_multiset(),
        forall|p: u16| with_port(ports_view(r@), p) == with_port(ports_view(v@), p),
{
    let ghost orig = ports_view(v@);
    let mut input = v;
    let mut out: Vec<PortResult> = Vec::new();
    assert(ports_view(out@) =~= Seq::<PortView>::empty());
    assert(orig.take(orig.len() as int) =~= orig);
    assert(orig.skip(orig.len() as int) =~= ports_view(out@));
    while input.len() > 0
        invariant
            ports_sorted(ports_view(out@)),
            ports_view(out@).to_multiset().add(ports_view(input@).to_multiset())
                == orig.to_multiset(),
            ports_view(input@) == orig.take(input@.len() as int),
            input@.len() <= orig.len(),
            forall|p: u16| with_port(ports_view(out@), p) == with_port(orig.skip(input@.len() as int), p),
        decreases input@.len(),
    {
        let ghost in_before = ports_view(input@);
        let x = input.pop().unwrap();
        let ghost xv = x@;
        assert(in_before =~= ports_view(input@).push(xv));
        let mut k: usize = 0;
        while k < out.len() && out[k].port < x.port
            invariant
                k <= out@.len(),
                forall|j: int| 0 <= j < k ==> out@[j].port < x.port,
            decreases out@.len() - k,
        {
            k = k + 1;
        }
        let ghost ob = ports_view(out@);
        out.insert(k, x);
        assert(ports_view(out@) =~= ob.insert(k as int, xv));
        assert forall|i: int, j: int| 0 <= i <= j < ports_view(out@).len() implies (
        #[trigger] ports_view(out@)[i]).port <= (#[trigger] ports_view(out@)[j]).port by {
            let o = ports_view(out@);
            if i < k {
                assert(o[i] == ob[i]);
                assert(ob[i].port < x.port);
                if j < k {
                    assert(o[j] == ob[j]);
                } else if j > k {
                    assert(o[j] == ob[j - 1]);
                    assert(ob[j - 1].port >= ob[i].port);
                }
            } else if i == k {
                if j > k {
                    assert(o[j] == ob[j - 1]);
                    assert(ob[j - 1].port >= ob[k as int].port);
                }
            } else {
                assert(o[i] == ob[i - 1] && o[j] == ob[j - 1]);
            }
        }
        proof {
            vstd::seq_lib::to_multiset_insert(ob, k as int, xv);
            vstd::seq_lib::to_multiset_build(ports_view(input@), xv);
            let n_in = input@.len() as int;
            assert(orig.take(n_in + 1)[n_in] == xv);
            assert(ports_view(input@) =~= orig.take(n_in));
            assert(orig.skip(n_in) =~= seq![xv] + orig.skip(n_in + 1));
            assert forall|p: u16| with_port(ports_view(out@), p) == with_port(orig.skip(n_in), p) by {
                lemma_with_port_insert(ob, k as int, xv, p);
                orig.skip(n_in + 1).lemma_filter_prepend(xv, |y: PortView| y.port == p);
            }
        }
        assert(ports_view(out@).to_multiset().add(ports_view(input@).to_multiset())
            =~= orig.to_multiset());
    }
    assert(orig.skip(0) =~= orig);
    assert(ports_view(input@).to_multiset() =~= Multiset::<PortView>::empty());
    assert(ports_view(out@).to_multiset().add(Multiset::empty()) =~= ports_view(out@).to_multiset());
    out
}

/// Puts hosts with distinct addresses in address order, sorting the ports of
/// each.
fn sort_hosts(v: Vec<HostResult>) -> (r: Vec<HostResult>)
    requires
        unique_ips(hosts_view(v@)),
    ensures
        report_of(host_map(hosts_view(v@)), hosts_view(r@)),
{
    let ghost orig = hosts_view(v@);
    let mut input = v;
    let mut out: Vec<HostResult> = Vec::new();
    assert(hosts_view(out@) =~= Seq::<HostView>::empty());
    while input.len() > 0
        invariant
            unique_ips(orig),
            input@.len() <= orig.len(),
            hosts_view(input@) == orig.take(input@.len() as int),
            hosts_sorted(hosts_view(out@)),
            forall|a: HostAddr| has_ip(hosts_view(out@), a) <==> exists|i: int|
                input@.len() <= i < orig.len() && #[trigger] orig[i].ip == a,
            forall|k: int|
                0 <= k < out@.len() ==> exists|i: int|
                    input@.len() <= i < orig.len() && orig[i].ip == (#[trigger] hosts_view(
                        out@,
                    )[k]).ip && sorted_host(orig[i], hosts_view(out@)[k]),
        decreases input@.len(),
    {
        let ghost n_in = input@.len();
        let ghost in_before = hosts_view(input@);
        let ghost raw_before = input@;
        let x = input.pop().unwrap();
        let ghost i0 = n_in - 1;
        assert(x == raw_before[i0]);
        assert(in_before[i0] == raw_before[i0]@);
        assert(orig.take(n_in as int)[i0] == orig[i0]);
        assert(hosts_view(input@) =~= orig.take(i0));
        assert(x@ == orig[i0]);
        let HostResult { ip, alive, ports } = x;
        let ghost pv = ports_view(ports@);
        let sorted = sort_ports(ports);
        let h = HostResult { ip, alive, ports: sorted };
        let ghost hv = h@;
        assert(sorted_host(orig[i0], hv));
        let ghost ob = hosts_view(out@);
        assert forall|k: int| 0 <= k < ob.len() implies (#[trigger] ob[k]).ip != ip by {
            let i = choose|i: int|
                n_in <= i < orig.len() && orig[i].ip == (#[trigger] hosts_view(out@)[k]).ip
                    && sorted_host(orig[i], hosts_view(out@)[k]);
            assert(orig[i0].ip != orig[i].ip);
        }
        let mut k: usize = 0;
        while k < out.len() && addr_less(&out[k].ip, &ip) == true
            invariant
                k <= out@.len(),
                ob == hosts_view(out@),
                forall|j: int| 0 <= j < k ==> addr_lt(ob[j].ip, ip),
            decreases out@.len() - k,
        {
            k = k + 1;
        }
        assert(k < ob.len() ==> addr_lt(ip, ob[k as int].ip));
        out.insert(k, h);
        assert(hosts_view(out@) =~= ob.insert(k as int, hv));
        let ghost o = hosts_view(out@);
        assert forall|i: int, j: int| 0 <= i < j < o.len() implies addr_lt(
            (#[trigger] o[i]).ip,
            (#[trigger] o[j]).ip,
        ) by {
            if i < k {
                assert(o[i] == ob[i]);
                if j < k {
                    assert(o[j] == ob[j]);
                } else if j > k {
                    assert(o[j] == ob[j - 1]);
                    assert(addr_lt(ob[k as int].ip, ob[j - 1].ip) || k == j - 1);
                }
            } else if i == k {
                assert(o[j] == ob[j - 1]);
                if j - 1 > k {
                    assert(addr_lt(ob[k as int].ip, ob[j - 1].ip));
                }
            } else {
                assert(o[i] == ob[i - 1] && o[j] == ob[j - 1]);
            }
        }
        assert forall|a: HostAddr| has_ip(o, a) <==> exists|i: int|
            i0 <= i < orig.len() && #[trigger] orig[i].ip == a by {
            if has_ip(o, a) {
                let m = choose|m: int| 0 <= m < o.len() && #[trigger] o[m].ip == a;
                if m < k {
                    assert(ob[m].ip == a);
                } else if m > k {
                    assert(ob[m - 1].ip == a);
                } else {
                    assert(orig[i0].ip == a);
                }
            }
            if exists|i: int| i0 <= i < orig.len() && #[trigger] orig[i].ip == a {
                let i = choose|i: int| i0 <= i < orig.len() && #[trigger] orig[i].ip == a;
                if i == i0 {
                    assert(o[k as int].ip == a);
                } else {
                    assert(has_ip(ob, a));
                    let m = choose|m: int| 0 <= m < ob.len() && #[trigger] ob[m].ip == a;
                    if m < k {
                        assert(o[m].ip == a);
                    } else {
                        assert(o[m + 1].ip == a);
                    }
                }
            }
        }
        assert forall|m: int| 0 <= m < o.len() implies exists|i: int|
            i0 <= i < orig.len() && orig[i].ip == (#[trigger] o[m]).ip && sorted_host(
                orig[i],
                o[m],
            ) by {
            if m < k {
                assert(o[m] == ob[m]);
            } else if m > k {
                assert(o[m] == ob[m - 1]);
            } else {
                assert(o[m] == hv);
            }
        }
    }
    let ghost res = hosts_view(out@);
    assert forall|i: int| 0 <= i < res.len() implies sorted_host(
        host_map(orig)[(#[trigger] res[i]).ip],
        res[i],
    ) by {
        let j = choose|j: int|
            0 <= j < orig.len() && orig[j].ip == (#[trigger] hosts_view(out@)[i]).ip && sorted_host(
                orig[j],
                hosts_view(out@)[i],
            );
        lemma_host_map_index(orig, j);
    }
    assert forall|a: HostAddr| has_ip(res, a) <==> host_map(orig).dom().contains(a) by {
        if host_map(orig).dom().contains(a) {
            let j = choose|j: int| 0 <= j < orig.len() && #[trigger] orig[j].ip == a;
            assert(exists|i: int| 0 <= i < orig.len() && #[trigger] orig[i].ip == a);
        }
    }
    out
}

/// Whether the ping sweep sends an echo request to `addr`: only IPv4
/// addresses are pinged, and an IPv6 address counts as not alive.
pub fn ping_applies(addr: HostAddr) -> (b: bool)
    ensures
        b == (addr is V4),
{
    match addr {
        HostAddr::V4(_) => true,
        HostAddr::V6(_) => false,
    }
}

/// Number of pings allowed at once: the concurrency, capped at 256 so that
/// blocking socket reads cannot take every worker thread.
pub fn ping_permits(concurrency: usize) -> (r: usize)
    ensures
        r == if concurrency < 256 {
            concurrency
        } else {
            256
        },
{
    if concurrency < 256 {
        concurrency
    } else {
        256
    }
}

} // verus!
