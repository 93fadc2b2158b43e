//! What the browser's lines say and how they are coloured, as plain data
//! that a terminal front end can draw.
use vstd::prelude::*;
use crate::browse::{row_host, row_valid, rows_of, BrowserState, DisplayRow};
use crate::scan::hosts_view;
use crate::text::{decimal, opt_chars, push_char, push_decimal};
use crate::types::{status_text, HostAddr, HostResult, HostView, PortResult, PortStatus, PortView};

verus! {

/// Foreground colour of a cell.
#[derive(PartialEq, Eq, Structural, Clone, Copy, Debug)]
pub enum Tone {
    Plain,
    White,
    Cyan,
    Green,
    Red,
    Yellow,
    DarkGray,
    Gray,
    LightGreen,
    LightRed,
    LightYellow,
}

/// Background of a whole line: plain, or the highlight of a selected host or
/// port line (drawn bold).
#[derive(PartialEq, Eq, Structural, Clone, Copy, Debug)]
pub enum Highlight {
    Plain,
    SelectedHost,
    SelectedPort,
}

pub struct Cell {
    pub text: String,
    pub tone: Tone,
    pub bold: bool,
}

pub struct CellView {
    pub text: Seq<char>,
    pub tone: Tone,
    pub bold: bool,
}

impl View for Cell {
    type V = CellView;

    open spec fn view(&self) -> CellView {
        CellView { text: self.text@, tone: self.tone, bold: self.bold }
    }
}

/// One line of the table: seven cells (expander, address, liveness, port
/// counts, port state, service, version) and the line's background.
pub struct RowLook {
    pub cells: Vec<Cell>,
    pub highlight: Highlight,
}

pub struct RowLookView {
    pub cells: Seq<CellView>,
    pub highlight: Highlight,
}

impl View for RowLook {
    type V = RowLookView;

    open spec fn view(&self) -> RowLookView {
        RowLookView { cells: self.cells@.map_values(|c: Cell| c@), highlight: self.highlight }
    }
}

/// Colour of a host's liveness when its line is not selected.
pub open spec fn alive_tone(alive: Option<bool>) -> Tone {
    match alive {
        Some(true) => Tone::Green,
        Some(false) => Tone::Red,
        None => Tone::DarkGray,
    }
}

/// Colour of a port's state when its line is not selected.
pub open spec fn status_tone(s: PortStatus) -> Tone {
    match s {
        PortStatus::Open => Tone::Green,
        PortStatus::Closed => Tone::Red,
        PortStatus::Filtered => Tone::Yellow,
    }
}

pub fn alive_style(alive: Option<bool>) -> (t: Tone)
    ensures
        t == alive_tone(alive),
{
    match alive {
        Some(true) => Tone::Green,
        Some(false) => Tone::Red,
        None => Tone::DarkGray,
    }
}

pub fn port_status_style(s: &PortStatus) -> (t: Tone)
    ensures
        t == status_tone(*s),
{
    match s {
        PortStatus::Open => Tone::Green,
        PortStatus::Closed => Tone::Red,
        PortStatus::Filtered => Tone::Yellow,
    }
}

/// Number of open ports.
pub open spec fn open_count(ports: Seq<PortView>) -> nat
    decreases ports.len(),
{
    if ports.len() == 0 {
        0
    } else {
        open_count(ports.drop_last()) + if ports.last().status == PortStatus::Open {
            1nat
        } else {
            0nat
        }
    }
}

pub proof fn lemma_open_count_le(ports: Seq<PortView>)
    ensures
        open_count(ports) <= ports.len(),
    decreases ports.len(),
{
    if ports.len() > 0 {
        lemma_open_count_le(ports.drop_last());
    }
}

pub open spec fn plain_cell(text: Seq<char>) -> CellView {
    CellView { text, tone: Tone::Plain, bold: false }
}

/// `▼ ` for an expanded host, `▶ ` for a collapsed one.
pub open spec fn expander(expanded: bool) -> Seq<char> {
    if expanded {
        seq!['\u{25BC}', ' ']
    } else {
        seq!['\u{25B6}', ' ']
    }
}

pub open spec fn alive_text(alive: Option<bool>) -> Seq<char> {
    match alive {
        Some(true) => seq!['u', 'p'],
        Some(false) => seq!['d', 'o', 'w', 'n'],
        None => seq!['?'],
    }
}

/// An IPv4 address in dotted-decimal form, as `Ipv4Addr` displays it: its
/// four bytes, most significant first, in decimal.
pub open spec fn dotted(v: u32) -> Seq<char> {
    decimal((v / 16777216) as nat) + seq!['.'] + decimal(((v / 65536) % 256) as nat) + seq!['.']
        + decimal(((v / 256) % 256) as nat) + seq!['.'] + decimal((v % 256) as nat)
}

/// The text of an address: dotted decimal for IPv4; for IPv6, the text that
/// the caller formatted.
pub open spec fn addr_text(a: HostAddr, ipv6_text: Seq<char>) -> Seq<char> {
    match a {
        HostAddr::V4(v) => dotted(v),
        HostAddr::V6(_) => ipv6_text,
    }
}

/// The text of an address (see `addr_text`).
pub fn host_addr_text(a: HostAddr, ipv6_text: &str) -> (r: String)
    ensures
        r@ == addr_text(a, ipv6_text@),
{
    match a {
        HostAddr::V4(v) => {
            let mut out = String::new();
            push_decimal(&mut out, (v / 16777216) as usize);
            push_char(&mut out, '.');
            push_decimal(&mut out, ((v / 65536) % 256) as usize);
            push_char(&mut out, '.');
            push_decimal(&mut out, ((v / 256) % 256) as usize);
            push_char(&mut out, '.');
            push_decimal(&mut out, (v % 256) as usize);
            assert(out@ =~= dotted(v));
            out
        },
        HostAddr::V6(_) => copy_text(ipv6_text),
    }
}

/// The line of a host: expander, address, liveness, and open/total ports.
pub open spec fn host_look(h: HostView, expanded: bool, selected: bool, ipv6_text: Seq<char>) -> RowLookView {
    RowLookView {
        cells: seq![
            CellView {
                text: expander(expanded),
                tone: if selected {
                    Tone::White
                } else {
                    Tone::Cyan
                },
                bold: false,
            },
            CellView {
                text: addr_text(h.ip, ipv6_text),
                tone: if selected {
                    Tone::White
                } else {
                    Tone::Plain
                },
                bold: true,
            },
            CellView {
                text: alive_text(h.alive),
                tone: if selected {
                    match h.alive {
                        Some(true) => Tone::LightGreen,
                        Some(false) => Tone::LightRed,
                        None => Tone::Gray,
                    }
                } else {
                    alive_tone(h.alive)
                },
                bold: false,
            },
            plain_cell(decimal(open_count(h.ports)) + seq!['/'] + decimal(h.ports.len())),
            plain_cell(seq![]),
            plain_cell(seq![]),
            plain_cell(seq![]),
        ],
        highlight: if selected {
            Highlight::SelectedHost
        } else {
            Highlight::Plain
        },
    }
}

pub open spec fn opt_text(o: Option<Seq<char>>) -> Seq<char> {
    match o {
        Some(t) => t,
        None => seq![],
    }
}

/// The line of a port: `  └─ <port>`, its state, service and version.
pub open spec fn port_look(p: PortView, selected: bool) -> RowLookView {
    RowLookView {
        cells: seq![
            plain_cell(seq![]),
            CellView {
                text: seq![' ', ' ', '\u{2514}', '\u{2500}', ' '] + decimal(p.port as nat),
                tone: if selected {
                    Tone::White
                } else {
                    Tone::Gray
                },
                bold: false,
            },
            plain_cell(seq![]),
            plain_cell(seq![]),
            CellView {
                text: status_text(p.status),
                tone: if selected {
                    match p.status {
                        PortStatus::Open => Tone::LightGreen,
                        PortStatus::Closed => Tone::LightRed,
                        PortStatus::Filtered => Tone::LightYellow,
                    }
                } else {
                    status_tone(p.status)
                },
                bold: false,
            },
            plain_cell(opt_text(p.service)),
            plain_cell(opt_text(p.version)),
        ],
        highlight: if selected {
            Highlight::SelectedPort
        } else {
            Highlight::Plain
        },
    }
}

/// The look of a line.
pub open spec fn row_look(
    row: DisplayRow,
    hosts: Seq<HostView>,
    expanded: Seq<bool>,
    selected: bool,
    ipv6_text: Seq<char>,
) -> RowLookView {
    match row {
        DisplayRow::Host { host_idx } => host_look(
            hosts[host_idx as int],
            expanded[host_idx as int],
            selected,
            ipv6_text,
        ),
        DisplayRow::Port { host_idx, port_idx } => port_look(
            hosts[host_idx as int].ports[port_idx as int],
            selected,
        ),
    }
}

fn cell(text: String, tone: Tone, bold: bool) -> (c: Cell)
    ensures
        c@ == (CellView { text: text@, tone, bold }),
{
    Cell { text, tone, bold }
}

fn empty_cell() -> (c: Cell)
    ensures
        c@ == plain_cell(seq![]),
{
    let c = Cell { text: String::new(), tone: Tone::Plain, bold: false };
    assert(c@.text =~= Seq::<char>::empty());
    c
}

fn copy_text(s: &str) -> (r: String)
    ensures
        r@ == s@,
{
    let cs = crate::text::chars_of(s);
    assert(cs@.subrange(0, cs@.len() as int) =~= cs@);
    crate::text::string_of(cs.as_slice(), 0, cs.len())
}

fn opt_string(o: &Option<String>) -> (r: String)
    ensures
        r@ == opt_text(opt_chars(*o)),
{
    match o {
        Some(t) => copy_text(t.as_str()),
        None => String::new(),
    }
}

fn count_open(ports: &Vec<PortResult>) -> (n: usize)
    ensures
        n == open_count(crate::types::ports_view(ports@)),
{
    let ghost pv = crate::types::ports_view(ports@);
    let mut n: usize = 0;
    let mut i: usize = 0;
    while i < ports.len()
        invariant
            i <= ports@.len(),
            pv == crate::types::ports_view(ports@),
            n == open_count(pv.take(i as int)),
            n <= i,
        decreases ports@.len() - i,
    {
        assert(pv.take(i + 1).drop_last() =~= pv.take(i as int));
        assert(pv.take(i + 1).last() == ports@[i as int]@);
        if ports[i].status == PortStatus::Open {
            n = n + 1;
        }
        i = i + 1;
    }
    assert(pv.take(i as int) =~= pv);
    n
}

fn push_array(out: &mut Vec<Cell>, c: Cell)
    ensures
        final(out)@ == old(out)@.push(c),
{
    out.push(c);
}

/// The cells and background of one line (see `row_look`); `ipv6_text` is
/// the host's address as text, used when the host's address is IPv6.
pub fn make_row(
    row: DisplayRow,
    hosts: &Vec<HostResult>,
    expanded: &Vec<bool>,
    is_selected: bool,
    ipv6_text: &str,
) -> (r: RowLook)
    requires
        row_valid(hosts_view(hosts@), row),
        row is Host ==> row_host(row) < expanded@.len(),
    ensures
        r@ == row_look(row, hosts_view(hosts@), expanded@, is_selected, ipv6_text@),
{
    let mut cells: Vec<Cell> = Vec::new();
    let highlight;
    match row {
        DisplayRow::Host { host_idx } => {
            let host = &hosts[host_idx];
            let mut arrow = String::new();
            if expanded[host_idx] {
                push_char(&mut arrow, '\u{25BC}');
            } else {
                push_char(&mut arrow, '\u{25B6}');
            }
            push_char(&mut arrow, ' ');
            let mut alive = String::new();
            match host.alive {
                Some(true) => {
                    push_char(&mut alive, 'u');
                    push_char(&mut alive, 'p');
                },
                Some(false) => {
                    push_char(&mut alive, 'd');
                    push_char(&mut alive, 'o');
                    push_char(&mut alive, 'w');
                    push_char(&mut alive, 'n');
                },
                None => {
                    push_char(&mut alive, '?');
                },
            }
            let alive_fg = if is_selected {
                match host.alive {
                    Some(true) => Tone::LightGreen,
                    Some(false) => Tone::LightRed,
                    None => Tone::Gray,
                }
            } else {
                alive_style(host.alive)
            };
            let mut counts = String::new();
            push_decimal(&mut counts, count_open(&host.ports));
            push_char(&mut counts, '/');
            push_decimal(&mut counts, host.ports.len());
            let ghost hv = hosts_view(hosts@)[host_idx as int];
            assert(hv == host@);
            assert(arrow@ =~= expander(expanded@[host_idx as int]));
            assert(alive@ =~= alive_text(hv.alive));
            assert(counts@ =~= decimal(open_count(hv.ports)) + seq!['/'] + decimal(hv.ports.len()));
            push_array(&mut cells, cell(arrow, if is_selected { Tone::White } else { Tone::Cyan }, false));
            push_array(&mut cells, cell(host_addr_text(host.ip, ipv6_text), if is_selected { Tone::White } else { Tone::Plain }, true));
            push_array(&mut cells, cell(alive, alive_fg, false));
            push_array(&mut cells, cell(counts, Tone::Plain, false));
            push_array(&mut cells, empty_cell());
            push_array(&mut cells, empty_cell());
            push_array(&mut cells, empty_cell());
            highlight = if is_selected {
                Highlight::SelectedHost
            } else {
                Highlight::Plain
            };
            let r = RowLook { cells, highlight };
            assert(r@.cells =~= row_look(row, hosts_view(hosts@), expanded@, is_selected, ipv6_text@).cells);
            r
        },
        DisplayRow::Port { host_idx, port_idx } => {
            let port = &hosts[host_idx].ports[port_idx];
            let mut label = String::new();
            push_char(&mut label, ' ');
            push_char(&mut label, ' ');
            push_char(&mut label, '\u{2514}');
            push_char(&mut label, '\u{2500}');
            push_char(&mut label, ' ');
            push_decimal(&mut label, port.port as usize);
            let status_fg = if is_selected {
                match port.status {
                    PortStatus::Open => Tone::LightGreen,
                    PortStatus::Closed => Tone::LightRed,
                    PortStatus::Filtered => Tone::LightYellow,
                }
            } else {
                port_status_style(&port.status)
            };
            let ghost pv = hosts_view(hosts@)[host_idx as int].ports[port_idx as int];
            assert(pv == port@);
            assert(label@ =~= seq![' ', ' ', '\u{2514}', '\u{2500}', ' '] + decimal(pv.port as nat));
            push_array(&mut cells, empty_cell());
            push_array(&mut cells, cell(label, if is_selected { Tone::White } else { Tone::Gray }, false));
            push_array(&mut cells, empty_cell());
            push_array(&mut cells, empty_cell());
            push_array(&mut cells, cell(port.status.text(), status_fg, false));
            push_array(&mut cells, cell(opt_string(&port.service), Tone::Plain, false));
            push_array(&mut cells, cell(opt_string(&port.version), Tone::Plain, false));
            highlight = if is_selected {
                Highlight::SelectedPort
            } else {
                Highlight::Plain
            };
            let r = RowLook { cells, highlight };
            assert(r@.cells =~= row_look(row, hosts_view(hosts@), expanded@, is_selected, ipv6_text@).cells);
            r
        },
    }
}


/// Open ports over all hosts.
pub open spec fn total_open(hosts: Seq<HostView>) -> nat
    decreases hosts.len(),
{
    if hosts.len() == 0 {
        0
    } else {
        total_open(hosts.drop_last()) + open_count(hosts.last().ports)
    }
}

proof fn lemma_total_open_le(hosts: Seq<HostView>, n: nat)
    requires
        n <= hosts.len(),
    ensures
        total_open(hosts.take(n as int)) <= crate::browse::full_rows(hosts, n),
    decreases n,
{
    if n > 0 {
        lemma_total_open_le(hosts, (n - 1) as nat);
        assert(hosts.take(n as int).drop_last() =~= hosts.take(n - 1));
        lemma_open_count_le(hosts[n - 1].ports);
    }
}

/// The table's title: host count, open ports, and the selected line's number
/// out of the line count (at least one).
pub open spec fn title_text(hosts: Seq<HostView>, selected: nat, rows: nat) -> Seq<char> {
    seq![' ', 'r', 'm', 'a', 'p', ' ', ' ', 'h', 'o', 's', 't', 's', '='] + decimal(hosts.len())
        + seq![' ', ' ', 'o', 'p', 'e', 'n', '='] + decimal(total_open(hosts)) + seq![' ', ' ', '[']
        + decimal(selected + 1) + seq!['/'] + decimal(
        if rows > 0 {
            rows
        } else {
            1
        },
    ) + seq![']', ' ']
}

fn push_literal(out: &mut String, lit: &Vec<char>)
    ensures
        final(out)@ == old(out)@ + lit@,
{
    crate::text::push_chars(out, lit.as_slice(), 0, lit.len());
    assert(lit@.subrange(0, lit@.len() as int) =~= lit@);
}

/// The title of the table (see `title_text`).
pub fn title(state: &BrowserState) -> (t: String)
    requires
        state@.wf(),
    ensures
        t@ == title_text(state@.hosts, state@.selected, state@.rows().len()),
{
    let hosts = state.hosts();
    let ghost hv = state@.hosts;
    let mut open: usize = 0;
    let mut i: usize = 0;
    proof {
        lemma_total_open_le(hv, hv.len());
        assert(hv.take(hv.len() as int) =~= hv);
    }
    while i < hosts.len()
        invariant
            i <= hosts@.len(),
            hv == hosts_view(hosts@),
            state@.wf(),
            hv == state@.hosts,
            open == total_open(hv.take(i as int)),
            total_open(hv) <= crate::browse::full_rows(hv, hv.len()),
        decreases hosts@.len() - i,
    {
        proof {
            lemma_total_open_le(hv, (i + 1) as nat);
            crate::browse::lemma_full_rows_mono(hv, (i + 1) as nat, hv.len());
            assert(hv.take(i + 1).drop_last() =~= hv.take(i as int));
        }
        let c = count_open(&hosts[i].ports);
        open = open + c;
        i = i + 1;
    }
    assert(hv.take(i as int) =~= hv);
    let total = state.display_rows().len();
    proof {
        crate::browse::lemma_rows_len(hv, state@.expanded, hv.len());
    }
    let mut t = String::new();
    push_literal(&mut t, &vec![' ', 'r', 'm', 'a', 'p', ' ', ' ', 'h', 'o', 's', 't', 's', '=']);
    push_decimal(&mut t, hosts.len());
    push_literal(&mut t, &vec![' ', ' ', 'o', 'p', 'e', 'n', '=']);
    push_decimal(&mut t, open);
    push_literal(&mut t, &vec![' ', ' ', '[']);
    push_decimal(&mut t, state.selected() + 1);
    push_char(&mut t, '/');
    push_decimal(&mut t, if total > 0 { total } else { 1 });
    push_char(&mut t, ']');
    push_char(&mut t, ' ');
    assert(t@ =~= title_text(state@.hosts, state@.selected, state@.rows().len()));
    t
}

/// The lines in the scroll window of `height` lines, each with whether it is
/// the selected one.
pub open spec fn window(rows: Seq<DisplayRow>, offset: nat, height: nat, selected: nat) -> Seq<
    (DisplayRow, bool),
> {
    let start = if offset < rows.len() {
        offset
    } else {
        rows.len()
    };
    let count = if height < rows.len() - start {
        height
    } else {
        (rows.len() - start) as nat
    };
    Seq::new(count, |i: int| (rows[start + i], start + i == selected))
}

/// The lines to draw (see `window`).
pub fn visible_rows(state: &BrowserState, height: usize) -> (r: Vec<(DisplayRow, bool)>)
    requires
        state@.wf(),
    ensures
        r@ == window(state@.rows(), state@.scroll_offset, height as nat, state@.selected),
{
    let rows = state.display_rows();
    let n = rows.len();
    let start = if state.scroll_offset() < n {
        state.scroll_offset()
    } else {
        n
    };
    let count = if height < n - start {
        height
    } else {
        n - start
    };
    let sel = state.selected();
    let ghost w = window(state@.rows(), state@.scroll_offset, height as nat, state@.selected);
    let mut out: Vec<(DisplayRow, bool)> = Vec::new();
    let mut i: usize = 0;
    while i < count
        invariant
            i <= count,
            start + count <= n,
            n == rows@.len(),
            w.len() == count,
            forall|k: int| 0 <= k < count ==> #[trigger] w[k] == (rows@[start + k], start + k == sel),
            out@ == w.take(i as int),
        decreases count - i,
    {
        out.push((rows[start + i], start + i == sel));
        assert(out@ =~= w.take(i + 1));
        i = i + 1;
    }
    assert(w.take(i as int) =~= w);
    out
}

} // verus!
