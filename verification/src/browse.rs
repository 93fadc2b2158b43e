//! State of the interactive result browser: a tree of hosts whose ports can
//! be shown or hidden, a selected row and a scroll window.
use vstd::prelude::*;
use crate::scan::hosts_view;
use crate::types::{HostResult, HostView};

verus! {

/// One line of the browser: a host, or one port of an expanded host.
#[derive(PartialEq, Eq, Structural, Clone, Copy, Debug)]
pub enum DisplayRow {
    Host { host_idx: usize },
    Port { host_idx: usize, port_idx: usize },
}

/// The lines of host `h`: the host itself and, when expanded, its ports.
pub open spec fn host_rows(hosts: Seq<HostView>, expanded: Seq<bool>, h: int) -> Seq<DisplayRow> {
    seq![DisplayRow::Host { host_idx: h as usize }] + if expanded[h] {
        Seq::new(
            hosts[h].ports.len(),
            |j: int| DisplayRow::Port { host_idx: h as usize, port_idx: j as usize },
        )
    } else {
        seq![]
    }
}

/// The lines of the first `n` hosts.
pub open spec fn rows_upto(hosts: Seq<HostView>, expanded: Seq<bool>, n: nat) -> Seq<DisplayRow>
    decreases n,
{
    if n == 0 {
        seq![]
    } else {
        rows_upto(hosts, expanded, (n - 1) as nat) + host_rows(hosts, expanded, n - 1)
    }
}

/// All lines, in order.
pub open spec fn rows_of(hosts: Seq<HostView>, expanded: Seq<bool>) -> Seq<DisplayRow> {
    rows_upto(hosts, expanded, hosts.len())
}

/// Number of lines of the first `n` hosts when every host is expanded.
pub open spec fn full_rows(hosts: Seq<HostView>, n: nat) -> nat
    decreases n,
{
    if n == 0 {
        0
    } else {
        full_rows(hosts, (n - 1) as nat) + 1 + hosts[n - 1].ports.len()
    }
}

pub proof fn lemma_rows_len(hosts: Seq<HostView>, expanded: Seq<bool>, n: nat)
    ensures
        rows_upto(hosts, expanded, n).len() <= full_rows(hosts, n),
        n > 0 ==> rows_upto(hosts, expanded, n).len() >= n,
    decreases n,
{
    if n > 0 {
        lemma_rows_len(hosts, expanded, (n - 1) as nat);
    }
}

pub proof fn lemma_full_rows_mono(hosts: Seq<HostView>, m: nat, n: nat)
    requires
        m <= n,
    ensures
        full_rows(hosts, m) <= full_rows(hosts, n),
    decreases n,
{
    if m < n {
        lemma_full_rows_mono(hosts, m, (n - 1) as nat);
    }
}

/// The host a line belongs to.
pub open spec fn row_host(r: DisplayRow) -> int {
    match r {
        DisplayRow::Host { host_idx } => host_idx as int,
        DisplayRow::Port { host_idx, .. } => host_idx as int,
    }
}

/// A line names an existing host (and, for a port line, an existing port).
pub open spec fn row_valid(hosts: Seq<HostView>, r: DisplayRow) -> bool {
    match r {
        DisplayRow::Host { host_idx } => host_idx < hosts.len(),
        DisplayRow::Port { host_idx, port_idx } => host_idx < hosts.len() && port_idx
            < hosts[host_idx as int].ports.len(),
    }
}

pub proof fn lemma_rows_valid(hosts: Seq<HostView>, expanded: Seq<bool>, n: nat)
    requires
        n <= hosts.len(),
        hosts.len() <= usize::MAX,
    ensures
        forall|k: int|
            0 <= k < rows_upto(hosts, expanded, n).len() ==> row_valid(
                hosts,
                #[trigger] rows_upto(hosts, expanded, n)[k],
            ),
    decreases n,
{
    if n > 0 {
        lemma_rows_valid(hosts, expanded, (n - 1) as nat);
        let prev = rows_upto(hosts, expanded, (n - 1) as nat);
        let hr = host_rows(hosts, expanded, n - 1);
        assert forall|k: int| 0 <= k < rows_upto(hosts, expanded, n).len() implies row_valid(
            hosts,
            #[trigger] rows_upto(hosts, expanded, n)[k],
        ) by {
            if k < prev.len() {
                assert(rows_upto(hosts, expanded, n)[k] == prev[k]);
            } else {
                assert(rows_upto(hosts, expanded, n)[k] == hr[k - prev.len()]);
            }
        }
    }
}

proof fn lemma_rows_prefix(hosts: Seq<HostView>, expanded: Seq<bool>, m: nat, n: nat)
    requires
        m <= n,
    ensures
        rows_upto(hosts, expanded, m).len() <= rows_upto(hosts, expanded, n).len(),
        forall|k: int|
            0 <= k < rows_upto(hosts, expanded, m).len() ==> #[trigger] rows_upto(
                hosts,
                expanded,
                n,
            )[k] == rows_upto(hosts, expanded, m)[k],
    decreases n,
{
    if m < n {
        lemma_rows_prefix(hosts, expanded, m, (n - 1) as nat);
        let prev = rows_upto(hosts, expanded, (n - 1) as nat);
        assert forall|k: int| 0 <= k < prev.len() implies #[trigger] rows_upto(
            hosts,
            expanded,
            n,
        )[k] == prev[k] by {}
    }
}

proof fn lemma_rows_same_prefix(hosts: Seq<HostView>, e1: Seq<bool>, e2: Seq<bool>, m: nat)
    requires
        forall|i: int| 0 <= i < m ==> e1[i] == e2[i],
    ensures
        rows_upto(hosts, e1, m) == rows_upto(hosts, e2, m),
    decreases m,
{
    if m > 0 {
        lemma_rows_same_prefix(hosts, e1, e2, (m - 1) as nat);
        assert(host_rows(hosts, e1, m - 1) =~= host_rows(hosts, e2, m - 1));
    }
}

proof fn lemma_rows_hosts_below(hosts: Seq<HostView>, expanded: Seq<bool>, m: nat)
    requires
        m <= hosts.len() <= usize::MAX,
    ensures
        forall|k: int|
            0 <= k < rows_upto(hosts, expanded, m).len() ==> 0 <= row_host(
                #[trigger] rows_upto(hosts, expanded, m)[k],
            ) < m,
    decreases m,
{
    if m > 0 {
        lemma_rows_hosts_below(hosts, expanded, (m - 1) as nat);
        let prev = rows_upto(hosts, expanded, (m - 1) as nat);
        let hr = host_rows(hosts, expanded, m - 1);
        assert forall|k: int| 0 <= k < rows_upto(hosts, expanded, m).len() implies 0 <= row_host(
            #[trigger] rows_upto(hosts, expanded, m)[k],
        ) < m by {
            if k < prev.len() {
                assert(rows_upto(hosts, expanded, m)[k] == prev[k]);
            } else {
                assert(rows_upto(hosts, expanded, m)[k] == hr[k - prev.len()]);
            }
        }
    }
}

/// Every line lies in the block of lines of its own host.
proof fn lemma_rows_locate(hosts: Seq<HostView>, expanded: Seq<bool>, n: nat, k: int)
    requires
        n <= hosts.len() <= usize::MAX,
        0 <= k < rows_upto(hosts, expanded, n).len(),
    ensures
        ({
            let h = row_host(rows_upto(hosts, expanded, n)[k]);
            let start = rows_upto(hosts, expanded, h as nat).len();
            &&& 0 <= h < n
            &&& start <= k < start + host_rows(hosts, expanded, h).len()
            &&& rows_upto(hosts, expanded, n)[k] == host_rows(hosts, expanded, h)[k - start]
        }),
    decreases n,
{
    let prev = rows_upto(hosts, expanded, (n - 1) as nat);
    if k < prev.len() {
        lemma_rows_locate(hosts, expanded, (n - 1) as nat, k);
        assert(rows_upto(hosts, expanded, n)[k] == prev[k]);
    } else {
        let hr = host_rows(hosts, expanded, n - 1);
        assert(rows_upto(hosts, expanded, n)[k] == hr[k - prev.len()]);
    }
}

/// A host line stands at the start of its host's block.
proof fn lemma_host_line_at_start(hosts: Seq<HostView>, expanded: Seq<bool>, n: nat, k: int, h: usize)
    requires
        n <= hosts.len() <= usize::MAX,
        0 <= k < rows_upto(hosts, expanded, n).len(),
        rows_upto(hosts, expanded, n)[k] == (DisplayRow::Host { host_idx: h }),
    ensures
        k == rows_upto(hosts, expanded, h as nat).len(),
        h < n,
{
    lemma_rows_locate(hosts, expanded, n, k);
    let start = rows_upto(hosts, expanded, h as nat).len();
    if k > start {
        assert(host_rows(hosts, expanded, h as int)[k - start] is Port);
    }
}

/// The line of host `h` is the first line naming it, at the start of its block.
proof fn lemma_host_line(hosts: Seq<HostView>, expanded: Seq<bool>, n: nat, h: int)
    requires
        n <= hosts.len() <= usize::MAX,
        0 <= h < n,
    ensures
        rows_upto(hosts, expanded, h as nat).len() < rows_upto(hosts, expanded, n).len(),
        rows_upto(hosts, expanded, n)[rows_upto(hosts, expanded, h as nat).len() as int] == (DisplayRow::Host {
            host_idx: h as usize,
        }),
        first_index(rows_upto(hosts, expanded, n), DisplayRow::Host { host_idx: h as usize })
            == Some(rows_upto(hosts, expanded, h as nat).len() as int),
{
    let start = rows_upto(hosts, expanded, h as nat).len();
    let r = rows_upto(hosts, expanded, n);
    let x = DisplayRow::Host { host_idx: h as usize };
    lemma_rows_prefix(hosts, expanded, (h + 1) as nat, n);
    lemma_rows_prefix(hosts, expanded, h as nat, n);
    assert(rows_upto(hosts, expanded, (h + 1) as nat)[start as int] == host_rows(hosts, expanded, h)[0]);
    lemma_rows_hosts_below(hosts, expanded, h as nat);
    assert forall|j: int| 0 <= j < start implies r[j] != x by {
        assert(r[j] == rows_upto(hosts, expanded, h as nat)[j]);
    }
    lemma_first_index_at(r, x, start as int);
}

/// Expanding hosts never removes lines.
proof fn lemma_rows_grow(hosts: Seq<HostView>, e1: Seq<bool>, e2: Seq<bool>, n: nat)
    requires
        forall|i: int| 0 <= i < n ==> e1[i] ==> e2[i],
    ensures
        rows_upto(hosts, e1, n).len() <= rows_upto(hosts, e2, n).len(),
    decreases n,
{
    if n > 0 {
        lemma_rows_grow(hosts, e1, e2, (n - 1) as nat);
    }
}

/// Position of the first `x` in `s`.
pub open spec fn first_index<A>(s: Seq<A>, x: A) -> Option<int> {
    if exists|k: int| 0 <= k < s.len() && s[k] == x && forall|j: int| 0 <= j < k ==> s[j] != x {
        Some(choose|k: int| 0 <= k < s.len() && s[k] == x && forall|j: int| 0 <= j < k ==> s[j] != x)
    } else {
        None
    }
}

pub proof fn lemma_first_index_at<A>(s: Seq<A>, x: A, k: int)
    requires
        0 <= k < s.len(),
        s[k] == x,
        forall|j: int| 0 <= j < k ==> s[j] != x,
    ensures
        first_index(s, x) == Some(k),
{
    let k2 = choose|k: int| 0 <= k < s.len() && s[k] == x && forall|j: int| 0 <= j < k ==> s[j] != x;
    assert(0 <= k2 < s.len() && s[k2] == x && forall|j: int| 0 <= j < k2 ==> s[j] != x);
    if k2 < k {
        assert(s[k2] != x);
    } else if k < k2 {
        assert(s[k] != x);
    }
}

fn position_of(rows: &Vec<DisplayRow>, x: DisplayRow) -> (r: Option<usize>)
    ensures
        match r {
            Some(k) => first_index(rows@, x) == Some(k as int),
            None => first_index(rows@, x) is None,
        },
{
    let mut i: usize = 0;
    while i < rows.len()
        invariant
            i <= rows@.len(),
            forall|j: int| 0 <= j < i ==> rows@[j] != x,
        decreases rows@.len() - i,
    {
        if rows[i] == x {
            proof {
                lemma_first_index_at(rows@, x, i as int);
            }
            return Some(i);
        }
        i = i + 1;
    }
    None
}

/// `a - b`, or zero when `b > a`.
pub open spec fn sat_sub(a: nat, b: nat) -> nat {
    if a >= b {
        (a - b) as nat
    } else {
        0
    }
}

/// A key press, as the terminal reports it.
#[derive(PartialEq, Eq, Structural, Clone, Copy, Debug)]
pub enum KeyInput {
    Char(char),
    Up,
    Down,
    Left,
    Right,
    Enter,
    Esc,
    Home,
    End,
    PageUp,
    PageDown,
    Other,
}

/// What a key asks the browser to do.
#[derive(PartialEq, Eq, Structural, Clone, Copy, Debug)]
pub enum Command {
    Quit,
    Up,
    Down,
    Right,
    Left,
    Toggle,
    ToggleAll,
    First,
    Last,
    PageUp,
    PageDown,
    Nothing,
}

/// The key bindings: `q`/Esc/Ctrl-C quit; arrows or `k` `j` `l` `h` move;
/// Enter/Space toggle the host; `a` toggles all; Home, End, PageUp and
/// PageDown jump. Key releases and other keys do nothing.
pub open spec fn key_command_of(key: KeyInput, ctrl: bool, released: bool) -> Command {
    if released {
        Command::Nothing
    } else {
        match key {
            KeyInput::Char(c) => if c == 'q' {
                Command::Quit
            } else if c == 'c' && ctrl {
                Command::Quit
            } else if c == 'k' {
                Command::Up
            } else if c == 'j' {
                Command::Down
            } else if c == 'l' {
                Command::Right
            } else if c == 'h' {
                Command::Left
            } else if c == ' ' {
                Command::Toggle
            } else if c == 'a' {
                Command::ToggleAll
            } else {
                Command::Nothing
            },
            KeyInput::Esc => Command::Quit,
            KeyInput::Up => Command::Up,
            KeyInput::Down => Command::Down,
            KeyInput::Right => Command::Right,
            KeyInput::Left => Command::Left,
            KeyInput::Enter => Command::Toggle,
            KeyInput::Home => Command::First,
            KeyInput::End => Command::Last,
            KeyInput::PageUp => Command::PageUp,
            KeyInput::PageDown => Command::PageDown,
            KeyInput::Other => Command::Nothing,
        }
    }
}

/// The arrows and their letters are the same keys: Up and `k` move up, Down
/// and `j` move down, Right and `l` go right, Left and `h` go left; Enter and
/// Space toggle; `q` and Esc quit, as does Ctrl-C; a key release does
/// nothing, whatever the key.
pub proof fn lemma_key_bindings(ctrl: bool, key: KeyInput)
    ensures
        key_command_of(KeyInput::Up, ctrl, false) == Command::Up,
        key_command_of(KeyInput::Char('k'), ctrl, false) == Command::Up,
        key_command_of(KeyInput::Down, ctrl, false) == Command::Down,
        key_command_of(KeyInput::Char('j'), ctrl, false) == Command::Down,
        key_command_of(KeyInput::Right, ctrl, false) == Command::Right,
        key_command_of(KeyInput::Char('l'), ctrl, false) == Command::Right,
        key_command_of(KeyInput::Left, ctrl, false) == Command::Left,
        key_command_of(KeyInput::Char('h'), ctrl, false) == Command::Left,
        key_command_of(KeyInput::Enter, ctrl, false) == Command::Toggle,
        key_command_of(KeyInput::Char(' '), ctrl, false) == Command::Toggle,
        key_command_of(KeyInput::Char('a'), ctrl, false) == Command::ToggleAll,
        key_command_of(KeyInput::Char('q'), ctrl, false) == Command::Quit,
        key_command_of(KeyInput::Esc, ctrl, false) == Command::Quit,
        key_command_of(KeyInput::Char('c'), true, false) == Command::Quit,
        key_command_of(KeyInput::Char('c'), false, false) == Command::Nothing,
        key_command_of(KeyInput::Home, ctrl, false) == Command::First,
        key_command_of(KeyInput::End, ctrl, false) == Command::Last,
        key_command_of(KeyInput::PageUp, ctrl, false) == Command::PageUp,
        key_command_of(KeyInput::PageDown, ctrl, false) == Command::PageDown,
        key_command_of(KeyInput::Other, ctrl, false) == Command::Nothing,
        key_command_of(key, ctrl, true) == Command::Nothing,
{
}

/// The command bound to a key (see `key_command_of`).
pub fn key_command(key: KeyInput, ctrl: bool, released: bool) -> (c: Command)
    ensures
        c == key_command_of(key, ctrl, released),
{
    if released {
        return Command::Nothing;
    }
    match key {
        KeyInput::Char(c) => {
            if c == 'q' {
                Command::Quit
            } else if c == 'c' && ctrl {
                Command::Quit
            } else if c == 'k' {
                Command::Up
            } else if c == 'j' {
                Command::Down
            } else if c == 'l' {
                Command::Right
            } else if c == 'h' {
                Command::Left
            } else if c == ' ' {
                Command::Toggle
            } else if c == 'a' {
                Command::ToggleAll
            } else {
                Command::Nothing
            }
        },
        KeyInput::Esc => Command::Quit,
        KeyInput::Up => Command::Up,
        KeyInput::Down => Command::Down,
        KeyInput::Right => Command::Right,
        KeyInput::Left => Command::Left,
        KeyInput::Enter => Command::Toggle,
        KeyInput::Home => Command::First,
        KeyInput::End => Command::Last,
        KeyInput::PageUp => Command::PageUp,
        KeyInput::PageDown => Command::PageDown,
        KeyInput::Other => Command::Nothing,
    }
}

/// Lines of the table body on a terminal `term_height` rows high: one footer
/// line, two border lines and a header line are left out, and at least one
/// line remains.
pub open spec fn body_height(term_height: u16) -> nat {
    if term_height > 5 {
        (term_height - 4) as nat
    } else {
        1
    }
}

/// Body height for a terminal of `term_height` rows (see `body_height`).
pub fn frame_height(term_height: u16) -> (h: usize)
    ensures
        h == body_height(term_height),
        1 <= h <= 65535,
{
    let t = if term_height >= 4 {
        term_height - 4
    } else {
        0
    };
    if t < 1 {
        1
    } else {
        t as usize
    }
}

/// The browser's state.
pub struct BrowserState {
    hosts: Vec<HostResult>,
    expanded: Vec<bool>,
    /// Index of the selected line.
    selected: usize,
    /// First visible line.
    scroll_offset: usize,
}

pub struct BrowserView {
    pub hosts: Seq<HostView>,
    pub expanded: Seq<bool>,
    pub selected: nat,
    pub scroll_offset: nat,
}

impl View for BrowserState {
    type V = BrowserView;

    closed spec fn view(&self) -> BrowserView {
        BrowserView {
            hosts: hosts_view(self.hosts@),
            expanded: self.expanded@,
            selected: self.selected as nat,
            scroll_offset: self.scroll_offset as nat,
        }
    }
}

impl BrowserView {
    pub open spec fn rows(self) -> Seq<DisplayRow> {
        rows_of(self.hosts, self.expanded)
    }

    /// Every host has an expanded flag, and the lines of all hosts, expanded,
    /// can be counted in a `usize`.
    /// The selected line exists, or there are no lines and the first is
    /// selected.
    pub open spec fn selection_in_range(self) -> bool {
        self.selected < self.rows().len() || (self.rows().len() == 0 && self.selected == 0)
    }

    pub open spec fn with_selected(self, sel: nat) -> BrowserView {
        BrowserView { selected: sel, ..self }
    }

    pub open spec fn with_expanded(self, e: Seq<bool>) -> BrowserView {
        BrowserView { expanded: e, ..self }
    }

    /// One line up, unless at the top.
    pub open spec fn moved_up(self) -> BrowserView {
        if self.selected > 0 {
            self.with_selected((self.selected - 1) as nat)
        } else {
            self
        }
    }

    /// One line down, unless at the bottom.
    pub open spec fn moved_down(self) -> BrowserView {
        if self.selected + 1 < self.rows().len() {
            self.with_selected(self.selected + 1)
        } else {
            self
        }
    }

    /// The selection moved back onto the lines, if it fell off their end.
    pub open spec fn clamped(self) -> BrowserView {
        if self.rows().len() == 0 {
            self.with_selected(0)
        } else if self.selected >= self.rows().len() {
            self.with_selected((self.rows().len() - 1) as nat)
        } else {
            self
        }
    }

    /// The scroll window of `height` lines (at least one) moved just enough to
    /// show the selection, and no further down than the last full page.
    pub open spec fn scrolled(self, height: nat) -> BrowserView {
        let vh: nat = if height == 0 {
            1
        } else {
            height
        };
        let max_offset = sat_sub(self.rows().len(), vh);
        let off: nat = if self.selected < self.scroll_offset {
            self.selected
        } else if self.selected >= self.scroll_offset + vh {
            (self.selected + 1 - vh) as nat
        } else {
            self.scroll_offset
        };
        BrowserView {
            scroll_offset: if off < max_offset {
                off
            } else {
                max_offset
            },
            ..self
        }
    }

    /// Enter/Space: the selected line's host is expanded or collapsed; after a
    /// collapse the host's own line is selected.
    pub open spec fn toggled(self) -> BrowserView {
        if self.selected < self.rows().len() {
            let h = row_host(self.rows()[self.selected as int]);
            let e = self.expanded.update(h, !self.expanded[h]);
            let v = self.with_expanded(e);
            if !e[h] {
                match first_index(v.rows(), DisplayRow::Host { host_idx: h as usize }) {
                    Some(k) => v.with_selected(k as nat),
                    None => v,
                }
            } else {
                v
            }
        } else {
            self
        }
    }

    /// Right: on a host line, the host is expanded and its first port, if it
    /// has one, is selected.
    pub open spec fn moved_right(self) -> BrowserView {
        if self.selected < self.rows().len() {
            match self.rows()[self.selected as int] {
                DisplayRow::Host { host_idx } => {
                    let v = self.with_expanded(self.expanded.update(host_idx as int, true));
                    if self.hosts[host_idx as int].ports.len() > 0 {
                        v.with_selected(self.selected + 1)
                    } else {
                        v
                    }
                },
                _ => self,
            }
        } else {
            self
        }
    }

    /// Left: the selected line's host is collapsed; from a port line the
    /// host's own line is selected.
    pub open spec fn moved_left(self) -> BrowserView {
        if self.selected < self.rows().len() {
            match self.rows()[self.selected as int] {
                DisplayRow::Port { host_idx, .. } => {
                    let v = self.with_expanded(self.expanded.update(host_idx as int, false));
                    match first_index(v.rows(), DisplayRow::Host { host_idx }) {
                        Some(k) => v.with_selected(k as nat),
                        None => v,
                    }
                },
                DisplayRow::Host { host_idx } => self.with_expanded(
                    self.expanded.update(host_idx as int, false),
                ),
            }
        } else {
            self
        }
    }

    /// `a`: every host expanded, or every host collapsed if all already were
    /// expanded; then the selection is kept on the lines.
    pub open spec fn toggled_all(self) -> BrowserView {
        let all = forall|i: int| 0 <= i < self.expanded.len() ==> self.expanded[i];
        self.with_expanded(Seq::new(self.expanded.len(), |i: int| !all)).clamped()
    }

    /// End: the last line.
    pub open spec fn to_last(self) -> BrowserView {
        if self.rows().len() > 0 {
            self.with_selected((self.rows().len() - 1) as nat)
        } else {
            self
        }
    }

    /// Page down: `height` lines down, stopping at the last line.
    pub open spec fn paged_down(self, height: nat) -> BrowserView {
        let t = self.selected + height;
        let last = sat_sub(self.rows().len(), 1);
        self.with_selected(
            if t < last {
                t
            } else {
                last
            },
        )
    }

    /// The state after a command, with a body `height` lines high.
    pub open spec fn after(self, cmd: Command, height: nat) -> BrowserView {
        match cmd {
            Command::Up => self.moved_up(),
            Command::Down => self.moved_down(),
            Command::Right => self.moved_right(),
            Command::Left => self.moved_left(),
            Command::Toggle => self.toggled(),
            Command::ToggleAll => self.toggled_all(),
            Command::First => self.with_selected(0),
            Command::Last => self.to_last(),
            Command::PageUp => self.with_selected(sat_sub(self.selected, height)),
            Command::PageDown => self.paged_down(height),
            _ => self,
        }
    }

    /// Every host has an expanded flag; the lines of all hosts, expanded,
    /// and a screenful more can be counted in a `usize`; selection and scroll
    /// position lie within those lines.
    pub open spec fn wf(self) -> bool {
        &&& self.expanded.len() == self.hosts.len()
        &&& full_rows(self.hosts, self.hosts.len()) + 65536 <= usize::MAX
        &&& self.selected <= full_rows(self.hosts, self.hosts.len())
        &&& self.scroll_offset <= full_rows(self.hosts, self.hosts.len())
    }
}

proof fn lemma_wf_hosts_len(v: BrowserView)
    requires
        v.wf(),
    ensures
        v.hosts.len() <= usize::MAX,
{
    lemma_rows_len(v.hosts, v.expanded, v.hosts.len());
}

/// Every command keeps the selection on an existing line, or on the first
/// line when there are none.
pub proof fn lemma_after_keeps_selection(v: BrowserView, cmd: Command, height: nat)
    requires
        v.wf(),
        v.selection_in_range(),
    ensures
        v.after(cmd, height).selection_in_range(),
{
    lemma_wf_hosts_len(v);
    let n = v.hosts.len();
    let e = v.expanded;
    let rows = v.rows();
    let sel = v.selected as int;
    match cmd {
        Command::Toggle => {
            if sel < rows.len() {
                lemma_rows_locate(v.hosts, e, n, sel);
                let h = row_host(rows[sel]);
                let e2 = e.update(h, !e[h]);
                if !e2[h] {
                    lemma_host_line(v.hosts, e2, n, h);
                } else {
                    lemma_rows_grow(v.hosts, e, e2, n);
                }
            }
        },
        Command::Right => {
            if sel < rows.len() {
                match rows[sel] {
                    DisplayRow::Host { host_idx } => {
                        let h = host_idx as int;
                        lemma_host_line_at_start(v.hosts, e, n, sel, host_idx);
                        let e2 = e.update(h, true);
                        lemma_rows_grow(v.hosts, e, e2, n);
                        lemma_rows_same_prefix(v.hosts, e, e2, h as nat);
                        lemma_rows_prefix(v.hosts, e2, (h + 1) as nat, n);
                    },
                    _ => {},
                }
            }
        },
        Command::Left => {
            if sel < rows.len() {
                match rows[sel] {
                    DisplayRow::Port { host_idx, .. } => {
                        lemma_rows_locate(v.hosts, e, n, sel);
                        lemma_host_line(v.hosts, e.update(host_idx as int, false), n, host_idx as int);
                    },
                    DisplayRow::Host { host_idx } => {
                        let h = host_idx as int;
                        let e2 = e.update(h, false);
                        lemma_host_line_at_start(v.hosts, e, n, sel, host_idx);
                        lemma_rows_same_prefix(v.hosts, e, e2, h as nat);
                        lemma_host_line(v.hosts, e2, n, h);
                    },
                }
            }
        },
        _ => {},
    }
}

/// Once the scroll window is placed, the selected line lies inside it, and
/// the window reaches no further down than the last line.
pub proof fn lemma_scrolled_shows_selection(v: BrowserView, height: nat)
    requires
        v.selection_in_range(),
        v.rows().len() > 0,
    ensures
        ({
            let w = v.scrolled(height);
            let vh: nat = if height == 0 {
                1
            } else {
                height
            };
            &&& w.scroll_offset <= w.selected < w.scroll_offset + vh
            &&& w.scroll_offset <= sat_sub(v.rows().len(), vh)
            &&& w.selected == v.selected
        }),
{
}

/// Enter/Space pressed twice on a host line leaves the browser as it was.
pub proof fn lemma_toggle_twice(v: BrowserView)
    requires
        v.wf(),
        v.selected < v.rows().len(),
        v.rows()[v.selected as int] is Host,
    ensures
        v.toggled().toggled() == v,
{
    lemma_wf_hosts_len(v);
    let n = v.hosts.len();
    let e = v.expanded;
    let sel = v.selected as int;
    let host_idx = v.rows()[sel]->Host_host_idx;
    let h = host_idx as int;
    lemma_host_line_at_start(v.hosts, e, n, sel, host_idx);
    let e1 = e.update(h, !e[h]);
    lemma_rows_same_prefix(v.hosts, e, e1, h as nat);
    lemma_host_line(v.hosts, e1, n, h);
    lemma_host_line(v.hosts, e, n, h);
    let v1 = v.toggled();
    assert(v1 == v.with_expanded(e1));
    assert(e1.update(h, !e1[h]) =~= e);
}

/// Left undoes Right on the line of a collapsed host that has ports: the
/// host is collapsed again and its line selected again.
pub proof fn lemma_left_undoes_right(v: BrowserView)
    requires
        v.wf(),
        v.selected < v.rows().len(),
        v.rows()[v.selected as int] is Host,
        !v.expanded[row_host(v.rows()[v.selected as int])],
        v.hosts[row_host(v.rows()[v.selected as int])].ports.len() > 0,
    ensures
        v.moved_right().moved_left() == v,
{
    lemma_wf_hosts_len(v);
    let n = v.hosts.len();
    let e = v.expanded;
    let sel = v.selected as int;
    let host_idx = v.rows()[sel]->Host_host_idx;
    let h = host_idx as int;
    lemma_host_line_at_start(v.hosts, e, n, sel, host_idx);
    let e1 = e.update(h, true);
    lemma_rows_same_prefix(v.hosts, e, e1, h as nat);
    lemma_rows_prefix(v.hosts, e1, (h + 1) as nat, n);
    let start = rows_upto(v.hosts, e, h as nat).len() as int;
    assert(rows_upto(v.hosts, e1, (h + 1) as nat)[start + 1] == host_rows(v.hosts, e1, h)[1]);
    let v1 = v.moved_right();
    assert(v1 == v.with_expanded(e1).with_selected(v.selected + 1));
    assert(v1.rows()[sel + 1] == (DisplayRow::Port { host_idx, port_idx: 0 }));
    assert(e1.update(h, false) =~= e);
    lemma_host_line(v.hosts, e, n, h);
}

/// Down undoes Up, away from the first line.
pub proof fn lemma_down_undoes_up(v: BrowserView)
    requires
        0 < v.selected < v.rows().len(),
    ensures
        v.moved_up().moved_down() == v,
{
}

impl BrowserState {
    /// A browser over `hosts`, all collapsed, with the first line selected.
    pub fn new(hosts: Vec<HostResult>) -> (s: BrowserState)
        requires
            full_rows(hosts_view(hosts@), hosts@.len()) + 65536 <= usize::MAX,
        ensures
            s@.wf(),
            s@.hosts == hosts_view(hosts@),
            s@.expanded == Seq::new(hosts@.len(), |i: int| false),
            s@.selected == 0,
            s@.scroll_offset == 0,
    {
        let n = hosts.len();
        let mut expanded: Vec<bool> = Vec::new();
        let mut i: usize = 0;
        while i < n
            invariant
                i <= n,
                expanded@ == Seq::new(i as nat, |k: int| false),
            decreases n - i,
        {
            expanded.push(false);
            assert(expanded@ =~= Seq::new((i + 1) as nat, |k: int| false));
            i = i + 1;
        }
        BrowserState { hosts, expanded, selected: 0, scroll_offset: 0 }
    }

    pub fn selected(&self) -> (r: usize)
        ensures
            r == self@.selected,
    {
        self.selected
    }

    pub fn scroll_offset(&self) -> (r: usize)
        ensures
            r == self@.scroll_offset,
    {
        self.scroll_offset
    }

    pub fn hosts(&self) -> (r: &Vec<HostResult>)
        ensures
            hosts_view(r@) == self@.hosts,
    {
        &self.hosts
    }

    pub fn expanded(&self) -> (r: &Vec<bool>)
        ensures
            r@ == self@.expanded,
    {
        &self.expanded
    }

    /// The lines to show, in order.
    pub fn display_rows(&self) -> (rows: Vec<DisplayRow>)
        requires
            self@.wf(),
        ensures
            rows@ == self@.rows(),
    {
        let ghost hv = self@.hosts;
        let ghost ev = self@.expanded;
        let n = self.hosts.len();
        let mut rows: Vec<DisplayRow> = Vec::new();
        let mut i: usize = 0;
        while i < n
            invariant
                n == self.hosts@.len(),
                hv == hosts_view(self.hosts@),
                ev == self.expanded@,
                ev.len() == n,
                i <= n,
                rows@ == rows_upto(hv, ev, i as nat),
            decreases n - i,
        {
            let ghost before = rows@;
            rows.push(DisplayRow::Host { host_idx: i });
            if self.expanded[i] {
                let m = self.hosts[i].ports.len();
                assert(hv[i as int].ports.len() == m);
                let mut j: usize = 0;
                while j < m
                    invariant
                        j <= m,
                        i < n,
                        rows@ == before + seq![DisplayRow::Host { host_idx: i }] + Seq::new(
                            j as nat,
                            |k: int| DisplayRow::Port { host_idx: i, port_idx: k as usize },
                        ),
                    decreases m - j,
                {
                    rows.push(DisplayRow::Port { host_idx: i, port_idx: j });
                    assert(rows@ =~= before + seq![DisplayRow::Host { host_idx: i }] + Seq::new(
                        (j + 1) as nat,
                        |k: int| DisplayRow::Port { host_idx: i, port_idx: k as usize },
                    ));
                    j = j + 1;
                }
                assert(rows@ =~= rows_upto(hv, ev, (i + 1) as nat));
            } else {
                assert(rows@ =~= rows_upto(hv, ev, (i + 1) as nat));
            }
            i = i + 1;
        }
        rows
    }

    /// Up / `k`.
    pub fn move_up(&mut self)
        requires
            old(self)@.wf(),
        ensures
            final(self)@.wf(),
            final(self)@ == old(self)@.moved_up(),
    {
        if self.selected > 0 {
            self.selected = self.selected - 1;
        }
    }

    /// Down / `j`.
    pub fn move_down(&mut self)
        requires
            old(self)@.wf(),
        ensures
            final(self)@.wf(),
            final(self)@ == old(self)@.moved_down(),
    {
        proof {
            lemma_rows_len(self@.hosts, self@.expanded, self@.hosts.len());
        }
        let total = self.display_rows().len();
        if self.selected < total && self.selected + 1 < total {
            self.selected = self.selected + 1;
        }
    }

    /// Keeps the selection on the lines.
    pub fn clamp_selected(&mut self)
        requires
            old(self)@.wf(),
        ensures
            final(self)@.wf(),
            final(self)@ == old(self)@.clamped(),
    {
        proof {
            lemma_rows_len(self@.hosts, self@.expanded, self@.hosts.len());
        }
        let len = self.display_rows().len();
        if len == 0 {
            self.selected = 0;
        } else if self.selected >= len {
            self.selected = len - 1;
        }
    }

    /// Keeps the scroll window of `visible_height` lines around the selection.
    pub fn adjust_scroll(&mut self, visible_height: usize)
        requires
            old(self)@.wf(),
            old(self)@.selected < old(self)@.scroll_offset || old(self)@.scroll_offset + (if visible_height
                == 0 {
                1
            } else {
                visible_height
            }) <= usize::MAX,
        ensures
            final(self)@.wf(),
            final(self)@ == old(self)@.scrolled(visible_height as nat),
    {
        proof {
            lemma_rows_len(self@.hosts, self@.expanded, self@.hosts.len());
        }
        let vh = if visible_height == 0 {
            1
        } else {
            visible_height
        };
        let total = self.display_rows().len();
        let max_offset = if total >= vh {
            total - vh
        } else {
            0
        };
        if self.selected < self.scroll_offset {
            self.scroll_offset = self.selected;
        } else if self.selected >= self.scroll_offset + vh {
            self.scroll_offset = self.selected - vh + 1;
        }
        if self.scroll_offset > max_offset {
            self.scroll_offset = max_offset;
        }
    }

    /// Enter / Space.
    pub fn toggle_selected(&mut self)
        requires
            old(self)@.wf(),
        ensures
            final(self)@ == old(self)@.toggled(),
            final(self)@.wf(),
    {
        proof {
            lemma_rows_len(self@.hosts, self@.expanded, self@.hosts.len());
        }
        let rows = self.display_rows();
        if self.selected < rows.len() {
            let row = rows[self.selected];
            let n_hosts = self.hosts.len();
            proof {
                assert(self@.hosts.len() == n_hosts);
                lemma_rows_valid(self@.hosts, self@.expanded, self@.hosts.len());
                assert(row_valid(self@.hosts, rows@[self.selected as int]));
            }
            let h = match row {
                DisplayRow::Host { host_idx } => host_idx,
                DisplayRow::Port { host_idx, .. } => host_idx,
            };
            let flipped = !self.expanded[h];
            self.expanded.set(h, flipped);
            if !flipped {
                let new_rows = self.display_rows();
                proof {
                    lemma_rows_len(self@.hosts, self@.expanded, self@.hosts.len());
                }
                match position_of(&new_rows, DisplayRow::Host { host_idx: h }) {
                    Some(k) => {
                        self.selected = k;
                    },
                    None => {},
                }
            }
        }
    }

    /// Right / `l`.
    pub fn move_right(&mut self)
        requires
            old(self)@.wf(),
        ensures
            final(self)@ == old(self)@.moved_right(),
            final(self)@.wf(),
    {
        proof {
            lemma_rows_len(self@.hosts, self@.expanded, self@.hosts.len());
        }
        let rows = self.display_rows();
        if self.selected < rows.len() {
            let n_hosts = self.hosts.len();
            proof {
                assert(self@.hosts.len() == n_hosts);
                lemma_rows_valid(self@.hosts, self@.expanded, self@.hosts.len());
                assert(row_valid(self@.hosts, rows@[self.selected as int]));
            }
            match rows[self.selected] {
                DisplayRow::Host { host_idx } => {
                    if !self.expanded[host_idx] {
                        self.expanded.set(host_idx, true);
                    } else {
                        assert(self.expanded@.update(host_idx as int, true) =~= self.expanded@);
                    }
                    if self.hosts[host_idx].ports.len() > 0 {
                        assert(self@.hosts[host_idx as int].ports.len() > 0);
                        self.selected = self.selected + 1;
                    }
                },
                _ => {},
            }
        }
    }

    /// Left / `h`.
    pub fn move_left(&mut self)
        requires
            old(self)@.wf(),
        ensures
            final(self)@ == old(self)@.moved_left(),
            final(self)@.wf(),
    {
        proof {
            lemma_rows_len(self@.hosts, self@.expanded, self@.hosts.len());
        }
        let rows = self.display_rows();
        if self.selected < rows.len() {
            let n_hosts = self.hosts.len();
            proof {
                assert(self@.hosts.len() == n_hosts);
                lemma_rows_valid(self@.hosts, self@.expanded, self@.hosts.len());
                assert(row_valid(self@.hosts, rows@[self.selected as int]));
            }
            match rows[self.selected] {
                DisplayRow::Port { host_idx, .. } => {
                    self.expanded.set(host_idx, false);
                    let new_rows = self.display_rows();
                    proof {
                        lemma_rows_len(self@.hosts, self@.expanded, self@.hosts.len());
                    }
                    match position_of(&new_rows, DisplayRow::Host { host_idx }) {
                        Some(k) => {
                            self.selected = k;
                        },
                        None => {},
                    }
                },
                DisplayRow::Host { host_idx } => {
                    self.expanded.set(host_idx, false);
                },
            }
        }
    }

    /// `a`.
    pub fn toggle_all(&mut self)
        requires
            old(self)@.wf(),
        ensures
            final(self)@ == old(self)@.toggled_all(),
            final(self)@.wf(),
    {
        let n = self.expanded.len();
        let mut all = true;
        let mut i: usize = 0;
        while i < n
            invariant
                n == self.expanded@.len(),
                i <= n,
                all == forall|j: int| 0 <= j < i ==> self.expanded@[j],
            decreases n - i,
        {
            if !self.expanded[i] {
                all = false;
            }
            i = i + 1;
        }
        let ghost old_e = self.expanded@;
        let mut i: usize = 0;
        while i < n
            invariant
                n == self.expanded@.len(),
                old_e.len() == n,
                all == forall|j: int| 0 <= j < n ==> old_e[j],
                i <= n,
                forall|j: int| 0 <= j < i ==> self.expanded@[j] == !all,
                self.hosts == old(self).hosts,
                self.selected == old(self).selected,
                self.scroll_offset == old(self).scroll_offset,
                old_e == old(self).expanded@,
            decreases n - i,
        {
            self.expanded.set(i, !all);
            i = i + 1;
        }
        assert(self.expanded@ =~= Seq::new(old_e.len(), |j: int| !all));
        self.clamp_selected();
    }

    /// Home.
    pub fn select_first(&mut self)
        requires
            old(self)@.wf(),
        ensures
            final(self)@.wf(),
            final(self)@ == old(self)@.with_selected(0),
    {
        self.selected = 0;
    }

    /// End.
    pub fn select_last(&mut self)
        requires
            old(self)@.wf(),
        ensures
            final(self)@.wf(),
            final(self)@ == old(self)@.to_last(),
    {
        proof {
            lemma_rows_len(self@.hosts, self@.expanded, self@.hosts.len());
        }
        let n = self.display_rows().len();
        if n > 0 {
            self.selected = n - 1;
        }
    }

    /// Page up: `height` lines up, stopping at the first line.
    pub fn page_up(&mut self, height: usize)
        requires
            old(self)@.wf(),
        ensures
            final(self)@.wf(),
            final(self)@ == old(self)@.with_selected(sat_sub(old(self)@.selected, height as nat)),
    {
        self.selected = if self.selected >= height {
            self.selected - height
        } else {
            0
        };
    }

    /// Page down.
    pub fn page_down(&mut self, height: usize)
        requires
            old(self)@.wf(),
            old(self)@.selected + height <= usize::MAX,
        ensures
            final(self)@.wf(),
            final(self)@ == old(self)@.paged_down(height as nat),
    {
        proof {
            lemma_rows_len(self@.hosts, self@.expanded, self@.hosts.len());
        }
        let n = self.display_rows().len();
        let last = if n >= 1 {
            n - 1
        } else {
            0
        };
        let t = self.selected + height;
        self.selected = if t < last {
            t
        } else {
            last
        };
    }

    /// Carries out a command; returns whether the browser keeps running.
    pub fn apply(&mut self, cmd: Command, height: usize) -> (running: bool)
        requires
            old(self)@.wf(),
            height <= 65535,
        ensures
            final(self)@.wf(),
            final(self)@ == old(self)@.after(cmd, height as nat),
            running == (cmd != Command::Quit),
    {
        match cmd {
            Command::Quit => {
                return false;
            },
            Command::Up => self.move_up(),
            Command::Down => self.move_down(),
            Command::Right => self.move_right(),
            Command::Left => self.move_left(),
            Command::Toggle => self.toggle_selected(),
            Command::ToggleAll => self.toggle_all(),
            Command::First => self.select_first(),
            Command::Last => self.select_last(),
            Command::PageUp => self.page_up(height),
            Command::PageDown => {
                self.page_down(height)
            },
            Command::Nothing => {},
        }
        true
    }

    /// Before drawing: keeps the scroll window of `height` lines around the
    /// selection.
    pub fn prepare_frame(&mut self, height: usize)
        requires
            old(self)@.wf(),
            height <= 65535,
        ensures
            final(self)@.wf(),
            final(self)@ == old(self)@.scrolled(height as nat),
    {
        self.adjust_scroll(height);
    }
}

} // verus!
