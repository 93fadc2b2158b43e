use rmap::browse::{frame_height, key_command, BrowserState, Command, DisplayRow, KeyInput};
use rmap::look::{host_addr_text, make_row, title, visible_rows, Highlight, Tone};
use rmap::types::{HostAddr, HostResult, PortResult, PortStatus};

fn host(last: u8, alive: Option<bool>, ports: &[(u16, PortStatus)]) -> HostResult {
    HostResult {
        ip: HostAddr::V4(u32::from_be_bytes([10, 0, 0, last])),
        alive,
        ports: ports
            .iter()
            .map(|&(port, status)| PortResult { port, status, service: None, version: None })
            .collect(),
    }
}

fn sample() -> BrowserState {
    BrowserState::new(vec![
        host(1, Some(true), &[(22, PortStatus::Open), (80, PortStatus::Closed)]),
        host(2, Some(false), &[]),
        host(3, None, &[(443, PortStatus::Filtered)]),
    ])
}

#[test]
fn starts_collapsed() {
    let s = sample();
    assert_eq!(
        s.display_rows(),
        vec![
            DisplayRow::Host { host_idx: 0 },
            DisplayRow::Host { host_idx: 1 },
            DisplayRow::Host { host_idx: 2 }
        ]
    );
    assert_eq!(s.selected(), 0);
}

#[test]
fn expand_and_collapse() {
    let mut s = sample();
    s.toggle_selected();
    assert_eq!(s.display_rows().len(), 5);
    assert_eq!(s.display_rows()[2], DisplayRow::Port { host_idx: 0, port_idx: 1 });
    s.move_down();
    s.move_down();
    assert_eq!(s.selected(), 2);
    // Collapsing from a port line selects the host line.
    s.toggle_selected();
    assert_eq!(s.selected(), 0);
    assert_eq!(s.display_rows().len(), 3);
}

#[test]
fn right_and_left() {
    let mut s = sample();
    s.move_right();
    assert_eq!(s.selected(), 1);
    assert_eq!(s.display_rows()[1], DisplayRow::Port { host_idx: 0, port_idx: 0 });
    s.move_left();
    assert_eq!(s.selected(), 0);
    assert!(!s.expanded()[0]);
    // A host without ports is expanded but the selection stays.
    s.move_down();
    s.move_right();
    assert_eq!(s.selected(), 1);
    assert!(s.expanded()[1]);
    s.move_left();
    assert!(!s.expanded()[1]);
    assert_eq!(s.selected(), 1);
}

#[test]
fn up_down_bounds() {
    let mut s = sample();
    s.move_up();
    assert_eq!(s.selected(), 0);
    for _ in 0..10 {
        s.move_down();
    }
    assert_eq!(s.selected(), 2);
    s.select_first();
    assert_eq!(s.selected(), 0);
    s.select_last();
    assert_eq!(s.selected(), 2);
}

#[test]
fn toggle_all_and_clamp() {
    let mut s = sample();
    s.toggle_all();
    assert_eq!(s.display_rows().len(), 6);
    s.select_last();
    assert_eq!(s.selected(), 5);
    s.toggle_all();
    assert_eq!(s.display_rows().len(), 3);
    assert_eq!(s.selected(), 2);
}

#[test]
fn paging() {
    let mut s = sample();
    s.toggle_all();
    assert!(s.apply(Command::PageDown, 4));
    assert_eq!(s.selected(), 4);
    assert!(s.apply(Command::PageDown, 4));
    assert_eq!(s.selected(), 5);
    assert!(s.apply(Command::PageUp, 2));
    assert_eq!(s.selected(), 3);
    assert!(s.apply(Command::PageUp, 10));
    assert_eq!(s.selected(), 0);
    assert!(!s.apply(Command::Quit, 4));
}

#[test]
fn scrolling_follows_selection() {
    let mut s = sample();
    s.toggle_all();
    s.prepare_frame(2);
    assert_eq!(s.scroll_offset(), 0);
    s.select_last();
    s.prepare_frame(2);
    assert_eq!(s.scroll_offset(), 4);
    s.select_first();
    s.prepare_frame(2);
    assert_eq!(s.scroll_offset(), 0);
    // A window taller than the list never scrolls.
    s.select_last();
    s.prepare_frame(50);
    assert_eq!(s.scroll_offset(), 0);
    s.prepare_frame(0);
    assert_eq!(s.scroll_offset(), 5);
}

#[test]
fn key_bindings() {
    assert_eq!(key_command(KeyInput::Char('q'), false, false), Command::Quit);
    assert_eq!(key_command(KeyInput::Esc, false, false), Command::Quit);
    assert_eq!(key_command(KeyInput::Char('c'), true, false), Command::Quit);
    assert_eq!(key_command(KeyInput::Char('c'), false, false), Command::Nothing);
    assert_eq!(key_command(KeyInput::Char('k'), false, false), Command::Up);
    assert_eq!(key_command(KeyInput::Down, false, false), Command::Down);
    assert_eq!(key_command(KeyInput::Char('l'), false, false), Command::Right);
    assert_eq!(key_command(KeyInput::Char('h'), false, false), Command::Left);
    assert_eq!(key_command(KeyInput::Enter, false, false), Command::Toggle);
    assert_eq!(key_command(KeyInput::Char(' '), false, false), Command::Toggle);
    assert_eq!(key_command(KeyInput::Char('a'), false, false), Command::ToggleAll);
    assert_eq!(key_command(KeyInput::Home, false, false), Command::First);
    assert_eq!(key_command(KeyInput::End, false, false), Command::Last);
    assert_eq!(key_command(KeyInput::PageUp, false, false), Command::PageUp);
    assert_eq!(key_command(KeyInput::PageDown, false, false), Command::PageDown);
    assert_eq!(key_command(KeyInput::Char('q'), false, true), Command::Nothing);
    assert_eq!(key_command(KeyInput::Other, false, false), Command::Nothing);
}

#[test]
fn body_height() {
    assert_eq!(frame_height(24), 20);
    assert_eq!(frame_height(5), 1);
    assert_eq!(frame_height(0), 1);
    assert_eq!(frame_height(u16::MAX), 65531);
}

#[test]
fn host_and_port_lines() {
    let mut s = sample();
    s.toggle_selected();
    let hosts = s.hosts();
    let r = make_row(DisplayRow::Host { host_idx: 0 }, hosts, s.expanded(), true, "10.0.0.1");
    let texts: Vec<&str> = r.cells.iter().map(|c| c.text.as_str()).collect();
    assert_eq!(texts, vec!["▼ ", "10.0.0.1", "up", "1/2", "", "", ""]);
    assert_eq!(r.highlight, Highlight::SelectedHost);
    assert_eq!(r.cells[2].tone, Tone::LightGreen);
    assert!(r.cells[1].bold);
    let r = make_row(DisplayRow::Host { host_idx: 1 }, hosts, s.expanded(), false, "10.0.0.2");
    assert_eq!(r.cells[0].text, "▶ ");
    assert_eq!(r.cells[2].text, "down");
    assert_eq!(r.cells[2].tone, Tone::Red);
    assert_eq!(r.cells[3].text, "0/0");
    assert_eq!(r.highlight, Highlight::Plain);
    let r = make_row(DisplayRow::Port { host_idx: 0, port_idx: 1 }, hosts, s.expanded(), false, "");
    let texts: Vec<&str> = r.cells.iter().map(|c| c.text.as_str()).collect();
    assert_eq!(texts, vec!["", "  └─ 80", "", "", "closed", "", ""]);
    assert_eq!(r.cells[4].tone, Tone::Red);
    assert_eq!(r.cells[1].tone, Tone::Gray);
}

#[test]
fn title_and_window() {
    let mut s = sample();
    assert_eq!(title(&s), " rmap  hosts=3  open=1  [1/3] ");
    s.toggle_all();
    s.select_last();
    assert_eq!(title(&s), " rmap  hosts=3  open=1  [6/6] ");
    s.prepare_frame(2);
    let w = visible_rows(&s, 2);
    assert_eq!(w, vec![(DisplayRow::Host { host_idx: 2 }, false), (DisplayRow::Port { host_idx: 2, port_idx: 0 }, true)]);
    let empty = BrowserState::new(Vec::new());
    assert_eq!(title(&empty), " rmap  hosts=0  open=0  [1/1] ");
    assert!(visible_rows(&empty, 5).is_empty());
}

#[test]
fn every_command_keeps_selection_on_a_line() {
    let commands = [
        Command::Right,
        Command::Down,
        Command::Toggle,
        Command::Last,
        Command::ToggleAll,
        Command::Left,
        Command::PageDown,
        Command::Toggle,
        Command::Up,
        Command::ToggleAll,
        Command::Last,
        Command::Left,
        Command::PageUp,
        Command::Right,
        Command::Nothing,
        Command::First,
    ];
    let mut s = sample();
    for cmd in commands {
        assert!(s.apply(cmd, 3));
        assert!(s.selected() < s.display_rows().len());
        s.prepare_frame(3);
        assert!(s.scroll_offset() <= s.selected() && s.selected() < s.scroll_offset() + 3);
    }
    let mut empty = BrowserState::new(vec![]);
    for cmd in commands {
        assert!(empty.apply(cmd, 3));
        assert_eq!(empty.selected(), 0);
    }
}

#[test]
fn toggling_a_host_twice_restores_it() {
    let mut s = sample();
    s.move_down();
    s.move_down();
    for _ in 0..2 {
        let before = (s.selected(), s.expanded().clone());
        s.toggle_selected();
        s.toggle_selected();
        assert_eq!((s.selected(), s.expanded().clone()), before);
        s.toggle_all();
        s.select_first();
    }
}

#[test]
fn down_undoes_up() {
    let mut s = sample();
    s.toggle_all();
    s.select_last();
    s.move_up();
    s.move_down();
    assert_eq!(s.selected(), 5);
}

#[test]
fn left_undoes_right() {
    let mut s = sample();
    s.move_down();
    s.move_down();
    let before = (s.selected(), s.expanded().clone());
    s.move_right();
    assert_eq!(s.selected(), 3);
    s.move_left();
    assert_eq!((s.selected(), s.expanded().clone()), before);
}

#[test]
fn port_line_needs_no_expanded_flags() {
    let s = sample();
    let r = make_row(DisplayRow::Port { host_idx: 2, port_idx: 0 }, s.hosts(), &vec![], true, "");
    assert_eq!(r.cells[4].text, "filtered");
    assert_eq!(r.cells[4].tone, Tone::LightYellow);
    assert_eq!(r.highlight, Highlight::SelectedPort);
}

#[test]
fn address_texts() {
    assert_eq!(host_addr_text(HostAddr::V4(0xC0A8_0A01), "unused"), "192.168.10.1");
    assert_eq!(host_addr_text(HostAddr::V4(0), ""), "0.0.0.0");
    assert_eq!(host_addr_text(HostAddr::V4(u32::MAX), ""), "255.255.255.255");
    assert_eq!(host_addr_text(HostAddr::V6(1), "::1"), "::1");
    // A host line writes its IPv4 address itself, whatever text is given.
    let s = sample();
    let r = make_row(DisplayRow::Host { host_idx: 2 }, s.hosts(), s.expanded(), false, "ignored");
    assert_eq!(r.cells[1].text, "10.0.0.3");
    let v6 = BrowserState::new(vec![HostResult { ip: HostAddr::V6(1), alive: None, ports: vec![] }]);
    let r = make_row(DisplayRow::Host { host_idx: 0 }, v6.hosts(), v6.expanded(), false, "::1");
    assert_eq!(r.cells[1].text, "::1");
}
