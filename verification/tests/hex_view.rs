use ratatui::style::Color;
use tui_hex_view::{
    columns_for, CellKind, HexLine, HexViewEvent, HexViewState, KeyCode, KeyInput, Marker, ViewMode,
};

fn press(code: KeyCode) -> KeyInput {
    KeyInput { code, press: true, shift: false, control: false }
}

fn key(c: char) -> KeyInput {
    press(KeyCode::Char(c))
}

#[test]
fn view_mode_cycle() {
    let m = ViewMode::HexAscii;
    assert_eq!(m.next(), ViewMode::HexOnly);
    assert_eq!(m.next().next(), ViewMode::AsciiOnly);
    assert_eq!(m.next().next().next(), ViewMode::HexAscii);
}

#[test]
fn nibble_edit_roundtrip() {
    let mut state = HexViewState::new(vec![0x00]);
    // Enter edit mode
    let _ = state.handle_key(press(KeyCode::Enter));
    assert!(state.edit.is_some());

    // Type '4' then '2' → byte becomes 0x42
    state.handle_key(key('4'));
    let ev = state.handle_key(key('2'));
    assert_eq!(ev, HexViewEvent::ByteEdited { pos: 0, old: 0x00, new: 0x42 });
    assert_eq!(state.bytes[0], 0x42);
}

#[test]
fn add_remove_marker() {
    let mut state = HexViewState::new(vec![0u8; 32]);
    state.add_marker(8, "test", Color::Cyan);
    assert_eq!(state.markers.len(), 1);
    state.remove_marker(8);
    assert!(state.markers.is_empty());
}

#[test]
fn set_bytes_clears_stale_markers() {
    let mut state = HexViewState::new(vec![0u8; 32]);
    state.add_marker(8, "header", Color::Cyan);

    state.set_bytes(vec![1u8; 8]);

    assert!(state.markers.is_empty());
    assert_eq!(state.cursor, 0);
    assert_eq!(state.scroll, 0);
}

#[test]
fn sync_scroll_accounts_for_marker_lines() {
    let mut state = HexViewState::new(vec![0u8; 64]);
    state.visible_rows = 3;
    state.cols = 16;
    state.cursor = 32;
    state.add_marker(0, "m0", Color::Cyan);
    state.add_marker(16, "m1", Color::Yellow);

    state.sync_scroll();

    assert_eq!(state.scroll, 1);
}

#[test]
fn render_keeps_cursor_row_visible_when_markers_stack_on_same_row() {
    let mut state = HexViewState::new(vec![0u8; 32]);
    state.visible_rows = 2;
    state.cols = 16;
    state.cursor = 16;
    state.markers.push(Marker { offset: 16, label: "m0".into(), color: Color::Cyan });
    state.markers.push(Marker { offset: 20, label: "m1".into(), color: Color::Yellow });
    state.sync_scroll();

    // A 40-column, 2-row viewport without a border.
    let cols = columns_for(None, 40);
    let lines = state.layout_hex(cols, 2);

    // The second screen line is a byte row, whose first cell shows its offset.
    let row = match lines[1] {
        HexLine::Data(row) => row,
        HexLine::Marker(_) => panic!("second line is a marker line"),
    };
    let cells = state.row_cells_of(row, cols, state.mode == ViewMode::HexAscii);
    assert_eq!(cells[0].text.chars().next(), Some('0'));
}

#[test]
fn render_clamps_scroll_state() {
    let mut state = HexViewState::new(vec![0u8; 16]);
    state.scroll = 99;

    // An 80-column, 4-row viewport without a border.
    let cols = columns_for(None, 80);
    let _ = state.layout_hex(cols, 4);

    assert_eq!(state.scroll, 0);
}

// ── Navigation and commands ──────────────────────────────────────────────────

#[test]
fn arrow_keys_move_cursor_and_report_it() {
    let mut state = HexViewState::new(vec![0u8; 40]);
    assert_eq!(state.handle_key(press(KeyCode::Right)), HexViewEvent::CursorMoved { new_pos: 1 });
    assert_eq!(state.handle_key(press(KeyCode::Down)), HexViewEvent::CursorMoved { new_pos: 17 });
    assert_eq!(state.handle_key(key('h')), HexViewEvent::CursorMoved { new_pos: 16 });
    assert_eq!(state.handle_key(key('k')), HexViewEvent::CursorMoved { new_pos: 0 });
    // Left at the start stays at the start.
    assert_eq!(state.handle_key(press(KeyCode::Left)), HexViewEvent::CursorMoved { new_pos: 0 });
    // Down past the end stops at the last byte.
    state.cursor = 30;
    assert_eq!(state.handle_key(key('j')), HexViewEvent::CursorMoved { new_pos: 39 });
    assert_eq!(state.handle_key(press(KeyCode::Home)), HexViewEvent::CursorMoved { new_pos: 0 });
    assert_eq!(state.handle_key(key('G')), HexViewEvent::CursorMoved { new_pos: 39 });
    assert_eq!(state.handle_key(key('g')), HexViewEvent::CursorMoved { new_pos: 0 });
}

#[test]
fn paging_moves_by_a_screen_of_rows() {
    let mut state = HexViewState::new(vec![0u8; 200]);
    state.visible_rows = 4;
    assert_eq!(state.handle_key(press(KeyCode::PageDown)), HexViewEvent::CursorMoved { new_pos: 64 });
    assert_eq!(state.handle_key(press(KeyCode::PageDown)), HexViewEvent::CursorMoved { new_pos: 128 });
    assert_eq!(state.handle_key(press(KeyCode::PageDown)), HexViewEvent::CursorMoved { new_pos: 192 });
    assert_eq!(state.handle_key(press(KeyCode::PageDown)), HexViewEvent::CursorMoved { new_pos: 199 });
    assert_eq!(state.handle_key(press(KeyCode::PageUp)), HexViewEvent::CursorMoved { new_pos: 135 });
}

#[test]
fn navigation_scrolls_cursor_into_view_and_keeps_content() {
    let mut state = HexViewState::new(vec![7u8; 160]);
    state.visible_rows = 3;
    state.add_marker(32, "mid", Color::Cyan);
    let before_bytes = state.bytes.clone();
    for _ in 0..5 {
        state.handle_key(press(KeyCode::Down));
    }
    assert_eq!(state.cursor, 80);
    // Row 5 is shown with the rows above it: scroll 3 shows rows 3, 4, 5.
    assert_eq!(state.scroll, 3);
    assert_eq!(state.bytes, before_bytes);
    assert_eq!(state.markers.len(), 1);
    // Going back up scrolls up to the cursor's row.
    state.handle_key(press(KeyCode::Home));
    assert_eq!(state.scroll, 0);
}

#[test]
fn released_keys_do_nothing() {
    let mut state = HexViewState::new(vec![1, 2, 3]);
    let release = KeyInput { code: KeyCode::Right, press: false, shift: false, control: false };
    assert_eq!(state.handle_key(release), HexViewEvent::NoEvent);
    assert_eq!(state.cursor, 0);
}

#[test]
fn edit_session_cancels_on_escape_and_on_non_hex_keys() {
    let mut state = HexViewState::new(vec![0xaa, 0xbb]);
    assert_eq!(state.handle_key(press(KeyCode::Enter)), HexViewEvent::EditStarted { at: 0 });
    assert_eq!(state.handle_key(press(KeyCode::Esc)), HexViewEvent::EditCancelled);
    assert!(state.edit.is_none());
    state.handle_key(press(KeyCode::Enter));
    state.handle_key(key('1'));
    assert_eq!(state.handle_key(key('x')), HexViewEvent::EditCancelled);
    assert!(state.edit.is_none());
    assert_eq!(state.bytes, vec![0xaa, 0xbb]);
}

#[test]
fn edit_advances_to_next_byte_and_stops_after_last() {
    let mut state = HexViewState::new(vec![0, 0]);
    state.handle_key(press(KeyCode::Enter));
    state.handle_key(key('a'));
    assert_eq!(state.handle_key(key('b')), HexViewEvent::ByteEdited { pos: 0, old: 0, new: 0xab });
    assert_eq!(state.cursor, 1);
    assert_eq!(state.edit.map(|e| e.byte_pos), Some(1));
    state.handle_key(key('f'));
    assert_eq!(state.handle_key(key('0')), HexViewEvent::ByteEdited { pos: 1, old: 0, new: 0xf0 });
    assert!(state.edit.is_none());
    assert_eq!(state.cursor, 1);
    assert_eq!(state.bytes, vec![0xab, 0xf0]);
}

#[test]
fn two_digits_write_the_byte_they_spell() {
    for (hi, lo, value) in [('0', '0', 0x00u8), ('9', 'f', 0x9f), ('f', 'f', 0xff), ('c', '3', 0xc3)] {
        let mut state = HexViewState::new(vec![0x11]);
        state.handle_key(press(KeyCode::Enter));
        assert_eq!(state.handle_key(key(hi)), HexViewEvent::NoEvent);
        let ev = state.handle_key(key(lo));
        assert_eq!(ev, HexViewEvent::ByteEdited { pos: 0, old: 0x11, new: value });
        assert_eq!(state.bytes[0], value);
    }
}

#[test]
fn enter_on_empty_buffer_does_nothing() {
    let mut state = HexViewState::new(Vec::new());
    assert_eq!(state.handle_key(press(KeyCode::Enter)), HexViewEvent::NoEvent);
    assert!(state.edit.is_none());
}

#[test]
fn commands_report_their_events() {
    let mut state = HexViewState::new(vec![1, 2, 3, 4]);
    state.cursor = 2;
    assert_eq!(state.handle_key(key('m')), HexViewEvent::MarkerRequested { at: 2 });
    assert_eq!(state.handle_key(key('v')), HexViewEvent::ModeChanged { new_mode: ViewMode::HexOnly });
    assert_eq!(state.mode, ViewMode::HexOnly);
    state.add_marker(1, "one", Color::Red);
    assert_eq!(state.handle_key(key('C')), HexViewEvent::MarkersCleared);
    assert!(state.markers.is_empty());
    assert_eq!(state.handle_key(key('z')), HexViewEvent::NoEvent);
}

#[test]
fn control_r_restores_the_baseline() {
    let mut state = HexViewState::new(vec![5, 6]);
    state.handle_key(press(KeyCode::Enter));
    state.handle_key(key('0'));
    state.handle_key(key('0'));
    assert_eq!(state.bytes, vec![0, 6]);
    // The session moved on to the next byte; leave it first.
    assert_eq!(state.handle_key(press(KeyCode::Esc)), HexViewEvent::EditCancelled);
    let ctrl_r = KeyInput { code: KeyCode::Char('r'), press: true, shift: false, control: true };
    assert_eq!(state.handle_key(ctrl_r), HexViewEvent::BytesReset);
    assert_eq!(state.bytes, vec![5, 6]);

    state.original_bytes = None;
    assert_eq!(state.handle_key(ctrl_r), HexViewEvent::NoEvent);
}

#[test]
fn reset_baseline_takes_current_bytes() {
    let mut state = HexViewState::new(vec![1]);
    state.bytes[0] = 9;
    state.reset_baseline();
    assert_eq!(state.original_bytes, Some(vec![9]));
}

// ── Markers ──────────────────────────────────────────────────────────────────

#[test]
fn markers_stay_sorted_and_one_per_offset() {
    let mut state = HexViewState::new(vec![0u8; 64]);
    state.add_marker(40, "c", Color::Red);
    state.add_marker(8, "a", Color::Red);
    state.add_marker(20, "b", Color::Red);
    state.add_marker(8, "a2", Color::Blue);
    let offsets: Vec<usize> = state.markers.iter().map(|m| m.offset).collect();
    assert_eq!(offsets, vec![8, 20, 40]);
    assert_eq!(state.markers[0].label, "a2");
    assert_eq!(state.markers[0].color, Color::Blue);
}

#[test]
fn removing_an_added_marker_restores_the_others() {
    let mut state = HexViewState::new(vec![0u8; 64]);
    state.add_marker(0, "start", Color::Red);
    state.add_marker(32, "end", Color::Red);
    state.add_marker(16, "tmp", Color::Green);
    state.remove_marker(16);
    let labels: Vec<&str> = state.markers.iter().map(|m| m.label.as_str()).collect();
    assert_eq!(labels, vec!["start", "end"]);
    state.remove_marker(99);
    assert_eq!(state.markers.len(), 2);
    state.clear_markers();
    assert!(state.markers.is_empty());
}

// ── Geometry ─────────────────────────────────────────────────────────────────

#[test]
fn total_rows_rounds_up() {
    let mut state = HexViewState::new(vec![0u8; 33]);
    assert_eq!(state.total_rows(), 3);
    state.cols = 8;
    assert_eq!(state.total_rows(), 5);
    state.set_bytes(Vec::new());
    assert_eq!(state.total_rows(), 0);
}

#[test]
fn clamping_keeps_cursor_and_scroll_in_range() {
    let mut state = HexViewState::new(vec![0u8; 20]);
    state.cursor = 50;
    state.scroll = 9;
    state.clamp_cursor();
    state.clamp_scroll();
    assert_eq!(state.cursor, 19);
    assert_eq!(state.scroll, 1);
}

#[test]
fn cycle_mode_follows_the_cycle() {
    let mut state = HexViewState::new(vec![]);
    state.cycle_mode();
    assert_eq!(state.mode, ViewMode::HexOnly);
    assert_eq!(state.mode.label(), "hex");
    state.cycle_mode();
    state.cycle_mode();
    assert_eq!(state.mode, ViewMode::HexAscii);
}

#[test]
fn layout_puts_marker_lines_above_their_rows() {
    let mut state = HexViewState::new(vec![0u8; 48]);
    state.add_marker(16, "m", Color::Cyan);
    let lines = state.layout_hex(16, 10);
    assert_eq!(
        lines,
        vec![HexLine::Data(0), HexLine::Marker(0), HexLine::Data(1), HexLine::Data(2)]
    );
    assert_eq!(state.visible_rows, 10);
}

#[test]
fn row_cells_show_offset_bytes_and_ascii() {
    let state = HexViewState::new(b"AB\x00".to_vec());
    let cells = state.row_cells_of(0, 8, true);
    let text: String = cells.iter().map(|c| c.text.as_str()).collect();
    assert_eq!(text, format!("00000000  41 42 00{}  │AB·│", " ".repeat(15)));
    assert_eq!(cells[0].kind, CellKind::Offset);
}

#[test]
fn ascii_layout_clamps_scroll_to_lines() {
    let mut state = HexViewState::new(b"a\nb\nc\nd".to_vec());
    state.scroll = 10;
    let lines = state.layout_ascii(3);
    assert_eq!(state.scroll, 1);
    assert_eq!(lines, vec!["b".to_string(), "c".to_string(), "d".to_string()]);
}

#[test]
fn columns_follow_width_unless_set() {
    assert_eq!(columns_for(None, 76), 16);
    assert_eq!(columns_for(None, 75), 8);
    assert_eq!(columns_for(Some(4), 200), 4);
}

#[test]
fn syncing_scroll_twice_changes_nothing() {
    let mut state = HexViewState::new(vec![0u8; 256]);
    state.visible_rows = 4;
    state.add_marker(100, "a", Color::Red);
    state.add_marker(120, "b", Color::Red);
    state.cursor = 130;
    state.sync_scroll();
    let (cursor, scroll) = (state.cursor, state.scroll);
    state.sync_scroll();
    assert_eq!((state.cursor, state.scroll), (cursor, scroll));
    assert_eq!(scroll, 7);
}

#[test]
fn cursor_row_is_drawn_under_stacked_markers() {
    let mut state = HexViewState::new(vec![0u8; 64]);
    state.visible_rows = 3;
    for off in [32, 33, 34, 35, 36] {
        state.add_marker(off, "m", Color::Cyan);
    }
    state.cursor = 40;
    state.sync_scroll();
    let lines = state.layout_hex(16, 3);
    assert_eq!(lines, vec![HexLine::Data(0), HexLine::Data(1), HexLine::Data(2)]);

    // Scrolled down to the cursor's row, the last markers that fit are shown above it.
    state.scroll = 2;
    let lines = state.layout_hex(16, 3);
    assert_eq!(lines, vec![HexLine::Marker(3), HexLine::Marker(4), HexLine::Data(2)]);
}

#[test]
fn marker_separator_shows_label_and_offset() {
    let m = Marker { offset: 20, label: "m1".into(), color: Color::Yellow };
    assert_eq!(m.separator(), "── m1 (0x0014) ");
    let m = Marker { offset: 0x12345, label: String::new(), color: Color::Red };
    assert_eq!(m.separator(), "──  (0x12345) ");
}
