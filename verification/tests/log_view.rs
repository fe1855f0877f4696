use tui_hex_view::{
    line_text, line_text_from, strip_control_only, wrapped_row_count, LineHighlight, LineText,
    LogMatch, LogViewState, Overlay,
};

fn lines(v: &[&str]) -> Vec<String> {
    v.iter().map(|s| s.to_string()).collect()
}

fn held(state: &LogViewState) -> Vec<String> {
    state.lines.iter().cloned().collect()
}

#[test]
fn log_view_from_text_preserves_ansi_and_splits_lines() {
    let state = LogViewState::from_text("INFO ok\r\n\u{1b}[31mERROR\u{1b}[0m fail");
    assert_eq!(
        state.lines.iter().cloned().collect::<Vec<_>>(),
        vec!["INFO ok".to_string(), "\u{1b}[31mERROR\u{1b}[0m fail".to_string()]
    );
}

#[test]
fn log_push_lines_respects_limit() {
    let mut state = LogViewState::new(vec!["one".into()]);
    state.set_line_limit(Some(2));
    state.push_lines(vec!["two".into(), "three".into()]);

    assert_eq!(
        state.lines.iter().cloned().collect::<Vec<_>>(),
        vec!["two".to_string(), "three".to_string()]
    );
    assert!(state.auto_scroll);
}

#[test]
fn log_search_tracks_matching_lines_on_ansi_text() {
    let mut state = LogViewState::new(vec![
        "\u{1b}[31mERROR\u{1b}[0m first".into(),
        "ok".into(),
        "error second".into(),
    ]);
    state.set_search_query("error");

    assert_eq!(state.search_matches.len(), 2);
    assert_eq!(
        state.search_matches,
        vec![LogMatch { line: 0, range: 0..5 }, LogMatch { line: 2, range: 0..5 }]
    );
    assert_eq!(state.current_match_line(), Some(0));
}

#[test]
fn log_search_tracks_multiple_matches_per_line() {
    let mut state = LogViewState::new(vec!["prefix ERROR suffix ERROR".into()]);
    state.set_search_query("ERROR");

    assert_eq!(
        state.search_matches,
        vec![LogMatch { line: 0, range: 7..12 }, LogMatch { line: 0, range: 20..25 }]
    );
}

#[test]
fn log_search_uses_display_columns_for_wide_text() {
    let mut state = LogViewState::new(vec!["界needle".into()]);
    state.set_search_query("needle");

    assert_eq!(state.search_matches, vec![LogMatch { line: 0, range: 2..8 }]);
}

#[test]
fn log_search_navigation_wraps_without_matches_panicking() {
    let mut state = LogViewState::new(vec!["INFO".into()]);
    assert!(state.next_match().is_none());
    assert!(state.prev_match().is_none());

    state.set_lines(vec!["INFO".into(), "ERROR one".into(), "WARN".into(), "ERROR two".into()]);
    state.visible_rows = 2;
    state.recompute_wrap_geometry(20);
    state.set_search_query("ERROR");

    assert_eq!(state.current_match_line(), Some(1));
    assert_eq!(state.next_match().map(|m| m.line), Some(3));
    assert_eq!(state.current_match_line(), Some(3));
    assert_eq!(state.scroll, 2);
    assert_eq!(state.next_match().map(|m| m.line), Some(1));
    assert_eq!(state.prev_match().map(|m| m.line), Some(3));
}

#[test]
fn log_set_lines_rebuilds_search_state() {
    let mut state = LogViewState::new(vec!["ERROR one".into(), "ERROR two".into()]);
    state.visible_rows = 1;
    state.set_search_query("ERROR");
    assert_eq!(state.search_matches.len(), 2);

    state.set_lines(vec!["INFO only".into()]);

    assert!(state.search_matches.is_empty());
    assert_eq!(state.current_match, None);
    assert_eq!(state.scroll, 0);
    assert_eq!(state.highlighted_line, None);
    assert_eq!(state.search_query.as_deref(), Some("ERROR"));
}

#[test]
fn log_render_clamps_scroll_state() {
    let mut state = LogViewState::new(vec!["one".into(), "two".into()]);
    state.scroll = 99;

    // A 40-column, 2-row viewport without a border.
    let _ = state.prepare_window(40, 2);

    assert_eq!(state.scroll, 0);
}

#[test]
fn log_geometry_helpers_map_between_scroll_and_lines() {
    let mut state = LogViewState::new(vec!["123456789".into(), "tail".into()]);

    // A 5-column, 2-row viewport.
    let _ = state.prepare_window(5, 2);

    assert_eq!(state.scroll_offset_for_line(0), Some(0));
    assert_eq!(state.scroll_offset_for_line(1), Some(2));
    assert_eq!(state.line_index_at_scroll(0), 0);
    assert_eq!(state.line_index_at_scroll(1), 0);
    assert_eq!(state.line_index_at_scroll(2), 1);
    assert_eq!(state.max_scroll(), 1);
}

#[test]
fn log_wrap_toggle_updates_scroll_geometry() {
    let mut state = LogViewState::new(vec!["123456789".into(), "tail".into()]);

    let _ = state.prepare_window(5, 1);
    assert!(state.word_wrap);
    assert_eq!(state.max_scroll, 2);

    state.scroll_to_end();
    state.set_word_wrap(false);

    let _ = state.prepare_window(5, 1);
    assert!(!state.word_wrap);
    assert_eq!(state.max_scroll, 1);
    assert_eq!(state.scroll, 1);
}

#[test]
fn log_search_scroll_refreshes_geometry_after_wrap_toggle() {
    let mut state = LogViewState::new(vec!["123456789".into(), "needle".into()]);

    let _ = state.prepare_window(5, 1);
    state.set_word_wrap(false);
    state.set_search_query("needle");
    state.sync_scroll_to_current_match();

    assert_eq!(state.scroll, 1);
}

#[test]
fn log_render_highlights_current_match() {
    let mut state = LogViewState::new(vec!["INFO \u{1b}[31mERROR\u{1b}[0m timeout".into()]);
    state.set_search_query("ERROR");

    let win = state.prepare_window(40, 1);
    assert_eq!((win.first_line, win.end_line), (0, 1));
    assert_eq!(state.line_highlight(0), LineHighlight::Matches);

    // The cell at column 0 is outside the match.
    assert_ne!(state.overlay_at(0, 0, 1), Overlay::Current);
    assert_eq!(state.overlay_at(0, 0, 1), Overlay::Plain);

    // The cell at column 5 ("E") is in the current match.
    assert_eq!(state.overlay_at(0, 5, 6), Overlay::Current);
}

#[test]
fn log_render_highlights_actual_search_match_not_prefix() {
    let mut state = LogViewState::new(vec!["prefix needle suffix".into()]);
    state.set_search_query("needle");

    let _ = state.prepare_window(40, 1);

    assert_eq!(state.overlay_at(0, 0, 1), Overlay::Plain);
    assert_eq!(state.overlay_at(0, 7, 8), Overlay::Current);
}

#[test]
fn log_render_host_highlight_takes_precedence() {
    let mut state = LogViewState::new(vec!["ERROR timeout".into()]);
    state.set_search_query("ERROR");
    state.set_highlighted_line(Some(0));

    let _ = state.prepare_window(40, 1);

    assert_eq!(state.line_highlight(0), LineHighlight::Host);
}

// ── Search ───────────────────────────────────────────────────────────────────

#[test]
fn stepping_forward_then_back_returns_to_the_same_match() {
    let mut state = LogViewState::new(lines(&["a x", "x", "b", "x x"]));
    state.set_search_query("x");
    assert_eq!(state.search_matches.len(), 4);
    for _ in 0..4 {
        let start = state.current_match;
        state.next_match();
        state.prev_match();
        assert_eq!(state.current_match, start);
        state.next_match();
    }
    // Four steps around four matches come back to the first one.
    assert_eq!(state.current_match, Some(0));
    assert_eq!(state.prev_match().cloned(), Some(LogMatch { line: 3, range: 2..3 }));
}

#[test]
fn matches_come_in_reading_order() {
    let mut state = LogViewState::new(lines(&["aa aa", "", "aaaa", "a"]));
    state.set_search_query("aa");
    assert_eq!(
        state.search_matches,
        vec![
            LogMatch { line: 0, range: 0..2 },
            LogMatch { line: 0, range: 3..5 },
            LogMatch { line: 2, range: 0..2 },
            LogMatch { line: 2, range: 2..4 },
        ]
    );
}

#[test]
fn query_case_does_not_matter_without_case_sensitivity() {
    let text = lines(&["Error ERROR error", "eRRoR"]);
    let mut upper = LogViewState::new(text.clone());
    upper.set_search_query("ERROR");
    let mut lower = LogViewState::new(text);
    lower.set_search_query("error");
    assert_eq!(upper.search_matches, lower.search_matches);
    assert_eq!(upper.search_matches.len(), 4);
}

#[test]
fn case_sensitive_search_matches_exact_case() {
    let mut state = LogViewState::new(lines(&["Error ERROR error"]));
    state.set_search_query("ERROR");
    assert_eq!(state.search_matches.len(), 3);
    state.set_case_sensitive(true);
    assert_eq!(state.search_matches, vec![LogMatch { line: 0, range: 6..11 }]);
    assert_eq!(state.current_match, Some(0));
    state.set_case_sensitive(false);
    assert_eq!(state.search_matches.len(), 3);
}

#[test]
fn search_sees_only_visible_text() {
    let mut colored = LogViewState::new(lines(&["\u{1b}[1;32mok\u{1b}[0m done"]));
    colored.set_search_query("ok done");
    let mut plain = LogViewState::new(lines(&["ok done"]));
    plain.set_search_query("ok done");
    assert_eq!(colored.search_matches, plain.search_matches);
    assert_eq!(colored.search_matches, vec![LogMatch { line: 0, range: 0..7 }]);
    // The escape sequence's own text is not searched.
    colored.set_search_query("32m");
    assert!(colored.search_matches.is_empty());
}

#[test]
fn empty_query_clears_search() {
    let mut state = LogViewState::new(lines(&["abc"]));
    state.set_search_query("b");
    assert!(state.has_search());
    state.set_search_query("");
    assert!(!state.has_search());
    assert!(state.search_matches.is_empty());
    assert!(state.current_match().is_none());
    state.set_search_query("c");
    state.clear_search();
    assert!(!state.has_search());
    assert_eq!(state.current_match_line(), None);
}

// ── Lines, retention and scrolling ───────────────────────────────────────────

#[test]
fn retention_keeps_the_newest_lines() {
    let mut state = LogViewState::new(lines(&["1", "2", "3", "4"]));
    state.set_line_limit(Some(3));
    assert_eq!(held(&state), lines(&["2", "3", "4"]));
    state.push_lines(lines(&["5"]));
    assert_eq!(held(&state), lines(&["3", "4", "5"]));
    state.set_line_limit(None);
    state.push_lines(lines(&["6"]));
    assert_eq!(state.total_lines(), 4);
    state.set_line_limit(Some(0));
    assert_eq!(state.total_lines(), 0);
}

#[test]
fn retention_rebuilds_search() {
    let mut state = LogViewState::new(lines(&["hit", "miss", "hit"]));
    state.set_search_query("hit");
    assert_eq!(state.search_matches.len(), 2);
    state.set_line_limit(Some(2));
    assert_eq!(state.search_matches, vec![LogMatch { line: 1, range: 0..3 }]);
}

#[test]
fn from_text_splits_like_lines() {
    let state = LogViewState::from_text("a\n\nb\r\n");
    assert_eq!(held(&state), lines(&["a", "", "b"]));
    let empty = LogViewState::from_text("");
    assert_eq!(empty.total_lines(), 0);
}

#[test]
fn pushed_lines_show_at_the_bottom_on_next_layout() {
    let mut state = LogViewState::new(lines(&["1", "2"]));
    let _ = state.prepare_window(10, 2);
    assert_eq!(state.scroll, 0);
    state.push_lines(lines(&["3", "4", "5"]));
    let win = state.prepare_window(10, 2);
    assert_eq!(state.scroll, 3);
    assert!(!state.auto_scroll);
    assert_eq!((win.first_line, win.end_line, win.scroll_within), (3, 5, 0));
}

#[test]
fn scrolling_stays_in_range_and_round_trips() {
    let mut state = LogViewState::new(lines(&["1", "2", "3", "4", "5", "6", "7", "8", "9", "10"]));
    let _ = state.prepare_window(10, 3);
    assert_eq!(state.max_scroll(), 7);
    state.page_down();
    assert_eq!(state.scroll, 3);
    state.page_up();
    assert_eq!(state.scroll, 0);
    state.scroll_down();
    state.scroll_up();
    assert_eq!(state.scroll, 0);
    state.scroll_up();
    assert_eq!(state.scroll, 0);
    state.scroll_to_end();
    assert_eq!(state.scroll, 7);
    state.scroll_down();
    assert_eq!(state.scroll, 7);
    state.page_down();
    assert_eq!(state.scroll, 7);
    state.scroll_to_start();
    assert_eq!(state.scroll, 0);
}

#[test]
fn line_offsets_round_trip_with_wrapping() {
    let mut state = LogViewState::new(lines(&["0123456789ab", "", "xyz", "界界界"]));
    let _ = state.prepare_window(4, 2);
    let offsets: Vec<Option<usize>> = (0..5).map(|i| state.scroll_offset_for_line(i)).collect();
    assert_eq!(offsets, vec![Some(0), Some(3), Some(4), Some(5), None]);
    for line in 0..4 {
        let row = state.scroll_offset_for_line(line).unwrap();
        assert_eq!(state.line_index_at_scroll(row), line);
    }
    assert_eq!(state.line_index_at_scroll(100), 3);
}

#[test]
fn toggling_wrap_changes_the_geometry() {
    let mut state = LogViewState::new(lines(&["abcdefgh"]));
    let _ = state.prepare_window(2, 1);
    assert_eq!(state.max_scroll, 3);
    assert!(!state.toggle_word_wrap());
    assert_eq!(state.max_scroll(), 0);
    assert!(state.toggle_word_wrap());
    assert_eq!(state.max_scroll(), 3);
}

#[test]
fn highlighted_line_is_kept_only_inside_the_log() {
    let mut state = LogViewState::new(lines(&["a", "\u{1b}[1mb\u{1b}[0m"]));
    state.set_highlighted_line(Some(1));
    assert_eq!(state.highlighted_line_text(), Some("\u{1b}[1mb\u{1b}[0m"));
    state.set_highlighted_line(Some(5));
    assert_eq!(state.highlighted_line, None);
    assert_eq!(state.highlighted_line_text(), None);
}

#[test]
fn other_matches_get_the_plain_match_overlay() {
    let mut state = LogViewState::new(lines(&["ab ab"]));
    state.set_search_query("ab");
    assert_eq!(state.overlay_at(0, 0, 1), Overlay::Current);
    assert_eq!(state.overlay_at(0, 2, 3), Overlay::Plain);
    assert_eq!(state.overlay_at(0, 3, 4), Overlay::Match);
    assert_eq!(state.line_highlight(1), LineHighlight::Plain);
}

// ── Rendering helpers ────────────────────────────────────────────────────────

#[test]
fn wrapped_row_count_rounds_up_visible_width() {
    assert_eq!(wrapped_row_count("", 10), 1);
    assert_eq!(wrapped_row_count("abc", 3), 1);
    assert_eq!(wrapped_row_count("abcd", 3), 2);
    assert_eq!(wrapped_row_count("\u{1b}[31mabcd\u{1b}[0m", 4), 1);
    assert_eq!(wrapped_row_count("界界", 0), 4);
}

#[test]
fn strip_control_only_keeps_newlines_and_tabs() {
    assert_eq!(strip_control_only("a\u{1b}b\tc\nd\u{7}\u{85}é"), "ab\tc\ndé");
}

#[test]
fn preparing_the_same_viewport_twice_draws_the_same() {
    let mut state = LogViewState::new(lines(&["0123456789", "a", "bcdefgh", "i", "j"]));
    state.push_lines(lines(&["k"]));
    let first = state.prepare_window(3, 2);
    let scroll = state.scroll;
    let second = state.prepare_window(3, 2);
    assert_eq!(first, second);
    assert_eq!(state.scroll, scroll);
    assert_eq!(scroll, state.max_scroll);
}

#[test]
fn set_lines_keeps_the_newest_under_the_limit() {
    let mut state = LogViewState::new(lines(&["a"]));
    state.set_line_limit(Some(2));
    state.set_lines(lines(&["1", "2", "3", "4"]));
    assert_eq!(held(&state), lines(&["3", "4"]));
    state.set_line_limit(None);
    state.set_lines(lines(&["1", "2", "3"]));
    assert_eq!(state.total_lines(), 3);
}

fn cut(state: &LogViewState, line: usize, spans: &[&str]) -> Vec<(usize, String, Overlay)> {
    let texts: Vec<String> = spans.iter().map(|s| s.to_string()).collect();
    state
        .highlight_pieces(line, &texts)
        .into_iter()
        .map(|p| (p.span, p.text, p.overlay))
        .collect()
}

#[test]
fn highlight_pieces_follow_columns_across_spans() {
    let mut state = LogViewState::new(lines(&["INFO \u{1b}[31mERROR\u{1b}[0m timeout ERROR"]));
    state.set_search_query("ERROR");
    let pieces = cut(&state, 0, &["INFO ", "ERR", "OR timeout ", "ERROR"]);
    assert_eq!(
        pieces,
        vec![
            (0, "INFO ".to_string(), Overlay::Plain),
            (1, "ERR".to_string(), Overlay::Current),
            (2, "OR".to_string(), Overlay::Current),
            (2, " timeout ".to_string(), Overlay::Plain),
            (3, "ERROR".to_string(), Overlay::Match),
        ]
    );
}

#[test]
fn highlight_pieces_keep_zero_width_chars_with_the_char_before() {
    let mut state = LogViewState::new(lines(&["xe\u{301}y"]));
    state.set_search_query("e");
    // The combining accent has no width and keeps the highlight of the `e`.
    let pieces = cut(&state, 0, &["xe\u{301}y"]);
    assert_eq!(
        pieces,
        vec![
            (0, "x".to_string(), Overlay::Plain),
            (0, "e\u{301}".to_string(), Overlay::Current),
            (0, "y".to_string(), Overlay::Plain),
        ]
    );
    // At the start of a span it takes no highlight.
    let pieces = cut(&state, 0, &["x", "\u{301}e"]);
    assert_eq!(
        pieces,
        vec![
            (0, "x".to_string(), Overlay::Plain),
            (1, "\u{301}".to_string(), Overlay::Plain),
            (1, "e".to_string(), Overlay::Current),
        ]
    );
    assert!(cut(&state, 0, &["", ""]).is_empty());
}

#[test]
fn line_text_parses_escapes_or_falls_back_to_plain_text() {
    match line_text("\u{1b}[31mERROR\u{1b}[0m ok") {
        LineText::Styled(lines) => {
            assert_eq!(lines.len(), 1);
            let texts: Vec<&str> = lines[0].iter().map(|s| s.text.as_str()).collect();
            assert_eq!(texts, vec!["ERROR", " ok"]);
            assert_eq!(lines[0][0].style.fg, Some(ratatui::style::Color::Red));
            assert_ne!(lines[0][1].style.fg, Some(ratatui::style::Color::Red));
        }
        LineText::Plain(_) => panic!("escapes were not parsed"),
    }
    match line_text("plain") {
        LineText::Styled(lines) => {
            let texts: Vec<&str> = lines[0].iter().map(|s| s.text.as_str()).collect();
            assert_eq!(texts, vec!["plain"]);
        }
        LineText::Plain(_) => panic!("plain text parses too"),
    }
    match line_text_from(None, "a\u{7}b\tc") {
        LineText::Plain(s) => assert_eq!(s, "ab\tc"),
        LineText::Styled(_) => panic!("no parse was given"),
    }
}

#[test]
fn direct_field_writes_are_detected_and_repaired() {
    let mut state = LogViewState::new(lines(&["one", "two"]));
    let _ = state.prepare_window(10, 1);
    assert!(state.is_well_formed());
    state.lines.push_back("three".to_string());
    assert!(!state.is_well_formed());
    assert!(state.resync());
    assert!(state.is_well_formed());
    let _ = state.prepare_window(10, 1);
    assert_eq!(state.max_scroll, 2);
    state.current_match = Some(5);
    assert!(!state.is_well_formed());
}

#[test]
fn search_setters_leave_geometry_and_scroll_alone() {
    let mut state = LogViewState::new(lines(&["ERROR a", "b", "ERROR c", "d"]));
    state.set_line_limit(Some(10));
    let _ = state.prepare_window(20, 2);
    state.scroll_down();
    let (offsets, max, rows) = (state.row_offsets.clone(), state.max_scroll, state.visible_rows);
    state.set_search_query("error");
    state.set_case_sensitive(true);
    state.clear_search();
    assert_eq!(state.row_offsets, offsets);
    assert_eq!((state.max_scroll, state.visible_rows, state.scroll), (max, rows, 1));
    assert_eq!(state.line_limit, Some(10));
    assert!(!state.auto_scroll);
}
