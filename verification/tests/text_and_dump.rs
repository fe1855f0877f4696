use tui_hex_view::{
    ansi_visible_len, ascii_view, display_width, display_width_char, hex_dump, strip_ansi_codes,
};

#[test]
fn hex_dump_basic() {
    let s = hex_dump(b"ABCDEFGH", 80, true);
    assert!(s.contains("41 42 43 44 45 46 47 48"));
    assert!(s.contains("|ABCDEFGH|"));
}

#[test]
fn ascii_view_crlf() {
    let bytes = b"hello\r\nworld";
    let s = ascii_view(bytes);
    assert_eq!(s, "hello\nworld");
}

#[test]
fn strip_ansi_codes_removes_color_sequences() {
    let line = "\u{1b}[31mERROR\u{1b}[0m timeout";
    assert_eq!(strip_ansi_codes(line), "ERROR timeout");
}

#[test]
fn ansi_visible_len_handles_osc_and_utf8() {
    let line = "\u{1b}]0;title\u{7}hé";
    assert_eq!(ansi_visible_len(line), 2);
}

// ── Dumps ────────────────────────────────────────────────────────────────────

#[test]
fn hex_dump_wide_rows_pad_the_hex_column() {
    let s = hex_dump(b"ABCDEFGH", 80, true);
    let hex = "41 42 43 44 45 46 47 48";
    let expected = format!("00000000  {hex}{}  |ABCDEFGH|", " ".repeat(16 * 3 - 1 - hex.len()));
    assert_eq!(s, expected);
}

#[test]
fn hex_dump_narrow_rows_hold_eight_bytes() {
    let bytes: Vec<u8> = (0u8..20).collect();
    let s = hex_dump(&bytes, 40, false);
    assert_eq!(
        s,
        "00000000  00 01 02 03 04 05 06 07\n\
         00000008  08 09 0a 0b 0c 0d 0e 0f\n\
         00000010  10 11 12 13"
    );
}

#[test]
fn hex_dump_shows_dots_for_unprintable_bytes() {
    let s = hex_dump(&[0x00, 0x41, 0x7f, 0xff, 0x20], 10, true);
    assert_eq!(s, format!("00000000  00 41 7f ff 20{}  |.A.. |", " ".repeat(9)));
}

#[test]
fn hex_dump_of_nothing_is_empty() {
    assert_eq!(hex_dump(&[], 80, true), "");
}

#[test]
fn hex_dump_digits_read_back() {
    let bytes: Vec<u8> = (0u8..=255).collect();
    let s = hex_dump(&bytes, 80, false);
    let mut seen = Vec::new();
    for (row, line) in s.lines().enumerate() {
        let (offset, rest) = line.split_at(8);
        assert_eq!(usize::from_str_radix(offset, 16).unwrap(), row * 16);
        for group in rest.split_whitespace() {
            assert_eq!(group.len(), 2);
            seen.push(u8::from_str_radix(group, 16).unwrap());
        }
    }
    assert_eq!(seen, bytes);
}

#[test]
fn ascii_view_keeps_printable_text_and_tabs() {
    assert_eq!(ascii_view(b"a\tb\nc\rd\x00\x7f\xc3"), "a\tb\nc·d···");
    assert_eq!(ascii_view(b"\r\n\r\r\n"), "\n·\n");
}

#[test]
fn ascii_view_output_alphabet() {
    let bytes: Vec<u8> = (0u8..=255).collect();
    for c in ascii_view(&bytes).chars() {
        assert!((' '..='~').contains(&c) || c == '\t' || c == '\n' || c == '·');
    }
}

// ── Text rules ───────────────────────────────────────────────────────────────

#[test]
fn display_widths_follow_unicode_widths() {
    assert_eq!(display_width_char('a'), 1);
    assert_eq!(display_width_char('界'), 2);
    assert_eq!(display_width_char('\t'), 1);
    assert_eq!(display_width_char('\u{7}'), 0);
    assert_eq!(display_width_char('\u{301}'), 0);
    assert_eq!(display_width("a界\tb"), 5);
    assert_eq!(display_width(""), 0);
}

#[test]
fn stripping_handles_unfinished_and_osc_sequences() {
    assert_eq!(strip_ansi_codes("a\u{1b}]8;;http://x\u{1b}\\link\u{1b}]8;;\u{7}b"), "alinkb");
    assert_eq!(strip_ansi_codes("x\u{1b}[1;2"), "x");
    assert_eq!(strip_ansi_codes("\u{1b}\u{1b}[0mok"), "ok");
    assert_eq!(strip_ansi_codes("\u{1b}(B"), "(B");
}

#[test]
fn stripping_is_idempotent_and_keeps_plain_text() {
    let line = "\u{1b}[31mred\u{1b}[0m and plain";
    let once = strip_ansi_codes(line);
    assert_eq!(strip_ansi_codes(&once), once);
    assert_eq!(strip_ansi_codes("plain text"), "plain text");
}

#[test]
fn visible_length_counts_columns_after_stripping() {
    assert_eq!(ansi_visible_len("\u{1b}[32m界\u{1b}[0m!"), 3);
    assert_eq!(ansi_visible_len(""), 0);
}

#[test]
fn stripping_keeps_the_remaining_characters_in_order() {
    let line = "a\u{1b}[1mb\u{1b}]0;t\u{7}c\u{1b}d";
    let out = strip_ansi_codes(line);
    assert_eq!(out, "abcd");
    let mut rest = line.chars();
    for c in out.chars() {
        assert!(rest.any(|d| d == c));
    }
}
