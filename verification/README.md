# tui_hex_view

State and rules behind two terminal widgets: an interactive hex viewer with
in-place nibble editing and named markers, and a read-only log viewer with
ANSI-coloured lines, wrapped-row scrolling, a retention limit and search.

The library in `src/` is written in Verus. Every function in it carries a
contract that Verus proves, except the few small functions that call into
`unicode-width`, `ansi-to-tui` and `String::push`, whose contracts are taken on
trust from those libraries' sources and documentation:

- `text.rs` — display columns of characters (through `unicode-width`) and the
  escape-sequence scanner that strips ANSI codes.
- `hex.rs` — the hex viewer's state: key handling as a state machine, cursor
  and scroll keeping the cursor's row on screen around marker lines, markers
  kept ordered by offset, and the layout of the rows to draw.
- `cells.rs` — the styled text cells of one hex row and the ASCII-mode window.
- `dump.rs` — `hex_dump` and `ascii_view`.
- `log.rs` — the log viewer's state: retained lines, wrapped-row geometry,
  scrolling, search matches in visible columns, and the window to draw.
- `highlight.rs` — parsing a line's escape sequences for drawing, and cutting
  its styled spans into runs of equal search highlight.
- `laws.rs` — properties that span several operations, such as stepping to
  the next match and back, removing a marker just added, or preparing the same
  viewport twice.

`app/` holds the ratatui `Widget` impls (`HexView`, `LogView`), which draw what
the library lays out and map highlights to colours, and the conversion of
crossterm key events.
