//! State of the interactive hex viewer: cursor, scrolling, markers, and
//! nibble-by-nibble byte editing driven by key presses.

use vstd::prelude::*;
use crate::dump::{hex_padded, push_hex_padded};
use crate::text::{chars_of, push_char};

verus! {

/// The colour type of the terminal UI library, carried through unread.
#[verifier::external_type_specification]
#[verifier::external_body]
pub struct ExColor(ratatui::style::Color);

/// `Clone` of the colour type, which its crate derives on a `Copy` enum:
/// the clone is the same colour.
pub assume_specification[ <ratatui::style::Color as Clone>::clone ](
    c: &ratatui::style::Color,
) -> (r: ratatui::style::Color)
    ensures
        r == *c,
;

// ── Small arithmetic helpers ─────────────────────────────────────────────────

pub open spec fn sat_sub(a: int, b: int) -> int {
    if a >= b { a - b } else { 0 }
}

pub open spec fn min_int(a: int, b: int) -> int {
    if a <= b { a } else { b }
}

pub open spec fn max_int(a: int, b: int) -> int {
    if a >= b { a } else { b }
}

/// Number of rows of `cols` bytes needed for `len` bytes (0 when there are no
/// bytes or no columns).
pub open spec fn row_count(len: int, cols: int) -> int {
    if cols <= 0 || len <= 0 {
        0
    } else {
        len / cols + if len % cols == 0 { 0int } else { 1int }
    }
}

// ── View mode ────────────────────────────────────────────────────────────────

/// Display mode for the hex viewer.
#[derive(Clone, Copy, PartialEq, Eq, Debug, Structural)]
pub enum ViewMode {
    /// Hex bytes on the left, ASCII on the right (xxd-style). Default.
    HexAscii,
    /// Hex bytes only — no ASCII column.
    HexOnly,
    /// Plain ASCII text — non-printable bytes shown as `·`.
    AsciiOnly,
}

impl Default for ViewMode {
    fn default() -> (m: Self)
        ensures
            m == ViewMode::HexAscii,
    {
        ViewMode::HexAscii
    }
}

impl ViewMode {
    /// The mode that follows this one in the cycle.
    pub open spec fn successor(self) -> ViewMode {
        match self {
            ViewMode::HexAscii => ViewMode::HexOnly,
            ViewMode::HexOnly => ViewMode::AsciiOnly,
            ViewMode::AsciiOnly => ViewMode::HexAscii,
        }
    }

    /// Cycle to the next mode: HexAscii → HexOnly → AsciiOnly → HexAscii.
    pub fn next(self) -> (r: Self)
        ensures
            r == self.successor(),
    {
        match self {
            ViewMode::HexAscii => ViewMode::HexOnly,
            ViewMode::HexOnly => ViewMode::AsciiOnly,
            ViewMode::AsciiOnly => ViewMode::HexAscii,
        }
    }

    /// Human-readable label.
    pub fn label(self) -> (r: &'static str)
        ensures
            self == ViewMode::HexAscii ==> r@ == "hex+ascii"@,
            self == ViewMode::HexOnly ==> r@ == "hex"@,
            self == ViewMode::AsciiOnly ==> r@ == "ascii"@,
    {
        match self {
            ViewMode::HexAscii => "hex+ascii",
            ViewMode::HexOnly => "hex",
            ViewMode::AsciiOnly => "ascii",
        }
    }
}

/// Three steps of the cycle come back to the start.
pub proof fn law_view_mode_cycle(m: ViewMode)
    ensures
        m.successor().successor().successor() == m,
        m.successor() != m,
{
}

// ── Marker and edit state ────────────────────────────────────────────────────

/// A named, coloured annotation anchored to a byte offset.
#[derive(Clone, Debug)]
pub struct Marker {
    /// Byte offset within the buffer.
    pub offset: usize,
    /// Short display label shown in the separator line.
    pub label: String,
    /// Colour used for the separator line and label text.
    pub color: ratatui::style::Color,
}

/// The separator line drawn above a marker's row: two box-drawing dashes, the
/// label, and the offset in at least four hex digits, as in `── label (0x0010) `.
pub open spec fn separator_text(m: Marker) -> Seq<char> {
    seq!['─', '─', ' '] + m.label@ + seq![' ', '(', '0', 'x'] + hex_padded(m.offset as nat, 4) + seq![
        ')',
        ' ',
    ]
}

impl Marker {
    /// The separator line drawn above the marker's row.
    pub fn separator(&self) -> (s: String)
        ensures
            s@ == separator_text(*self),
    {
        let mut out = String::new();
        push_char(&mut out, '─');
        push_char(&mut out, '─');
        push_char(&mut out, ' ');
        let label = chars_of(self.label.as_str());
        let ghost head = out@;
        let mut i: usize = 0;
        while i < label.len()
            invariant
                i <= label@.len(),
                out@ == head + label@.take(i as int),
            decreases label@.len() - i,
        {
            push_char(&mut out, label[i]);
            assert(label@.take(i + 1) =~= label@.take(i as int).push(label@[i as int]));
            i = i + 1;
        }
        assert(label@.take(label@.len() as int) =~= label@);
        push_char(&mut out, ' ');
        push_char(&mut out, '(');
        push_char(&mut out, '0');
        push_char(&mut out, 'x');
        push_hex_padded(&mut out, self.offset, 4);
        push_char(&mut out, ')');
        push_char(&mut out, ' ');
        assert(out@ =~= separator_text(*self));
        out
    }
}

/// Two-pass nibble input state for in-place hex editing.
#[derive(Clone, Copy, Debug, PartialEq, Eq, Structural)]
pub struct NibbleEdit {
    /// Byte offset being edited.
    pub byte_pos: usize,
    /// `Some(high)` after the first nibble is typed; `None` when waiting for the first nibble.
    pub high_nibble: Option<u8>,
}

/// Events emitted by [`HexViewState::handle_key`].
#[derive(Clone, Copy, Debug, PartialEq, Eq, Structural)]
pub enum HexViewEvent {
    /// A byte was edited in place.
    ByteEdited { pos: usize, old: u8, new: u8 },
    /// The cursor moved to a new position.
    CursorMoved { new_pos: usize },
    /// The display mode was cycled.
    ModeChanged { new_mode: ViewMode },
    /// The user pressed `m` — the host app should show a label prompt dialog,
    /// then call [`HexViewState::add_marker`] with the result.
    MarkerRequested { at: usize },
    /// Nibble-edit mode started at a byte offset.
    EditStarted { at: usize },
    /// Edit was cancelled (Esc) or non-hex key pressed during edit.
    EditCancelled,
    /// All markers were cleared.
    MarkersCleared,
    /// Bytes were reset to the original baseline (Ctrl-R).
    BytesReset,
    /// No notable event.
    NoEvent,
}

/// The keys the hex viewer tells apart.
#[derive(Clone, Copy, Debug, PartialEq, Eq, Structural)]
pub enum KeyCode {
    Left,
    Right,
    Up,
    Down,
    PageUp,
    PageDown,
    Home,
    End,
    Enter,
    Esc,
    Char(char),
    /// Any other key.
    Other,
}

/// A key event as the hex viewer reads it.
#[derive(Clone, Copy, Debug, PartialEq, Eq, Structural)]
pub struct KeyInput {
    pub code: KeyCode,
    /// The key was pressed (not released or repeated).
    pub press: bool,
    /// Shift was held.
    pub shift: bool,
    /// Control was held.
    pub control: bool,
}

/// The value of a hex digit key (`0`-`9`, `a`-`f`).
pub open spec fn nibble_of(code: KeyCode) -> Option<u8> {
    match code {
        KeyCode::Char(c) => if 0x30 <= (c as u32) <= 0x39 {
            Option::Some(((c as u32) - 0x30) as u8)
        } else if 0x61 <= (c as u32) <= 0x66 {
            Option::Some(((c as u32) - 0x61 + 10) as u8)
        } else {
            Option::None
        },
        _ => Option::None,
    }
}

/// An upper-case hex letter key (`A`-`F`).
pub open spec fn is_upper_hex_letter(code: KeyCode) -> bool {
    code matches KeyCode::Char(c) && 0x41 <= (c as u32) <= 0x46
}

/// ASCII lower case of one character.
pub open spec fn ascii_lower(c: char) -> char {
    if 0x41 <= (c as u32) <= 0x5a {
        ((c as u32) + 32) as char
    } else {
        c
    }
}

/// ASCII lower case of one character.
pub fn to_ascii_lower(c: char) -> (r: char)
    ensures
        r == ascii_lower(c),
{
    if 'A' <= c && c <= 'Z' {
        ((c as u8) + 32) as char
    } else {
        c
    }
}

// ── HexViewState ─────────────────────────────────────────────────────────────

/// All mutable state owned by the hex viewer.  One instance per widget use-site.
pub struct HexViewState {
    /// The bytes being displayed / edited.
    pub bytes: Vec<u8>,
    /// Snapshot taken at load time; bytes that differ from this are highlighted yellow.
    /// Set to `None` to disable modification highlighting.
    pub original_bytes: Option<Vec<u8>>,
    /// Byte-offset of the cursor (hex and ascii columns track it together).
    pub cursor: usize,
    /// First visible row (in row units, not bytes).
    pub scroll: usize,
    /// Active display mode.
    pub mode: ViewMode,
    /// Active nibble-edit session, if any.
    pub edit: Option<NibbleEdit>,
    /// Ordered list of named markers.
    pub markers: Vec<Marker>,
    /// Number of visible rows from the last render call.
    pub visible_rows: usize,
    /// Number of bytes per row (16 by default; rendering sets it from the area width).
    pub cols: usize,
}

/// Number of markers whose row (offset / cols) lies in `[start, end)`.
pub open spec fn markers_in_rows(markers: Seq<Marker>, cols: int, start: int, end: int) -> nat
    decreases markers.len(),
{
    if markers.len() == 0 {
        0
    } else {
        markers_in_rows(markers.drop_last(), cols, start, end) + if start <= (markers.last().offset as int)
            / cols < end {
            1nat
        } else {
            0nat
        }
    }
}

/// Separator lines drawn between rows `start` (inclusive) and `end` (exclusive).
pub open spec fn marker_lines(markers: Seq<Marker>, cols: int, start: int, end: int) -> nat {
    if cols <= 0 || start >= end {
        0
    } else {
        markers_in_rows(markers, cols, start, end)
    }
}

/// With the view scrolled to row `s`, the cursor's row `row` is on screen:
/// the rows and marker lines above it and the row itself fit the viewport.
pub open spec fn row_fits(markers: Seq<Marker>, cols: int, visible_rows: int, s: int, row: int) -> bool {
    (row - s) + marker_lines(markers, cols, s, row) + 1 <= max_int(visible_rows, 1)
}

impl HexViewState {
    /// Index of the last byte, or 0 for an empty buffer.
    pub open spec fn last_pos(self) -> int {
        sat_sub(self.bytes@.len() as int, 1)
    }

    /// Rows of the current buffer.
    pub open spec fn rows(self) -> int {
        row_count(self.bytes@.len() as int, self.cols as int)
    }

    /// Cursor and scroll after scrolling so that the cursor, starting at `cursor`,
    /// is on screen; everything else as in `self`.
    pub open spec fn synced(self, cursor: int, post_cursor: int, post_scroll: int) -> bool {
        if self.cols == 0 || self.bytes@.len() == 0 {
            post_cursor == cursor && post_scroll == 0
        } else {
            let c = min_int(cursor, self.last_pos());
            let s0 = min_int(self.scroll as int, sat_sub(self.rows(), 1));
            let row = c / (self.cols as int);
            &&& post_cursor == c
            &&& if row < s0 {
                post_scroll == row
            } else {
                &&& s0 <= post_scroll <= row
                &&& (post_scroll == row || row_fits(
                    self.markers@,
                    self.cols as int,
                    self.visible_rows as int,
                    post_scroll,
                    row,
                ))
                &&& forall|s: int|
                    s0 <= s < post_scroll ==> !row_fits(
                        self.markers@,
                        self.cols as int,
                        self.visible_rows as int,
                        s,
                        row,
                    )
            }
        }
    }

    /// `post` differs from `self` at most in cursor and scroll.
    pub open spec fn same_content(self, post: Self) -> bool {
        &&& post.bytes == self.bytes
        &&& post.original_bytes == self.original_bytes
        &&& post.mode == self.mode
        &&& post.edit == self.edit
        &&& post.markers == self.markers
        &&& post.visible_rows == self.visible_rows
        &&& post.cols == self.cols
    }

    /// `post` is `self` with the cursor put at `cursor` and the view scrolled to it.
    pub open spec fn moved_to(self, cursor: int, post: Self) -> bool {
        self.same_content(post) && self.synced(cursor, post.cursor as int, post.scroll as int)
    }

    /// Inputs on which `handle_key` computes without overflow or an
    /// out-of-range write.
    pub open spec fn key_defined(self, key: KeyInput) -> bool {
        key.press ==> if self.edit is Some {
            &&& !is_upper_hex_letter(key.code)
            &&& (nibble_of(key.code) is Some && self.edit.unwrap().high_nibble is Some)
                ==> self.edit.unwrap().byte_pos < self.bytes@.len()
        } else {
            let k = key.code;
            &&& (k == KeyCode::Right || k == KeyCode::Char('l')) ==> self.cursor + 1 <= usize::MAX
            &&& (k == KeyCode::Down || k == KeyCode::Char('j')) ==> self.cursor + self.cols
                <= usize::MAX
            &&& (k == KeyCode::PageUp || k == KeyCode::PageDown) ==> self.visible_rows * self.cols
                <= usize::MAX
            &&& k == KeyCode::PageDown ==> self.cursor + self.visible_rows * self.cols
                <= usize::MAX
        }
    }

    /// What a key press does while a nibble edit is active.
    pub open spec fn nibble_outcome(self, code: KeyCode, post: Self, ev: HexViewEvent) -> bool {
        let e = self.edit.unwrap();
        match nibble_of(code) {
            Option::None => post == (Self { edit: Option::None, ..self }) && ev
                == HexViewEvent::EditCancelled,
            Option::Some(n) => match e.high_nibble {
                Option::None => post == (Self {
                    edit: Option::Some(NibbleEdit { byte_pos: e.byte_pos, high_nibble: Option::Some(n) }),
                    ..self
                }) && ev == HexViewEvent::NoEvent,
                Option::Some(h) => {
                    let pos = e.byte_pos;
                    let new = (h << 4u8) | n;
                    &&& post.bytes@ == self.bytes@.update(pos as int, new)
                    &&& ev == HexViewEvent::ByteEdited { pos, old: self.bytes@[pos as int], new }
                    &&& post.original_bytes == self.original_bytes
                    &&& post.mode == self.mode
                    &&& post.markers == self.markers
                    &&& post.visible_rows == self.visible_rows
                    &&& post.cols == self.cols
                    &&& if pos + 1 < self.bytes@.len() {
                        &&& post.edit == Option::Some(NibbleEdit { byte_pos: (pos + 1) as usize, high_nibble: Option::None })
                        &&& self.synced(pos + 1, post.cursor as int, post.scroll as int)
                    } else {
                        &&& post.edit is None
                        &&& post.cursor == self.cursor
                        &&& post.scroll == self.scroll
                    }
                },
            },
        }
    }

    /// Where a navigation key puts the cursor, before it is clamped; `None` for
    /// keys that do not navigate.
    pub open spec fn move_target(self, key: KeyInput) -> Option<int> {
        let k = key.code;
        let cursor = self.cursor as int;
        if k == KeyCode::Left || k == KeyCode::Char('h') {
            Some(sat_sub(cursor, 1))
        } else if k == KeyCode::Right || k == KeyCode::Char('l') {
            Some(min_int(cursor + 1, self.last_pos()))
        } else if k == KeyCode::Up || k == KeyCode::Char('k') {
            Some(sat_sub(cursor, self.cols as int))
        } else if k == KeyCode::Down || k == KeyCode::Char('j') {
            Some(min_int(cursor + self.cols, self.last_pos()))
        } else if k == KeyCode::PageUp {
            Some(sat_sub(cursor, self.visible_rows * self.cols))
        } else if k == KeyCode::PageDown {
            Some(min_int(cursor + self.visible_rows * self.cols, self.last_pos()))
        } else if (k == KeyCode::Home || k == KeyCode::Char('g')) && !key.shift {
            Some(0)
        } else if k == KeyCode::End || k == KeyCode::Char('G') {
            Some(self.last_pos())
        } else {
            None
        }
    }

    /// What a pressed key does outside a nibble edit.
    pub open spec fn command_outcome(self, key: KeyInput, post: Self, ev: HexViewEvent) -> bool {
        let k = key.code;
        if self.move_target(key) is Some {
            self.moved_to(self.move_target(key).unwrap(), post) && ev == HexViewEvent::CursorMoved {
                new_pos: post.cursor,
            }
        } else if k == KeyCode::Enter {
            if self.bytes@.len() > 0 {
                post == (Self {
                    edit: Option::Some(NibbleEdit { byte_pos: self.cursor, high_nibble: Option::None }),
                    ..self
                }) && ev == HexViewEvent::EditStarted { at: self.cursor }
            } else {
                post == self && ev == HexViewEvent::NoEvent
            }
        } else if k == KeyCode::Esc {
            post == (Self { edit: Option::None, ..self }) && ev == HexViewEvent::EditCancelled
        } else if k == KeyCode::Char('m') || k == KeyCode::Char('M') {
            post == self && ev == HexViewEvent::MarkerRequested { at: self.cursor }
        } else if k == KeyCode::Char('v') || k == KeyCode::Char('V') {
            post == (Self { mode: self.mode.successor(), ..self }) && ev
                == HexViewEvent::ModeChanged { new_mode: self.mode.successor() }
        } else if k == KeyCode::Char('c') || k == KeyCode::Char('C') {
            &&& post.markers@.len() == 0
            &&& post.bytes == self.bytes
            &&& post.original_bytes == self.original_bytes
            &&& post.cursor == self.cursor
            &&& post.scroll == self.scroll
            &&& post.mode == self.mode
            &&& post.edit == self.edit
            &&& post.visible_rows == self.visible_rows
            &&& post.cols == self.cols
            &&& ev == HexViewEvent::MarkersCleared
        } else if k == KeyCode::Char('r') && key.control {
            match self.original_bytes {
                Option::Some(orig) => {
                    &&& post.bytes@ == orig@
                    &&& post.edit is None
                    &&& post.original_bytes == self.original_bytes
                    &&& post.cursor == self.cursor
                    &&& post.scroll == self.scroll
                    &&& post.mode == self.mode
                    &&& post.markers == self.markers
                    &&& post.visible_rows == self.visible_rows
                    &&& post.cols == self.cols
                    &&& ev == HexViewEvent::BytesReset
                },
                Option::None => post == self && ev == HexViewEvent::NoEvent,
            }
        } else {
            post == self && ev == HexViewEvent::NoEvent
        }
    }

    /// What `handle_key` does: the state it leaves and the event it reports.
    pub open spec fn key_outcome(self, key: KeyInput, post: Self, ev: HexViewEvent) -> bool {
        if !key.press {
            post == self && ev == HexViewEvent::NoEvent
        } else if self.edit is Some {
            self.nibble_outcome(key.code, post, ev)
        } else {
            self.command_outcome(key, post, ev)
        }
    }

    /// Total number of rows for the current buffer.
    pub fn total_rows(&self) -> (r: usize)
        ensures
            r == self.rows(),
    {
        if self.cols == 0 || self.bytes.len() == 0 {
            0
        } else {
            let len = self.bytes.len();
            let cols = self.cols;
            if len % cols == 0 {
                len / cols
            } else {
                assert(len / cols < len) by (nonlinear_arith)
                    requires
                        cols >= 2 || len % cols == 0,
                        len > 0,
                        len % cols != 0,
                        cols > 0,
                ;
                len / cols + 1
            }
        }
    }

    /// Ensure scroll stays within the currently available rows.
    pub fn clamp_scroll(&mut self)
        ensures
            final(self).scroll == min_int(old(self).scroll as int, sat_sub(old(self).rows(), 1)),
            final(self).cursor == old(self).cursor,
            final(self).bytes == old(self).bytes,
            final(self).original_bytes == old(self).original_bytes,
            final(self).mode == old(self).mode,
            final(self).edit == old(self).edit,
            final(self).markers == old(self).markers,
            final(self).visible_rows == old(self).visible_rows,
            final(self).cols == old(self).cols,
    {
        let rows = self.total_rows();
        let max = if rows >= 1 { rows - 1 } else { 0 };
        if self.scroll > max {
            self.scroll = max;
        }
    }

    /// Ensure cursor is within bounds.
    pub fn clamp_cursor(&mut self)
        ensures
            final(self).cursor == min_int(old(self).cursor as int, old(self).last_pos()),
            final(self).scroll == old(self).scroll,
            final(self).bytes == old(self).bytes,
            final(self).original_bytes == old(self).original_bytes,
            final(self).mode == old(self).mode,
            final(self).edit == old(self).edit,
            final(self).markers == old(self).markers,
            final(self).visible_rows == old(self).visible_rows,
            final(self).cols == old(self).cols,
    {
        let len = self.bytes.len();
        let max = if len >= 1 { len - 1 } else { 0 };
        if self.cursor > max {
            self.cursor = max;
        }
    }

    fn marker_lines_between(&self, start_row: usize, end_row_exclusive: usize) -> (n: usize)
        ensures
            n == marker_lines(self.markers@, self.cols as int, start_row as int, end_row_exclusive as int),
            n <= self.markers@.len(),
    {
        if self.cols == 0 || start_row >= end_row_exclusive {
            return 0;
        }
        let mut n: usize = 0;
        let mut i: usize = 0;
        while i < self.markers.len()
            invariant
                self.cols > 0,
                i <= self.markers@.len(),
                n <= i,
                n == markers_in_rows(self.markers@.take(i as int), self.cols as int, start_row as int, end_row_exclusive as int),
            decreases self.markers@.len() - i,
        {
            assert(self.markers@.take(i + 1).drop_last() =~= self.markers@.take(i as int));
            let row = self.markers[i].offset / self.cols;
            if row >= start_row && row < end_row_exclusive {
                n = n + 1;
            }
            i = i + 1;
        }
        assert(self.markers@.take(self.markers@.len() as int) =~= self.markers@);
        n
    }

    /// Scroll so the cursor row is visible.
    pub fn sync_scroll(&mut self)
        ensures
            old(self).synced(old(self).cursor as int, final(self).cursor as int, final(self).scroll as int),
            final(self).bytes == old(self).bytes,
            final(self).original_bytes == old(self).original_bytes,
            final(self).mode == old(self).mode,
            final(self).edit == old(self).edit,
            final(self).markers == old(self).markers,
            final(self).visible_rows == old(self).visible_rows,
            final(self).cols == old(self).cols,
    {
        if self.cols == 0 || self.bytes.len() == 0 {
            self.scroll = 0;
            return;
        }
        self.clamp_cursor();
        self.clamp_scroll();
        let row = self.cursor / self.cols;
        if row < self.scroll {
            self.scroll = row;
        } else {
            let visible_rows = if self.visible_rows > 1 { self.visible_rows } else { 1 };
            let ghost s0 = self.scroll as int;
            let mut s = self.scroll;
            while s < row
                invariant_except_break
                    s0 <= s <= row,
                    forall|t: int| s0 <= t < s ==> !row_fits(self.markers@, self.cols as int, self.visible_rows as int, t, row as int),
                invariant
                    self.cols > 0,
                    visible_rows == max_int(self.visible_rows as int, 1),
                ensures
                    s0 <= s <= row,
                    s == row || row_fits(self.markers@, self.cols as int, self.visible_rows as int, s as int, row as int),
                    forall|t: int| s0 <= t < s ==> !row_fits(self.markers@, self.cols as int, self.visible_rows as int, t, row as int),
                decreases row - s,
            {
                let d = row - s;
                let m = self.marker_lines_between(s, row);
                if d < visible_rows && m <= visible_rows - 1 - d {
                    break;
                }
                s = s + 1;
            }
            self.scroll = s;
        }
    }
}

impl HexViewState {
    /// Process a key event and return the resulting [`HexViewEvent`].
    pub fn handle_key(&mut self, key: KeyInput) -> (ev: HexViewEvent)
        requires
            old(self).key_defined(key),
        ensures
            old(self).key_outcome(key, *final(self), ev),
    {
        if !key.press {
            return HexViewEvent::NoEvent;
        }
        // While in nibble-edit mode.
        if self.edit.is_some() {
            return self.handle_nibble(key.code);
        }
        match self.navigation_target(key) {
            Some(to) => {
                self.cursor = to;
                self.sync_scroll();
                HexViewEvent::CursorMoved { new_pos: self.cursor }
            },
            None => self.handle_command(key),
        }
    }

    /// The cursor position a navigation key moves to.
    fn navigation_target(&self, key: KeyInput) -> (r: Option<usize>)
        requires
            self.edit is None,
            key.press,
            self.key_defined(key),
        ensures
            r is Some <==> self.move_target(key) is Some,
            r matches Some(t) ==> t == self.move_target(key).unwrap(),
    {
        let max = self.bytes.len().saturating_sub(1);
        match key.code {
            KeyCode::Left | KeyCode::Char('h') => Some(self.cursor.saturating_sub(1)),
            KeyCode::Right | KeyCode::Char('l') => {
                Some(if self.cursor + 1 <= max { self.cursor + 1 } else { max })
            },
            KeyCode::Up | KeyCode::Char('k') => Some(self.cursor.saturating_sub(self.cols)),
            KeyCode::Down | KeyCode::Char('j') => {
                let to = self.cursor + self.cols;
                Some(if to <= max { to } else { max })
            },
            KeyCode::PageUp => {
                let step = self.visible_rows * self.cols;
                Some(self.cursor.saturating_sub(step))
            },
            KeyCode::PageDown => {
                let step = self.visible_rows * self.cols;
                let to = self.cursor + step;
                Some(if to <= max { to } else { max })
            },
            KeyCode::Home if !key.shift => Some(0),
            KeyCode::Char('g') if !key.shift => Some(0),
            KeyCode::End | KeyCode::Char('G') => Some(max),
            _ => None,
        }
    }

    /// Keys that act on the state without moving the cursor.
    fn handle_command(&mut self, key: KeyInput) -> (ev: HexViewEvent)
        requires
            old(self).edit is None,
            key.press,
            old(self).move_target(key) is None,
        ensures
            old(self).command_outcome(key, *final(self), ev),
    {
        match key.code {
            // Enter edit mode on Enter
            KeyCode::Enter => {
                if self.bytes.len() > 0 {
                    self.edit = Some(NibbleEdit { byte_pos: self.cursor, high_nibble: None });
                    HexViewEvent::EditStarted { at: self.cursor }
                } else {
                    HexViewEvent::NoEvent
                }
            },
            // Escape: cancel any edit
            KeyCode::Esc => {
                self.edit = None;
                HexViewEvent::EditCancelled
            },
            // 'm' — request a marker at the cursor
            KeyCode::Char('m') | KeyCode::Char('M') => {
                HexViewEvent::MarkerRequested { at: self.cursor }
            },
            // 'v' — cycle view mode
            KeyCode::Char('v') | KeyCode::Char('V') => {
                self.cycle_mode();
                HexViewEvent::ModeChanged { new_mode: self.mode }
            },
            // 'c' — clear all markers
            KeyCode::Char('c') | KeyCode::Char('C') => {
                self.clear_markers();
                HexViewEvent::MarkersCleared
            },
            // Ctrl-r — reset bytes to baseline
            KeyCode::Char('r') => {
                if key.control {
                    let restored: Option<Vec<u8>> = match &self.original_bytes {
                        Some(orig) => {
                            let copy = orig.clone();
                            assert(copy@ =~= orig@);
                            Some(copy)
                        },
                        None => None,
                    };
                    match restored {
                        Some(bytes) => {
                            self.bytes = bytes;
                            self.edit = None;
                            HexViewEvent::BytesReset
                        },
                        None => HexViewEvent::NoEvent,
                    }
                } else {
                    HexViewEvent::NoEvent
                }
            },
            _ => HexViewEvent::NoEvent,
        }
    }

    fn handle_nibble(&mut self, code: KeyCode) -> (ev: HexViewEvent)
        requires
            old(self).edit is Some,
            !is_upper_hex_letter(code),
            (nibble_of(code) is Some && old(self).edit.unwrap().high_nibble is Some)
                ==> old(self).edit.unwrap().byte_pos < old(self).bytes@.len(),
        ensures
            old(self).nibble_outcome(code, *final(self), ev),
    {
        if code == KeyCode::Esc {
            self.edit = None;
            return HexViewEvent::EditCancelled;
        }
        let nibble: u8 = match code {
            KeyCode::Char(c) => {
                let lower = to_ascii_lower(c);
                if '0' <= lower && lower <= '9' {
                    (c as u8) - 48u8
                } else if 'a' <= lower && lower <= 'f' {
                    (c as u8) - 97u8 + 10
                } else {
                    self.edit = None;
                    return HexViewEvent::EditCancelled;
                }
            },
            _ => {
                self.edit = None;
                return HexViewEvent::EditCancelled;
            },
        };
        assert(nibble_of(code) == Some(nibble));
        let edit = self.edit.unwrap();
        match edit.high_nibble {
            Some(high) => {
                // Second nibble — commit.
                let new_byte = (high << 4u8) | nibble;
                let pos = edit.byte_pos;
                let len = self.bytes.len();
                assert(pos < len);
                let old_byte = self.bytes[pos];
                self.bytes.set(pos, new_byte);
                let next_pos = pos + 1;
                if next_pos < self.bytes.len() {
                    self.edit = Some(NibbleEdit { byte_pos: next_pos, high_nibble: None });
                    self.cursor = next_pos;
                    self.sync_scroll();
                } else {
                    self.edit = None;
                }
                HexViewEvent::ByteEdited { pos, old: old_byte, new: new_byte }
            },
            None => {
                // First nibble — store and wait.
                self.edit = Some(NibbleEdit { byte_pos: edit.byte_pos, high_nibble: Some(nibble) });
                HexViewEvent::NoEvent
            },
        }
    }

    /// Cycle to the next display mode.
    pub fn cycle_mode(&mut self)
        ensures
            *final(self) == (HexViewState { mode: old(self).mode.successor(), ..*old(self) }),
    {
        self.mode = self.mode.next();
    }

    /// Clear all markers.
    pub fn clear_markers(&mut self)
        ensures
            final(self).markers@.len() == 0,
            final(self).bytes == old(self).bytes,
            final(self).original_bytes == old(self).original_bytes,
            final(self).cursor == old(self).cursor,
            final(self).scroll == old(self).scroll,
            final(self).mode == old(self).mode,
            final(self).edit == old(self).edit,
            final(self).visible_rows == old(self).visible_rows,
            final(self).cols == old(self).cols,
    {
        self.markers.clear();
    }
}

// ── Markers ──────────────────────────────────────────────────────────────────

/// The markers of `s` at offset `k`, in order.
pub open spec fn at_offset(s: Seq<Marker>, k: usize) -> Seq<Marker>
    decreases s.len(),
{
    if s.len() == 0 {
        Seq::empty()
    } else if s.last().offset == k {
        at_offset(s.drop_last(), k).push(s.last())
    } else {
        at_offset(s.drop_last(), k)
    }
}

/// The markers of `s` not at offset `k`, in order.
pub open spec fn except_offset(s: Seq<Marker>, k: usize) -> Seq<Marker>
    decreases s.len(),
{
    if s.len() == 0 {
        Seq::empty()
    } else if s.last().offset == k {
        except_offset(s.drop_last(), k)
    } else {
        except_offset(s.drop_last(), k).push(s.last())
    }
}

/// Markers in non-decreasing offset order.
pub open spec fn sorted_by_offset(s: Seq<Marker>) -> bool {
    forall|i: int, j: int| 0 <= i < j < s.len() ==> s[i].offset <= s[j].offset
}

/// `r` is `s` sorted by offset, keeping the order of markers at equal offsets.
pub open spec fn stable_sort_of(s: Seq<Marker>, r: Seq<Marker>) -> bool {
    &&& sorted_by_offset(r)
    &&& forall|k: usize| #[trigger] at_offset(r, k) == at_offset(s, k)
}

/// `after` is `before` with one marker at `offset`, carrying `label` and
/// `color`, in place of those that were there; ordered by offset.
pub open spec fn marker_added(
    before: Seq<Marker>,
    after: Seq<Marker>,
    offset: usize,
    label: Seq<char>,
    color: ratatui::style::Color,
) -> bool {
    &&& sorted_by_offset(after)
    &&& at_offset(after, offset).len() == 1
    &&& at_offset(after, offset)[0].label@ == label
    &&& at_offset(after, offset)[0].color == color
    &&& forall|k: usize| k != offset ==> #[trigger] at_offset(after, k) == at_offset(before, k)
}

proof fn lemma_at_offset_concat(a: Seq<Marker>, b: Seq<Marker>, k: usize)
    ensures
        at_offset(a + b, k) == at_offset(a, k) + at_offset(b, k),
    decreases b.len(),
{
    if b.len() == 0 {
        assert(a + b =~= a);
        assert(at_offset(b, k) =~= Seq::<Marker>::empty());
        assert(at_offset(a, k) + at_offset(b, k) =~= at_offset(a, k));
    } else {
        lemma_at_offset_concat(a, b.drop_last(), k);
        assert((a + b).drop_last() =~= a + b.drop_last());
        assert((a + b).last() == b.last());
        if b.last().offset == k {
            assert(at_offset(a, k) + at_offset(b.drop_last(), k).push(b.last()) =~= (at_offset(
                a,
                k,
            ) + at_offset(b.drop_last(), k)).push(b.last()));
        }
    }
}

proof fn lemma_at_offset_none(s: Seq<Marker>, k: usize)
    requires
        forall|i: int| 0 <= i < s.len() ==> s[i].offset != k,
    ensures
        at_offset(s, k) == Seq::<Marker>::empty(),
    decreases s.len(),
{
    if s.len() > 0 {
        lemma_at_offset_none(s.drop_last(), k);
    }
}

proof fn lemma_at_offset_single(m: Marker, k: usize)
    ensures
        at_offset(seq![m], k) == (if m.offset == k { seq![m] } else { Seq::<Marker>::empty() }),
{
    assert(seq![m].drop_last() =~= Seq::<Marker>::empty());
    assert(seq![m].last() == m);
    assert(at_offset(Seq::<Marker>::empty(), k) == Seq::<Marker>::empty());
    assert(Seq::<Marker>::empty().push(m) =~= seq![m]);
}

pub(crate) proof fn lemma_except_offset_has_none(s: Seq<Marker>, k: usize)
    ensures
        forall|i: int| 0 <= i < except_offset(s, k).len() ==> except_offset(s, k)[i].offset != k,
        at_offset(except_offset(s, k), k) == Seq::<Marker>::empty(),
        forall|j: usize| j != k ==> #[trigger] at_offset(except_offset(s, k), j) == at_offset(s, j),
    decreases s.len(),
{
    if s.len() > 0 {
        lemma_except_offset_has_none(s.drop_last(), k);
        let e = except_offset(s.drop_last(), k);
        if s.last().offset != k {
            assert forall|i: int| 0 <= i < e.push(s.last()).len() implies e.push(s.last())[i].offset
                != k by {
                if i < e.len() {
                    assert(e.push(s.last())[i] == e[i]);
                }
            }
            assert(e.push(s.last()).drop_last() =~= e);
            assert forall|j: usize| j != k implies #[trigger] at_offset(e.push(s.last()), j) == at_offset(s, j) by {
                assert(e.push(s.last()).last() == s.last());
                assert(at_offset(e, j) == at_offset(s.drop_last(), j));
            }
        }
    }
    lemma_at_offset_none(except_offset(s, k), k);
}

/// Position at which `m` goes into the sorted `s` ahead of the markers at its offset.
fn insertion_point(s: &Vec<Marker>, offset: usize) -> (p: usize)
    requires
        sorted_by_offset(s@),
    ensures
        p <= s@.len(),
        forall|i: int| 0 <= i < p ==> s@[i].offset < offset,
        forall|i: int| p <= i < s@.len() ==> s@[i].offset >= offset,
{
    let mut p: usize = 0;
    while p < s.len() && s[p].offset < offset
        invariant
            p <= s@.len(),
            sorted_by_offset(s@),
            forall|i: int| 0 <= i < p ==> s@[i].offset < offset,
        decreases s@.len() - p,
    {
        p = p + 1;
    }
    p
}

proof fn lemma_insert_keeps_stable(sorted: Seq<Marker>, suffix: Seq<Marker>, m: Marker, p: int)
    requires
        0 <= p <= sorted.len(),
        sorted_by_offset(sorted),
        forall|k: usize| #[trigger] at_offset(sorted, k) == at_offset(suffix, k),
        forall|i: int| 0 <= i < p ==> sorted[i].offset < m.offset,
        forall|i: int| p <= i < sorted.len() ==> sorted[i].offset >= m.offset,
    ensures
        sorted_by_offset(sorted.insert(p, m)),
        forall|k: usize| #[trigger] at_offset(sorted.insert(p, m), k) == at_offset(seq![m] + suffix, k),
{
    let r = sorted.insert(p, m);
    let a = sorted.take(p);
    let b = sorted.skip(p);
    assert(r =~= a + seq![m] + b);
    assert(sorted =~= a + b);
    assert forall|i: int, j: int| 0 <= i < j < r.len() implies r[i].offset <= r[j].offset by {
        if j < p {
        } else if j == p {
        } else if i < p {
        } else if i == p {
            assert(r[j] == sorted[j - 1]);
        } else {
            assert(r[i] == sorted[i - 1]);
            assert(r[j] == sorted[j - 1]);
        }
    }
    assert forall|k: usize| #[trigger] at_offset(r, k) == at_offset(seq![m] + suffix, k) by {
        lemma_at_offset_concat(a + seq![m], b, k);
        lemma_at_offset_concat(a, seq![m], k);
        lemma_at_offset_concat(a, b, k);
        lemma_at_offset_concat(seq![m], suffix, k);
        lemma_at_offset_single(m, k);
        if m.offset == k {
            lemma_at_offset_none(a, k);
            assert(Seq::<Marker>::empty() + seq![m] =~= seq![m]);
            assert(Seq::<Marker>::empty() + at_offset(b, k) =~= at_offset(b, k));
        } else {
            assert(at_offset(a, k) + Seq::<Marker>::empty() =~= at_offset(a, k));
            assert(Seq::<Marker>::empty() + at_offset(suffix, k) =~= at_offset(suffix, k));
        }
    }
}

impl HexViewState {
    /// Sort the markers by offset, keeping the order of markers at one offset.
    fn sort_markers(&mut self)
        ensures
            stable_sort_of(old(self).markers@, final(self).markers@),
            final(self).bytes == old(self).bytes,
            final(self).original_bytes == old(self).original_bytes,
            final(self).cursor == old(self).cursor,
            final(self).scroll == old(self).scroll,
            final(self).mode == old(self).mode,
            final(self).edit == old(self).edit,
            final(self).visible_rows == old(self).visible_rows,
            final(self).cols == old(self).cols,
    {
        let mut rest: Vec<Marker> = Vec::new();
        std::mem::swap(&mut rest, &mut self.markers);
        let ghost all = rest@;
        let mut sorted: Vec<Marker> = Vec::new();
        assert forall|k: usize| #[trigger] at_offset(sorted@, k) == at_offset(all.skip(all.len() as int), k) by {
            assert(all.skip(all.len() as int) =~= Seq::<Marker>::empty());
        }
        while rest.len() > 0
            invariant
                rest@ == all.take(rest@.len() as int),
                rest@.len() <= all.len(),
                sorted_by_offset(sorted@),
                forall|k: usize| #[trigger] at_offset(sorted@, k) == at_offset(all.skip(rest@.len() as int), k),
            decreases rest@.len(),
        {
            let ghost n = rest@.len() as int;
            let m = rest.pop().unwrap();
            assert(m == all[n - 1]);
            assert(all.skip(n - 1) =~= seq![m] + all.skip(n));
            assert(rest@ =~= all.take(n - 1));
            let p = insertion_point(&sorted, m.offset);
            proof {
                lemma_insert_keeps_stable(sorted@, all.skip(n), m, p as int);
            }
            sorted.insert(p, m);
        }
        assert(all.skip(0) =~= all);
        self.markers = sorted;
    }

    /// Remove the marker at `offset` (if any).
    pub fn remove_marker(&mut self, offset: usize)
        ensures
            final(self).markers@ == except_offset(old(self).markers@, offset),
            final(self).bytes == old(self).bytes,
            final(self).original_bytes == old(self).original_bytes,
            final(self).cursor == old(self).cursor,
            final(self).scroll == old(self).scroll,
            final(self).mode == old(self).mode,
            final(self).edit == old(self).edit,
            final(self).visible_rows == old(self).visible_rows,
            final(self).cols == old(self).cols,
    {
        let ghost all = self.markers@;
        let mut i: usize = 0;
        let ghost mut j: int = 0;
        while i < self.markers.len()
            invariant
                0 <= j <= all.len(),
                i as int == except_offset(all.take(j), offset).len(),
                self.markers@ == except_offset(all.take(j), offset) + all.skip(j),
                self.bytes == old(self).bytes,
                self.original_bytes == old(self).original_bytes,
                self.cursor == old(self).cursor,
                self.scroll == old(self).scroll,
                self.mode == old(self).mode,
                self.edit == old(self).edit,
                self.visible_rows == old(self).visible_rows,
                self.cols == old(self).cols,
            decreases all.len() - j,
        {
            assert(all.take(j + 1).drop_last() =~= all.take(j));
            assert(all.skip(j) =~= seq![all[j]] + all.skip(j + 1));
            assert(self.markers@[i as int] == all[j]);
            if self.markers[i].offset == offset {
                self.markers.remove(i);
                assert(self.markers@ =~= except_offset(all.take(j + 1), offset) + all.skip(j + 1));
            } else {
                assert(except_offset(all.take(j + 1), offset) =~= except_offset(all.take(j), offset).push(all[j]));
                assert(self.markers@ =~= except_offset(all.take(j + 1), offset) + all.skip(j + 1));
                i = i + 1;
            }
            proof {
                j = j + 1;
            }
        }
        assert(all.take(j) =~= all);
        assert(all.skip(j) =~= Seq::<Marker>::empty());
        assert(self.markers@ =~= except_offset(all, offset));
    }

    /// Add a named marker at `offset`, replacing any marker already there, and keep
    /// the markers ordered by offset.
    pub fn add_marker(&mut self, offset: usize, label: &str, color: ratatui::style::Color)
        ensures
            marker_added(old(self).markers@, final(self).markers@, offset, label@, color),
            final(self).bytes == old(self).bytes,
            final(self).original_bytes == old(self).original_bytes,
            final(self).cursor == old(self).cursor,
            final(self).scroll == old(self).scroll,
            final(self).mode == old(self).mode,
            final(self).edit == old(self).edit,
            final(self).visible_rows == old(self).visible_rows,
            final(self).cols == old(self).cols,
    {
        // Remove any existing marker at the same offset first.
        self.remove_marker(offset);
        let m = Marker { offset, label: label.to_owned(), color };
        let ghost kept = self.markers@;
        self.markers.push(m);
        let ghost pushed = self.markers@;
        self.sort_markers();
        proof {
            lemma_except_offset_has_none(old(self).markers@, offset);
            assert(pushed =~= kept + seq![m]);
            assert forall|k: usize| #[trigger] at_offset(pushed, k) == at_offset(kept, k) + at_offset(seq![m], k) by {
                lemma_at_offset_concat(kept, seq![m], k);
            }
            lemma_at_offset_single(m, offset);
            assert(Seq::<Marker>::empty() + seq![m] =~= seq![m]);
            assert forall|k: usize| k != offset implies #[trigger] at_offset(self.markers@, k) == at_offset(old(self).markers@, k) by {
                lemma_at_offset_single(m, k);
                assert(at_offset(kept, k) + Seq::<Marker>::empty() =~= at_offset(kept, k));
            }
        }
    }
}

// ── Construction ─────────────────────────────────────────────────────────────

impl HexViewState {
    /// Create a new state with the given bytes.
    /// `original_bytes` is set to a copy so modification highlighting works out of the box.
    pub fn new(bytes: Vec<u8>) -> (s: Self)
        ensures
            s.bytes@ == bytes@,
            s.original_bytes is Some,
            s.original_bytes.unwrap()@ == bytes@,
            s.cursor == 0,
            s.scroll == 0,
            s.mode == ViewMode::HexAscii,
            s.edit is None,
            s.markers@.len() == 0,
            s.visible_rows == 20,
            s.cols == 16,
    {
        let original = bytes.clone();
        assert(original@ =~= bytes@);
        HexViewState {
            bytes,
            original_bytes: Some(original),
            cursor: 0,
            scroll: 0,
            mode: ViewMode::default(),
            edit: None,
            markers: Vec::new(),
            visible_rows: 20,
            cols: 16,
        }
    }

    /// Replace the byte buffer and reset cursor / scroll / edit state and markers.
    /// The new bytes become the new `original_bytes` baseline.
    pub fn set_bytes(&mut self, bytes: Vec<u8>)
        ensures
            final(self).bytes@ == bytes@,
            final(self).original_bytes is Some,
            final(self).original_bytes.unwrap()@ == bytes@,
            final(self).cursor == 0,
            final(self).scroll == 0,
            final(self).edit is None,
            final(self).markers@.len() == 0,
            final(self).mode == old(self).mode,
            final(self).visible_rows == old(self).visible_rows,
            final(self).cols == old(self).cols,
    {
        let original = bytes.clone();
        assert(original@ =~= bytes@);
        self.original_bytes = Some(original);
        self.bytes = bytes;
        self.cursor = 0;
        self.scroll = 0;
        self.edit = None;
        self.markers.clear();
    }

    /// Reset the modification baseline to the current bytes (mark all as unmodified).
    pub fn reset_baseline(&mut self)
        ensures
            final(self).original_bytes is Some,
            final(self).original_bytes.unwrap()@ == old(self).bytes@,
            final(self).bytes == old(self).bytes,
            final(self).cursor == old(self).cursor,
            final(self).scroll == old(self).scroll,
            final(self).mode == old(self).mode,
            final(self).edit == old(self).edit,
            final(self).markers == old(self).markers,
            final(self).visible_rows == old(self).visible_rows,
            final(self).cols == old(self).cols,
    {
        let original = self.bytes.clone();
        assert(original@ =~= self.bytes@);
        self.original_bytes = Some(original);
    }
}

// ── Hex layout for rendering ─────────────────────────────────────────────────

/// One line of the hex view: a marker's separator line or a row of bytes.
#[derive(Clone, Copy, Debug, PartialEq, Eq, Structural)]
pub enum HexLine {
    /// The separator line of the marker at this index of `markers`.
    Marker(usize),
    /// The bytes of this row.
    Data(usize),
}

/// Indices, among the first `n` markers, of those on row `row`, in order.
pub open spec fn markers_on_row(markers: Seq<Marker>, cols: int, row: int, n: int) -> Seq<usize>
    decreases n,
{
    if n <= 0 {
        Seq::empty()
    } else if (markers[n - 1].offset as int) / cols == row {
        markers_on_row(markers, cols, row, n - 1).push((n - 1) as usize)
    } else {
        markers_on_row(markers, cols, row, n - 1)
    }
}

/// The marker lines shown above row `row` when `rendered` lines are already
/// used: the last ones of the row, as many as fit while keeping a line for the
/// row itself when it holds the cursor.
pub open spec fn shown_markers(markers: Seq<Marker>, cols: int, cursor_row: int, visible: int, row: int, rendered: int) -> Seq<HexLine> {
    let ms = markers_on_row(markers, cols, row, markers.len() as int);
    let avail = if row == cursor_row {
        sat_sub(visible, rendered + 1)
    } else {
        sat_sub(visible, rendered)
    };
    ms.skip(sat_sub(ms.len() as int, avail)).map_values(|i: usize| HexLine::Marker(i))
}

/// The lines of the view from row `row` on, with `rendered` lines already used:
/// each row preceded by its marker lines, until the viewport is full.
pub open spec fn hex_layout(markers: Seq<Marker>, cols: int, cursor_row: int, visible: int, total: int, row: int, rendered: int) -> Seq<HexLine>
    decreases total - row,
{
    if row >= total || rendered >= visible {
        Seq::empty()
    } else {
        let shown = shown_markers(markers, cols, cursor_row, visible, row, rendered);
        let used = rendered + shown.len();
        if used >= visible {
            shown
        } else {
            shown.push(HexLine::Data(row as usize)) + hex_layout(
                markers,
                cols,
                cursor_row,
                visible,
                total,
                row + 1,
                used + 1,
            )
        }
    }
}

impl HexViewState {
    /// Indices of the markers on row `row`, in order.
    fn marker_indices_on_row(&self, row: usize) -> (r: Vec<usize>)
        requires
            self.cols > 0,
        ensures
            r@ == markers_on_row(self.markers@, self.cols as int, row as int, self.markers@.len() as int),
            r@.len() <= self.markers@.len(),
    {
        let mut r: Vec<usize> = Vec::new();
        let mut i: usize = 0;
        while i < self.markers.len()
            invariant
                self.cols > 0,
                i <= self.markers@.len(),
                r@.len() <= i,
                r@ == markers_on_row(self.markers@, self.cols as int, row as int, i as int),
            decreases self.markers@.len() - i,
        {
            if self.markers[i].offset / self.cols == row {
                r.push(i);
            }
            i = i + 1;
        }
        r
    }

    /// Prepare the hex view for a viewport of `height` lines with `cols` bytes per
    /// row: records the geometry, clamps the scroll, and returns the lines to draw.
    pub fn layout_hex(&mut self, cols: usize, height: usize) -> (lines: Vec<HexLine>)
        requires
            cols > 0,
        ensures
            final(self).cols == cols,
            final(self).visible_rows == max_int(height as int, 1),
            final(self).scroll == min_int(old(self).scroll as int, sat_sub(row_count(old(self).bytes@.len() as int, cols as int), 1)),
            lines@ == hex_layout(
                old(self).markers@,
                cols as int,
                old(self).cursor as int / cols as int,
                height as int,
                row_count(old(self).bytes@.len() as int, cols as int),
                final(self).scroll as int,
                0,
            ),
            final(self).bytes == old(self).bytes,
            final(self).original_bytes == old(self).original_bytes,
            final(self).cursor == old(self).cursor,
            final(self).mode == old(self).mode,
            final(self).edit == old(self).edit,
            final(self).markers == old(self).markers,
    {
        self.cols = cols;
        self.clamp_scroll();
        let total = self.total_rows();
        let visible = height;
        self.visible_rows = if visible > 1 { visible } else { 1 };
        let max_scroll = if total >= 1 { total - 1 } else { 0 };
        if self.scroll > max_scroll {
            self.scroll = max_scroll;
        }
        let scroll = self.scroll;
        let cursor_row = self.cursor / cols;
        let ghost markers = self.markers@;
        let mut out: Vec<HexLine> = Vec::new();
        let mut rendered: usize = 0;
        let mut row = scroll;
        while row < total
            invariant_except_break
                rendered < visible || row >= total || out@ + Seq::<HexLine>::empty() == hex_layout(markers, cols as int, cursor_row as int, visible as int, total as int, scroll as int, 0),
            invariant
                self.cols == cols,
                cols > 0,
                self.markers@ == markers,
                total as int == row_count(self.bytes@.len() as int, cols as int),
                scroll <= row,
                rendered <= visible,
                out@ + hex_layout(markers, cols as int, cursor_row as int, visible as int, total as int, row as int, rendered as int)
                    == hex_layout(markers, cols as int, cursor_row as int, visible as int, total as int, scroll as int, 0),
            ensures
                out@ == hex_layout(markers, cols as int, cursor_row as int, visible as int, total as int, scroll as int, 0),
            decreases total - row,
        {
            if rendered >= visible {
                assert(out@ + Seq::<HexLine>::empty() =~= out@);
                break;
            }
            let ghost before = out@;
            let ms = self.marker_indices_on_row(row);
            let avail = if row == cursor_row {
                if visible >= rendered + 1 { visible - (rendered + 1) } else { 0 }
            } else {
                visible - rendered
            };
            let start = if ms.len() >= avail { ms.len() - avail } else { 0 };
            let ghost shown = shown_markers(markers, cols as int, cursor_row as int, visible as int, row as int, rendered as int);
            let mut k = start;
            while k < ms.len()
                invariant
                    start <= k <= ms@.len(),
                    ms@.len() <= markers.len(),
                    rendered as int + (k - start) <= visible,
                    ms@.len() - start <= avail,
                    avail <= visible - rendered,
                    out@ == before + shown.take(k - start),
                    shown == ms@.skip(start as int).map_values(|i: usize| HexLine::Marker(i)),
                decreases ms@.len() - k,
            {
                assert(shown.take(k - start + 1) =~= shown.take(k - start).push(HexLine::Marker(ms@[k as int])));
                out.push(HexLine::Marker(ms[k]));
                k = k + 1;
            }
            assert(shown.take(ms@.len() - start) =~= shown);
            rendered = rendered + (ms.len() - start);
            if rendered >= visible {
                assert(hex_layout(markers, cols as int, cursor_row as int, visible as int, total as int, row as int, (rendered - (ms@.len() - start)) as int) == shown);
                assert(out@ + Seq::<HexLine>::empty() =~= out@);
                break;
            }
            out.push(HexLine::Data(row));
            proof {
                let used = rendered;
                assert(hex_layout(markers, cols as int, cursor_row as int, visible as int, total as int, row as int, (rendered - (ms@.len() - start)) as int)
                    == shown.push(HexLine::Data(row)) + hex_layout(markers, cols as int, cursor_row as int, visible as int, total as int, row + 1, used + 1));
                assert(out@ =~= before + shown.push(HexLine::Data(row)));
            }
            rendered = rendered + 1;
            row = row + 1;
        }
        out
    }
}

} // verus!
