//! The text cells of one row of the hex view, and the ASCII-mode window.

use vstd::prelude::*;
use crate::dump::{hex_padded, push_hex_padded, ascii_text, ascii_view};
use crate::hex::{HexViewState, max_int, min_int, row_count, sat_sub};
use crate::log::{split_text_lines, text_lines, views};
use crate::text::push_char;

verus! {

/// How a byte of the hex column is styled.
#[derive(Clone, Copy, Debug, PartialEq, Eq, Structural)]
pub enum ByteStyle {
    /// The byte being edited.
    Editing,
    /// The byte under the cursor.
    Cursor,
    /// A byte that differs from the baseline.
    Modified,
    /// Any other byte.
    Plain,
}

/// What a cell of a hex row shows, which decides its style.
#[derive(Clone, Copy, Debug, PartialEq, Eq, Structural)]
pub enum CellKind {
    /// The row's offset.
    Offset,
    /// A byte in hex.
    Byte(ByteStyle),
    /// Spacing between or after the hex bytes.
    Space,
    /// A border of the ASCII column.
    AsciiBorder,
    /// A byte in the ASCII column; `cursor` when it is under the cursor.
    AsciiChar { cursor: bool },
}

/// One styled piece of text of a hex row.
#[derive(Clone, Debug)]
pub struct HexCell {
    pub text: String,
    pub kind: CellKind,
}

/// The ASCII column's character for a byte: printable ASCII and space as
/// themselves, `·` otherwise.
pub open spec fn ascii_cell_char(b: u8) -> char {
    if 0x20 <= b <= 0x7e {
        b as char
    } else {
        '·'
    }
}

/// The ASCII column's character for a byte.
pub fn ascii_cell(b: u8) -> (c: char)
    ensures
        c == ascii_cell_char(b),
{
    if 0x20 <= b && b <= 0x7e {
        b as char
    } else {
        '·'
    }
}

/// The text and kind of each cell.
pub open spec fn cell_views(cells: Seq<HexCell>) -> Seq<(Seq<char>, CellKind)> {
    cells.map_values(|c: HexCell| (c.text@, c.kind))
}

pub open spec fn spaces(n: nat) -> Seq<char> {
    Seq::new(n, |i: int| ' ')
}

impl HexViewState {
    /// The style of the byte at `abs`: editing, then cursor, then modified.
    pub open spec fn style_at(self, abs: int) -> ByteStyle {
        if self.edit matches Some(e) && e.byte_pos == abs {
            ByteStyle::Editing
        } else if self.cursor == abs {
            ByteStyle::Cursor
        } else if self.original_bytes matches Some(o) && 0 <= abs < o@.len() && o@[abs]
            != self.bytes@[abs] {
            ByteStyle::Modified
        } else {
            ByteStyle::Plain
        }
    }

    /// The style of the byte at `abs`.
    pub fn byte_style(&self, abs: usize) -> (st: ByteStyle)
        requires
            abs < self.bytes@.len(),
        ensures
            st == self.style_at(abs as int),
    {
        let editing = match &self.edit {
            Some(e) => e.byte_pos == abs,
            None => false,
        };
        if editing {
            return ByteStyle::Editing;
        }
        if self.cursor == abs {
            return ByteStyle::Cursor;
        }
        let modified = match &self.original_bytes {
            Some(o) => abs < o.len() && o[abs] != self.bytes[abs],
            None => false,
        };
        if modified {
            ByteStyle::Modified
        } else {
            ByteStyle::Plain
        }
    }

    /// Hex cells of the bytes `start + i ..` of a row of `n` bytes, from the `i`th.
    pub open spec fn byte_cells(self, start: int, n: int, cols: int, i: int) -> Seq<(Seq<char>, CellKind)>
        decreases n - i,
    {
        if i >= n || i < 0 {
            Seq::empty()
        } else {
            let cell = (hex_padded(self.bytes@[start + i] as nat, 2), CellKind::Byte(self.style_at(start + i)));
            let sep = if i == 7 && cols > 8 {
                seq![(seq![' ', ' '], CellKind::Space)]
            } else if i + 1 < n {
                seq![(seq![' '], CellKind::Space)]
            } else {
                Seq::empty()
            };
            seq![cell] + sep + self.byte_cells(start, n, cols, i + 1)
        }
    }

    /// ASCII cells of the bytes `start + i ..` of a row of `n` bytes, from the `i`th.
    pub open spec fn ascii_cells(self, start: int, n: int, i: int) -> Seq<(Seq<char>, CellKind)>
        decreases n - i,
    {
        if i >= n || i < 0 {
            Seq::empty()
        } else {
            seq![(seq![ascii_cell_char(self.bytes@[start + i])], CellKind::AsciiChar { cursor: self.cursor == start + i })]
                + self.ascii_cells(start, n, i + 1)
        }
    }

    /// The cells of row `row` at `cols` bytes per row: the offset, the bytes in
    /// hex (a wider gap after the eighth when rows are wider than eight), padding
    /// up to the full row width, and, with `show_ascii`, the ASCII column.
    pub open spec fn row_cells(self, row: int, cols: int, show_ascii: bool) -> Seq<(Seq<char>, CellKind)> {
        let start = row * cols;
        let end = min_int(start + cols, self.bytes@.len() as int);
        let n = end - start;
        let hex_len = n * 3 + if n > 8 && cols > 8 { 1int } else { 0int };
        let pad_target = cols * 3 + if cols > 8 { 1int } else { 0int };
        let pad = if hex_len < pad_target {
            seq![(spaces((pad_target - hex_len) as nat), CellKind::Space)]
        } else {
            Seq::empty()
        };
        let head = seq![(hex_padded(start as nat, 8) + seq![' ', ' '], CellKind::Offset)] + self.byte_cells(start, n, cols, 0)
            + pad;
        if show_ascii {
            head + seq![(seq![' ', ' ', '│'], CellKind::AsciiBorder)] + self.ascii_cells(start, n, 0)
                + seq![(seq!['│'], CellKind::AsciiBorder)]
        } else {
            head
        }
    }
}

fn space_cell(n: usize) -> (c: HexCell)
    ensures
        c.text@ == spaces(n as nat),
        c.kind == CellKind::Space,
{
    let mut text = String::new();
    let mut i: usize = 0;
    while i < n
        invariant
            i <= n,
            text@ == spaces(i as nat),
        decreases n - i,
    {
        push_char(&mut text, ' ');
        assert(spaces((i + 1) as nat) =~= spaces(i as nat).push(' '));
        i = i + 1;
    }
    HexCell { text, kind: CellKind::Space }
}

fn text_cell(c: char, kind: CellKind) -> (cell: HexCell)
    ensures
        cell.text@ == seq![c],
        cell.kind == kind,
{
    let mut text = String::new();
    push_char(&mut text, c);
    assert(Seq::<char>::empty().push(c) =~= seq![c]);
    HexCell { text, kind }
}

proof fn lemma_row_start(row: int, cols: int, len: int)
    requires
        cols > 0,
        0 <= row < row_count(len, cols),
    ensures
        0 <= row * cols < len,
{
    assert(0 <= row * cols) by (nonlinear_arith)
        requires
            row >= 0,
            cols > 0,
    ;
    let q = len / cols;
    let r = len % cols;
    assert(len == q * cols + r && 0 <= r < cols) by (nonlinear_arith)
        requires
            cols > 0,
            q == len / cols,
            r == len % cols,
    ;
    if r == 0 {
        assert(row * cols < len) by (nonlinear_arith)
            requires
                row < q,
                len == q * cols,
                cols > 0,
        ;
    } else {
        assert(row * cols < len) by (nonlinear_arith)
            requires
                row <= q,
                len == q * cols + r,
                r > 0,
                cols > 0,
        ;
    }
}

impl HexViewState {
    /// The cells of row `row` at `cols` bytes per row, for drawing.
    pub fn row_cells_of(&self, row: usize, cols: usize, show_ascii: bool) -> (cells: Vec<HexCell>)
        requires
            cols > 0,
            cols * 3 + 1 <= usize::MAX,
            row < row_count(self.bytes@.len() as int, cols as int),
        ensures
            cell_views(cells@) == self.row_cells(row as int, cols as int, show_ascii),
    {
        proof {
            lemma_row_start(row as int, cols as int, self.bytes@.len() as int);
        }
        let len = self.bytes.len();
        let start = row * cols;
        let end = if len - start >= cols { start + cols } else { len };
        let n = end - start;
        let mut cells: Vec<HexCell> = Vec::new();
        let mut off = String::new();
        push_hex_padded(&mut off, start, 8);
        push_char(&mut off, ' ');
        push_char(&mut off, ' ');
        assert(off@ =~= hex_padded(start as nat, 8) + seq![' ', ' ']);
        cells.push(HexCell { text: off, kind: CellKind::Offset });
        assert(cell_views(cells@) =~= seq![(hex_padded(start as nat, 8) + seq![' ', ' '], CellKind::Offset)]);
        let ghost head0 = cell_views(cells@);
        let mut i: usize = 0;
        while i < n
            invariant
                n == end - start,
                start + n <= len,
                len == self.bytes@.len(),
                i <= n,
                cell_views(cells@) + self.byte_cells(start as int, n as int, cols as int, i as int)
                    == head0 + self.byte_cells(start as int, n as int, cols as int, 0),
            decreases n - i,
        {
            let ghost before = cell_views(cells@);
            let b = self.bytes[start + i];
            let mut t = String::new();
            push_hex_padded(&mut t, b as usize, 2);
            let st = self.byte_style(start + i);
            cells.push(HexCell { text: t, kind: CellKind::Byte(st) });
            if i == 7 && cols > 8 {
                cells.push(space_cell(2));
                assert(spaces(2) =~= seq![' ', ' ']);
            } else if i + 1 < n {
                cells.push(space_cell(1));
                assert(spaces(1) =~= seq![' ']);
            }
            proof {
                let sep = if i == 7 && cols > 8 {
                    seq![(seq![' ', ' '], CellKind::Space)]
                } else if i + 1 < n {
                    seq![(seq![' '], CellKind::Space)]
                } else {
                    Seq::empty()
                };
                let cell = (hex_padded(self.bytes@[start + i] as nat, 2), CellKind::Byte(self.style_at(start + i)));
                assert(cell_views(cells@) =~= before + seq![cell] + sep);
                assert(self.byte_cells(start as int, n as int, cols as int, i as int)
                    == seq![cell] + sep + self.byte_cells(start as int, n as int, cols as int, i + 1));
                assert(cell_views(cells@) + self.byte_cells(start as int, n as int, cols as int, i + 1)
                    =~= before + self.byte_cells(start as int, n as int, cols as int, i as int));
            }
            i = i + 1;
        }
        assert(self.byte_cells(start as int, n as int, cols as int, n as int) =~= Seq::<(Seq<char>, CellKind)>::empty());
        assert(cell_views(cells@) =~= head0 + self.byte_cells(start as int, n as int, cols as int, 0));
        let hex_len = n * 3 + if n > 8 && cols > 8 { 1 } else { 0 };
        let pad_target = cols * 3 + if cols > 8 { 1 } else { 0 };
        if hex_len < pad_target {
            cells.push(space_cell(pad_target - hex_len));
        }
        let ghost head = cell_views(cells@);
        proof {
            let pad = if hex_len < pad_target {
                seq![(spaces((pad_target - hex_len) as nat), CellKind::Space)]
            } else {
                Seq::empty()
            };
            assert(head =~= seq![(hex_padded(start as nat, 8) + seq![' ', ' '], CellKind::Offset)]
                + self.byte_cells(start as int, n as int, cols as int, 0) + pad);
        }
        if show_ascii {
            let mut border = String::new();
            push_char(&mut border, ' ');
            push_char(&mut border, ' ');
            push_char(&mut border, '│');
            assert(border@ =~= seq![' ', ' ', '│']);
            cells.push(HexCell { text: border, kind: CellKind::AsciiBorder });
            let ghost mid = cell_views(cells@);
            assert(mid =~= head + seq![(seq![' ', ' ', '│'], CellKind::AsciiBorder)]);
            let mut k: usize = 0;
            while k < n
                invariant
                    n == end - start,
                    start + n <= len,
                    len == self.bytes@.len(),
                    k <= n,
                    cell_views(cells@) + self.ascii_cells(start as int, n as int, k as int)
                        == mid + self.ascii_cells(start as int, n as int, 0),
                decreases n - k,
            {
                let ghost before = cell_views(cells@);
                let c = ascii_cell(self.bytes[start + k]);
                cells.push(text_cell(c, CellKind::AsciiChar { cursor: self.cursor == start + k }));
                assert(cell_views(cells@) =~= before + seq![(seq![c], CellKind::AsciiChar { cursor: self.cursor == start + k })]);
                assert(cell_views(cells@) + self.ascii_cells(start as int, n as int, k + 1)
                    =~= before + self.ascii_cells(start as int, n as int, k as int));
                k = k + 1;
            }
            assert(self.ascii_cells(start as int, n as int, n as int) =~= Seq::<(Seq<char>, CellKind)>::empty());
            assert(cell_views(cells@) =~= mid + self.ascii_cells(start as int, n as int, 0));
            let ghost body = cell_views(cells@);
            cells.push(text_cell('│', CellKind::AsciiBorder));
            assert(cell_views(cells@) =~= body + seq![(seq!['│'], CellKind::AsciiBorder)]);
            assert(cell_views(cells@) =~= head + seq![(seq![' ', ' ', '│'], CellKind::AsciiBorder)]
                + self.ascii_cells(start as int, n as int, 0) + seq![(seq!['│'], CellKind::AsciiBorder)]);
        }
        cells
    }
}

/// Bytes per row: the override if given, else 16 for views at least 76 columns
/// wide and 8 otherwise.
pub fn columns_for(columns: Option<usize>, width: usize) -> (cols: usize)
    ensures
        cols == match columns {
            Some(c) => c as int,
            None => if width >= 76 { 16int } else { 8int },
        },
{
    match columns {
        Some(c) => c,
        None => if width >= 76 { 16 } else { 8 },
    }
}

impl HexViewState {
    /// Prepare the ASCII mode for a viewport of `height` lines: records the
    /// height, clamps the scroll to the text's lines, and returns the lines to draw.
    pub fn layout_ascii(&mut self, height: usize) -> (lines: Vec<String>)
        ensures
            final(self).visible_rows == max_int(height as int, 1),
            final(self).scroll == min_int(
                old(self).scroll as int,
                sat_sub(text_lines(ascii_text(old(self).bytes@)).len() as int, height as int),
            ),
            views(lines@) == text_lines(ascii_text(old(self).bytes@)).subrange(
                final(self).scroll as int,
                min_int(final(self).scroll + height, text_lines(ascii_text(old(self).bytes@)).len() as int),
            ),
            final(self).bytes == old(self).bytes,
            final(self).original_bytes == old(self).original_bytes,
            final(self).cursor == old(self).cursor,
            final(self).mode == old(self).mode,
            final(self).edit == old(self).edit,
            final(self).markers == old(self).markers,
            final(self).cols == old(self).cols,
    {
        let text = ascii_view(self.bytes.as_slice());
        let all = split_text_lines(text.as_str());
        let visible = height;
        self.visible_rows = if visible > 1 { visible } else { 1 };
        let max_scroll = if all.len() >= visible { all.len() - visible } else { 0 };
        if self.scroll > max_scroll {
            self.scroll = max_scroll;
        }
        let from = self.scroll;
        let count = if all.len() - from >= visible { visible } else { all.len() - from };
        let mut out: Vec<String> = Vec::new();
        let alen = all.len();
        let mut i: usize = 0;
        while i < count
            invariant
                alen == all@.len(),
                from + count <= all@.len(),
                i <= count,
                views(out@) == views(all@).subrange(from as int, from + i),
            decreases count - i,
        {
            let line = all[from + i].clone();
            let ghost before = out@;
            out.push(line);
            assert(out@ == before.push(all@[from + i]));
            assert(views(out@) =~= views(before).push(all@[from + i]@));
            assert(views(out@) =~= views(all@).subrange(from as int, from + i + 1));
            i = i + 1;
        }
        out
    }
}

} // verus!
