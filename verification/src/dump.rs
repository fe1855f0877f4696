//! Plain-text renderings of a byte buffer: an xxd-style hex dump and an ASCII view.

use vstd::prelude::*;
use crate::text::push_char;

verus! {

/// The lower-case hex digit for a value below 16.
pub open spec fn hex_digit(d: int) -> char {
    if d < 10 {
        (48 + d) as char
    } else {
        (87 + d) as char
    }
}

/// The lower-case hex digits of `n`, without leading zeros (`0` is `"0"`).
pub open spec fn hex_digits(n: nat) -> Seq<char>
    decreases n,
{
    if n < 16 {
        seq![hex_digit(n as int)]
    } else {
        hex_digits(n / 16).push(hex_digit((n % 16) as int))
    }
}

/// `n` in lower-case hex, left-padded with zeros to at least `width` digits.
pub open spec fn hex_padded(n: nat, width: nat) -> Seq<char> {
    let d = hex_digits(n);
    if d.len() >= width {
        d
    } else {
        Seq::new((width - d.len()) as nat, |i: int| '0') + d
    }
}

/// `s` followed by spaces up to `width` characters.
pub open spec fn pad_right(s: Seq<char>, width: nat) -> Seq<char> {
    if s.len() >= width {
        s
    } else {
        s + Seq::new((width - s.len()) as nat, |i: int| ' ')
    }
}

/// The two hex digits of each byte, separated by single spaces.
pub open spec fn hex_joined(chunk: Seq<u8>) -> Seq<char>
    decreases chunk.len(),
{
    if chunk.len() == 0 {
        Seq::empty()
    } else if chunk.len() == 1 {
        hex_padded(chunk[0] as nat, 2)
    } else {
        hex_joined(chunk.drop_last()).push(' ') + hex_padded(chunk.last() as nat, 2)
    }
}

/// The dump's ASCII column character for a byte: printable ASCII as itself, `.` otherwise.
pub open spec fn dump_char(b: u8) -> char {
    if 0x20 <= b < 0x7f {
        b as char
    } else {
        '.'
    }
}

/// Bytes per dump row for a widget of this inner width.
pub open spec fn dump_row_width(inner_width: nat) -> nat {
    if inner_width >= 76 {
        16
    } else {
        8
    }
}

/// The dump line of the chunk starting at byte `off`.
pub open spec fn dump_line(bytes: Seq<u8>, off: nat, bpr: nat, ascii: bool) -> Seq<char> {
    let end = if off + bpr <= bytes.len() { off + bpr } else { bytes.len() as nat };
    let chunk = bytes.subrange(off as int, end as int);
    let hex = hex_joined(chunk);
    if ascii {
        hex_padded(off, 8) + seq![' ', ' '] + pad_right(hex, (bpr * 3 - 1) as nat) + seq![' ', ' ', '|']
            + chunk.map_values(|b: u8| dump_char(b)) + seq!['|']
    } else {
        hex_padded(off, 8) + seq![' ', ' '] + hex
    }
}

/// The first `k` dump lines, joined by newlines.
pub open spec fn dump_lines(bytes: Seq<u8>, bpr: nat, ascii: bool, k: nat) -> Seq<char>
    decreases k,
{
    if k == 0 {
        Seq::empty()
    } else if k == 1 {
        dump_line(bytes, 0, bpr, ascii)
    } else {
        dump_lines(bytes, bpr, ascii, (k - 1) as nat).push('\n') + dump_line(
            bytes,
            ((k - 1) * bpr) as nat,
            bpr,
            ascii,
        )
    }
}

/// Number of chunks of `bpr` bytes in `len` bytes.
pub open spec fn chunk_count(len: nat, bpr: nat) -> nat {
    if bpr == 0 {
        0
    } else {
        len / bpr + if len % bpr == 0 { 0nat } else { 1nat }
    }
}

/// The whole hex dump.
pub open spec fn hex_dump_text(bytes: Seq<u8>, inner_width: nat, ascii: bool) -> Seq<char> {
    let bpr = dump_row_width(inner_width);
    dump_lines(bytes, bpr, ascii, chunk_count(bytes.len(), bpr))
}

fn hex_digit_char(d: usize) -> (c: char)
    requires
        d < 16,
    ensures
        c == hex_digit(d as int),
{
    if d < 10 {
        ((48 + d) as u8) as char
    } else {
        ((87 + d) as u8) as char
    }
}

fn push_hex_digits(out: &mut String, n: usize)
    ensures
        final(out)@ == old(out)@ + hex_digits(n as nat),
    decreases n,
{
    if n >= 16 {
        push_hex_digits(out, n / 16);
    }
    push_char(out, hex_digit_char(n % 16));
    proof {
        if n < 16 {
            assert(n % 16 == n);
        }
    }
}

fn hex_digit_count(n: usize) -> (k: usize)
    ensures
        k == hex_digits(n as nat).len(),
    decreases n,
{
    if n < 16 {
        1
    } else {
        proof {
            lemma_hex_digits_len(n as nat / 16);
        }
        hex_digit_count(n / 16) + 1
    }
}

proof fn lemma_hex_digits_len(n: nat)
    ensures
        1 <= hex_digits(n).len() <= n + 1,
    decreases n,
{
    if n >= 16 {
        lemma_hex_digits_len(n / 16);
    }
}

/// Append `n` in lower-case hex, zero-padded to `width` digits.
pub(crate) fn push_hex_padded(out: &mut String, n: usize, width: usize)
    ensures
        final(out)@ == old(out)@ + hex_padded(n as nat, width as nat),
{
    let k = hex_digit_count(n);
    let ghost start = out@;
    if k < width {
        let mut i: usize = 0;
        while i < width - k
            invariant
                k < width,
                i <= width - k,
                out@ == start + Seq::new(i as nat, |j: int| '0'),
            decreases width - k - i,
        {
            push_char(out, '0');
            assert(start + Seq::new((i + 1) as nat, |j: int| '0') =~= (start + Seq::new(i as nat, |j: int| '0')).push('0'));
            i = i + 1;
        }
        let ghost zeros = out@;
        push_hex_digits(out, n);
        assert(out@ =~= start + (Seq::new((width - k) as nat, |j: int| '0') + hex_digits(n as nat)));
    } else {
        push_hex_digits(out, n);
    }
}

proof fn lemma_hex_byte_len(b: u8)
    ensures
        hex_padded(b as nat, 2).len() == 2,
{
    if b >= 16 {
        assert((b as nat) / 16 < 16);
        assert(hex_digits((b as nat) / 16).len() == 1);
    }
}

proof fn lemma_hex_joined_len(c: Seq<u8>)
    requires
        c.len() >= 1,
    ensures
        hex_joined(c).len() == 3 * c.len() - 1,
    decreases c.len(),
{
    if c.len() == 1 {
        lemma_hex_byte_len(c[0]);
    } else {
        lemma_hex_joined_len(c.drop_last());
        lemma_hex_byte_len(c.last());
    }
}

proof fn lemma_chunk_count(n: nat, bpr: nat, i: nat)
    requires
        bpr > 0,
        (i == 0 && n == 0) || (i >= 1 && (i - 1) * bpr < n <= i * bpr),
    ensures
        chunk_count(n, bpr) == i,
{
    if i >= 1 {
        let q = n / bpr;
        let r = n % bpr;
        assert(n == q * bpr + r && 0 <= r < bpr) by (nonlinear_arith)
            requires
                bpr > 0,
                q == n / bpr,
                r == n % bpr,
        ;
        assert(q + (if r == 0 { 0nat } else { 1nat }) == i) by (nonlinear_arith)
            requires
                n == q * bpr + r,
                0 <= r < bpr,
                (i - 1) * bpr < n <= i * bpr,
                i >= 1,
        ;
    }
}

fn push_spaces(out: &mut String, count: usize)
    ensures
        final(out)@ == old(out)@ + Seq::new(count as nat, |j: int| ' '),
{
    let ghost start = out@;
    let mut i: usize = 0;
    while i < count
        invariant
            i <= count,
            out@ == start + Seq::new(i as nat, |j: int| ' '),
        decreases count - i,
    {
        push_char(out, ' ');
        assert(start + Seq::new((i + 1) as nat, |j: int| ' ') =~= (start + Seq::new(i as nat, |j: int| ' ')).push(' '));
        i = i + 1;
    }
}

/// The dump's ASCII column character for a byte.
fn dump_char_of(b: u8) -> (c: char)
    ensures
        c == dump_char(b),
{
    if 0x20 <= b && b < 0x7f {
        b as char
    } else {
        '.'
    }
}

fn push_hex_joined(out: &mut String, bytes: &[u8], off: usize, end: usize)
    requires
        off < end <= bytes@.len(),
    ensures
        final(out)@ == old(out)@ + hex_joined(bytes@.subrange(off as int, end as int)),
{
    let ghost head = out@;
    let mut j: usize = off;
    while j < end
        invariant
            off <= j <= end <= bytes@.len(),
            j > off ==> out@ == head + hex_joined(bytes@.subrange(off as int, j as int)),
            j == off ==> out@ == head,
        decreases end - j,
    {
        let ghost sub = bytes@.subrange(off as int, j + 1);
        assert(sub.drop_last() =~= bytes@.subrange(off as int, j as int));
        assert(sub.last() == bytes@[j as int]);
        if j > off {
            push_char(out, ' ');
        } else {
            assert(sub =~= seq![bytes@[j as int]]);
        }
        push_hex_padded(out, bytes[j] as usize, 2);
        assert(out@ =~= head + hex_joined(sub));
        j = j + 1;
    }
}

fn push_ascii_column(out: &mut String, bytes: &[u8], off: usize, end: usize)
    requires
        off <= end <= bytes@.len(),
    ensures
        final(out)@ == old(out)@ + bytes@.subrange(off as int, end as int).map_values(|b: u8| dump_char(b)),
{
    let ghost mid = out@;
    let ghost chunk = bytes@.subrange(off as int, end as int);
    let mut k: usize = off;
    while k < end
        invariant
            off <= k <= end <= bytes@.len(),
            chunk == bytes@.subrange(off as int, end as int),
            out@ == mid + chunk.take(k - off).map_values(|b: u8| dump_char(b)),
        decreases end - k,
    {
        let c = dump_char_of(bytes[k]);
        push_char(out, c);
        assert(chunk.take(k + 1 - off).map_values(|b: u8| dump_char(b)) =~= chunk.take(k - off).map_values(|b: u8| dump_char(b)).push(c));
        k = k + 1;
    }
    assert(chunk.take(end - off) =~= chunk);
}

#[verifier::rlimit(50)]
fn push_dump_line(out: &mut String, bytes: &[u8], off: usize, end: usize, bpr: usize, ascii: bool)
    requires
        off < end <= bytes@.len(),
        bpr == 8 || bpr == 16,
        end == (if off + bpr <= bytes@.len() { off + bpr } else { bytes@.len() as int }),
    ensures
        final(out)@ == old(out)@ + dump_line(bytes@, off as nat, bpr as nat, ascii),
{
    let ghost start = out@;
    let ghost chunk = bytes@.subrange(off as int, end as int);
    let ghost p1 = hex_padded(off as nat, 8);
    let ghost hex = hex_joined(chunk);
    push_hex_padded(out, off, 8);
    push_char(out, ' ');
    push_char(out, ' ');
    let ghost a = out@;
    assert(a =~= start + (p1 + seq![' ', ' ']));
    push_hex_joined(out, bytes, off, end);
    if ascii {
        proof {
            lemma_hex_joined_len(chunk);
        }
        let hex_len = (end - off) * 3 - 1;
        let hex_w = bpr * 3 - 1;
        if hex_len < hex_w {
            push_spaces(out, hex_w - hex_len);
        }
        let ghost padded = pad_right(hex, (bpr * 3 - 1) as nat);
        assert(out@ =~= a + padded);
        push_char(out, ' ');
        push_char(out, ' ');
        push_char(out, '|');
        let ghost b = out@;
        assert(b =~= a + padded + seq![' ', ' ', '|']);
        push_ascii_column(out, bytes, off, end);
        let ghost cols = chunk.map_values(|x: u8| dump_char(x));
        push_char(out, '|');
        assert(out@ =~= b + cols + seq!['|']);
        proof {
            let line = p1 + seq![' ', ' '] + padded + seq![' ', ' ', '|'] + cols + seq!['|'];
            assert(dump_line(bytes@, off as nat, bpr as nat, ascii) == line);
            assert(out@ =~= start + line);
        }
    } else {
        assert(dump_line(bytes@, off as nat, bpr as nat, ascii) == p1 + seq![' ', ' '] + hex);
        assert(out@ =~= start + (p1 + seq![' ', ' '] + hex));
    }
}

/// Format bytes as a hex+ASCII dump (xxd-style).
///
/// `inner_width` is the usable width inside a widget border.
/// Automatically selects 16 bytes/row (needs ≥76 cols) or 8 bytes/row otherwise.
/// When `ascii` is `false` the `|ASCII|` column is omitted.
pub fn hex_dump(bytes: &[u8], inner_width: usize, ascii: bool) -> (s: String)
    ensures
        s@ == hex_dump_text(bytes@, inner_width as nat, ascii),
{
    let bpr: usize = if inner_width >= 76 { 16 } else { 8 };
    let n = bytes.len();
    let mut out = String::new();
    let mut off: usize = 0;
    let ghost mut i: nat = 0;
    while off < n
        invariant
            n == bytes@.len(),
            bpr == 8 || bpr == 16,
            off <= n,
            off < n ==> off == i * bpr,
            i == 0 ==> off == 0,
            i >= 1 ==> (i - 1) * bpr < n,
            off == n && i >= 1 ==> n <= i * bpr,
            out@ == dump_lines(bytes@, bpr as nat, ascii, i),
        decreases n - off,
    {
        if off > 0 {
            push_char(&mut out, '\n');
        }
        let end = if n - off >= bpr { off + bpr } else { n };
        push_dump_line(&mut out, bytes, off, end, bpr, ascii);
        proof {
            if i == 0 {
                assert(out@ =~= dump_lines(bytes@, bpr as nat, ascii, 1));
            } else {
                assert(out@ =~= dump_lines(bytes@, bpr as nat, ascii, i + 1));
            }
            assert((i + 1) * bpr == i * bpr + bpr) by (nonlinear_arith);
            i = i + 1;
        }
        off = end;
    }
    proof {
        lemma_chunk_count(n as nat, bpr as nat, i);
    }
    out
}

/// The ASCII view of `bytes[i..]`: `\r\n` and `\n` become newlines, printable
/// ASCII and tabs stay, everything else becomes `·`.
pub open spec fn ascii_text_from(bytes: Seq<u8>, i: int) -> Seq<char>
    decreases bytes.len() - i,
{
    if i >= bytes.len() || i < 0 {
        Seq::empty()
    } else {
        let b = bytes[i];
        if b == 13 && i + 1 < bytes.len() && bytes[i + 1] == 10 {
            seq!['\n'] + ascii_text_from(bytes, i + 2)
        } else if b == 10 {
            seq!['\n'] + ascii_text_from(bytes, i + 1)
        } else if (0x20 <= b < 0x7f) || b == 9 {
            seq![b as char] + ascii_text_from(bytes, i + 1)
        } else {
            seq!['·'] + ascii_text_from(bytes, i + 1)
        }
    }
}

/// The ASCII view of a whole buffer.
pub open spec fn ascii_text(bytes: Seq<u8>) -> Seq<char> {
    ascii_text_from(bytes, 0)
}

/// Render bytes as plain text.
///
/// `\r\n` and bare `\n` become newlines; other non-printable bytes become `·`.
pub fn ascii_view(bytes: &[u8]) -> (s: String)
    ensures
        s@ == ascii_text(bytes@),
{
    let mut out = String::new();
    let mut i: usize = 0;
    while i < bytes.len()
        invariant
            i <= bytes@.len(),
            out@ + ascii_text_from(bytes@, i as int) == ascii_text(bytes@),
        decreases bytes@.len() - i,
    {
        let b = bytes[i];
        let ghost before = out@;
        if b == 13 && i + 1 < bytes.len() && bytes[i + 1] == 10 {
            push_char(&mut out, '\n');
            assert(before + ascii_text_from(bytes@, i as int) =~= out@ + ascii_text_from(bytes@, i + 2));
            i = i + 2;
        } else if b == 10 {
            push_char(&mut out, '\n');
            assert(before + ascii_text_from(bytes@, i as int) =~= out@ + ascii_text_from(bytes@, i + 1));
            i = i + 1;
        } else if (0x20 <= b && b < 0x7f) || b == 9 {
            push_char(&mut out, b as char);
            assert(before + ascii_text_from(bytes@, i as int) =~= out@ + ascii_text_from(bytes@, i + 1));
            i = i + 1;
        } else {
            push_char(&mut out, '·');
            assert(before + ascii_text_from(bytes@, i as int) =~= out@ + ascii_text_from(bytes@, i + 1));
            i = i + 1;
        }
    }
    assert(ascii_text_from(bytes@, i as int) =~= Seq::<char>::empty());
    assert(out@ + Seq::<char>::empty() =~= out@);
    out
}

} // verus!
