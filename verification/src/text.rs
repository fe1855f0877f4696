//! Text rules shared by the log view: display columns and ANSI escape stripping.

use vstd::prelude::*;

verus! {

/// What `unicode_width::UnicodeWidthChar::width` returns for a character.
pub uninterp spec fn unicode_char_width(c: char) -> Option<usize>;

/// Calls `unicode_width::UnicodeWidthChar::width`.
/// Claimed: the result is the named result for `c`; no character is wider than
/// three columns; printable ASCII (`' '..='~'`) is one column; the C0 and C1
/// control codes have no width; every character from U+00A0 up has a width.
#[verifier::external_body]
fn unicode_width_of(c: char) -> (r: Option<usize>)
    ensures
        r == unicode_char_width(c),
        r matches Some(w) ==> w <= 3,
        0x20 <= (c as u32) <= 0x7e ==> r == Some(1usize),
        ((c as u32) < 0x20 || (0x7f <= (c as u32) && (c as u32) < 0xa0)) ==> r is None,
        0xa0 <= (c as u32) ==> r is Some,
{
    unicode_width::UnicodeWidthChar::width(c)
}

/// Calls `String::push`: appends one character.
#[verifier::external_body]
pub(crate) fn push_char(s: &mut String, c: char)
    ensures
        final(s)@ == old(s)@.push(c),
{
    s.push(c)
}

/// Display columns of one character: its Unicode width, with a tab counted as
/// one column and other control characters as none.
pub open spec fn char_columns(c: char) -> nat {
    match unicode_char_width(c) {
        Some(w) => w as nat,
        None => if c == '\t' { 1 } else { 0 },
    }
}

/// Display columns of a character sequence.
pub open spec fn columns(s: Seq<char>) -> nat
    decreases s.len(),
{
    if s.len() == 0 {
        0
    } else {
        columns(s.drop_last()) + char_columns(s.last())
    }
}

/// Display columns never shrink as a prefix grows.
pub proof fn lemma_columns_prefix_mono(s: Seq<char>, a: int, b: int)
    requires
        0 <= a <= b <= s.len(),
    ensures
        columns(s.take(a)) <= columns(s.take(b)),
    decreases b - a,
{
    if a < b {
        lemma_columns_prefix_mono(s, a, b - 1);
        assert(s.take(b).drop_last() =~= s.take(b - 1));
    }
}

/// A sequence whose display columns are sure to fit in a `usize`.
pub open spec fn measurable(s: Seq<char>) -> bool {
    3 * s.len() <= usize::MAX
}

/// Display columns of one character.
pub fn display_width_char(ch: char) -> (w: usize)
    ensures
        w == char_columns(ch),
        w <= 3,
        0x20 <= (ch as u32) <= 0x7e ==> w == 1,
        ch == '\t' ==> w == 1,
        ((ch as u32) < 0x20 || (0x7f <= (ch as u32) && (ch as u32) < 0xa0)) && ch != '\t' ==> w == 0,
{
    match unicode_width_of(ch) {
        Some(w) => w,
        None => if ch == '\t' { 1 } else { 0 },
    }
}

/// Display columns of a string.
pub fn display_width(text: &str) -> (w: usize)
    requires
        measurable(text@),
    ensures
        w == columns(text@),
        w <= 3 * text@.len(),
{
    let chars = chars_of(text);
    let w = columns_of(&chars, 0, chars.len());
    assert(chars@.subrange(0, chars@.len() as int) =~= chars@);
    w
}

/// Display columns of a character sequence held in a vector.
pub(crate) fn columns_of(chars: &Vec<char>, from: usize, to: usize) -> (w: usize)
    requires
        from <= to <= chars@.len(),
        measurable(chars@),
    ensures
        w == columns(chars@.subrange(from as int, to as int)),
        w <= 3 * (to - from),
{
    let mut w: usize = 0;
    let mut i: usize = from;
    while i < to
        invariant
            from <= i <= to <= chars@.len(),
            measurable(chars@),
            w == columns(chars@.subrange(from as int, i as int)),
            w <= 3 * (i - from),
        decreases to - i,
    {
        let c = display_width_char(chars[i]);
        assert(chars@.subrange(from as int, i + 1).drop_last() =~= chars@.subrange(from as int, i as int));
        w = w + c;
        i = i + 1;
    }
    w
}

/// The characters of a string slice, in order.
pub(crate) fn chars_of(text: &str) -> (r: Vec<char>)
    ensures
        r@ == text@,
{
    let mut r: Vec<char> = Vec::new();
    for c in it: text.chars()
        invariant
            r@ == it.seq().take(it.index() as int),
    {
        r.push(c);
    }
    r
}


/// Where the escape-sequence scanner stands after a prefix of a line.
#[derive(Clone, Copy, PartialEq, Eq, Debug, Structural)]
pub enum EscState {
    /// Plain text: characters are kept.
    Text,
    /// Just after an ESC.
    Escape,
    /// Inside a control sequence (`ESC [`), which ends at a byte in `0x40..=0x7e`.
    Csi,
    /// Inside an operating-system command (`ESC ]`), which ends at BEL or `ESC \`.
    Osc,
    /// Inside an operating-system command, just after an ESC.
    OscEscape,
}

pub open spec fn is_csi_final(c: char) -> bool {
    0x40 <= (c as u32) <= 0x7e
}

/// One step of the scanner: the next state and the character kept, if any.
pub open spec fn esc_step(st: EscState, c: char) -> (EscState, Option<char>) {
    match st {
        EscState::Text => if c == '\u{1b}' {
            (EscState::Escape, None)
        } else {
            (EscState::Text, Some(c))
        },
        EscState::Escape => if c == '[' {
            (EscState::Csi, None)
        } else if c == ']' {
            (EscState::Osc, None)
        } else if c == '\u{1b}' {
            (EscState::Escape, None)
        } else {
            (EscState::Text, Some(c))
        },
        EscState::Csi => if is_csi_final(c) {
            (EscState::Text, None)
        } else {
            (EscState::Csi, None)
        },
        EscState::Osc => if c == '\u{7}' {
            (EscState::Text, None)
        } else if c == '\u{1b}' {
            (EscState::OscEscape, None)
        } else {
            (EscState::Osc, None)
        },
        EscState::OscEscape => if c == '\\' || c == '\u{7}' {
            (EscState::Text, None)
        } else if c == '\u{1b}' {
            (EscState::OscEscape, None)
        } else {
            (EscState::Osc, None)
        },
    }
}

/// The kept characters and the scanner state after scanning `s` from plain text.
pub open spec fn esc_scan(s: Seq<char>) -> (Seq<char>, EscState)
    decreases s.len(),
{
    if s.len() == 0 {
        (Seq::empty(), EscState::Text)
    } else {
        let (out, st) = esc_scan(s.drop_last());
        let (next, kept) = esc_step(st, s.last());
        match kept {
            Some(c) => (out.push(c), next),
            None => (out, next),
        }
    }
}

/// `s` with its ANSI escape sequences (CSI, OSC, and lone ESC) removed.
pub open spec fn strip_ansi(s: Seq<char>) -> Seq<char> {
    esc_scan(s).0
}

/// Display columns of a line once its escape sequences are removed.
pub open spec fn visible_columns(s: Seq<char>) -> nat {
    columns(strip_ansi(s))
}

proof fn lemma_esc_scan_len(s: Seq<char>)
    ensures
        esc_scan(s).0.len() <= s.len(),
    decreases s.len(),
{
    if s.len() > 0 {
        lemma_esc_scan_len(s.drop_last());
    }
}

proof fn lemma_esc_scan_no_escape(s: Seq<char>)
    ensures
        forall|k: int| 0 <= k < esc_scan(s).0.len() ==> esc_scan(s).0[k] != '\u{1b}',
    decreases s.len(),
{
    if s.len() > 0 {
        lemma_esc_scan_no_escape(s.drop_last());
        let (out, st) = esc_scan(s.drop_last());
        let (next, kept) = esc_step(st, s.last());
        match kept {
            Some(c) => {
                assert(c != '\u{1b}');
                assert forall|k: int| 0 <= k < out.push(c).len() implies out.push(c)[k] != '\u{1b}' by {
                    if k < out.len() {
                        assert(out.push(c)[k] == out[k]);
                    }
                }
            },
            None => {},
        }
    }
}

proof fn lemma_esc_scan_plain(s: Seq<char>)
    requires
        forall|k: int| 0 <= k < s.len() ==> s[k] != '\u{1b}',
    ensures
        esc_scan(s) == (s, EscState::Text),
    decreases s.len(),
{
    if s.len() > 0 {
        lemma_esc_scan_plain(s.drop_last());
        assert(s.drop_last().push(s.last()) =~= s);
    }
}

/// Stripping leaves no ESC character behind.
pub proof fn law_stripped_has_no_escape(s: Seq<char>)
    ensures
        forall|k: int| 0 <= k < strip_ansi(s).len() ==> strip_ansi(s)[k] != '\u{1b}',
{
    lemma_esc_scan_no_escape(s);
}

/// Text without ESC characters is left as it is.
pub proof fn law_strip_keeps_plain_text(s: Seq<char>)
    requires
        forall|k: int| 0 <= k < s.len() ==> s[k] != '\u{1b}',
    ensures
        strip_ansi(s) == s,
{
    lemma_esc_scan_plain(s);
}

/// Stripping twice is stripping once.
pub proof fn law_strip_idempotent(s: Seq<char>)
    ensures
        strip_ansi(strip_ansi(s)) == strip_ansi(s),
{
    lemma_esc_scan_no_escape(s);
    lemma_esc_scan_plain(strip_ansi(s));
}

/// `a` is a subsequence of `b`: `a`'s characters occur in `b` in the same
/// order, possibly with others between them (matched from the end).
pub open spec fn is_subsequence(a: Seq<char>, b: Seq<char>) -> bool
    decreases b.len(),
{
    if a.len() == 0 {
        true
    } else if b.len() == 0 {
        false
    } else if a.last() == b.last() {
        is_subsequence(a.drop_last(), b.drop_last())
    } else {
        is_subsequence(a, b.drop_last())
    }
}

proof fn lemma_subsequence_extend(a: Seq<char>, b: Seq<char>, c: char)
    requires
        is_subsequence(a, b),
    ensures
        is_subsequence(a, b.push(c)),
    decreases b.len(), 1int,
{
    let z = b.push(c);
    assert(z.drop_last() =~= b);
    if a.len() > 0 && a.last() == c {
        lemma_subsequence_drop(a, b);
    }
}

proof fn lemma_subsequence_drop(a: Seq<char>, b: Seq<char>)
    requires
        is_subsequence(a, b),
        a.len() > 0,
    ensures
        is_subsequence(a.drop_last(), b),
    decreases b.len(), 0int,
{
    let bl = b.drop_last();
    assert(bl.push(b.last()) =~= b);
    if a.last() == b.last() {
        lemma_subsequence_extend(a.drop_last(), bl, b.last());
    } else {
        lemma_subsequence_drop(a, bl);
        lemma_subsequence_extend(a.drop_last(), bl, b.last());
    }
}

/// Stripping only removes characters: what is left occurs in the line in the
/// same order.
pub proof fn law_strip_keeps_order(s: Seq<char>)
    ensures
        is_subsequence(strip_ansi(s), s),
    decreases s.len(),
{
    if s.len() > 0 {
        let p = s.drop_last();
        law_strip_keeps_order(p);
        let (out, st) = esc_scan(p);
        let (next, kept) = esc_step(st, s.last());
        assert(p.push(s.last()) =~= s);
        match kept {
            Some(c) => {
                assert(c == s.last());
                assert(out.push(c).drop_last() =~= out);
            },
            None => {
                lemma_subsequence_extend(out, p, s.last());
            },
        }
    }
}

/// The kept characters and the final state after scanning `s` from state `st`.
pub open spec fn scan_from(st: EscState, s: Seq<char>) -> (Seq<char>, EscState)
    decreases s.len(),
{
    if s.len() == 0 {
        (Seq::empty(), st)
    } else {
        let (out, mid) = scan_from(st, s.drop_last());
        let (next, kept) = esc_step(mid, s.last());
        match kept {
            Some(c) => (out.push(c), next),
            None => (out, next),
        }
    }
}

proof fn lemma_scan_from_text(s: Seq<char>)
    ensures
        esc_scan(s) == scan_from(EscState::Text, s),
    decreases s.len(),
{
    if s.len() > 0 {
        lemma_scan_from_text(s.drop_last());
    }
}

proof fn lemma_scan_concat(st: EscState, a: Seq<char>, b: Seq<char>)
    ensures
        scan_from(st, a + b) == (
            scan_from(st, a).0 + scan_from(scan_from(st, a).1, b).0,
            scan_from(scan_from(st, a).1, b).1,
        ),
    decreases b.len(),
{
    if b.len() == 0 {
        assert(a + b =~= a);
        assert(scan_from(st, a).0 + Seq::<char>::empty() =~= scan_from(st, a).0);
    } else {
        lemma_scan_concat(st, a, b.drop_last());
        assert((a + b).drop_last() =~= a + b.drop_last());
        assert((a + b).last() == b.last());
        let (out_a, mid) = scan_from(st, a);
        let (out_b, mid_b) = scan_from(mid, b.drop_last());
        let (next, kept) = esc_step(mid_b, b.last());
        match kept {
            Some(c) => {
                assert((out_a + out_b).push(c) =~= out_a + out_b.push(c));
            },
            None => {},
        }
    }
}

proof fn lemma_scan_step(st: EscState, p: Seq<char>, c: char)
    ensures
        scan_from(st, p.push(c)) == (
            match esc_step(scan_from(st, p).1, c).1 {
                Some(k) => scan_from(st, p).0.push(k),
                None => scan_from(st, p).0,
            },
            esc_step(scan_from(st, p).1, c).0,
        ),
{
    assert(p.push(c).drop_last() =~= p);
    assert(p.push(c).last() == c);
}

/// Scanning ESC and then `c` from plain text.
proof fn lemma_scan_escape_pair(c: char)
    ensures
        scan_from(EscState::Text, seq!['\u{1b}', c]) == (
            match esc_step(EscState::Escape, c).1 {
                Some(k) => seq![k],
                None => Seq::<char>::empty(),
            },
            esc_step(EscState::Escape, c).0,
        ),
{
    let e = Seq::<char>::empty();
    lemma_scan_step(EscState::Text, e, '\u{1b}');
    assert(e.push('\u{1b}') =~= seq!['\u{1b}']);
    lemma_scan_step(EscState::Text, seq!['\u{1b}'], c);
    assert(seq!['\u{1b}'].push(c) =~= seq!['\u{1b}', c]);
    assert(e.push(c) =~= seq![c]);
}

proof fn lemma_scan_csi_body(params: Seq<char>)
    requires
        forall|k: int| 0 <= k < params.len() ==> 0x20 <= (#[trigger] params[k] as u32) <= 0x3f,
    ensures
        scan_from(EscState::Csi, params) == (Seq::<char>::empty(), EscState::Csi),
    decreases params.len(),
{
    if params.len() > 0 {
        lemma_scan_csi_body(params.drop_last());
        assert(params.last() == params[params.len() - 1]);
    }
}

proof fn lemma_scan_osc_body(body: Seq<char>)
    requires
        forall|k: int| 0 <= k < body.len() ==> #[trigger] body[k] != '\u{1b}' && body[k] != '\u{7}',
    ensures
        scan_from(EscState::Osc, body) == (Seq::<char>::empty(), EscState::Osc),
    decreases body.len(),
{
    if body.len() > 0 {
        lemma_scan_osc_body(body.drop_last());
        assert(body.last() == body[body.len() - 1]);
    }
}

proof fn lemma_scan_plain(t: Seq<char>)
    requires
        forall|k: int| 0 <= k < t.len() ==> #[trigger] t[k] != '\u{1b}',
    ensures
        scan_from(EscState::Text, t) == (t, EscState::Text),
    decreases t.len(),
{
    if t.len() > 0 {
        lemma_scan_plain(t.drop_last());
        assert(t.last() == t[t.len() - 1]);
        assert(t.drop_last().push(t.last()) =~= t);
    }
}

/// A prefix that the scanner reads from plain text back to plain text without
/// keeping anything is removed whole, whatever follows it.
proof fn lemma_removed_prefix(p: Seq<char>, s: Seq<char>)
    requires
        scan_from(EscState::Text, p) == (Seq::<char>::empty(), EscState::Text),
    ensures
        strip_ansi(p + s) == strip_ansi(s),
{
    lemma_scan_from_text(p + s);
    lemma_scan_from_text(s);
    lemma_scan_concat(EscState::Text, p, s);
    assert(Seq::<char>::empty() + scan_from(EscState::Text, s).0 =~= scan_from(EscState::Text, s).0);
}

/// A control sequence (`ESC [`, parameter and intermediate bytes in
/// `0x20..=0x3f`, then one final byte in `0x40..=0x7e`, such as `ESC [ 2 K` or
/// `ESC [ 1 ; 31 m`) is removed, and the text after it is stripped as if the
/// sequence were not there.
pub proof fn law_strip_removes_control_sequence(params: Seq<char>, f: char, s: Seq<char>)
    requires
        forall|k: int| 0 <= k < params.len() ==> 0x20 <= (#[trigger] params[k] as u32) <= 0x3f,
        0x40 <= (f as u32) <= 0x7e,
    ensures
        strip_ansi(seq!['\u{1b}', '['] + params + seq![f] + s) == strip_ansi(s),
{
    let head = seq!['\u{1b}', '['];
    lemma_scan_concat(EscState::Text, head, params);
    lemma_scan_escape_pair('[');
    assert(scan_from(EscState::Text, head) == (Seq::<char>::empty(), EscState::Csi));
    lemma_scan_csi_body(params);
    lemma_scan_concat(EscState::Text, head + params, seq![f]);
    lemma_scan_step(EscState::Csi, Seq::<char>::empty(), f);
    assert(Seq::<char>::empty().push(f) =~= seq![f]);
    assert(Seq::<char>::empty() + Seq::<char>::empty() =~= Seq::<char>::empty());
    lemma_removed_prefix(head + params + seq![f], s);
}

/// An operating-system command (`ESC ]`, a body without ESC or BEL, then BEL or
/// `ESC \`, as in a window-title or hyperlink sequence) is removed, and the text
/// after it is stripped as if the command were not there.
pub proof fn law_strip_removes_os_command(body: Seq<char>, s: Seq<char>)
    requires
        forall|k: int| 0 <= k < body.len() ==> #[trigger] body[k] != '\u{1b}' && body[k] != '\u{7}',
    ensures
        strip_ansi(seq!['\u{1b}', ']'] + body + seq!['\u{7}'] + s) == strip_ansi(s),
        strip_ansi(seq!['\u{1b}', ']'] + body + seq!['\u{1b}', '\\'] + s) == strip_ansi(s),
{
    let head = seq!['\u{1b}', ']'];
    let e = Seq::<char>::empty();
    lemma_scan_concat(EscState::Text, head, body);
    lemma_scan_escape_pair(']');
    assert(scan_from(EscState::Text, head) == (e, EscState::Osc));
    lemma_scan_osc_body(body);
    assert(e + e =~= e);
    let bel = seq!['\u{7}'];
    lemma_scan_concat(EscState::Text, head + body, bel);
    lemma_scan_step(EscState::Osc, e, '\u{7}');
    assert(e.push('\u{7}') =~= bel);
    lemma_removed_prefix(head + body + bel, s);
    let st = seq!['\u{1b}', '\\'];
    lemma_scan_concat(EscState::Text, head + body, st);
    lemma_scan_step(EscState::Osc, e, '\u{1b}');
    assert(e.push('\u{1b}') =~= seq!['\u{1b}']);
    lemma_scan_step(EscState::Osc, seq!['\u{1b}'], '\\');
    assert(seq!['\u{1b}'].push('\\') =~= st);
    lemma_removed_prefix(head + body + st, s);
}

/// An ESC that starts no sequence (one not followed by `[`, `]` or another ESC)
/// is dropped and the character after it is kept.
pub proof fn law_strip_drops_lone_escape(c: char, s: Seq<char>)
    requires
        c != '[',
        c != ']',
        c != '\u{1b}',
    ensures
        strip_ansi(seq!['\u{1b}', c] + s) == seq![c] + strip_ansi(s),
{
    let head = seq!['\u{1b}', c];
    lemma_scan_from_text(head + s);
    lemma_scan_from_text(s);
    lemma_scan_concat(EscState::Text, head, s);
    lemma_scan_escape_pair(c);
}

/// Text without ESC characters is kept as it is in front of whatever follows:
/// stripping only ever removes escape sequences.
pub proof fn law_strip_keeps_plain_prefix(t: Seq<char>, s: Seq<char>)
    requires
        forall|k: int| 0 <= k < t.len() ==> t[k] != '\u{1b}',
    ensures
        strip_ansi(t + s) == t + strip_ansi(s),
{
    lemma_scan_plain(t);
    lemma_scan_from_text(t + s);
    lemma_scan_from_text(s);
    lemma_scan_concat(EscState::Text, t, s);
}

/// Strip common ANSI escape sequences from a log line.
pub fn strip_ansi_codes(text: &str) -> (out: String)
    ensures
        out@ == strip_ansi(text@),
        out@.len() <= text@.len(),
{
    proof {
        lemma_esc_scan_len(text@);
    }
    let chars = chars_of(text);
    let mut out = String::new();
    let mut st = EscState::Text;
    let mut i: usize = 0;
    while i < chars.len()
        invariant
            i <= chars@.len(),
            chars@ == text@,
            (out@, st) == esc_scan(chars@.take(i as int)),
        decreases chars@.len() - i,
    {
        let c = chars[i];
        let ghost prev = chars@.take(i as int);
        assert(chars@.take(i + 1).drop_last() =~= prev);
        let (next, keep) = match st {
            EscState::Text => if c == '\u{1b}' {
                (EscState::Escape, false)
            } else {
                (EscState::Text, true)
            },
            EscState::Escape => if c == '[' {
                (EscState::Csi, false)
            } else if c == ']' {
                (EscState::Osc, false)
            } else if c == '\u{1b}' {
                (EscState::Escape, false)
            } else {
                (EscState::Text, true)
            },
            EscState::Csi => if 0x40 <= (c as u32) && (c as u32) <= 0x7e {
                (EscState::Text, false)
            } else {
                (EscState::Csi, false)
            },
            EscState::Osc => if c == '\u{7}' {
                (EscState::Text, false)
            } else if c == '\u{1b}' {
                (EscState::OscEscape, false)
            } else {
                (EscState::Osc, false)
            },
            EscState::OscEscape => if c == '\\' || c == '\u{7}' {
                (EscState::Text, false)
            } else if c == '\u{1b}' {
                (EscState::OscEscape, false)
            } else {
                (EscState::Osc, false)
            },
        };
        if keep {
            push_char(&mut out, c);
        }
        st = next;
        i = i + 1;
    }
    assert(chars@.take(chars@.len() as int) =~= chars@);
    out
}

/// Count the visible display columns in a line after stripping ANSI escape sequences.
pub fn ansi_visible_len(text: &str) -> (n: usize)
    requires
        measurable(text@),
    ensures
        n == visible_columns(text@),
        n <= 3 * text@.len(),
{
    let stripped = strip_ansi_codes(text);
    let chars = chars_of(stripped.as_str());
    proof { lemma_esc_scan_len(text@); }
    let n = columns_of(&chars, 0, chars.len());
    assert(chars@.subrange(0, chars@.len() as int) =~= chars@);
    n
}

} // verus!
