//! Properties that span several operations of the log and hex views.

use vstd::prelude::*;
use crate::hex::{
    ascii_lower, at_offset, except_offset, hex_layout, lemma_except_offset_has_none, marker_added,
    markers_in_rows, markers_on_row, max_int, min_int, nibble_of, row_count, row_fits, sat_sub,
    shown_markers, sorted_by_offset, HexLine, HexViewEvent, HexViewState, KeyCode, KeyInput, Marker,
    NibbleEdit, ViewMode,
};
use crate::log::{
    all_matches, leading_at_most, limited, line_at_row, line_matches, line_rows, lower_all,
    matches_in_order,
    find_from, match_at, split_newlines, strip_cr, text_lines, next_index, prev_index, row_offsets_for, rows_total, search_text,
    LogMatch, LogViewState, LogWindow,
};
use crate::dump::{ascii_text, ascii_text_from, dump_char, hex_digit, hex_digits, hex_joined, hex_padded};
use crate::text::{columns, law_strip_idempotent, strip_ansi, visible_columns};

verus! {

// ── Log search ───────────────────────────────────────────────────────────────

/// The search matches of a view come in reading order (line by line, and
/// left to right without overlap within a line); each names one of the view's
/// lines and ends within that line's visible text.
pub proof fn law_search_matches_ordered(s: LogViewState)
    requires
        s.wf(),
        s.search_current(),
    ensures
        matches_in_order(s.search_matches@),
        forall|k: int|
            0 <= k < s.search_matches@.len() ==> (#[trigger] s.search_matches@[k]).line < s.lines@.len()
                && s.search_matches@[k].range.start <= s.search_matches@[k].range.end
                && s.search_matches@[k].range.end <= visible_columns(s.lines@[s.search_matches@[k].line as int]@),
{
}

/// `m` spans the columns of an occurrence of `query` at character `p` of the
/// visible text `t` (compared after ASCII lower-casing both, unless case
/// sensitive).
pub open spec fn occurrence_at(t: Seq<char>, query: Seq<char>, case_sensitive: bool, p: int, m: LogMatch) -> bool {
    &&& 0 <= p
    &&& p + query.len() <= t.len()
    &&& if case_sensitive {
        t.subrange(p, p + query.len()) == query
    } else {
        lower_all(t.subrange(p, p + query.len())) == lower_all(query)
    }
    &&& m.range.start == columns(t.take(p)) as usize
    &&& m.range.end == columns(t.take(p + query.len())) as usize
}

/// `r` is a position where `n` occurs in `h`, at or after `i`.
pub open spec fn found_at(h: Seq<char>, n: Seq<char>, i: int, r: int) -> bool {
    &&& i <= r
    &&& r + n.len() <= h.len()
    &&& h.subrange(r, r + n.len()) == n
}

proof fn lemma_find_from_sound(h: Seq<char>, n: Seq<char>, i: int)
    ensures
        forall|k: int| 0 <= k < find_from(h, n, i).len() ==> found_at(h, n, i, #[trigger] find_from(h, n, i)[k]),
    decreases h.len() + 1 - i,
{
    let f = find_from(h, n, i);
    if i < 0 || i > h.len() {
        assert(f.len() == 0);
    } else if n.len() == 0 {
        lemma_find_from_sound(h, n, i + 1);
        let rest = find_from(h, n, i + 1);
        assert(f == seq![i] + rest);
        assert forall|k: int| 0 <= k < f.len() implies found_at(h, n, i, #[trigger] f[k]) by {
            if k > 0 {
                assert(f[k] == rest[k - 1]);
                assert(found_at(h, n, i + 1, rest[k - 1]));
            }
            assert(h.subrange(f[k], f[k]) =~= n);
        }
    } else if i + n.len() > h.len() {
        assert(f.len() == 0);
    } else if h.subrange(i, i + n.len()) == n {
        lemma_find_from_sound(h, n, i + n.len());
        let rest = find_from(h, n, i + n.len());
        assert(f == seq![i] + rest);
        assert forall|k: int| 0 <= k < f.len() implies found_at(h, n, i, #[trigger] f[k]) by {
            if k > 0 {
                assert(f[k] == rest[k - 1]);
                assert(found_at(h, n, i + n.len(), rest[k - 1]));
            }
        }
    } else {
        lemma_find_from_sound(h, n, i + 1);
        let rest = find_from(h, n, i + 1);
        assert(f == rest);
        assert forall|k: int| 0 <= k < f.len() implies found_at(h, n, i, #[trigger] f[k]) by {
            assert(found_at(h, n, i + 1, rest[k]));
        }
    }
}

/// `m` is a match of line `idx` at an occurrence of `query` in the visible text of `line`.
pub open spec fn occurrence_in(idx: int, line: Seq<char>, query: Seq<char>, case_sensitive: bool, m: LogMatch) -> bool {
    &&& m.line == idx
    &&& exists|p: int| occurrence_at(strip_ansi(line), query, case_sensitive, p, m)
}

proof fn lemma_line_matches_sound(idx: int, line: Seq<char>, query: Seq<char>, case_sensitive: bool)
    requires
        0 <= idx <= usize::MAX,
    ensures
        forall|k: int|
            0 <= k < line_matches(idx, line, query, case_sensitive).len() ==> occurrence_in(
                idx,
                line,
                query,
                case_sensitive,
                #[trigger] line_matches(idx, line, query, case_sensitive)[k],
            ),
{
    let t = strip_ansi(line);
    let h = search_text(t, case_sensitive);
    let needle = search_text(query, case_sensitive);
    let starts = find_from(h, needle, 0);
    let lm = line_matches(idx, line, query, case_sensitive);
    lemma_find_from_sound(h, needle, 0);
    assert(h.len() == t.len());
    assert(needle.len() == query.len());
    assert forall|k: int| 0 <= k < lm.len() implies occurrence_in(idx, line, query, case_sensitive, #[trigger] lm[k]) by {
        let m = lm[k];
        let p = starts[k];
        assert(found_at(h, needle, 0, p));
        assert(m == match_at(idx, t, p, needle.len() as int));
        assert(h.subrange(p, p + needle.len()) == needle);
        if !case_sensitive {
            assert(lower_all(t.subrange(p, p + query.len())) =~= h.subrange(p, p + needle.len()));
        }
        assert(occurrence_at(t, query, case_sensitive, p, m));
    }
}

/// Every search match marks an occurrence of the query in the visible text of
/// one of the lines (ASCII letters compared in lower case unless the search is
/// case sensitive), and spans exactly the columns of that occurrence.
pub proof fn law_search_matches_are_occurrences(lines: Seq<String>, query: Seq<char>, case_sensitive: bool)
    requires
        lines.len() <= usize::MAX,
    ensures
        forall|k: int|
            0 <= k < all_matches(lines, query, case_sensitive).len() ==> (#[trigger] all_matches(
                lines,
                query,
                case_sensitive,
            )[k]).line < lines.len() && occurrence_in(
                all_matches(lines, query, case_sensitive)[k].line as int,
                lines[all_matches(lines, query, case_sensitive)[k].line as int]@,
                query,
                case_sensitive,
                all_matches(lines, query, case_sensitive)[k],
            ),
    decreases lines.len(),
{
    if lines.len() > 0 {
        let front = lines.drop_last();
        law_search_matches_are_occurrences(front, query, case_sensitive);
        let idx = lines.len() - 1;
        lemma_line_matches_sound(idx, lines.last()@, query, case_sensitive);
        let a = all_matches(front, query, case_sensitive);
        let b = line_matches(idx, lines.last()@, query, case_sensitive);
        let all = all_matches(lines, query, case_sensitive);
        assert(all == a + b);
        assert forall|k: int| 0 <= k < all.len() implies (#[trigger] all[k]).line < lines.len() && occurrence_in(
            all[k].line as int,
            lines[all[k].line as int]@,
            query,
            case_sensitive,
            all[k],
        ) by {
            if k < a.len() {
                let m = a[k];
                assert(all[k] == m);
                assert(m.line < front.len());
                assert(lines[m.line as int] == front[m.line as int]);
            } else {
                assert(all[k] == b[k - a.len()]);
                assert(occurrence_in(idx, lines.last()@, query, case_sensitive, b[k - a.len()]));
                assert(lines[idx] == lines.last());
            }
        }
    }
}

/// Stepping to the next match and back to the previous one (or the other way
/// round) returns to the match one started from; stepping wraps around at
/// either end, and with no match selected it starts at the first or the last.
pub proof fn law_match_steps_undo(cur: usize, n: nat)
    requires
        cur < n <= usize::MAX,
    ensures
        prev_index(Some(next_index(Some(cur), n) as usize), n) == cur,
        next_index(Some(prev_index(Some(cur), n) as usize), n) == cur,
        next_index(Some((n - 1) as usize), n) == 0,
        prev_index(Some(0usize), n) == n - 1,
        next_index(None, n) == 0,
        prev_index(None, n) == n - 1,
        cur + 1 < n ==> next_index(Some(cur), n) == cur + 1,
        cur > 0 ==> prev_index(Some(cur), n) == cur - 1,
{
    vstd::arithmetic::div_mod::lemma_mod_self_0(n as int);
    if cur + 1 < n {
        vstd::arithmetic::div_mod::lemma_small_mod((cur + 1) as nat, n);
    }
    if cur > 0 {
        vstd::arithmetic::div_mod::lemma_small_mod(cur as nat, n);
    }
}

proof fn lemma_lower_twice(s: Seq<char>)
    ensures
        lower_all(lower_all(s)) == lower_all(s),
{
    assert forall|i: int| 0 <= i < s.len() implies ascii_lower(ascii_lower(s[i])) == ascii_lower(s[i]) by {
        let c = s[i];
        if 0x41 <= (c as u32) <= 0x5a {
            assert((((c as u32) + 32) as char) as u32 == (c as u32) + 32);
        }
    }
    assert(lower_all(lower_all(s)) =~= lower_all(s));
}

/// Without case sensitivity, the case of the query does not matter: a query
/// finds what its lower-case form finds.
pub proof fn law_query_case_ignored(lines: Seq<String>, query: Seq<char>)
    ensures
        all_matches(lines, query, false) == all_matches(lines, lower_all(query), false),
    decreases lines.len(),
{
    lemma_lower_twice(query);
    assert(search_text(lower_all(query), false) == search_text(query, false));
    if lines.len() > 0 {
        law_query_case_ignored(lines.drop_last(), query);
    }
}

/// Search reads the visible text: a line and the line with its escape
/// sequences stripped have the same matches.
pub proof fn law_search_sees_visible_text(idx: int, line: Seq<char>, query: Seq<char>, case_sensitive: bool)
    ensures
        line_matches(idx, strip_ansi(line), query, case_sensitive) == line_matches(idx, line, query, case_sensitive),
{
    law_strip_idempotent(line);
}

proof fn lemma_split_no_newline(a: Seq<char>)
    requires
        forall|k: int| 0 <= k < a.len() ==> a[k] != '\n',
    ensures
        split_newlines(a) == seq![a],
    decreases a.len(),
{
    if a.len() > 0 {
        lemma_split_no_newline(a.drop_last());
        assert(a.last() == a[a.len() - 1]);
        assert(a.drop_last().push(a.last()) =~= a);
        assert(seq![a.drop_last()].update(0, a.drop_last().push(a.last())) =~= seq![a]);
    } else {
        assert(a =~= Seq::<char>::empty());
    }
}

proof fn lemma_split_after_line(a: Seq<char>, r: Seq<char>)
    requires
        forall|k: int| 0 <= k < a.len() ==> a[k] != '\n',
    ensures
        split_newlines(a.push('\n') + r) == seq![a] + split_newlines(r),
    decreases r.len(),
{
    let h = a.push('\n');
    if r.len() == 0 {
        assert(h + r =~= h);
        assert(h.drop_last() =~= a);
        lemma_split_no_newline(a);
        assert(seq![a].push(Seq::<char>::empty()) =~= seq![a] + seq![Seq::<char>::empty()]);
    } else {
        lemma_split_after_line(a, r.drop_last());
        assert((h + r).drop_last() =~= h + r.drop_last());
        assert((h + r).last() == r.last());
        let q = split_newlines(r.drop_last());
        crate::log::lemma_split_nonempty(r.drop_last());
        if r.last() == '\n' {
            assert((seq![a] + q).push(Seq::<char>::empty()) =~= seq![a] + q.push(Seq::<char>::empty()));
        } else {
            let pa = seq![a] + q;
            assert(pa.update(pa.len() - 1, pa.last().push(r.last())) =~= seq![a] + q.update(
                q.len() - 1,
                q.last().push(r.last()),
            ));
        }
    }
}

/// Splitting a text into log lines goes line by line: a line ended by `\n`
/// (its `\r` dropped when it ends in `\r\n`) comes first, followed by the lines
/// of the rest; a last line without `\n` is kept as it is, and an empty text
/// has no lines.
pub proof fn law_text_lines_split_at_newlines(a: Seq<char>, rest: Seq<char>)
    requires
        forall|k: int| 0 <= k < a.len() ==> a[k] != '\n',
    ensures
        text_lines(a.push('\n') + rest) == seq![strip_cr(a)] + text_lines(rest),
        a.len() > 0 ==> text_lines(a) == seq![a],
        text_lines(Seq::<char>::empty()) == Seq::<Seq<char>>::empty(),
{
    lemma_split_after_line(a, rest);
    lemma_split_no_newline(a);
    lemma_split_no_newline(Seq::<char>::empty());
    let q = split_newlines(rest);
    crate::log::lemma_split_nonempty(rest);
    let p = seq![a] + q;
    assert(p.drop_last() =~= seq![a] + q.drop_last());
    assert(p.last() == q.last());
    assert(p.drop_last().map_values(|x: Seq<char>| strip_cr(x)) =~= seq![strip_cr(a)] + q.drop_last().map_values(
        |x: Seq<char>| strip_cr(x),
    ));
    if q.last().len() != 0 {
        assert((seq![strip_cr(a)] + q.drop_last().map_values(|x: Seq<char>| strip_cr(x))).push(q.last())
            =~= seq![strip_cr(a)] + q.drop_last().map_values(|x: Seq<char>| strip_cr(x)).push(q.last()));
    }
    assert(seq![a].drop_last().map_values(|x: Seq<char>| strip_cr(x)) =~= Seq::<Seq<char>>::empty());
    assert(Seq::<Seq<char>>::empty().push(a) =~= seq![a]);
    assert(seq![Seq::<char>::empty()].drop_last().map_values(|x: Seq<char>| strip_cr(x)) =~= Seq::<Seq<char>>::empty());
}

// ── Log scrolling, retention and geometry ────────────────────────────────────

/// Scrolling down by a step (a row, or a page of `step` rows) and then up by
/// the same step comes back to where it started, unless the end of the log
/// cut the first move short.
pub proof fn law_scroll_round_trip(scroll: usize, step: int, max_scroll: usize)
    requires
        step >= 1,
        scroll + step <= max_scroll,
    ensures
        sat_sub(min_int(min_int(scroll + step, usize::MAX as int), max_scroll as int), step) == scroll,
{
}

/// A line takes the fewest rows of the wrap width that hold its visible
/// columns (one row when it is empty or wrapping is off).
pub proof fn law_wrapped_rows_hold_the_line(line: Seq<char>, word_wrap: bool, wrap_at: nat)
    requires
        wrap_at >= 1,
    ensures
        ({
            let v = visible_columns(line);
            let r = line_rows(line, word_wrap, wrap_at);
            &&& (!word_wrap || v == 0) ==> r == 1
            &&& (word_wrap && v > 0) ==> r * wrap_at >= v && (r - 1) * wrap_at < v
        }),
{
    let v = visible_columns(line);
    if word_wrap && v > 0 {
        let r = line_rows(line, word_wrap, wrap_at);
        let q = v / wrap_at;
        let m = v % wrap_at;
        assert(v == q * wrap_at + m && m < wrap_at) by (nonlinear_arith)
            requires
                wrap_at >= 1,
                q == v / wrap_at,
                m == v % wrap_at,
        ;
        if m == 0 {
            assert(r == q);
            assert((q - 1) * wrap_at == q * wrap_at - wrap_at) by (nonlinear_arith);
        } else {
            assert(r == q + 1);
            assert((q + 1) * wrap_at == q * wrap_at + wrap_at) by (nonlinear_arith);
        }
    }
}

/// A retention limit keeps the newest lines, and no more of them than the limit.
pub proof fn law_retention_keeps_newest(lines: Seq<String>, limit: Option<usize>)
    ensures
        limited(lines, limit).len() <= lines.len(),
        limit matches Some(l) ==> limited(lines, limit).len() == min_int(lines.len() as int, l as int),
        limited(lines, limit) == lines.skip(lines.len() - limited(lines, limit).len()),
{
    match limit {
        Some(l) => {
            if lines.len() <= l {
                assert(lines.skip(0) =~= lines);
            }
        },
        None => {
            assert(lines.skip(0) =~= lines);
        },
    }
}

proof fn lemma_rows_grow(lines: Seq<String>, word_wrap: bool, wrap_at: nat, i: int, j: int)
    requires
        0 <= i <= j <= lines.len(),
    ensures
        rows_total(lines.take(i), word_wrap, wrap_at) + (j - i) <= rows_total(lines.take(j), word_wrap, wrap_at),
    decreases j - i,
{
    if i < j {
        lemma_rows_grow(lines, word_wrap, wrap_at, i, j - 1);
        assert(lines.take(j).drop_last() =~= lines.take(j - 1));
        let v = crate::text::visible_columns(lines.take(j).last()@);
        if word_wrap && v != 0 && wrap_at != 0 {
            if v < wrap_at {
                vstd::arithmetic::div_mod::lemma_small_mod(v, wrap_at);
            } else {
                assert(v / wrap_at >= 1) by (nonlinear_arith)
                    requires
                        v >= wrap_at,
                        wrap_at > 0,
                ;
            }
        }
    }
}

proof fn lemma_leading_at_entry(s: Seq<usize>, i: int)
    requires
        0 <= i < s.len(),
        forall|a: int, b: int| 0 <= a < b < s.len() ==> s[a] < s[b],
    ensures
        leading_at_most(s, s[i] as int) == i + 1,
    decreases i,
{
    let t = s.drop_first();
    if i == 0 {
        if t.len() > 0 {
            assert(t[0] == s[1]);
            assert(s[0] < s[1]);
            assert(leading_at_most(t, s[0] as int) == 0);
        } else {
            assert(leading_at_most(t, s[0] as int) == 0);
        }
        assert(leading_at_most(s, s[0] as int) == 1 + leading_at_most(t, s[0] as int));
    } else {
        assert(s[0] < s[i]);
        assert(t[i - 1] == s[i]);
        assert forall|a: int, b: int| 0 <= a < b < t.len() implies t[a] < t[b] by {
            assert(t[a] == s[a + 1] && t[b] == s[b + 1]);
        }
        lemma_leading_at_entry(t, i - 1);
    }
}

/// With fresh geometry, the line shown at the first wrapped row of a line is
/// that line: looking up a line's scroll offset and then the line at that
/// offset gives the line back.
pub proof fn law_line_offset_round_trip(s: LogViewState, line: int)
    requires
        s.wf(),
        s.geometry_fresh(),
        0 <= line < s.lines@.len(),
    ensures
        line_at_row(s.row_offsets@, s.lines@.len() as int, s.row_offsets@[line] as int) == line,
{
    let offs = s.row_offsets@;
    let w = s.cached_wrap_width as nat;
    assert forall|a: int, b: int| 0 <= a < b < offs.len() implies offs[a] < offs[b] by {
        assert(offs[a] == row_offsets_for(s.lines@, s.word_wrap, w)[a]);
        assert(offs[b] == row_offsets_for(s.lines@, s.word_wrap, w)[b]);
        lemma_rows_grow(s.lines@, s.word_wrap, w, a, b);
    }
    lemma_leading_at_entry(offs, line);
    assert(sat_sub(line + 1, 1) == line);
}

/// Preparing the same viewport twice in a row leaves the view where the
/// first preparation put it and gives the same window: drawing again draws
/// the same.
pub proof fn law_prepare_window_settles(
    s0: LogViewState,
    s1: LogViewState,
    s2: LogViewState,
    width: usize,
    height: usize,
    win1: LogWindow,
    win2: LogWindow,
)
    requires
        s0.window_prepared(width, height, s1, win1),
        s1.window_prepared(width, height, s2, win2),
    ensures
        s2.scroll == s1.scroll,
        s2.row_offsets@ == s1.row_offsets@,
        s2.max_scroll == s1.max_scroll,
        win2 == win1,
{
    assert(s2.row_offsets@ =~= s1.row_offsets@) by {
        assert forall|i: int| 0 <= i < s1.row_offsets@.len() implies s2.row_offsets@[i] == s1.row_offsets@[i] by {
            assert(s1.row_offsets@[i] == row_offsets_for(s1.lines@, s1.word_wrap, s1.cached_wrap_width as nat)[i]);
            assert(s2.row_offsets@[i] == row_offsets_for(s2.lines@, s2.word_wrap, s2.cached_wrap_width as nat)[i]);
        }
    }
}

/// Selecting a match (by syncing to the current one, or stepping to the next
/// or previous one) with a width known scrolls the log to the first wrapped
/// row of the match's line, or as far down as the log scrolls when that row is
/// near the end; either way the row is on screen, within the visible rows from
/// the new scroll offset.
pub proof fn law_selected_match_is_shown(pre: LogViewState, idx: int, post: LogViewState)
    requires
        pre.wf(),
        post.wf(),
        pre.geometry_known(),
        0 <= idx < pre.search_matches@.len(),
        pre.search_matches@[idx].line < pre.lines@.len(),
        pre.moved_to_match(idx, post),
    ensures
        ({
            let line = pre.search_matches@[idx].line as int;
            let row = post.row_offsets@[line] as int;
            &&& post.scroll == min_int(row, post.max_scroll as int)
            &&& post.scroll <= row < post.scroll + max_int(post.visible_rows as int, 1)
        }),
{
    let line = pre.search_matches@[idx].line as int;
    let lines = post.lines@;
    let w = post.cached_wrap_width as nat;
    assert(post.geometry_fresh());
    assert(post.row_offsets@[line] == row_offsets_for(lines, post.word_wrap, w)[line]);
    lemma_rows_grow(lines, post.word_wrap, w, line, line + 1);
    lemma_rows_grow(lines, post.word_wrap, w, line + 1, lines.len() as int);
    assert(lines.take(lines.len() as int) =~= lines);
}

// ── Hex editing ──────────────────────────────────────────────────────────────

/// Typing two hex digits in an edit session writes the byte they spell, the
/// first digit high, over the byte being edited, and reports the edit.
pub proof fn law_two_digits_write_byte(
    s0: HexViewState,
    k1: KeyInput,
    s1: HexViewState,
    e1: HexViewEvent,
    k2: KeyInput,
    s2: HexViewState,
    e2: HexViewEvent,
)
    requires
        s0.edit matches Some(e) && e.high_nibble is None && e.byte_pos < s0.bytes@.len(),
        k1.press,
        k2.press,
        nibble_of(k1.code) is Some,
        nibble_of(k2.code) is Some,
        s0.key_outcome(k1, s1, e1),
        s1.key_outcome(k2, s2, e2),
    ensures
        ({
            let pos = s0.edit.unwrap().byte_pos;
            let value = 16 * nibble_of(k1.code).unwrap() + nibble_of(k2.code).unwrap();
            &&& value < 256
            &&& s2.bytes@ == s0.bytes@.update(pos as int, value as u8)
            &&& e2 == HexViewEvent::ByteEdited { pos, old: s0.bytes@[pos as int], new: value as u8 }
        }),
{
    let h = nibble_of(k1.code).unwrap();
    let l = nibble_of(k2.code).unwrap();
    assert(h < 16 && l < 16);
    assert((h << 4u8) | l == 16 * h + l) by (bit_vector)
        requires
            h < 16,
            l < 16,
    ;
}

/// Where each navigation key puts a cursor that lies in the buffer: Left and
/// `h` one byte back, Right and `l` one byte on, Up and `k` one row back, Down
/// and `j` one row on, PageUp and PageDown a screen of rows back or on, Home
/// and `g` (without Shift) to the first byte, End and `G` to the last; never
/// before the first byte nor past the last. The key reports where the cursor
/// went and changes nothing but the cursor and the view.
pub proof fn law_navigation_keys(s: HexViewState, key: KeyInput, post: HexViewState, ev: HexViewEvent)
    requires
        key.press,
        s.edit is None,
        s.cols > 0,
        s.cursor < s.bytes@.len(),
        s.key_outcome(key, post, ev),
    ensures
        ({
            let k = key.code;
            let c = s.cursor as int;
            let last = s.bytes@.len() - 1;
            let page = s.visible_rows * s.cols;
            let moved = post.cursor as int;
            &&& (k == KeyCode::Left || k == KeyCode::Char('h')) ==> moved == (if c >= 1 { c - 1 } else { 0 })
            &&& (k == KeyCode::Right || k == KeyCode::Char('l')) ==> moved == (if c + 1 <= last { c + 1 } else { last })
            &&& (k == KeyCode::Up || k == KeyCode::Char('k')) ==> moved == (if c >= s.cols { c - s.cols } else { 0 })
            &&& (k == KeyCode::Down || k == KeyCode::Char('j')) ==> moved == (if c + s.cols <= last { c + s.cols } else { last })
            &&& k == KeyCode::PageUp ==> moved == (if c >= page { c - page } else { 0 })
            &&& k == KeyCode::PageDown ==> moved == (if c + page <= last { c + page } else { last })
            &&& ((k == KeyCode::Home || k == KeyCode::Char('g')) && !key.shift) ==> moved == 0
            &&& (k == KeyCode::End || k == KeyCode::Char('G')) ==> moved == last
            &&& (k == KeyCode::Left || k == KeyCode::Char('h') || k == KeyCode::Right || k == KeyCode::Char('l')
                || k == KeyCode::Up || k == KeyCode::Char('k') || k == KeyCode::Down || k == KeyCode::Char('j')
                || k == KeyCode::PageUp || k == KeyCode::PageDown || ((k == KeyCode::Home || k == KeyCode::Char('g'))
                && !key.shift) || k == KeyCode::End || k == KeyCode::Char('G')) ==> {
                &&& ev == (HexViewEvent::CursorMoved { new_pos: post.cursor })
                &&& post.bytes == s.bytes
                &&& post.edit == s.edit
                &&& post.markers == s.markers
                &&& post.mode == s.mode
            }
        }),
{
}

/// What the command keys do outside an edit: Enter opens an edit of the byte
/// under the cursor (nothing happens on an empty buffer); Esc closes any edit;
/// `m` asks for a marker at the cursor; `v` steps the display mode
/// (hex+ASCII, hex only, ASCII only, and round); `c` removes all markers;
/// Ctrl-R puts the baseline bytes back (nothing without a baseline).
pub proof fn law_command_keys(s: HexViewState, key: KeyInput, post: HexViewState, ev: HexViewEvent)
    requires
        key.press,
        s.edit is None,
        s.key_outcome(key, post, ev),
    ensures
        ({
            let k = key.code;
            &&& (k == KeyCode::Enter && s.bytes@.len() > 0) ==> {
                &&& post.edit == Some(NibbleEdit { byte_pos: s.cursor, high_nibble: None })
                &&& ev == (HexViewEvent::EditStarted { at: s.cursor })
                &&& post.bytes == s.bytes
                &&& post.cursor == s.cursor
            }
            &&& (k == KeyCode::Enter && s.bytes@.len() == 0) ==> post == s && ev == HexViewEvent::NoEvent
            &&& k == KeyCode::Esc ==> post.edit is None && ev == HexViewEvent::EditCancelled && post.bytes == s.bytes
            &&& (k == KeyCode::Char('m') || k == KeyCode::Char('M')) ==> post == s && ev
                == (HexViewEvent::MarkerRequested { at: s.cursor })
            &&& (k == KeyCode::Char('v') || k == KeyCode::Char('V')) ==> {
                &&& s.mode == ViewMode::HexAscii ==> post.mode == ViewMode::HexOnly
                &&& s.mode == ViewMode::HexOnly ==> post.mode == ViewMode::AsciiOnly
                &&& s.mode == ViewMode::AsciiOnly ==> post.mode == ViewMode::HexAscii
                &&& ev == (HexViewEvent::ModeChanged { new_mode: post.mode })
                &&& post.bytes == s.bytes
                &&& post.cursor == s.cursor
            }
            &&& (k == KeyCode::Char('c') || k == KeyCode::Char('C')) ==> {
                &&& post.markers@.len() == 0
                &&& ev == HexViewEvent::MarkersCleared
                &&& post.bytes == s.bytes
                &&& post.cursor == s.cursor
            }
            &&& (k == KeyCode::Char('r') && key.control) ==> match s.original_bytes {
                Some(o) => post.bytes@ == o@ && post.edit is None && ev == HexViewEvent::BytesReset,
                None => post == s && ev == HexViewEvent::NoEvent,
            }
        }),
{
}

/// The value of a lower-case hex digit key.
pub open spec fn hex_key_value(c: char) -> int {
    if '0' <= c <= '9' {
        c as int - '0' as int
    } else {
        c as int - 'a' as int + 10
    }
}

/// A lower-case hex digit.
pub open spec fn is_hex_key(c: char) -> bool {
    ('0' <= c <= '9') || ('a' <= c <= 'f')
}

/// In an edit, a first hex digit key `c` is held and nothing is written yet;
/// a second one writes the byte that the held digit and `c` spell, the held
/// one high, at the edited position, reports the old and new byte, and moves
/// the edit (and the cursor) on to the next byte, or ends it after the last.
pub proof fn law_edit_digit_keys(s: HexViewState, key: KeyInput, c: char, post: HexViewState, ev: HexViewEvent)
    requires
        key.press,
        key.code == KeyCode::Char(c),
        is_hex_key(c),
        s.edit is Some,
        s.key_defined(key),
        s.key_outcome(key, post, ev),
    ensures
        ({
            let e = s.edit.unwrap();
            let pos = e.byte_pos;
            &&& e.high_nibble is None ==> {
                &&& post.bytes == s.bytes
                &&& post.edit == Some(NibbleEdit { byte_pos: pos, high_nibble: Some(hex_key_value(c) as u8) })
                &&& post.cursor == s.cursor
                &&& ev == HexViewEvent::NoEvent
            }
            &&& (e.high_nibble is Some && e.high_nibble.unwrap() < 16) ==> {
                let value = 16 * e.high_nibble.unwrap() + hex_key_value(c);
                &&& post.bytes@ == s.bytes@.update(pos as int, value as u8)
                &&& ev == (HexViewEvent::ByteEdited { pos, old: s.bytes@[pos as int], new: value as u8 })
                &&& pos + 1 < s.bytes@.len() ==> post.edit == Some(
                    NibbleEdit { byte_pos: (pos + 1) as usize, high_nibble: None },
                ) && post.cursor == pos + 1
                &&& pos + 1 >= s.bytes@.len() ==> post.edit is None && post.cursor == s.cursor
            }
        }),
{
    let e = s.edit.unwrap();
    let l = hex_key_value(c) as u8;
    assert(nibble_of(key.code) == Some(l));
    if e.high_nibble is Some {
        let h = e.high_nibble.unwrap();
        if h < 16 {
            assert((h << 4u8) | l == 16 * h + l) by (bit_vector)
                requires
                    h < 16,
                    l < 16,
            ;
        }
    }
}

/// In an edit, a key that is no hex digit (and no upper-case hex letter,
/// which the original cannot take) ends the edit and writes nothing.
pub proof fn law_edit_other_keys(s: HexViewState, key: KeyInput, post: HexViewState, ev: HexViewEvent)
    requires
        key.press,
        forall|c: char| key.code == KeyCode::Char(c) ==> !is_hex_key(c),
        s.edit is Some,
        s.key_defined(key),
        s.key_outcome(key, post, ev),
    ensures
        post.edit is None,
        ev == HexViewEvent::EditCancelled,
        post.bytes == s.bytes,
        post.cursor == s.cursor,
        post.markers == s.markers,
{
    if let KeyCode::Char(c) = key.code {
        assert(!is_hex_key(c));
    }
}

/// A navigation key moves nothing but the cursor and the view: the cursor
/// stays inside the buffer, and the view scrolls so that its row is on screen.
pub proof fn law_navigation_shows_cursor(s: HexViewState, key: KeyInput, post: HexViewState, ev: HexViewEvent)
    requires
        key.press,
        s.edit is None,
        s.move_target(key) is Some,
        s.key_outcome(key, post, ev),
    ensures
        s.same_content(post),
        ev == (HexViewEvent::CursorMoved { new_pos: post.cursor }),
        s.bytes@.len() > 0 && s.cols > 0 ==> {
            let row = post.cursor / s.cols;
            &&& post.cursor < s.bytes@.len()
            &&& post.scroll <= row
            &&& (post.scroll == row || row_fits(
                s.markers@,
                s.cols as int,
                s.visible_rows as int,
                post.scroll as int,
                row as int,
            ))
        },
{
}

proof fn lemma_last_row_in_range(len: int, cols: int, c: int)
    requires
        cols > 0,
        0 <= c < len,
    ensures
        c / cols <= row_count(len, cols) - 1,
{
    assert(c / cols <= len / cols) by (nonlinear_arith)
        requires
            cols > 0,
            0 <= c < len,
    ;
    if len % cols == 0 {
        assert(c / cols < len / cols) by (nonlinear_arith)
            requires
                cols > 0,
                0 <= c < len,
                len % cols == 0,
        ;
    }
}

/// Scrolling the cursor into view moves the view no more than it must: a
/// cursor above the view brings the view up to the cursor's row at the top; a
/// cursor whose row already shows leaves the view where it is; otherwise the
/// view moves down just until the row shows, never past the cursor's row.
pub proof fn law_sync_scroll_moves_least(s: HexViewState, post_cursor: int, post_scroll: int)
    requires
        s.cols > 0,
        s.cursor < s.bytes@.len(),
        s.scroll < s.rows(),
        s.synced(s.cursor as int, post_cursor, post_scroll),
    ensures
        post_cursor == s.cursor,
        ({
            let row = s.cursor as int / s.cols as int;
            &&& row < s.scroll ==> post_scroll == row
            &&& (s.scroll <= row && row_fits(s.markers@, s.cols as int, s.visible_rows as int, s.scroll as int, row))
                ==> post_scroll == s.scroll
            &&& s.scroll <= row ==> s.scroll <= post_scroll <= row
        }),
{
}

/// Scrolling the cursor into view a second time changes nothing: once the
/// cursor's row is on screen, the view stays where it is.
pub proof fn law_sync_scroll_settles(s: HexViewState, t: HexViewState, u: HexViewState)
    requires
        s.same_content(t),
        s.synced(s.cursor as int, t.cursor as int, t.scroll as int),
        t.synced(t.cursor as int, u.cursor as int, u.scroll as int),
    ensures
        u.cursor == t.cursor,
        u.scroll == t.scroll,
{
    if s.cols > 0 && s.bytes@.len() > 0 {
        let cols = s.cols as int;
        let row = t.cursor as int / cols;
        lemma_last_row_in_range(s.bytes@.len() as int, cols, t.cursor as int);
        assert(t.scroll <= row);
        assert(min_int(t.scroll as int, sat_sub(t.rows(), 1)) == t.scroll);
        if u.scroll > t.scroll && t.scroll != row {
            assert(!row_fits(t.markers@, cols, t.visible_rows as int, t.scroll as int, row));
        }
    }
}

proof fn lemma_rows_split(markers: Seq<Marker>, cols: int, a: int, b: int)
    requires
        a < b,
    ensures
        markers_in_rows(markers, cols, a, b) == markers_in_rows(markers, cols, a, a + 1) + markers_in_rows(
            markers,
            cols,
            a + 1,
            b,
        ),
    decreases markers.len(),
{
    if markers.len() > 0 {
        lemma_rows_split(markers.drop_last(), cols, a, b);
    }
}

proof fn lemma_row_markers_counted(markers: Seq<Marker>, cols: int, row: int, n: int)
    requires
        0 <= n <= markers.len(),
    ensures
        markers_on_row(markers, cols, row, n).len() == markers_in_rows(markers.take(n), cols, row, row + 1),
    decreases n,
{
    if n > 0 {
        lemma_row_markers_counted(markers, cols, row, n - 1);
        assert(markers.take(n).drop_last() =~= markers.take(n - 1));
        assert(markers.take(n).last() == markers[n - 1]);
    }
}

proof fn lemma_layout_reaches_row(
    markers: Seq<Marker>,
    cols: int,
    visible: int,
    total: int,
    r: int,
    rendered: int,
    row: int,
)
    requires
        cols > 0,
        0 <= r <= row < total,
        0 <= rendered,
        r < row ==> rendered + (row - r) + markers_in_rows(markers, cols, r, row) + 1 <= visible,
        r == row ==> rendered + 1 <= visible,
    ensures
        hex_layout(markers, cols, row, visible, total, r, rendered).contains(HexLine::Data(row as usize)),
    decreases row - r,
{
    let shown = shown_markers(markers, cols, row, visible, r, rendered);
    let ms = markers_on_row(markers, cols, r, markers.len() as int);
    lemma_row_markers_counted(markers, cols, r, markers.len() as int);
    assert(markers.take(markers.len() as int) =~= markers);
    let layout = hex_layout(markers, cols, row, visible, total, r, rendered);
    if r < row {
        lemma_rows_split(markers, cols, r, row);
        assert(shown.len() == ms.len());
        let used = rendered + shown.len();
        lemma_layout_reaches_row(markers, cols, visible, total, r + 1, used + 1, row);
        let rest = hex_layout(markers, cols, row, visible, total, r + 1, used + 1);
        assert(layout == shown.push(HexLine::Data(r as usize)) + rest);
        let k = choose|k: int| 0 <= k < rest.len() && rest[k] == HexLine::Data(row as usize);
        assert(layout[shown.len() + 1 + k] == HexLine::Data(row as usize));
    } else {
        assert(shown.len() <= sat_sub(visible, rendered + 1));
        assert(layout == shown.push(HexLine::Data(r as usize)) + hex_layout(
            markers,
            cols,
            row,
            visible,
            total,
            r + 1,
            rendered + shown.len() + 1,
        ));
        assert(layout[shown.len() as int] == HexLine::Data(row as usize));
    }
}

/// Once the cursor has been scrolled into view, laying out a viewport of the
/// recorded height from the scroll offset draws the cursor's row, however
/// many marker lines stack above it.
pub proof fn law_synced_cursor_row_is_drawn(s: HexViewState, t: HexViewState)
    requires
        s.same_content(t),
        s.synced(s.cursor as int, t.cursor as int, t.scroll as int),
        t.cols > 0,
        t.bytes@.len() > 0,
        t.visible_rows >= 1,
    ensures
        t.scroll == min_int(t.scroll as int, sat_sub(t.rows(), 1)),
        hex_layout(
            t.markers@,
            t.cols as int,
            t.cursor as int / t.cols as int,
            t.visible_rows as int,
            t.rows(),
            t.scroll as int,
            0,
        ).contains(HexLine::Data((t.cursor / t.cols) as usize)),
{
    let cols = t.cols as int;
    let row = t.cursor as int / cols;
    lemma_last_row_in_range(t.bytes@.len() as int, cols, t.cursor as int);
    assert(max_int(t.visible_rows as int, 1) == t.visible_rows);
    lemma_layout_reaches_row(t.markers@, cols, t.visible_rows as int, t.rows(), t.scroll as int, 0, row);
}

// ── Markers ──────────────────────────────────────────────────────────────────

/// Removing the marker at an offset just after adding one there has the
/// effect of removing the markers at that offset from what was there before:
/// none is left at the offset, and the others are as they were.
pub proof fn law_remove_undoes_add(
    before: Seq<Marker>,
    after: Seq<Marker>,
    offset: usize,
    label: Seq<char>,
    color: ratatui::style::Color,
)
    requires
        marker_added(before, after, offset, label, color),
    ensures
        forall|k: usize|
            #[trigger] at_offset(except_offset(after, offset), k) == at_offset(except_offset(before, offset), k),
        at_offset(except_offset(after, offset), offset).len() == 0,
{
    lemma_except_offset_has_none(after, offset);
    lemma_except_offset_has_none(before, offset);
    assert forall|k: usize|
        #[trigger] at_offset(except_offset(after, offset), k) == at_offset(except_offset(before, offset), k) by {
        if k != offset {
            assert(at_offset(after, k) == at_offset(before, k));
        }
    }
}

proof fn lemma_except_offset_from(s: Seq<Marker>, offset: usize)
    ensures
        forall|i: int|
            0 <= i < except_offset(s, offset).len() ==> exists|j: int|
                0 <= j < s.len() && #[trigger] except_offset(s, offset)[i] == s[j],
    decreases s.len(),
{
    if s.len() > 0 {
        let t = s.drop_last();
        let e = except_offset(t, offset);
        lemma_except_offset_from(t, offset);
        assert forall|i: int| 0 <= i < except_offset(s, offset).len() implies exists|j: int|
            0 <= j < s.len() && #[trigger] except_offset(s, offset)[i] == s[j] by {
            if i < e.len() {
                let j = choose|j: int| 0 <= j < t.len() && e[i] == t[j];
                assert(s[j] == t[j]);
                if s.last().offset != offset {
                    assert(except_offset(s, offset)[i] == e[i]);
                }
            } else {
                assert(except_offset(s, offset)[i] == s[s.len() - 1]);
            }
        }
    }
}

proof fn lemma_at_offset_some(s: Seq<Marker>, k: usize)
    requires
        at_offset(s, k).len() > 0,
    ensures
        exists|i: int| 0 <= i < s.len() && #[trigger] s[i].offset == k,
    decreases s.len(),
{
    if s.len() > 0 && s.last().offset != k {
        lemma_at_offset_some(s.drop_last(), k);
        let i = choose|i: int| 0 <= i < s.drop_last().len() && #[trigger] s.drop_last()[i].offset == k;
        assert(s[i] == s.drop_last()[i]);
    } else if s.len() > 0 {
        assert(s[s.len() - 1].offset == k);
    }
}

/// Two offset-ordered marker lists with the same markers at every offset, in
/// the same order, are the same list.
proof fn lemma_sorted_groups_determine(a: Seq<Marker>, b: Seq<Marker>)
    requires
        sorted_by_offset(a),
        sorted_by_offset(b),
        forall|k: usize| #[trigger] at_offset(a, k) == at_offset(b, k),
    ensures
        a == b,
    decreases a.len() + b.len(),
{
    if a.len() == 0 && b.len() == 0 {
        assert(a =~= b);
    } else if a.len() == 0 {
        let k = b.last().offset;
        assert(at_offset(b, k).len() > 0);
        assert(at_offset(a, k).len() == 0);
    } else if b.len() == 0 {
        let k = a.last().offset;
        assert(at_offset(a, k).len() > 0);
        assert(at_offset(b, k).len() == 0);
    } else {
        let ka = a.last().offset;
        let kb = b.last().offset;
        if ka != kb {
            if ka < kb {
                assert(at_offset(b, kb).len() > 0);
                lemma_at_offset_some(a, kb);
                let i = choose|i: int| 0 <= i < a.len() && #[trigger] a[i].offset == kb;
                assert(a[i].offset <= a[a.len() - 1].offset);
            } else {
                assert(at_offset(a, ka).len() > 0);
                lemma_at_offset_some(b, ka);
                let i = choose|i: int| 0 <= i < b.len() && #[trigger] b[i].offset == ka;
                assert(b[i].offset <= b[b.len() - 1].offset);
            }
        }
        assert(at_offset(a, ka).last() == a.last());
        assert(at_offset(b, ka).last() == b.last());
        let a2 = a.drop_last();
        let b2 = b.drop_last();
        assert forall|k: usize| #[trigger] at_offset(a2, k) == at_offset(b2, k) by {
            if k == ka {
                assert(at_offset(a2, k) =~= at_offset(a, k).drop_last());
                assert(at_offset(b2, k) =~= at_offset(b, k).drop_last());
            } else {
                assert(at_offset(a2, k) == at_offset(a, k));
                assert(at_offset(b2, k) == at_offset(b, k));
            }
        }
        assert(sorted_by_offset(a2));
        assert(sorted_by_offset(b2));
        lemma_sorted_groups_determine(a2, b2);
        assert(a =~= a2.push(a.last()));
        assert(b =~= b2.push(b.last()));
    }
}

/// Adding a marker to an ordered list leaves the markers at other offsets as
/// they were, in the same relative order: without the markers at the added
/// offset, the lists before and after are the same.
pub proof fn law_add_keeps_others_in_order(
    before: Seq<Marker>,
    after: Seq<Marker>,
    offset: usize,
    label: Seq<char>,
    color: ratatui::style::Color,
)
    requires
        sorted_by_offset(before),
        marker_added(before, after, offset, label, color),
    ensures
        except_offset(after, offset) == except_offset(before, offset),
{
    law_remove_undoes_add(before, after, offset, label, color);
    law_remove_keeps_order(before, offset);
    law_remove_keeps_order(after, offset);
    lemma_sorted_groups_determine(except_offset(after, offset), except_offset(before, offset));
}

/// Removing the markers at an offset keeps the remaining markers in order.
pub proof fn law_remove_keeps_order(s: Seq<Marker>, offset: usize)
    requires
        sorted_by_offset(s),
    ensures
        sorted_by_offset(except_offset(s, offset)),
    decreases s.len(),
{
    if s.len() > 0 {
        let t = s.drop_last();
        assert(sorted_by_offset(t));
        law_remove_keeps_order(t, offset);
        if s.last().offset != offset {
            let e = except_offset(t, offset);
            lemma_except_offset_from(t, offset);
            let r = e.push(s.last());
            assert forall|i: int, j: int| 0 <= i < j < r.len() implies r[i].offset <= r[j].offset by {
                assert(r[i] == e[i]);
                if j < e.len() {
                    assert(r[j] == e[j]);
                } else {
                    let k = choose|k: int| 0 <= k < t.len() && e[i] == t[k];
                    assert(s[k] == t[k]);
                }
            }
        }
    }
}

// ── Dumps ────────────────────────────────────────────────────────────────────

/// The value of one lower-case hex digit.
pub open spec fn digit_value(c: char) -> int {
    if (c as u32) <= 0x39 {
        c as int - 48
    } else {
        c as int - 87
    }
}

/// The number that a sequence of lower-case hex digits spells.
pub open spec fn hex_value(s: Seq<char>) -> int
    decreases s.len(),
{
    if s.len() == 0 {
        0
    } else {
        hex_value(s.drop_last()) * 16 + digit_value(s.last())
    }
}

proof fn lemma_digit_reads_back(d: int)
    requires
        0 <= d < 16,
    ensures
        digit_value(hex_digit(d)) == d,
{
    if d < 10 {
        assert(((48 + d) as char) as u32 == 48 + d);
    } else {
        assert(((87 + d) as char) as u32 == 87 + d);
    }
}

proof fn lemma_digits_read_back(n: nat)
    ensures
        hex_value(hex_digits(n)) == n,
    decreases n,
{
    let d = hex_digits(n);
    if n < 16 {
        lemma_digit_reads_back(n as int);
        assert(d.drop_last() =~= Seq::<char>::empty());
        assert(hex_value(d) == hex_value(d.drop_last()) * 16 + digit_value(d.last()));
    } else {
        lemma_digits_read_back(n / 16);
        lemma_digit_reads_back((n % 16) as int);
        assert(d.drop_last() =~= hex_digits(n / 16));
        assert(d.last() == hex_digit((n % 16) as int));
        assert(hex_value(d) == hex_value(d.drop_last()) * 16 + digit_value(d.last()));
        assert(n == (n / 16) * 16 + n % 16) by (nonlinear_arith);
    }
}

proof fn lemma_zeros_read_nothing(z: Seq<char>, d: Seq<char>)
    requires
        forall|i: int| 0 <= i < z.len() ==> z[i] == '0',
    ensures
        hex_value(z + d) == hex_value(d),
    decreases z.len() + d.len(),
{
    if d.len() > 0 {
        assert((z + d).drop_last() =~= z + d.drop_last());
        lemma_zeros_read_nothing(z, d.drop_last());
    } else if z.len() > 0 {
        assert(z + d =~= z);
        assert(z.drop_last() + d =~= z.drop_last());
        lemma_zeros_read_nothing(z.drop_last(), d);
        assert(digit_value(z.last()) == 0);
    } else {
        assert(z + d =~= d);
    }
}

/// A number shown in hex, padded to any width, reads back as the number; a
/// byte takes exactly two digits.
pub proof fn law_hex_reads_back(n: nat, width: nat)
    ensures
        hex_value(hex_padded(n, width)) == n,
        hex_padded(n, width).len() >= width,
        n < 256 ==> hex_padded(n, 2).len() == 2,
{
    lemma_digits_read_back(n);
    let d = hex_digits(n);
    if d.len() < width {
        lemma_zeros_read_nothing(Seq::new((width - d.len()) as nat, |i: int| '0'), d);
    }
    if n < 16 {
        assert(hex_digits(n).len() == 1);
    } else if n < 256 {
        assert(n / 16 < 16);
        assert(hex_digits(n / 16).len() == 1);
        assert(hex_digits(n).len() == 2);
    }
}

/// The plain-text view of one byte, or of a CR LF pair: printable ASCII (space
/// included) and a tab stand as themselves, LF and CR LF become a newline, and
/// any other byte (a lone CR too) becomes the `·` placeholder.
pub proof fn law_ascii_view_bytes(b: u8)
    ensures
        (0x20 <= b < 0x7f || b == 9) ==> ascii_text(seq![b]) == seq![b as char],
        b == 10 ==> ascii_text(seq![b]) == seq!['\n'],
        ascii_text(seq![13u8, 10u8]) == seq!['\n'],
        ((b < 0x20 && b != 9 && b != 10) || b >= 0x7f) ==> ascii_text(seq![b]) == seq!['·'],
{
    assert(ascii_text_from(seq![b], 1) == Seq::<char>::empty());
    assert(seq![b][0] == b);
    assert(ascii_text_from(seq![13u8, 10u8], 2) == Seq::<char>::empty());
    assert(seq![13u8, 10u8][1] == 10u8);
    assert(seq![b as char] + Seq::<char>::empty() =~= seq![b as char]);
    assert(seq!['\n'] + Seq::<char>::empty() =~= seq!['\n']);
    assert(seq!['·'] + Seq::<char>::empty() =~= seq!['·']);
}

proof fn lemma_ascii_shift(a: Seq<u8>, b: Seq<u8>, j: int)
    requires
        0 <= j <= b.len(),
    ensures
        ascii_text_from(a + b, a.len() + j) == ascii_text_from(b, j),
    decreases b.len() - j,
{
    if j < b.len() {
        let x = b[j];
        assert((a + b)[a.len() + j] == x);
        if j + 1 < b.len() {
            assert((a + b)[a.len() + j + 1] == b[j + 1]);
        }
        if x == 13 && j + 1 < b.len() && b[j + 1] == 10 {
            lemma_ascii_shift(a, b, j + 2);
        } else {
            lemma_ascii_shift(a, b, j + 1);
        }
    }
}

proof fn lemma_ascii_concat_from(a: Seq<u8>, b: Seq<u8>, i: int)
    requires
        0 <= i <= a.len(),
        a.len() == 0 || a.last() != 13,
    ensures
        ascii_text_from(a + b, i) == ascii_text_from(a, i) + ascii_text(b),
    decreases a.len() - i,
{
    if i == a.len() {
        lemma_ascii_shift(a, b, 0);
        assert(ascii_text_from(a, i) + ascii_text(b) =~= ascii_text(b));
    } else {
        let x = a[i];
        assert((a + b)[i] == x);
        if i + 1 < a.len() {
            assert((a + b)[i + 1] == a[i + 1]);
        }
        if x == 13 && i + 1 < a.len() && a[i + 1] == 10 {
            lemma_ascii_concat_from(a, b, i + 2);
        } else {
            assert(x == 13 ==> i + 1 < a.len());
            lemma_ascii_concat_from(a, b, i + 1);
        }
        assert(ascii_text_from(a + b, i) =~= ascii_text_from(a, i) + ascii_text(b));
    }
}

/// The plain-text view goes byte by byte: the view of two buffers one after
/// the other is the view of the first followed by that of the second, unless
/// the first ends in a CR (which pairs with an LF that follows).
pub proof fn law_ascii_view_concat(a: Seq<u8>, b: Seq<u8>)
    requires
        a.len() == 0 || a.last() != 13,
    ensures
        ascii_text(a + b) == ascii_text(a) + ascii_text(b),
{
    lemma_ascii_concat_from(a, b, 0);
}

proof fn lemma_ascii_printable_from(bytes: Seq<u8>, i: int)
    requires
        0 <= i <= bytes.len(),
        forall|k: int| 0 <= k < bytes.len() ==> 0x20 <= #[trigger] bytes[k] < 0x7f,
    ensures
        ascii_text_from(bytes, i) == bytes.skip(i).map_values(|b: u8| b as char),
    decreases bytes.len() - i,
{
    if i < bytes.len() {
        lemma_ascii_printable_from(bytes, i + 1);
        assert(bytes.skip(i).map_values(|b: u8| b as char) =~= seq![bytes[i] as char] + bytes.skip(i + 1).map_values(
            |b: u8| b as char,
        ));
    } else {
        assert(bytes.skip(i).map_values(|b: u8| b as char) =~= Seq::<char>::empty());
    }
}

/// Printable ASCII text, spaces included, is shown exactly as it is.
pub proof fn law_ascii_view_keeps_printable_text(bytes: Seq<u8>)
    requires
        forall|k: int| 0 <= k < bytes.len() ==> 0x20 <= #[trigger] bytes[k] < 0x7f,
    ensures
        ascii_text(bytes) == bytes.map_values(|b: u8| b as char),
{
    lemma_ascii_printable_from(bytes, 0);
    assert(bytes.skip(0) =~= bytes);
}

/// The hex column of a dump row lists the row's bytes in order, each as two
/// hex digits that read back as the byte, with one space between neighbours.
#[verifier::spinoff_prover]
#[verifier::rlimit(40)]
pub proof fn law_hex_column_lists_bytes(chunk: Seq<u8>)
    requires
        chunk.len() > 0,
    ensures
        hex_joined(chunk).len() == 3 * chunk.len() - 1,
        forall|i: int|
            0 <= i < chunk.len() ==> hex_value(#[trigger] hex_joined(chunk).subrange(3 * i, 3 * i + 2)) == chunk[i],
        forall|i: int| 0 <= i < chunk.len() - 1 ==> #[trigger] hex_joined(chunk)[3 * i + 2] == ' ',
    decreases chunk.len(),
{
    let n = chunk.len() as int;
    let j = hex_joined(chunk);
    law_hex_reads_back(chunk.last() as nat, 2);
    if n == 1 {
        assert(j.subrange(0, 2) =~= j);
    } else {
        let front = chunk.drop_last();
        law_hex_column_lists_bytes(front);
        let jf = hex_joined(front);
        let tail = hex_padded(chunk.last() as nat, 2);
        assert(j == jf.push(' ') + tail);
        assert forall|i: int| 0 <= i < n implies hex_value(#[trigger] j.subrange(3 * i, 3 * i + 2)) == chunk[i] by {
            if i < n - 1 {
                assert(j.subrange(3 * i, 3 * i + 2) =~= jf.subrange(3 * i, 3 * i + 2));
                assert(front[i] == chunk[i]);
            } else {
                assert(j.subrange(3 * i, 3 * i + 2) =~= tail);
            }
        }
        assert forall|i: int| 0 <= i < n - 1 implies #[trigger] j[3 * i + 2] == ' ' by {
            if i < n - 2 {
                assert(j[3 * i + 2] == jf[3 * i + 2]);
            }
        }
    }
}

/// The ASCII column of a dump shows a printable ASCII byte (space included)
/// as itself and any other byte as `.`.
pub proof fn law_dump_ascii_column(b: u8)
    ensures
        (0x20 <= b < 0x7f) ==> dump_char(b) == b as char,
        !(0x20 <= b < 0x7f) ==> dump_char(b) == '.',
{
}

/// A character of the plain-text view: printable ASCII, a tab, a newline, or
/// the `·` placeholder.
pub open spec fn plain_char(c: char) -> bool {
    (0x20 <= (c as u32) < 0x7f) || c == '\t' || c == '\n' || c == '·'
}

proof fn lemma_ascii_alphabet_from(bytes: Seq<u8>, i: int)
    ensures
        forall|k: int| 0 <= k < ascii_text_from(bytes, i).len() ==> plain_char(#[trigger] ascii_text_from(bytes, i)[k]),
    decreases bytes.len() - i,
{
    if 0 <= i < bytes.len() {
        let b = bytes[i];
        let next = if b == 13 && i + 1 < bytes.len() && bytes[i + 1] == 10 { i + 2 } else { i + 1 };
        lemma_ascii_alphabet_from(bytes, next);
        let rest = ascii_text_from(bytes, next);
        let first = ascii_text_from(bytes, i)[0];
        assert(ascii_text_from(bytes, i) =~= seq![first] + rest);
        if (0x20 <= b < 0x7f) || b == 9 {
            assert((b as char) as u32 == b);
        }
        assert forall|k: int| 0 <= k < ascii_text_from(bytes, i).len() implies plain_char(#[trigger] ascii_text_from(bytes, i)[k]) by {
            if k > 0 {
                assert(ascii_text_from(bytes, i)[k] == rest[k - 1]);
            }
        }
    }
}

/// The plain-text view of any bytes holds only printable ASCII, tabs,
/// newlines and the `·` placeholder.
pub proof fn law_ascii_view_alphabet(bytes: Seq<u8>)
    ensures
        forall|k: int| 0 <= k < ascii_text(bytes).len() ==> plain_char(#[trigger] ascii_text(bytes)[k]),
{
    lemma_ascii_alphabet_from(bytes, 0);
}

} // verus!
