//! State of the read-only log viewer: retained lines, wrapped-row geometry,
//! scrolling, and visible-text search.

use std::collections::VecDeque;
use vstd::prelude::*;
use crate::hex::{ascii_lower, max_int, min_int, sat_sub, to_ascii_lower};
use crate::text::{ansi_visible_len, chars_of, columns, columns_of, lemma_columns_prefix_mono, measurable, push_char, strip_ansi, strip_ansi_codes, visible_columns};

verus! {

/// A single search match inside a log line.
#[derive(Debug, PartialEq, Eq)]
pub struct LogMatch {
    /// Zero-based raw line index containing the match.
    pub line: usize,
    /// Visible column range of the match within the ANSI-stripped line.
    pub range: core::ops::Range<usize>,
}

impl Clone for LogMatch {
    fn clone(&self) -> (r: Self)
        ensures
            r == *self,
    {
        LogMatch { line: self.line, range: core::ops::Range { start: self.range.start, end: self.range.end } }
    }
}

// ── Line budget ──────────────────────────────────────────────────────────────

/// An upper bound on the wrapped rows and columns the lines can take: three
/// columns per character and one row per line.
pub open spec fn line_budget(lines: Seq<String>) -> nat
    decreases lines.len(),
{
    if lines.len() == 0 {
        0
    } else {
        line_budget(lines.drop_last()) + 3 * lines.last()@.len() + 1
    }
}

/// The lines are few and short enough that their geometry fits in a `usize`.
pub open spec fn lines_fit(lines: Seq<String>) -> bool {
    line_budget(lines) <= usize::MAX
}

proof fn lemma_budget_take(lines: Seq<String>, i: int)
    requires
        0 <= i <= lines.len(),
    ensures
        line_budget(lines.take(i)) <= line_budget(lines),
    decreases lines.len(),
{
    if i < lines.len() {
        assert(lines.drop_last().take(i) =~= lines.take(i));
        lemma_budget_take(lines.drop_last(), i);
    } else {
        assert(lines.take(i) =~= lines);
    }
}

proof fn lemma_budget_line(lines: Seq<String>, i: int)
    requires
        0 <= i < lines.len(),
    ensures
        line_budget(lines.take(i + 1)) == line_budget(lines.take(i)) + 3 * lines[i]@.len() + 1,
        3 * lines[i]@.len() + 1 <= line_budget(lines),
{
    assert(lines.take(i + 1).drop_last() =~= lines.take(i));
    lemma_budget_take(lines, i + 1);
}

proof fn lemma_budget_skip(lines: Seq<String>, k: int)
    requires
        0 <= k <= lines.len(),
    ensures
        line_budget(lines.skip(k)) <= line_budget(lines),
    decreases lines.len(),
{
    if k < lines.len() {
        lemma_budget_skip(lines.drop_last(), k);
        assert(lines.skip(k).drop_last() =~= lines.drop_last().skip(k));
    } else {
        assert(lines.skip(k) =~= Seq::<String>::empty());
    }
}

// ── Geometry ─────────────────────────────────────────────────────────────────

/// Wrapped rows one raw line takes at `wrap_at` columns.
pub open spec fn line_rows(line: Seq<char>, word_wrap: bool, wrap_at: nat) -> nat {
    let v = visible_columns(line);
    if !word_wrap || v == 0 || wrap_at == 0 {
        1
    } else {
        v / wrap_at + if v % wrap_at == 0 { 0nat } else { 1nat }
    }
}

/// Wrapped rows all the lines take.
pub open spec fn rows_total(lines: Seq<String>, word_wrap: bool, wrap_at: nat) -> nat
    decreases lines.len(),
{
    if lines.len() == 0 {
        0
    } else {
        rows_total(lines.drop_last(), word_wrap, wrap_at) + line_rows(lines.last()@, word_wrap, wrap_at)
    }
}

/// First wrapped row of each raw line.
pub open spec fn row_offsets_for(lines: Seq<String>, word_wrap: bool, wrap_at: nat) -> Seq<int> {
    Seq::new(lines.len(), |i: int| rows_total(lines.take(i), word_wrap, wrap_at) as int)
}

/// Number of leading entries of `s` that are at most `x` (for a sorted `s`, the
/// partition point of `<= x`).
pub open spec fn leading_at_most(s: Seq<usize>, x: int) -> nat
    decreases s.len(),
{
    if s.len() == 0 || s[0] > x {
        0
    } else {
        1 + leading_at_most(s.drop_first(), x)
    }
}

/// Lines kept under a retention limit: the newest `limit` lines.
pub open spec fn limited(lines: Seq<String>, limit: Option<usize>) -> Seq<String> {
    match limit {
        Some(l) => if lines.len() > l {
            lines.skip(lines.len() - l)
        } else {
            lines
        },
        None => lines,
    }
}

// ── Search ───────────────────────────────────────────────────────────────────

pub open spec fn lower_all(s: Seq<char>) -> Seq<char> {
    s.map_values(|c: char| ascii_lower(c))
}

/// Starts of the leftmost non-overlapping occurrences of `n` in `h` at or after
/// `i` (an empty needle occurs at every position up to the end).
pub open spec fn find_from(h: Seq<char>, n: Seq<char>, i: int) -> Seq<int>
    decreases h.len() + 1 - i,
{
    if i < 0 || i > h.len() {
        Seq::empty()
    } else if n.len() == 0 {
        seq![i] + find_from(h, n, i + 1)
    } else if i + n.len() > h.len() {
        Seq::empty()
    } else if h.subrange(i, i + n.len()) == n {
        seq![i] + find_from(h, n, i + n.len())
    } else {
        find_from(h, n, i + 1)
    }
}

/// The text searched in a line, and the needle searched for.
pub open spec fn search_text(s: Seq<char>, case_sensitive: bool) -> Seq<char> {
    if case_sensitive {
        s
    } else {
        lower_all(s)
    }
}

/// The match at `start` in line `idx`, as visible columns of the stripped line.
pub open spec fn match_at(idx: int, stripped: Seq<char>, start: int, len: int) -> LogMatch {
    LogMatch {
        line: idx as usize,
        range: core::ops::Range {
            start: columns(stripped.take(start)) as usize,
            end: columns(stripped.take(start + len)) as usize,
        },
    }
}

/// The matches starting at `starts` in line `idx`, each `len` characters long.
pub open spec fn matches_at(idx: int, stripped: Seq<char>, starts: Seq<int>, len: int) -> Seq<LogMatch> {
    starts.map_values(|s: int| match_at(idx, stripped, s, len))
}

/// The matches of `query` in line `idx`.
pub open spec fn line_matches(idx: int, line: Seq<char>, query: Seq<char>, case_sensitive: bool) -> Seq<LogMatch> {
    let stripped = strip_ansi(line);
    let needle = search_text(query, case_sensitive);
    matches_at(idx, stripped, find_from(search_text(stripped, case_sensitive), needle, 0), needle.len() as int)
}

/// The matches of `query` in all lines, line by line.
pub open spec fn all_matches(lines: Seq<String>, query: Seq<char>, case_sensitive: bool) -> Seq<LogMatch>
    decreases lines.len(),
{
    if lines.len() == 0 {
        Seq::empty()
    } else {
        all_matches(lines.drop_last(), query, case_sensitive) + line_matches(
            lines.len() - 1,
            lines.last()@,
            query,
            case_sensitive,
        )
    }
}

/// Matches in reading order: line by line, and within a line left to right
/// without overlap; each spans its columns from start to end.
pub open spec fn matches_in_order(ms: Seq<LogMatch>) -> bool {
    &&& forall|i: int| 0 <= i < ms.len() ==> (#[trigger] ms[i]).range.start <= ms[i].range.end
    &&& forall|i: int, j: int|
        0 <= i < j < ms.len() ==> (#[trigger] ms[i]).line < (#[trigger] ms[j]).line || (ms[i].line
            == ms[j].line && ms[i].range.end <= ms[j].range.start)
}

/// Each match names one of `lines` and ends within the visible text of its line.
pub open spec fn matches_within(ms: Seq<LogMatch>, lines: Seq<String>) -> bool {
    forall|k: int|
        0 <= k < ms.len() ==> (#[trigger] ms[k]).line < lines.len() && ms[k].range.end <= visible_columns(
            lines[ms[k].line as int]@,
        )
}

/// The matches for an optional query (none without a query).
pub open spec fn matches_for(lines: Seq<String>, query: Option<String>, case_sensitive: bool) -> Seq<LogMatch> {
    match query {
        Some(q) => all_matches(lines, q@, case_sensitive),
        None => Seq::empty(),
    }
}

// ── LogViewState ─────────────────────────────────────────────────────────────

/// Mutable state for a read-only log viewer with wrapped-row scrolling and search.
pub struct LogViewState {
    /// Raw log lines, which may include ANSI color sequences.
    pub lines: VecDeque<String>,
    /// When true, render long lines across multiple terminal rows.
    pub word_wrap: bool,
    /// Scroll offset in wrapped rows from the top.
    pub scroll: usize,
    /// Number of visible rows from the last render call.
    pub visible_rows: usize,
    /// `row_offsets[i]` is the first wrapped row of raw line `i`.
    pub row_offsets: Vec<usize>,
    /// Maximum valid wrapped-row scroll offset.
    pub max_scroll: usize,
    /// Active search query, if any.
    pub search_query: Option<String>,
    /// When false, search is ASCII case-insensitive.
    pub case_sensitive: bool,
    /// All visible-text matches for the current query.
    pub search_matches: Vec<LogMatch>,
    /// Index into `search_matches` for the active match.
    pub current_match: Option<usize>,
    /// Optional host-driven highlighted line, e.g. for copy mode.
    pub highlighted_line: Option<usize>,
    /// Optional cap on retained log lines.
    pub line_limit: Option<usize>,
    /// When true, the next render jumps to the bottom after recomputing geometry.
    pub auto_scroll: bool,
    /// Wrap width of the last geometry computation (0: none yet).
    pub cached_wrap_width: usize,
    /// Viewport height of the last geometry computation.
    pub cached_visible_rows: usize,
    /// The geometry is to be recomputed before it is next used.
    pub geometry_dirty: bool,
}

impl LogViewState {
    /// A wrap width has been recorded by a render, so geometry can be computed.
    pub open spec fn geometry_known(&self) -> bool {
        self.cached_wrap_width != 0
    }

    /// The first wrapped row of each line, as last computed.
    pub open spec fn offsets(&self) -> Seq<usize> {
        self.row_offsets@
    }

    /// The recorded geometry describes the current lines, wrap mode, width and
    /// viewport height.
    pub open spec fn geometry_fresh(&self) -> bool {
        &&& self.cached_wrap_width != 0
        &&& !self.geometry_dirty
        &&& self.cached_visible_rows == max_int(self.visible_rows as int, 1)
        &&& self.row_offsets@.len() == self.lines@.len()
        &&& forall|i: int|
            0 <= i < self.lines@.len() ==> #[trigger] self.row_offsets@[i] == row_offsets_for(
                self.lines@,
                self.word_wrap,
                self.cached_wrap_width as nat,
            )[i]
        &&& self.max_scroll == sat_sub(
            rows_total(self.lines@, self.word_wrap, self.cached_wrap_width as nat) as int,
            self.cached_visible_rows as int,
        )
    }

    /// The geometry is to be recomputed before it is next used.
    pub open spec fn geometry_stale(&self) -> bool {
        self.geometry_dirty
    }

    /// Well-formedness: the lines fit the geometry's arithmetic, the current
    /// match indexes the match list, and clean geometry describes the lines.
    pub open spec fn wf(&self) -> bool {
        &&& lines_fit(self.lines@)
        &&& (self.current_match matches Some(i) ==> i < self.search_matches@.len())
        &&& matches_in_order(self.search_matches@)
        &&& (self.cached_wrap_width != 0 && !self.geometry_dirty) ==> (
            self.cached_visible_rows >= 1
            && self.row_offsets@.len() == self.lines@.len()
            && (forall|i: int|
                0 <= i < self.lines@.len() ==> #[trigger] self.row_offsets@[i] == row_offsets_for(
                    self.lines@,
                    self.word_wrap,
                    self.cached_wrap_width as nat,
                )[i])
            && self.max_scroll == sat_sub(
                rows_total(self.lines@, self.word_wrap, self.cached_wrap_width as nat) as int,
                self.cached_visible_rows as int,
            ))
    }

    /// What a refresh of the geometry leaves, from `pre`: fresh geometry when a
    /// width is known, the old geometry otherwise.
    pub open spec fn refreshed_from(&self, pre: Self) -> bool {
        &&& self.cached_wrap_width == pre.cached_wrap_width
        &&& if pre.cached_wrap_width != 0 {
            self.geometry_fresh()
        } else {
            &&& self.row_offsets == pre.row_offsets
            &&& self.max_scroll == pre.max_scroll
            &&& self.cached_visible_rows == pre.cached_visible_rows
            &&& self.geometry_dirty == pre.geometry_dirty
        }
    }

    /// The search state matches the lines, the query and the case mode.
    pub open spec fn search_current(&self) -> bool {
        &&& self.search_matches@ == matches_for(self.lines@, self.search_query, self.case_sensitive)
        &&& matches_within(self.search_matches@, self.lines@)
        &&& self.current_match == if self.search_matches@.len() == 0 {
            None::<usize>
        } else {
            Some(0usize)
        }
    }
}

impl LogViewState {
    /// `post` holds the same lines, wrap mode and search state as `self`.
    pub open spec fn same_text(self, post: Self) -> bool {
        &&& post.lines == self.lines
        &&& post.word_wrap == self.word_wrap
        &&& post.search_query == self.search_query
        &&& post.case_sensitive == self.case_sensitive
        &&& post.search_matches == self.search_matches
        &&& post.current_match == self.current_match
        &&& post.highlighted_line == self.highlighted_line
        &&& post.line_limit == self.line_limit
    }

    /// `post` differs from `self` at most in the search: its query, case mode,
    /// matches and current match.
    pub open spec fn only_search_changed(self, post: Self) -> bool {
        &&& post.lines == self.lines
        &&& post.word_wrap == self.word_wrap
        &&& post.scroll == self.scroll
        &&& post.visible_rows == self.visible_rows
        &&& post.row_offsets == self.row_offsets
        &&& post.max_scroll == self.max_scroll
        &&& post.highlighted_line == self.highlighted_line
        &&& post.line_limit == self.line_limit
        &&& post.auto_scroll == self.auto_scroll
        &&& post.cached_wrap_width == self.cached_wrap_width
        &&& post.cached_visible_rows == self.cached_visible_rows
        &&& post.geometry_dirty == self.geometry_dirty
    }

    /// `post` differs from `self` in nothing but the scroll offset.
    pub open spec fn only_scrolled(self, post: Self) -> bool {
        &&& self.same_text(post)
        &&& post.visible_rows == self.visible_rows
        &&& post.auto_scroll == self.auto_scroll
        &&& post.row_offsets == self.row_offsets
        &&& post.max_scroll == self.max_scroll
        &&& post.cached_wrap_width == self.cached_wrap_width
        &&& post.cached_visible_rows == self.cached_visible_rows
        &&& post.geometry_dirty == self.geometry_dirty
    }

    /// Whether the lines fit the geometry's arithmetic.
    pub fn lines_fit_now(&self) -> (r: bool)
        ensures
            r == lines_fit(self.lines@),
    {
        let n = self.lines.len();
        let ghost lines = self.lines@;
        let mut budget: usize = 0;
        let mut i: usize = 0;
        assert(lines.take(0) =~= Seq::<String>::empty());
        while i < n
            invariant
                n == lines.len(),
                self.lines@ == lines,
                i <= n,
                budget == line_budget(lines.take(i as int)),
            decreases n - i,
        {
            proof {
                assert(lines.take(i + 1).drop_last() =~= lines.take(i as int));
                assert(lines.take(i + 1).last() == lines[i as int]);
            }
            let len = chars_of(self.lines[i].as_str()).len();
            if len > (usize::MAX - 1) / 3 {
                proof {
                    lemma_budget_take(lines, i + 1);
                }
                return false;
            }
            let add = 3 * len + 1;
            if budget > usize::MAX - add {
                proof {
                    lemma_budget_take(lines, i + 1);
                }
                return false;
            }
            budget = budget + add;
            i = i + 1;
        }
        assert(lines.take(n as int) =~= lines);
        true
    }

    /// Bring a state whose fields were written directly back to its invariant:
    /// the geometry is marked for recomputation and the search is run again.
    /// Returns false, changing nothing, when the lines are too long for the
    /// geometry's arithmetic.
    pub fn resync(&mut self) -> (ok: bool)
        ensures
            ok == lines_fit(old(self).lines@),
            !ok ==> *final(self) == *old(self),
            ok ==> final(self).wf() && final(self).search_current() && final(self).geometry_stale(),
            final(self).lines == old(self).lines,
            final(self).word_wrap == old(self).word_wrap,
            final(self).search_query == old(self).search_query,
            final(self).case_sensitive == old(self).case_sensitive,
            final(self).scroll == old(self).scroll,
            final(self).visible_rows == old(self).visible_rows,
            final(self).highlighted_line == old(self).highlighted_line,
            final(self).line_limit == old(self).line_limit,
            final(self).auto_scroll == old(self).auto_scroll,
    {
        if !self.lines_fit_now() {
            return false;
        }
        self.search_matches = Vec::new();
        self.current_match = None;
        self.geometry_dirty = true;
        self.rebuild_search();
        true
    }

    /// Whether the state keeps its invariant: the lines fit the geometry's
    /// arithmetic, the search matches are in order and the current match is one
    /// of them, and clean geometry describes the lines. A host that writes the
    /// public fields directly can test this before handing the state back.
    pub fn is_well_formed(&self) -> (r: bool)
        ensures
            r == self.wf(),
    {
        if !self.lines_fit_now() {
            return false;
        }
        let n = self.lines.len();
        let ghost lines = self.lines@;
        // The current match is one of the matches.
        match self.current_match {
            Some(c) => if c >= self.search_matches.len() {
                return false;
            },
            None => {},
        }
        // The matches are in order.
        let ms = &self.search_matches;
        let mut k: usize = 0;
        while k < ms.len()
            invariant
                ms@ == self.search_matches@,
                k <= ms@.len(),
                matches_in_order(ms@.take(k as int)),
                k > 0 ==> ms@[k - 1] == ms@.take(k as int).last(),
            decreases ms@.len() - k,
        {
            let m = &ms[k];
            if m.range.start > m.range.end {
                assert(!((ms@[k as int]).range.start <= ms@[k as int].range.end));
                return false;
            }
            if k > 0 {
                let p = &ms[k - 1];
                if !(p.line < m.line || (p.line == m.line && p.range.end <= m.range.start)) {
                    assert(0 <= k - 1 < k < ms@.len());
                    assert(!((ms@[k - 1]).line < (ms@[k as int]).line || (ms@[k - 1].line == ms@[k as int].line
                        && ms@[k - 1].range.end <= ms@[k as int].range.start)));
                    return false;
                }
            }
            proof {
                let t = ms@.take(k as int);
                let u = ms@.take(k + 1);
                assert(u =~= t.push(ms@[k as int]));
                assert forall|a: int, b: int| 0 <= a < b < u.len() implies (#[trigger] u[a]).line < (#[trigger] u[b]).line
                    || (u[a].line == u[b].line && u[a].range.end <= u[b].range.start) by {
                    if b < t.len() {
                        assert(u[a] == t[a] && u[b] == t[b]);
                    } else if a < k - 1 {
                        assert(u[a] == t[a] && t[k - 1] == u[k - 1]);
                        assert(t[k - 1].range.start <= t[k - 1].range.end);
                    }
                }
                assert forall|a: int| 0 <= a < u.len() implies (#[trigger] u[a]).range.start <= u[a].range.end by {
                    if a < t.len() {
                        assert(u[a] == t[a]);
                    }
                }
            }
            k = k + 1;
        }
        assert(ms@.take(ms@.len() as int) =~= ms@);
        // Clean geometry describes the lines.
        if self.cached_wrap_width == 0 || self.geometry_dirty {
            return true;
        }
        if self.cached_visible_rows == 0 || self.row_offsets.len() != n {
            return false;
        }
        let w = self.cached_wrap_width;
        let mut total: usize = 0;
        let mut j: usize = 0;
        while j < n
            invariant
                n == lines.len(),
                self.lines@ == lines,
                lines_fit(lines),
                w == self.cached_wrap_width,
                w >= 1,
                !self.geometry_dirty,
                self.row_offsets@.len() == n,
                j <= n,
                forall|q: int| 0 <= q < j ==> #[trigger] self.row_offsets@[q] == row_offsets_for(lines, self.word_wrap, w as nat)[q],
                total == rows_total(lines.take(j as int), self.word_wrap, w as nat),
                total <= line_budget(lines.take(j as int)),
            decreases n - j,
        {
            if self.row_offsets[j] != total {
                assert(row_offsets_for(lines, self.word_wrap, w as nat)[j as int] == total);
                assert(self.row_offsets@[j as int] != row_offsets_for(lines, self.word_wrap, w as nat)[j as int]);
                return false;
            }
            proof {
                lemma_budget_line(lines, j as int);
            }
            let visible = ansi_visible_len(self.lines[j].as_str());
            let rows: usize = if !self.word_wrap || visible == 0 {
                1
            } else {
                assert(visible / w <= visible) by (nonlinear_arith)
                    requires
                        w >= 1,
                ;
                visible / w + if visible % w == 0 { 0 } else { 1 }
            };
            proof {
                assert(lines.take(j + 1).drop_last() =~= lines.take(j as int));
                assert(lines.take(j + 1).last() == lines[j as int]);
                lemma_budget_take(lines, j + 1);
            }
            total = total + rows;
            j = j + 1;
        }
        assert(lines.take(n as int) =~= lines);
        let max = if total >= self.cached_visible_rows { total - self.cached_visible_rows } else { 0 };
        self.max_scroll == max
    }

    /// Recompute wrapped-row geometry for the given width.
    pub fn recompute_wrap_geometry(&mut self, wrap_at: usize)
        requires
            old(self).wf(),
        ensures
            final(self).wf(),
            final(self).geometry_fresh(),
            final(self).cached_wrap_width == max_int(wrap_at as int, 1),
            old(self).same_text(*final(self)),
            final(self).scroll == old(self).scroll,
            final(self).visible_rows == old(self).visible_rows,
            final(self).auto_scroll == old(self).auto_scroll,
    {
        let w: usize = if wrap_at > 1 { wrap_at } else { 1 };
        let vis: usize = if self.visible_rows > 1 { self.visible_rows } else { 1 };
        let ghost lines = self.lines@;
        let n = self.lines.len();
        let mut offsets: Vec<usize> = Vec::new();
        let mut total: usize = 0;
        let mut i: usize = 0;
        while i < n
            invariant
                n == lines.len(),
                self.lines@ == lines,
                lines_fit(lines),
                w >= 1,
                i <= n,
                offsets@.len() == i,
                forall|k: int| 0 <= k < i ==> #[trigger] offsets@[k] == rows_total(lines.take(k), self.word_wrap, w as nat),
                total == rows_total(lines.take(i as int), self.word_wrap, w as nat),
                total <= line_budget(lines.take(i as int)),
            decreases n - i,
        {
            offsets.push(total);
            proof {
                lemma_budget_line(lines, i as int);
            }
            let visible = ansi_visible_len(self.lines[i].as_str());
            let rows: usize = if !self.word_wrap || visible == 0 {
                1
            } else {
                assert(visible / w <= visible) by (nonlinear_arith)
                    requires
                        w >= 1,
                ;
                visible / w + if visible % w == 0 { 0 } else { 1 }
            };
            proof {
                assert(lines.take(i + 1).drop_last() =~= lines.take(i as int));
                assert(lines.take(i + 1).last() == lines[i as int]);
                lemma_budget_take(lines, i + 1);
            }
            total = total + rows;
            i = i + 1;
        }
        assert(lines.take(n as int) =~= lines);
        self.row_offsets = offsets;
        self.max_scroll = if total >= vis { total - vis } else { 0 };
        self.cached_wrap_width = w;
        self.cached_visible_rows = vis;
        self.geometry_dirty = false;
    }

    /// Recompute the geometry if it is stale or was computed for another width
    /// or viewport height.
    pub fn ensure_wrap_geometry(&mut self, wrap_at: usize)
        requires
            old(self).wf(),
        ensures
            final(self).wf(),
            final(self).geometry_fresh(),
            final(self).cached_wrap_width == max_int(wrap_at as int, 1),
            old(self).same_text(*final(self)),
            final(self).scroll == old(self).scroll,
            final(self).visible_rows == old(self).visible_rows,
            final(self).auto_scroll == old(self).auto_scroll,
    {
        let wrap_at = if wrap_at > 1 { wrap_at } else { 1 };
        let visible_rows = if self.visible_rows > 1 { self.visible_rows } else { 1 };
        if self.geometry_dirty || self.cached_wrap_width != wrap_at || self.cached_visible_rows
            != visible_rows {
            self.recompute_wrap_geometry(wrap_at);
        }
    }

    fn invalidate_geometry(&mut self)
        requires
            lines_fit(old(self).lines@),
            old(self).current_match matches Some(i) ==> i < old(self).search_matches@.len(),
            matches_in_order(old(self).search_matches@),
        ensures
            final(self).wf(),
            final(self).geometry_dirty,
            old(self).same_text(*final(self)),
            final(self).scroll == old(self).scroll,
            final(self).visible_rows == old(self).visible_rows,
            final(self).auto_scroll == old(self).auto_scroll,
            final(self).row_offsets == old(self).row_offsets,
            final(self).max_scroll == old(self).max_scroll,
            final(self).cached_wrap_width == old(self).cached_wrap_width,
            final(self).cached_visible_rows == old(self).cached_visible_rows,
    {
        self.geometry_dirty = true;
    }

    fn refresh_geometry_if_known(&mut self)
        requires
            old(self).wf(),
        ensures
            final(self).wf(),
            final(self).refreshed_from(*old(self)),
            old(self).same_text(*final(self)),
            final(self).scroll == old(self).scroll,
            final(self).visible_rows == old(self).visible_rows,
            final(self).auto_scroll == old(self).auto_scroll,
    {
        if self.cached_wrap_width != 0 {
            let w = self.cached_wrap_width;
            self.ensure_wrap_geometry(w);
        }
    }

    /// Total number of raw log lines.
    pub fn total_lines(&self) -> (n: usize)
        ensures
            n == self.lines@.len(),
    {
        self.lines.len()
    }

    /// Clamp scroll to the last valid wrapped-row offset.
    pub fn clamp_scroll(&mut self)
        ensures
            final(self).scroll == min_int(old(self).scroll as int, old(self).max_scroll as int),
            old(self).only_scrolled(*final(self)),
    {
        if self.scroll > self.max_scroll {
            self.scroll = self.max_scroll;
        }
    }

    /// Scroll up by one wrapped row.
    pub fn scroll_up(&mut self)
        ensures
            final(self).scroll == sat_sub(old(self).scroll as int, 1),
            old(self).only_scrolled(*final(self)),
    {
        self.scroll = self.scroll.saturating_sub(1);
    }

    /// Scroll down by one wrapped row.
    pub fn scroll_down(&mut self)
        ensures
            final(self).scroll == min_int(
                min_int(old(self).scroll + 1, usize::MAX as int),
                old(self).max_scroll as int,
            ),
            old(self).only_scrolled(*final(self)),
    {
        let next = self.scroll.saturating_add(1);
        self.scroll = if next <= self.max_scroll { next } else { self.max_scroll };
    }

    /// Scroll up by one page.
    pub fn page_up(&mut self)
        ensures
            final(self).scroll == sat_sub(old(self).scroll as int, max_int(old(self).visible_rows as int, 1)),
            old(self).only_scrolled(*final(self)),
    {
        let page = if self.visible_rows > 1 { self.visible_rows } else { 1 };
        self.scroll = self.scroll.saturating_sub(page);
    }

    /// Scroll down by one page.
    pub fn page_down(&mut self)
        ensures
            final(self).scroll == min_int(
                min_int(old(self).scroll + max_int(old(self).visible_rows as int, 1), usize::MAX as int),
                old(self).max_scroll as int,
            ),
            old(self).only_scrolled(*final(self)),
    {
        let page = if self.visible_rows > 1 { self.visible_rows } else { 1 };
        let next = self.scroll.saturating_add(page);
        self.scroll = if next <= self.max_scroll { next } else { self.max_scroll };
    }

    /// Jump to the first wrapped row.
    pub fn scroll_to_start(&mut self)
        ensures
            final(self).scroll == 0,
            old(self).only_scrolled(*final(self)),
    {
        self.scroll = 0;
    }

    /// Jump to the last wrapped-row page.
    pub fn scroll_to_end(&mut self)
        ensures
            final(self).scroll == old(self).max_scroll,
            old(self).only_scrolled(*final(self)),
    {
        self.scroll = self.max_scroll;
    }
}

fn lower_chars(v: &Vec<char>) -> (r: Vec<char>)
    ensures
        r@ == lower_all(v@),
{
    let mut r: Vec<char> = Vec::new();
    let mut i: usize = 0;
    while i < v.len()
        invariant
            i <= v@.len(),
            r@ == lower_all(v@.take(i as int)),
        decreases v@.len() - i,
    {
        r.push(to_ascii_lower(v[i]));
        assert(lower_all(v@.take(i + 1)) =~= lower_all(v@.take(i as int)).push(ascii_lower(v@[i as int])));
        i = i + 1;
    }
    assert(v@.take(v@.len() as int) =~= v@);
    r
}

fn copy_chars(v: &Vec<char>) -> (r: Vec<char>)
    ensures
        r@ == v@,
{
    let mut r: Vec<char> = Vec::new();
    let mut i: usize = 0;
    while i < v.len()
        invariant
            i <= v@.len(),
            r@ == v@.take(i as int),
        decreases v@.len() - i,
    {
        r.push(v[i]);
        assert(v@.take(i + 1) =~= v@.take(i as int).push(v@[i as int]));
        i = i + 1;
    }
    assert(v@.take(v@.len() as int) =~= v@);
    r
}

/// `n` occurs in `h` at `i`.
fn occurs_at(h: &Vec<char>, n: &Vec<char>, i: usize) -> (r: bool)
    requires
        i + n@.len() <= h@.len(),
    ensures
        r == (h@.subrange(i as int, i + n@.len()) == n@),
{
    let hl = h.len();
    let mut k: usize = 0;
    while k < n.len()
        invariant
            hl == h@.len(),
            i + n@.len() <= h@.len(),
            k <= n@.len(),
            forall|j: int| 0 <= j < k ==> h@[i + j] == n@[j],
        decreases n@.len() - k,
    {
        if h[i + k] != n[k] {
            assert(h@.subrange(i as int, i + n@.len())[k as int] != n@[k as int]);
            return false;
        }
        k = k + 1;
    }
    assert(h@.subrange(i as int, i + n@.len()) =~= n@);
    true
}

/// Appending a match of line `idx` that starts at or after `bound` keeps the
/// matches in order, when the earlier matches of that line end by `bound`.
proof fn lemma_push_in_order(ms: Seq<LogMatch>, base_len: int, idx: usize, bound: int, m: LogMatch)
    requires
        matches_in_order(ms),
        0 <= base_len <= ms.len(),
        forall|k: int| 0 <= k < base_len ==> (#[trigger] ms[k]).line < idx,
        forall|k: int| base_len <= k < ms.len() ==> (#[trigger] ms[k]).line == idx && ms[k].range.end <= bound,
        m.line == idx,
        bound <= m.range.start <= m.range.end,
    ensures
        matches_in_order(ms.push(m)),
{
    let p = ms.push(m);
    assert forall|i: int| 0 <= i < p.len() implies (#[trigger] p[i]).range.start <= p[i].range.end by {
        if i < ms.len() {
            assert(p[i] == ms[i]);
        }
    }
    assert forall|i: int, j: int| 0 <= i < j < p.len() implies (#[trigger] p[i]).line < (#[trigger] p[j]).line
        || (p[i].line == p[j].line && p[i].range.end <= p[j].range.start) by {
        assert(p[i] == ms[i]);
        if j < ms.len() {
            assert(p[j] == ms[j]);
        } else {
            assert(p[j] == m);
            if i < base_len {
                assert(ms[i].line < idx);
            } else {
                assert(ms[i].line == idx && ms[i].range.end <= bound);
            }
        }
    }
}

/// Append the matches of `needle` in `hay` (the search text of the stripped
/// line `stripped`), as matches of line `idx`.
fn push_line_matches(out: &mut Vec<LogMatch>, idx: usize, hay: &Vec<char>, needle: &Vec<char>, stripped: &Vec<char>)
    requires
        hay@.len() == stripped@.len(),
        measurable(stripped@),
        matches_in_order(old(out)@),
        forall|k: int| 0 <= k < old(out)@.len() ==> (#[trigger] old(out)@[k]).line < idx,
    ensures
        final(out)@ == old(out)@ + matches_at(idx as int, stripped@, find_from(hay@, needle@, 0), needle@.len() as int),
        matches_in_order(final(out)@),
        forall|k: int| 0 <= k < final(out)@.len() ==> (#[trigger] final(out)@[k]).line <= idx,
        forall|k: int|
            0 <= k < old(out)@.len() ==> #[trigger] final(out)@[k] == old(out)@[k],
        forall|k: int|
            old(out)@.len() <= k < final(out)@.len() ==> (#[trigger] final(out)@[k]).line == idx
                && final(out)@[k].range.end <= columns(stripped@),
{
    let ghost base = old(out)@;
    let h = hay.len();
    let n = needle.len();
    let mut i: usize = 0;
    while i <= h
        invariant_except_break
            i <= h + 1,
        invariant
            h == hay@.len(),
            n == needle@.len(),
            hay@.len() == stripped@.len(),
            measurable(stripped@),
            out@ + matches_at(idx as int, stripped@, find_from(hay@, needle@, i as int), n as int) == base + matches_at(idx as int, stripped@, find_from(hay@, needle@, 0), n as int),
            matches_in_order(out@),
            forall|k: int| 0 <= k < out@.len() ==> (#[trigger] out@[k]).line <= idx,
            base.len() <= out@.len(),
            forall|k: int| 0 <= k < base.len() ==> (#[trigger] out@[k]).line < idx,
            i <= h ==> forall|k: int|
                base.len() <= k < out@.len() ==> (#[trigger] out@[k]).line == idx && out@[k].range.end
                    <= columns(stripped@.take(i as int)),
            forall|k: int| 0 <= k < base.len() ==> #[trigger] out@[k] == base[k],
            forall|k: int|
                base.len() <= k < out@.len() ==> (#[trigger] out@[k]).line == idx && out@[k].range.end
                    <= columns(stripped@),
        ensures
            out@ == base + matches_at(idx as int, stripped@, find_from(hay@, needle@, 0), n as int),
            matches_in_order(out@),
            forall|k: int| 0 <= k < out@.len() ==> (#[trigger] out@[k]).line <= idx,
            forall|k: int| 0 <= k < base.len() ==> #[trigger] out@[k] == base[k],
            forall|k: int|
                base.len() <= k < out@.len() ==> (#[trigger] out@[k]).line == idx && out@[k].range.end
                    <= columns(stripped@),
        decreases h + 1 - i,
    {
        let ghost before = out@;
        if n == 0 {
            let start = columns_of(stripped, 0, i);
            proof {
                assert(stripped@.subrange(0, i as int) =~= stripped@.take(i as int));
            }
            proof {
                lemma_push_in_order(out@, base.len() as int, idx, start as int, LogMatch { line: idx, range: core::ops::Range { start, end: start } });
                if i + 1 <= h {
                    lemma_columns_prefix_mono(stripped@, i as int, i + 1);
                }
                lemma_columns_prefix_mono(stripped@, i as int, h as int);
                assert(stripped@.take(h as int) =~= stripped@);
            }
            out.push(LogMatch { line: idx, range: core::ops::Range { start, end: start } });
            assert(stripped@.take(i + 0) =~= stripped@.take(i as int));
            assert(out@ == before.push(match_at(idx as int, stripped@, i as int, n as int)));
            assert(find_from(hay@, needle@, i as int) == seq![i as int] + find_from(hay@, needle@, i + 1));
            assert(matches_at(idx as int, stripped@, find_from(hay@, needle@, i as int), n as int) =~= seq![match_at(idx as int, stripped@, i as int, n as int)] + matches_at(idx as int, stripped@, find_from(hay@, needle@, i + 1), n as int));
            assert(out@ + matches_at(idx as int, stripped@, find_from(hay@, needle@, i + 1), n as int) =~= before + matches_at(idx as int, stripped@, find_from(hay@, needle@, i as int), n as int));
            i = i + 1;
        } else if n > h - i {
            assert(find_from(hay@, needle@, i as int) == Seq::<int>::empty());
            assert(out@ =~= out@ + matches_at(idx as int, stripped@, find_from(hay@, needle@, i as int), n as int));
            break;
        } else if occurs_at(hay, needle, i) {
            let start = columns_of(stripped, 0, i);
            let end = columns_of(stripped, 0, i + n);
            proof {
                assert(stripped@.subrange(0, i as int) =~= stripped@.take(i as int));
                assert(stripped@.subrange(0, i + n) =~= stripped@.take(i + n));
            }
            proof {
                lemma_columns_prefix_mono(stripped@, i as int, i + n);
                lemma_columns_prefix_mono(stripped@, i + n, h as int);
                assert(stripped@.take(h as int) =~= stripped@);
                lemma_push_in_order(out@, base.len() as int, idx, start as int, LogMatch { line: idx, range: core::ops::Range { start, end } });
            }
            out.push(LogMatch { line: idx, range: core::ops::Range { start, end } });
            assert(out@ == before.push(match_at(idx as int, stripped@, i as int, n as int)));
            assert(find_from(hay@, needle@, i as int) == seq![i as int] + find_from(hay@, needle@, i + n));
            assert(matches_at(idx as int, stripped@, find_from(hay@, needle@, i as int), n as int) =~= seq![match_at(idx as int, stripped@, i as int, n as int)] + matches_at(idx as int, stripped@, find_from(hay@, needle@, i + n), n as int));
            assert(out@ + matches_at(idx as int, stripped@, find_from(hay@, needle@, i + n), n as int) =~= before + matches_at(idx as int, stripped@, find_from(hay@, needle@, i as int), n as int));
            i = i + n;
        } else {
            assert(find_from(hay@, needle@, i as int) == find_from(hay@, needle@, i + 1));
            proof {
                if i + 1 <= h {
                    lemma_columns_prefix_mono(stripped@, i as int, i + 1);
                }
            }
            i = i + 1;
        }
    }
    proof {
        if i > h {
            assert(find_from(hay@, needle@, i as int) == Seq::<int>::empty());
            assert(out@ =~= out@ + matches_at(idx as int, stripped@, find_from(hay@, needle@, i as int), n as int));
        }
    }
}

impl LogViewState {
    fn rebuild_search(&mut self)
        requires
            old(self).wf(),
        ensures
            final(self).wf(),
            final(self).search_current(),
            final(self).lines == old(self).lines,
            final(self).word_wrap == old(self).word_wrap,
            final(self).search_query == old(self).search_query,
            final(self).case_sensitive == old(self).case_sensitive,
            final(self).highlighted_line == old(self).highlighted_line,
            final(self).line_limit == old(self).line_limit,
            final(self).scroll == old(self).scroll,
            final(self).visible_rows == old(self).visible_rows,
            final(self).auto_scroll == old(self).auto_scroll,
            final(self).row_offsets == old(self).row_offsets,
            final(self).max_scroll == old(self).max_scroll,
            final(self).cached_wrap_width == old(self).cached_wrap_width,
            final(self).cached_visible_rows == old(self).cached_visible_rows,
            final(self).geometry_dirty == old(self).geometry_dirty,
    {
        if self.search_query.is_none() {
            self.search_matches = Vec::new();
            self.current_match = None;
            return;
        }
        let query: Vec<char> = match &self.search_query {
            Some(q) => chars_of(q.as_str()),
            None => Vec::new(),
        };
        let cs = self.case_sensitive;
        let needle = if cs { query } else { lower_chars(&query) };
        let ghost lines = self.lines@;
        let ghost q = self.search_query.unwrap()@;
        let mut matches: Vec<LogMatch> = Vec::new();
        let n = self.lines.len();
        let mut i: usize = 0;
        while i < n
            invariant
                n == lines.len(),
                self.lines@ == lines,
                lines_fit(lines),
                i <= n,
                needle@ == search_text(q, cs),
                matches@ == all_matches(lines.take(i as int), q, cs),
                matches_in_order(matches@),
                forall|k: int| 0 <= k < matches@.len() ==> (#[trigger] matches@[k]).line < i,
                matches_within(matches@, lines),
            decreases n - i,
        {
            proof {
                lemma_budget_line(lines, i as int);
            }
            let stripped = strip_ansi_codes(self.lines[i].as_str());
            let sc = chars_of(stripped.as_str());
            let hay = if cs { copy_chars(&sc) } else { lower_chars(&sc) };
            push_line_matches(&mut matches, i, &hay, &needle, &sc);
            proof {
                assert(lines.take(i + 1).drop_last() =~= lines.take(i as int));
                assert(lines.take(i + 1).last() == lines[i as int]);
            }
            i = i + 1;
        }
        assert(lines.take(n as int) =~= lines);
        self.search_matches = matches;
        self.current_match = if self.search_matches.len() == 0 { None } else { Some(0) };
    }
}

// ── Splitting text into lines ────────────────────────────────────────────────

/// `s` split at every `\n` (always at least one piece).
pub open spec fn split_newlines(s: Seq<char>) -> Seq<Seq<char>>
    decreases s.len(),
{
    if s.len() == 0 {
        seq![Seq::<char>::empty()]
    } else {
        let p = split_newlines(s.drop_last());
        if s.last() == '\n' {
            p.push(Seq::empty())
        } else {
            p.update(p.len() - 1, p.last().push(s.last()))
        }
    }
}

/// A line without the `\r` of a `\r\n` ending.
pub open spec fn strip_cr(x: Seq<char>) -> Seq<char> {
    if x.len() > 0 && x.last() == '\r' {
        x.drop_last()
    } else {
        x
    }
}

/// The lines of a text as `str::lines` yields them: split at `\n` or `\r\n`,
/// terminators dropped, and no empty line after a final newline.
pub open spec fn text_lines(s: Seq<char>) -> Seq<Seq<char>> {
    let p = split_newlines(s);
    let done = p.drop_last().map_values(|x: Seq<char>| strip_cr(x));
    if p.last().len() == 0 {
        done
    } else {
        done.push(p.last())
    }
}

/// The character views of a list of strings.
pub open spec fn views(lines: Seq<String>) -> Seq<Seq<char>> {
    lines.map_values(|l: String| l@)
}

pub(crate) proof fn lemma_split_nonempty(s: Seq<char>)
    ensures
        split_newlines(s).len() >= 1,
    decreases s.len(),
{
    if s.len() > 0 {
        lemma_split_nonempty(s.drop_last());
    }
}

/// A string holding the given characters.
fn string_of(v: &Vec<char>) -> (s: String)
    ensures
        s@ == v@,
{
    let mut s = String::new();
    let mut i: usize = 0;
    while i < v.len()
        invariant
            i <= v@.len(),
            s@ == v@.take(i as int),
        decreases v@.len() - i,
    {
        push_char(&mut s, v[i]);
        assert(v@.take(i + 1) =~= v@.take(i as int).push(v@[i as int]));
        i = i + 1;
    }
    assert(v@.take(v@.len() as int) =~= v@);
    s
}

/// The lines of a text, as `str::lines` splits it.
pub(crate) fn split_text_lines(text: &str) -> (out: Vec<String>)
    ensures
        views(out@) == text_lines(text@),
        line_budget(out@) <= 4 * text@.len() + 1,
{
    let chars = chars_of(text);
    let mut out: Vec<String> = Vec::new();
    let mut cur: Vec<char> = Vec::new();
    let mut i: usize = 0;
    while i < chars.len()
        invariant
            chars@ == text@,
            i <= chars@.len(),
            split_newlines(chars@.take(i as int)).len() >= 1,
            views(out@) == split_newlines(chars@.take(i as int)).drop_last().map_values(|x: Seq<char>| strip_cr(x)),
            cur@ == split_newlines(chars@.take(i as int)).last(),
            line_budget(out@) + 3 * cur@.len() + 1 <= 4 * i + 1,
        decreases chars@.len() - i,
    {
        let c = chars[i];
        let ghost pre = chars@.take(i as int);
        let ghost p = split_newlines(pre);
        assert(chars@.take(i + 1).drop_last() =~= pre);
        assert(chars@.take(i + 1).last() == c);
        if c == '\n' {
            let n = cur.len();
            if n > 0 && cur[n - 1] == '\r' {
                cur.pop();
            }
            assert(cur@ == strip_cr(p.last()));
            let line = string_of(&cur);
            let ghost before = out@;
            out.push(line);
            proof {
                assert(out@.drop_last() =~= before);
                assert(views(out@) =~= views(before).push(cur@));
                let q = split_newlines(chars@.take(i + 1));
                assert(q == p.push(Seq::<char>::empty()));
                assert(q.drop_last() =~= p);
                assert(p =~= p.drop_last().push(p.last()));
                assert(q.drop_last().map_values(|x: Seq<char>| strip_cr(x)) =~= p.drop_last().map_values(
                    |x: Seq<char>| strip_cr(x),
                ).push(strip_cr(p.last())));
            }
            cur = Vec::new();
        } else {
            cur.push(c);
            proof {
                let q = split_newlines(chars@.take(i + 1));
                assert(q == p.update(p.len() - 1, p.last().push(c)));
                assert(q.drop_last() =~= p.drop_last());
            }
        }
        i = i + 1;
    }
    assert(chars@.take(chars@.len() as int) =~= chars@);
    proof {
        lemma_split_nonempty(text@);
    }
    if cur.len() > 0 {
        let line = string_of(&cur);
        let ghost before = out@;
        out.push(line);
        proof {
            assert(out@.drop_last() =~= before);
            assert(views(out@) =~= views(before).push(cur@));
        }
    }
    out
}

fn deque_of(lines: Vec<String>) -> (d: VecDeque<String>)
    ensures
        d@ == lines@,
{
    let mut d: VecDeque<String> = VecDeque::new();
    for line in it: lines.into_iter()
        invariant
            d@ == it.seq().take(it.index() as int),
    {
        d.push_back(line);
    }
    d
}

impl LogViewState {
    /// The maximum scroll offset the next geometry refresh yields for wrap mode
    /// `word_wrap` (the recorded one when no width is known yet).
    pub open spec fn max_scroll_for(self, word_wrap: bool) -> int {
        if self.cached_wrap_width != 0 {
            sat_sub(
                rows_total(self.lines@, word_wrap, self.cached_wrap_width as nat) as int,
                max_int(self.visible_rows as int, 1),
            )
        } else {
            self.max_scroll as int
        }
    }

    /// A fresh state holding `lines`, with no geometry recorded yet.
    pub open spec fn initial(self, lines: Seq<String>) -> bool {
        &&& self.wf()
        &&& self.lines@ == lines
        &&& self.word_wrap
        &&& self.scroll == 0
        &&& self.visible_rows == 20
        &&& self.max_scroll == 0
        &&& self.search_query is None
        &&& !self.case_sensitive
        &&& self.search_matches@.len() == 0
        &&& self.current_match is None
        &&& self.highlighted_line is None
        &&& self.line_limit is None
        &&& !self.auto_scroll
        &&& !self.geometry_known()
        &&& self.geometry_stale()
        &&& self.row_offsets@.len() == 0
        &&& self.cached_visible_rows == 0
    }

    /// Create a log view state from pre-split raw lines.
    pub fn new(lines: Vec<String>) -> (state: Self)
        requires
            lines_fit(lines@),
        ensures
            state.initial(lines@),
    {
        let lines = deque_of(lines);
        let mut state = LogViewState {
            lines,
            word_wrap: true,
            scroll: 0,
            visible_rows: 20,
            row_offsets: Vec::new(),
            max_scroll: 0,
            search_query: None,
            case_sensitive: false,
            search_matches: Vec::new(),
            current_match: None,
            highlighted_line: None,
            line_limit: None,
            auto_scroll: false,
            cached_wrap_width: 0,
            cached_visible_rows: 0,
            geometry_dirty: true,
        };
        state.rebuild_search();
        state
    }

    /// Create a log view state from a text blob, preserving ANSI sequences.
    pub fn from_text(text: &str) -> (state: Self)
        requires
            4 * text@.len() + 1 <= usize::MAX,
        ensures
            views(state.lines@) == text_lines(text@),
            state.initial(state.lines@),
    {
        Self::new(split_text_lines(text))
    }

    fn enforce_line_limit(&mut self)
        ensures
            final(self).lines@ == limited(old(self).lines@, old(self).line_limit),
            final(self).word_wrap == old(self).word_wrap,
            final(self).search_query == old(self).search_query,
            final(self).case_sensitive == old(self).case_sensitive,
            final(self).search_matches == old(self).search_matches,
            final(self).current_match == old(self).current_match,
            final(self).highlighted_line == old(self).highlighted_line,
            final(self).line_limit == old(self).line_limit,
            final(self).scroll == old(self).scroll,
            final(self).visible_rows == old(self).visible_rows,
            final(self).auto_scroll == old(self).auto_scroll,
            final(self).row_offsets == old(self).row_offsets,
            final(self).max_scroll == old(self).max_scroll,
            final(self).cached_wrap_width == old(self).cached_wrap_width,
            final(self).cached_visible_rows == old(self).cached_visible_rows,
            final(self).geometry_dirty == old(self).geometry_dirty,
    {
        let limit = match self.line_limit {
            Some(limit) => limit,
            None => {
                return;
            },
        };
        let ghost all = self.lines@;
        assert(all.skip(0) =~= all);
        while self.lines.len() > limit
            invariant
                self.line_limit == Some(limit),
                all.len() >= self.lines@.len(),
                self.lines@.len() >= (if all.len() > limit { limit as int } else { all.len() as int }),
                self.lines@ == all.skip(all.len() - self.lines@.len()),
                self.word_wrap == old(self).word_wrap,
                self.search_query == old(self).search_query,
                self.case_sensitive == old(self).case_sensitive,
                self.search_matches == old(self).search_matches,
                self.current_match == old(self).current_match,
                self.highlighted_line == old(self).highlighted_line,
                self.scroll == old(self).scroll,
                self.visible_rows == old(self).visible_rows,
                self.auto_scroll == old(self).auto_scroll,
                self.row_offsets == old(self).row_offsets,
                self.max_scroll == old(self).max_scroll,
                self.cached_wrap_width == old(self).cached_wrap_width,
                self.cached_visible_rows == old(self).cached_visible_rows,
                self.geometry_dirty == old(self).geometry_dirty,
            decreases self.lines@.len(),
        {
            let ghost before = self.lines@;
            self.lines.pop_front();
            assert(self.lines@ =~= all.skip(all.len() - self.lines@.len()));
        }
        proof {
            if all.len() <= limit {
                assert(all.skip(0) =~= all);
            }
        }
    }

    /// Replace the displayed lines (keeping the newest ones under the line
    /// limit), reset scroll, and re-run the active search.
    pub fn set_lines(&mut self, lines: Vec<String>)
        requires
            old(self).wf(),
            lines_fit(limited(lines@, old(self).line_limit)),
        ensures
            final(self).wf(),
            final(self).lines@ == limited(lines@, old(self).line_limit),
            final(self).search_current(),
            final(self).scroll == 0,
            final(self).highlighted_line is None,
            !final(self).auto_scroll,
            final(self).geometry_known() == old(self).geometry_known(),
            old(self).geometry_known() ==> final(self).geometry_fresh(),
            final(self).word_wrap == old(self).word_wrap,
            final(self).search_query == old(self).search_query,
            final(self).case_sensitive == old(self).case_sensitive,
            final(self).line_limit == old(self).line_limit,
            final(self).visible_rows == old(self).visible_rows,
    {
        self.lines = deque_of(lines);
        self.enforce_line_limit();
        self.scroll = 0;
        self.highlighted_line = None;
        self.auto_scroll = false;
        self.current_match = None;
        self.invalidate_geometry();
        self.rebuild_search();
        self.refresh_geometry_if_known();
        self.clamp_scroll();
    }

    /// Append raw log lines and scroll to the bottom on the next render.
    pub fn push_lines(&mut self, lines: Vec<String>)
        requires
            old(self).wf(),
            lines_fit(limited(old(self).lines@ + lines@, old(self).line_limit)),
        ensures
            final(self).wf(),
            final(self).lines@ == limited(old(self).lines@ + lines@, old(self).line_limit),
            final(self).search_current(),
            final(self).auto_scroll,
            final(self).geometry_stale(),
            final(self).geometry_known() == old(self).geometry_known(),
            final(self).scroll == old(self).scroll,
            final(self).word_wrap == old(self).word_wrap,
            final(self).search_query == old(self).search_query,
            final(self).case_sensitive == old(self).case_sensitive,
            final(self).highlighted_line == old(self).highlighted_line,
            final(self).line_limit == old(self).line_limit,
            final(self).visible_rows == old(self).visible_rows,
    {
        let ghost start = self.lines@;
        for line in it: lines.into_iter()
            invariant
                self.lines@ == start + it.seq().take(it.index() as int),
                self.line_limit == old(self).line_limit,
                self.word_wrap == old(self).word_wrap,
                self.search_query == old(self).search_query,
                self.case_sensitive == old(self).case_sensitive,
                self.search_matches == old(self).search_matches,
                self.current_match == old(self).current_match,
                self.highlighted_line == old(self).highlighted_line,
                self.scroll == old(self).scroll,
                self.visible_rows == old(self).visible_rows,
                self.cached_wrap_width == old(self).cached_wrap_width,
        {
            self.lines.push_back(line);
            assert(self.lines@ =~= start + it.seq().take(it.index() + 1));
        }
        assert(self.lines@ =~= start + lines@);
        self.enforce_line_limit();
        self.current_match = None;
        self.invalidate_geometry();
        self.rebuild_search();
        self.auto_scroll = true;
    }

    /// Set or clear the retained line limit.
    pub fn set_line_limit(&mut self, limit: Option<usize>)
        requires
            old(self).wf(),
        ensures
            final(self).wf(),
            final(self).line_limit == limit,
            final(self).lines@ == limited(old(self).lines@, limit),
            final(self).search_current(),
            final(self).geometry_known() == old(self).geometry_known(),
            old(self).geometry_known() ==> final(self).geometry_fresh(),
            !old(self).geometry_known() ==> final(self).max_scroll == old(self).max_scroll,
            final(self).scroll == min_int(old(self).scroll as int, final(self).max_scroll as int),
            final(self).word_wrap == old(self).word_wrap,
            final(self).search_query == old(self).search_query,
            final(self).case_sensitive == old(self).case_sensitive,
            final(self).highlighted_line == old(self).highlighted_line,
            final(self).auto_scroll == old(self).auto_scroll,
            final(self).visible_rows == old(self).visible_rows,
    {
        self.line_limit = limit;
        self.enforce_line_limit();
        proof {
            let all = old(self).lines@;
            if self.lines@ != all {
                lemma_budget_skip(all, all.len() - self.lines@.len());
            }
        }
        self.current_match = None;
        self.invalidate_geometry();
        self.rebuild_search();
        self.refresh_geometry_if_known();
        self.clamp_scroll();
    }

    /// `post` is `self` with word wrap set to `word_wrap`: nothing changes when
    /// it already was; otherwise a view at the bottom stays at the bottom on
    /// the next render (keeping, until then, the geometry of the old mode), and
    /// any other view keeps its scroll within the new range.
    pub open spec fn wrap_switched(self, word_wrap: bool, post: Self) -> bool {
        &&& self.word_wrap == word_wrap ==> post == self
        &&& self.word_wrap != word_wrap ==> {
            let keep_at_end = self.scroll >= self.max_scroll_for(self.word_wrap);
            &&& post.word_wrap == word_wrap
            &&& post.geometry_known() == self.geometry_known()
            &&& if keep_at_end {
                &&& post.auto_scroll
                &&& post.geometry_stale()
                &&& post.scroll == self.scroll
                &&& if self.geometry_known() {
                    &&& post.max_scroll == self.max_scroll_for(self.word_wrap)
                    &&& post.row_offsets@.len() == self.lines@.len()
                    &&& forall|i: int|
                        0 <= i < self.lines@.len() ==> #[trigger] post.row_offsets@[i] == row_offsets_for(
                            self.lines@,
                            self.word_wrap,
                            self.cached_wrap_width as nat,
                        )[i]
                } else {
                    &&& post.row_offsets == self.row_offsets
                    &&& post.max_scroll == self.max_scroll
                }
            } else {
                &&& post.auto_scroll == self.auto_scroll
                &&& post.scroll == min_int(self.scroll as int, self.max_scroll_for(word_wrap))
                &&& self.geometry_known() ==> post.geometry_fresh()
            }
        }
        &&& post.lines == self.lines
        &&& post.search_query == self.search_query
        &&& post.case_sensitive == self.case_sensitive
        &&& post.search_matches == self.search_matches
        &&& post.current_match == self.current_match
        &&& post.highlighted_line == self.highlighted_line
        &&& post.line_limit == self.line_limit
        &&& post.visible_rows == self.visible_rows
    }

    /// Enable or disable word wrap for rendered log lines.
    pub fn set_word_wrap(&mut self, word_wrap: bool)
        requires
            old(self).wf(),
        ensures
            final(self).wf(),
            old(self).wrap_switched(word_wrap, *final(self)),
    {
        if self.word_wrap == word_wrap {
            return;
        }
        self.refresh_geometry_if_known();
        let keep_at_end = self.scroll >= self.max_scroll;
        self.word_wrap = word_wrap;
        self.invalidate_geometry();
        if keep_at_end {
            self.auto_scroll = true;
        } else {
            self.refresh_geometry_if_known();
            self.clamp_scroll();
        }
    }

    /// Toggle word wrap and return the new state.
    pub fn toggle_word_wrap(&mut self) -> (word_wrap: bool)
        requires
            old(self).wf(),
        ensures
            final(self).wf(),
            word_wrap == !old(self).word_wrap,
            old(self).wrap_switched(word_wrap, *final(self)),
    {
        let word_wrap = !self.word_wrap;
        self.set_word_wrap(word_wrap);
        self.word_wrap
    }

    /// Return the current maximum valid wrapped-row scroll offset.
    pub fn max_scroll(&mut self) -> (m: usize)
        requires
            old(self).wf(),
        ensures
            final(self).wf(),
            m == old(self).max_scroll_for(old(self).word_wrap),
            m == final(self).max_scroll,
            final(self).refreshed_from(*old(self)),
            old(self).same_text(*final(self)),
            final(self).scroll == old(self).scroll,
            final(self).visible_rows == old(self).visible_rows,
            final(self).auto_scroll == old(self).auto_scroll,
    {
        self.refresh_geometry_if_known();
        self.max_scroll
    }
}

/// The match after `cur` among `n` matches, wrapping around (the first when
/// none is selected).
pub open spec fn next_index(cur: Option<usize>, n: nat) -> int {
    match cur {
        Some(i) => (i + 1) % (n as int),
        None => 0,
    }
}

/// The match before `cur` among `n` matches, wrapping around (the last when
/// none is selected).
pub open spec fn prev_index(cur: Option<usize>, n: nat) -> int {
    match cur {
        Some(i) => if i == 0 { n - 1 } else { i - 1 },
        None => n - 1,
    }
}

/// The raw line shown at wrapped row `scroll`: the last line starting at or
/// above it, kept within the lines (0 with no lines or no geometry).
pub open spec fn line_at_row(offsets: Seq<usize>, n_lines: int, scroll: int) -> int {
    if n_lines == 0 || offsets.len() == 0 {
        0
    } else {
        min_int(sat_sub(leading_at_most(offsets, scroll) as int, 1), n_lines - 1)
    }
}

fn leading_count(s: &Vec<usize>, x: usize) -> (k: usize)
    ensures
        k == leading_at_most(s@, x as int),
{
    let mut k: usize = 0;
    assert(s@.skip(0) =~= s@);
    while k < s.len() && s[k] <= x
        invariant
            k <= s@.len(),
            leading_at_most(s@, x as int) == k + leading_at_most(s@.skip(k as int), x as int),
        decreases s@.len() - k,
    {
        assert(s@.skip(k as int).drop_first() =~= s@.skip(k + 1));
        assert(s@.skip(k as int)[0] == s@[k as int]);
        k = k + 1;
    }
    proof {
        if k < s@.len() {
            assert(s@.skip(k as int)[0] == s@[k as int]);
        } else {
            assert(s@.skip(k as int).len() == 0);
        }
    }
    k
}

impl LogViewState {
    /// Return the raw line index at or above a wrapped-row scroll offset.
    pub fn line_index_at_scroll(&mut self, scroll: usize) -> (line: usize)
        requires
            old(self).wf(),
        ensures
            final(self).wf(),
            final(self).refreshed_from(*old(self)),
            line == line_at_row(final(self).row_offsets@, final(self).lines@.len() as int, scroll as int),
            old(self).same_text(*final(self)),
            final(self).scroll == old(self).scroll,
            final(self).visible_rows == old(self).visible_rows,
            final(self).auto_scroll == old(self).auto_scroll,
    {
        self.refresh_geometry_if_known();
        if self.lines.len() == 0 || self.row_offsets.len() == 0 {
            return 0;
        }
        let p = leading_count(&self.row_offsets, scroll);
        let above = if p >= 1 { p - 1 } else { 0 };
        let last = self.lines.len() - 1;
        if above <= last { above } else { last }
    }

    /// Return the wrapped-row scroll offset for a raw line.
    pub fn scroll_offset_for_line(&mut self, line: usize) -> (r: Option<usize>)
        requires
            old(self).wf(),
        ensures
            final(self).wf(),
            final(self).refreshed_from(*old(self)),
            r == (if line < final(self).row_offsets@.len() {
                Some(final(self).row_offsets@[line as int])
            } else {
                None::<usize>
            }),
            old(self).same_text(*final(self)),
            final(self).scroll == old(self).scroll,
            final(self).visible_rows == old(self).visible_rows,
            final(self).auto_scroll == old(self).auto_scroll,
    {
        self.refresh_geometry_if_known();
        if line < self.row_offsets.len() {
            Some(self.row_offsets[line])
        } else {
            None
        }
    }

    /// Set or clear a host-driven highlighted line.
    pub fn set_highlighted_line(&mut self, line: Option<usize>)
        ensures
            final(self).highlighted_line == (match line {
                Some(i) => if i < old(self).lines@.len() { Some(i) } else { None::<usize> },
                None => None::<usize>,
            }),
            *final(self) == (LogViewState { highlighted_line: final(self).highlighted_line, ..*old(self) }),
    {
        self.highlighted_line = match line {
            Some(i) => if i < self.lines.len() { Some(i) } else { None },
            None => None,
        };
    }

    /// Return the raw highlighted line, if any.
    pub fn highlighted_line_text(&self) -> (r: Option<&str>)
        ensures
            match self.highlighted_line {
                Some(i) => if i < self.lines@.len() {
                    r is Some && r.unwrap()@ == self.lines@[i as int]@
                } else {
                    r is None
                },
                None => r is None,
            },
    {
        match self.highlighted_line {
            Some(i) => if i < self.lines.len() {
                Some(self.lines[i].as_str())
            } else {
                None
            },
            None => None,
        }
    }

    /// Enable or disable case-sensitive search.
    pub fn set_case_sensitive(&mut self, case_sensitive: bool)
        requires
            old(self).wf(),
        ensures
            final(self).wf(),
            final(self).case_sensitive == case_sensitive,
            old(self).case_sensitive == case_sensitive ==> *final(self) == *old(self),
            old(self).case_sensitive != case_sensitive ==> final(self).search_current(),
            final(self).search_query == old(self).search_query,
            old(self).only_search_changed(*final(self)),
    {
        if self.case_sensitive != case_sensitive {
            self.case_sensitive = case_sensitive;
            self.rebuild_search();
        }
    }

    /// Set the active search query. Empty queries clear search state; non-empty
    /// queries select the first visible-text match.
    pub fn set_search_query(&mut self, query: &str)
        requires
            old(self).wf(),
        ensures
            final(self).wf(),
            query@.len() == 0 ==> final(self).search_query is None,
            query@.len() > 0 ==> final(self).search_query is Some && final(self).search_query.unwrap()@ == query@,
            final(self).search_current(),
            final(self).case_sensitive == old(self).case_sensitive,
            old(self).only_search_changed(*final(self)),
    {
        self.search_query = if query.is_empty() { None } else { Some(query.to_owned()) };
        self.current_match = None;
        self.rebuild_search();
    }

    /// Clear the active search query and matches.
    pub fn clear_search(&mut self)
        requires
            old(self).wf(),
        ensures
            final(self).wf(),
            final(self).search_query is None,
            final(self).search_matches@.len() == 0,
            final(self).current_match is None,
            final(self).search_current(),
            final(self).case_sensitive == old(self).case_sensitive,
            old(self).only_search_changed(*final(self)),
    {
        self.search_query = None;
        self.search_matches.clear();
        self.current_match = None;
    }

    /// Return whether search is active.
    pub fn has_search(&self) -> (r: bool)
        ensures
            r == self.search_query is Some,
    {
        self.search_query.is_some()
    }

    /// Return the currently selected match, if any.
    pub fn current_match(&self) -> (r: Option<&LogMatch>)
        ensures
            match self.current_match {
                Some(i) => if i < self.search_matches@.len() {
                    r == Some(&self.search_matches@[i as int])
                } else {
                    r is None
                },
                None => r is None,
            },
    {
        match self.current_match {
            Some(i) => if i < self.search_matches.len() {
                Some(&self.search_matches[i])
            } else {
                None
            },
            None => None,
        }
    }

    /// Return the raw line number of the current match, if any.
    pub fn current_match_line(&self) -> (r: Option<usize>)
        ensures
            match self.current_match {
                Some(i) => if i < self.search_matches@.len() {
                    r == Some(self.search_matches@[i as int].line)
                } else {
                    r is None
                },
                None => r is None,
            },
    {
        match self.current_match() {
            Some(m) => Some(m.line),
            None => None,
        }
    }

    /// The scroll offset that shows line `line` at the top, clamped to the
    /// scroll range.
    pub open spec fn scroll_for_line(self, line: int) -> int {
        min_int(
            if 0 <= line < self.row_offsets@.len() {
                self.row_offsets@[line] as int
            } else {
                line
            },
            self.max_scroll as int,
        )
    }

    /// `post` is `self` with match `idx` selected and the view scrolled to it:
    /// the geometry refreshed, and, where there is geometry, the scroll set to
    /// show the match's line.
    pub open spec fn moved_to_match(self, idx: int, post: Self) -> bool {
        &&& post.current_match == Some(idx as usize)
        &&& post.lines == self.lines
        &&& post.search_matches == self.search_matches
        &&& post.refreshed_from(self)
        &&& post.scroll == (if post.row_offsets@.len() == 0 {
            self.scroll as int
        } else {
            post.scroll_for_line(self.search_matches@[idx].line as int)
        })
    }

    /// Scroll so the active match is visible.
    pub fn sync_scroll_to_current_match(&mut self)
        requires
            old(self).wf(),
        ensures
            final(self).wf(),
            final(self).refreshed_from(*old(self)),
            old(self).same_text(*final(self)),
            final(self).visible_rows == old(self).visible_rows,
            final(self).auto_scroll == old(self).auto_scroll,
            match old(self).current_match {
                Some(i) => old(self).moved_to_match(i as int, *final(self)),
                None => final(self).scroll == old(self).scroll,
            },
    {
        self.refresh_geometry_if_known();
        let line = match self.current_match_line() {
            Some(line) => line,
            None => {
                return;
            },
        };
        if self.row_offsets.len() == 0 {
            return;
        }
        self.scroll = if line < self.row_offsets.len() { self.row_offsets[line] } else { line };
        self.clamp_scroll();
    }

    /// Move to the next search match, wrapping around.
    pub fn next_match(&mut self) -> (r: Option<&LogMatch>)
        requires
            old(self).wf(),
        ensures
            final(self).wf(),
            old(self).search_matches@.len() == 0 ==> r is None && *final(self) == *old(self),
            old(self).search_matches@.len() > 0 ==> {
                let next = next_index(old(self).current_match, old(self).search_matches@.len());
                &&& old(self).moved_to_match(next, *final(self))
                &&& r == Some(&final(self).search_matches@[next])
            },
            final(self).lines == old(self).lines,
            final(self).search_matches == old(self).search_matches,
            final(self).search_query == old(self).search_query,
            final(self).case_sensitive == old(self).case_sensitive,
            final(self).word_wrap == old(self).word_wrap,
            final(self).highlighted_line == old(self).highlighted_line,
    {
        if self.search_matches.len() == 0 {
            return None;
        }
        let next = match self.current_match {
            Some(idx) => (idx + 1) % self.search_matches.len(),
            None => 0,
        };
        self.current_match = Some(next);
        self.sync_scroll_to_current_match();
        self.current_match()
    }

    /// Move to the previous search match, wrapping around.
    pub fn prev_match(&mut self) -> (r: Option<&LogMatch>)
        requires
            old(self).wf(),
        ensures
            final(self).wf(),
            old(self).search_matches@.len() == 0 ==> r is None && *final(self) == *old(self),
            old(self).search_matches@.len() > 0 ==> {
                let prev = prev_index(old(self).current_match, old(self).search_matches@.len());
                &&& old(self).moved_to_match(prev, *final(self))
                &&& r == Some(&final(self).search_matches@[prev])
            },
            final(self).lines == old(self).lines,
            final(self).search_matches == old(self).search_matches,
            final(self).search_query == old(self).search_query,
            final(self).case_sensitive == old(self).case_sensitive,
            final(self).word_wrap == old(self).word_wrap,
            final(self).highlighted_line == old(self).highlighted_line,
    {
        if self.search_matches.len() == 0 {
            return None;
        }
        let prev = match self.current_match {
            Some(idx) => if idx == 0 { self.search_matches.len() - 1 } else { idx - 1 },
            None => self.search_matches.len() - 1,
        };
        self.current_match = Some(prev);
        self.sync_scroll_to_current_match();
        self.current_match()
    }
}

// ── Rendering support ────────────────────────────────────────────────────────

/// Rows a line wraps into at `wrap_at` columns (at least one).
pub fn wrapped_row_count(line: &str, wrap_at: usize) -> (rows: usize)
    requires
        measurable(line@),
    ensures
        rows == line_rows(line@, true, max_int(wrap_at as int, 1) as nat),
        1 <= rows <= 3 * line@.len() + 1,
{
    let visible = ansi_visible_len(line);
    let w = if wrap_at > 1 { wrap_at } else { 1 };
    if visible == 0 {
        1
    } else if visible % w == 0 {
        assert(1 <= visible / w <= visible) by (nonlinear_arith)
            requires
                w >= 1,
                visible >= 1,
                visible % w == 0,
        ;
        visible / w
    } else {
        assert(visible / w < visible) by (nonlinear_arith)
            requires
                w >= 2 || visible % w == 0,
                visible >= 1,
                visible % w != 0,
                w >= 1,
        ;
        visible / w + 1
    }
}

/// A control character (Unicode general category Cc).
pub open spec fn is_control(c: char) -> bool {
    (c as u32) < 0x20 || (0x7f <= (c as u32) && (c as u32) < 0xa0)
}

/// `s` without its control characters, newlines and tabs kept.
pub open spec fn without_controls(s: Seq<char>) -> Seq<char> {
    s.filter(|c: char| !is_control(c) || c == '\n' || c == '\t')
}

/// Remove control characters other than newlines and tabs.
pub fn strip_control_only(text: &str) -> (out: String)
    ensures
        out@ == without_controls(text@),
{
    let chars = chars_of(text);
    let mut out = String::new();
    let mut i: usize = 0;
    while i < chars.len()
        invariant
            chars@ == text@,
            i <= chars@.len(),
            out@ == without_controls(chars@.take(i as int)),
        decreases chars@.len() - i,
    {
        let c = chars[i];
        let code = c as u32;
        let control = code < 0x20 || (0x7f <= code && code < 0xa0);
        proof {
            assert(chars@.take(i + 1).drop_last() =~= chars@.take(i as int));
            reveal_with_fuel(Seq::filter, 1);
        }
        if !control || c == '\n' || c == '\t' {
            push_char(&mut out, c);
        }
        i = i + 1;
    }
    assert(chars@.take(chars@.len() as int) =~= chars@);
    out
}

/// The part of the log to draw: raw lines `first_line..end_line`, with the
/// first `scroll_within` wrapped rows of that window scrolled away.
#[derive(Clone, Copy, Debug, PartialEq, Eq, Structural)]
pub struct LogWindow {
    pub first_line: usize,
    pub end_line: usize,
    pub scroll_within: usize,
}

/// How a line is highlighted as a whole.
#[derive(Clone, Copy, Debug, PartialEq, Eq, Structural)]
pub enum LineHighlight {
    /// The host's highlighted line: the whole line gets the host style.
    Host,
    /// The line holds search matches.
    Matches,
    /// Nothing to highlight.
    Plain,
}

/// The highlight of one character cell of a line with matches.
#[derive(Clone, Copy, Debug, PartialEq, Eq, Structural)]
pub enum Overlay {
    /// The cell is in the current match.
    Current,
    /// The cell is in another match.
    Match,
    /// The cell is in no match.
    Plain,
}

/// The line index just past the window that starts at line `idx` with
/// `covered` rows already taken, once the rows reach `target`.
pub open spec fn window_end(lines: Seq<String>, word_wrap: bool, wrap_at: nat, idx: int, covered: int, target: int) -> int
    decreases lines.len() - idx,
{
    if idx >= lines.len() || idx < 0 {
        idx
    } else {
        let c = covered + line_rows(lines[idx]@, word_wrap, wrap_at);
        if c >= target {
            idx + 1
        } else {
            window_end(lines, word_wrap, wrap_at, idx + 1, c, target)
        }
    }
}

/// Index of the first match of line `line` at or after `i` overlapping columns `[a, b)`.
pub open spec fn first_overlap(ms: Seq<LogMatch>, line: usize, a: int, b: int, i: int) -> Option<int>
    decreases ms.len() - i,
{
    if i < 0 || i >= ms.len() {
        None
    } else if ms[i].line == line && ms[i].range.start < b && a < ms[i].range.end {
        Some(i)
    } else {
        first_overlap(ms, line, a, b, i + 1)
    }
}

impl LogViewState {
    /// `post` is `self` prepared for a viewport of `width` by `height` cells, and
    /// `win` the window to draw: the viewport is recorded, the geometry is fresh
    /// for it, a pending jump to the bottom is made (the scroll is clamped
    /// otherwise), and the window runs from the line shown at the top through
    /// the line that fills the viewport.
    pub open spec fn window_prepared(self, width: usize, height: usize, post: Self, win: LogWindow) -> bool {
        &&& post.visible_rows == max_int(height as int, 1)
        &&& post.geometry_fresh()
        &&& post.cached_wrap_width == max_int(width as int, 1)
        &&& !post.auto_scroll
        &&& self.auto_scroll ==> post.scroll == post.max_scroll
        &&& !self.auto_scroll ==> post.scroll == min_int(self.scroll as int, post.max_scroll as int)
        &&& self.same_text(post)
        &&& win.first_line == sat_sub(leading_at_most(post.row_offsets@, post.scroll as int) as int, 1)
        &&& win.scroll_within == sat_sub(
            post.scroll as int,
            if win.first_line < post.row_offsets@.len() {
                post.row_offsets@[win.first_line as int] as int
            } else {
                0
            },
        )
        &&& win.end_line == window_end(
            post.lines@,
            post.word_wrap,
            post.cached_wrap_width as nat,
            win.first_line as int,
            0,
            win.scroll_within + height,
        )
    }
}

impl LogViewState {
    /// Prepare the log view for a viewport of `width` by `height` cells: records
    /// the viewport, refreshes the geometry, settles the scroll, and returns the
    /// window of lines to draw.
    pub fn prepare_window(&mut self, width: usize, height: usize) -> (win: LogWindow)
        requires
            old(self).wf(),
        ensures
            final(self).wf(),
            old(self).window_prepared(width, height, *final(self), win),
    {
        let wrap_at = if width > 1 { width } else { 1 };
        self.visible_rows = if height > 1 { height } else { 1 };
        self.ensure_wrap_geometry(wrap_at);
        if self.auto_scroll {
            self.scroll = self.max_scroll;
            self.auto_scroll = false;
        } else {
            self.clamp_scroll();
        }
        let start = self.scroll;
        let p = leading_count(&self.row_offsets, start);
        let first = if p >= 1 { p - 1 } else { 0 };
        let base = if first < self.row_offsets.len() { self.row_offsets[first] } else { 0 };
        let scroll_within = if start >= base { start - base } else { 0 };
        let ghost lines = self.lines@;
        let ghost target = scroll_within + height;
        let n = self.lines.len();
        let mut covered: usize = 0;
        let mut idx = first;
        proof {
            if first <= lines.len() {
                lemma_budget_take(lines, first as int);
            }
        }
        while idx < n
            invariant_except_break
                window_end(lines, self.word_wrap, wrap_at as nat, first as int, 0, target)
                    == window_end(lines, self.word_wrap, wrap_at as nat, idx as int, covered as int, target),
            invariant
                n == lines.len(),
                self.lines@ == lines,
                lines_fit(lines),
                first <= idx,
                idx <= n || idx == first,
                idx <= n ==> covered + line_budget(lines.take(first as int)) <= line_budget(lines.take(idx as int)),
                self.cached_wrap_width == wrap_at,
                wrap_at >= 1,
                target == scroll_within + height,
            ensures
                window_end(lines, self.word_wrap, wrap_at as nat, first as int, 0, target) == idx,
            decreases n - idx,
        {
            proof {
                lemma_budget_line(lines, idx as int);
                lemma_budget_take(lines, idx + 1);
            }
            let rows = if self.word_wrap { wrapped_row_count(self.lines[idx].as_str(), wrap_at) } else { 1 };
            assert(rows == line_rows(lines[idx as int]@, self.word_wrap, wrap_at as nat));
            let ghost old_idx = idx as int;
            let ghost old_covered = covered as int;
            covered = covered + rows;
            idx = idx + 1;
            assert(window_end(lines, self.word_wrap, wrap_at as nat, old_idx, old_covered, target) == if covered >= target {
                idx as int
            } else {
                window_end(lines, self.word_wrap, wrap_at as nat, idx as int, covered as int, target)
            });
            if covered >= scroll_within && covered - scroll_within >= height {
                break;
            }
        }
        LogWindow { first_line: first, end_line: idx, scroll_within }
    }

    /// How line `line_idx` is highlighted as a whole.
    pub fn line_highlight(&self, line_idx: usize) -> (h: LineHighlight)
        ensures
            self.highlighted_line == Some(line_idx) ==> h == LineHighlight::Host,
            self.highlighted_line != Some(line_idx) ==> (h == LineHighlight::Matches <==> exists|i: int|
                0 <= i < self.search_matches@.len() && #[trigger] self.search_matches@[i].line == line_idx),
            self.highlighted_line != Some(line_idx) ==> h != LineHighlight::Host,
    {
        match self.highlighted_line {
            Some(h) => if h == line_idx {
                return LineHighlight::Host;
            },
            None => {},
        }
        let mut i: usize = 0;
        while i < self.search_matches.len()
            invariant
                i <= self.search_matches@.len(),
                self.highlighted_line != Some(line_idx),
                forall|j: int| 0 <= j < i ==> #[trigger] self.search_matches@[j].line != line_idx,
            decreases self.search_matches@.len() - i,
        {
            if self.search_matches[i].line == line_idx {
                return LineHighlight::Matches;
            }
            i = i + 1;
        }
        LineHighlight::Plain
    }

    /// The highlight of the cell covering columns `[a, b)` of line `line_idx`:
    /// the first match there decides, and it is the current one when it equals
    /// the current match.
    pub open spec fn overlay_for(self, line_idx: usize, a: int, b: int) -> Overlay {
        match first_overlap(self.search_matches@, line_idx, a, b, 0) {
            None => Overlay::Plain,
            Some(k) => if self.current_match matches Some(c) && c < self.search_matches@.len()
                && self.search_matches@[c as int] == self.search_matches@[k] {
                Overlay::Current
            } else {
                Overlay::Match
            },
        }
    }

    /// The highlight of the cell covering columns `[char_start, char_end)` of
    /// line `line_idx`: the first match there decides, and it is the current
    /// one when it equals the current match.
    pub fn overlay_at(&self, line_idx: usize, char_start: usize, char_end: usize) -> (o: Overlay)
        ensures
            o == self.overlay_for(line_idx, char_start as int, char_end as int),
    {
        let mut i: usize = 0;
        while i < self.search_matches.len()
            invariant
                i <= self.search_matches@.len(),
                first_overlap(self.search_matches@, line_idx, char_start as int, char_end as int, 0)
                    == first_overlap(self.search_matches@, line_idx, char_start as int, char_end as int, i as int),
            decreases self.search_matches@.len() - i,
        {
            let m = &self.search_matches[i];
            if m.line == line_idx && m.range.start < char_end && char_start < m.range.end {
                return match self.current_match {
                    Some(c) => if c < self.search_matches.len() {
                        let cur = &self.search_matches[c];
                        if cur.line == m.line && cur.range.start == m.range.start && cur.range.end == m.range.end {
                            Overlay::Current
                        } else {
                            Overlay::Match
                        }
                    } else {
                        Overlay::Match
                    },
                    None => Overlay::Match,
                };
            }
            i = i + 1;
        }
        Overlay::Plain
    }
}

} // verus!
