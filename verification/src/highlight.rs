//! Search highlighting of a styled log line: which runs of each span's
//! characters are drawn as the current match, as another match, or plainly.

use vstd::prelude::*;
use crate::log::{strip_control_only, without_controls, LogViewState, Overlay};
use crate::text::{char_columns, chars_of, columns, display_width_char, measurable, push_char};

verus! {

/// Text style of the terminal UI library, carried through unread.
#[verifier::external_type_specification]
#[verifier::external_body]
pub struct ExStyle(ratatui::style::Style);

/// A run of text in one style, as the ANSI parser yields it.
pub struct AnsiSpan {
    pub text: String,
    pub style: ratatui::style::Style,
}

/// The text and style of each span of each line.
pub open spec fn styled_view(lines: Seq<Vec<AnsiSpan>>) -> Seq<Seq<(Seq<char>, ratatui::style::Style)>> {
    lines.map_values(|l: Vec<AnsiSpan>| l@.map_values(|sp: AnsiSpan| (sp.text@, sp.style)))
}

/// What ansi-to-tui's parser makes of a raw line: its lines, each a sequence of
/// spans, each a text with the style its escape sequences set.
pub uninterp spec fn ansi_spans(raw: Seq<char>) -> Seq<Seq<(Seq<char>, ratatui::style::Style)>>;

/// Calls `ansi_to_tui::IntoText::into_text` on a raw line and lists the spans
/// of each line of the result, text and style. Claimed: the parser does not
/// fail (its line loop stops where a line no longer parses and returns what it
/// has), and the spans are the named result for the line.
#[verifier::external_body]
fn parse_ansi(raw: &str) -> (r: Option<Vec<Vec<AnsiSpan>>>)
    ensures
        r is Some,
        styled_view(r.unwrap()@) == ansi_spans(raw@),
{
    match ansi_to_tui::IntoText::into_text(&raw) {
        Ok(text) => Some(text.lines.into_iter().map(|line| line.spans.into_iter().map(|span| AnsiSpan {
            text: span.content.into_owned(),
            style: span.style,
        }).collect()).collect()),
        Err(_) => None,
    }
}

/// A raw log line ready to draw: the styled spans of its lines, or, where the
/// escape sequences cannot be parsed, its plain text without control characters.
pub enum LineText {
    Styled(Vec<Vec<AnsiSpan>>),
    Plain(String),
}

/// The line to draw from the parser's result for `raw`: the styled spans when
/// there are some, the control-free plain text of `raw` otherwise.
pub fn line_text_from(parsed: Option<Vec<Vec<AnsiSpan>>>, raw: &str) -> (r: LineText)
    ensures
        match parsed {
            Some(t) => r == LineText::Styled(t),
            None => r matches LineText::Plain(s) && s@ == without_controls(raw@),
        },
{
    match parsed {
        Some(t) => LineText::Styled(t),
        None => LineText::Plain(strip_control_only(raw)),
    }
}

/// Parse a raw log line's escape sequences for drawing: the styled spans the
/// parser makes of it (the control-free plain text would stand in where the
/// parser failed, which it does not).
pub fn line_text(raw: &str) -> (r: LineText)
    ensures
        r matches LineText::Styled(lines) && styled_view(lines@) == ansi_spans(raw@),
{
    line_text_from(parse_ansi(raw), raw)
}

/// A run of one span's characters that share a highlight.
#[derive(Clone, Debug)]
pub struct Piece {
    /// Index of the span the characters come from.
    pub span: usize,
    /// The characters, in order.
    pub text: String,
    /// How they are highlighted.
    pub overlay: Overlay,
}

/// The texts of the spans, one after the other.
pub open spec fn spans_text(spans: Seq<String>) -> Seq<char>
    decreases spans.len(),
{
    if spans.len() == 0 {
        Seq::empty()
    } else {
        spans_text(spans.drop_last()) + spans.last()@
    }
}

/// The characters of the pieces of span `s`, in order.
pub open spec fn piece_texts(ps: Seq<Piece>, s: int) -> Seq<char>
    decreases ps.len(),
{
    if ps.len() == 0 {
        Seq::empty()
    } else {
        piece_texts(ps.drop_last(), s) + if ps.last().span == s {
            ps.last().text@
        } else {
            Seq::empty()
        }
    }
}

/// The highlight of each character of the pieces of span `s`, in order.
pub open spec fn piece_overlays(ps: Seq<Piece>, s: int) -> Seq<Overlay>
    decreases ps.len(),
{
    if ps.len() == 0 {
        Seq::empty()
    } else {
        piece_overlays(ps.drop_last(), s) + if ps.last().span == s {
            Seq::new(ps.last().text@.len(), |j: int| ps.last().overlay)
        } else {
            Seq::empty()
        }
    }
}

/// Pieces come span by span, none is empty, and two neighbouring pieces of one
/// span differ in highlight.
pub open spec fn pieces_well_cut(ps: Seq<Piece>) -> bool {
    &&& forall|k: int| 0 <= k < ps.len() ==> (#[trigger] ps[k]).text@.len() > 0
    &&& forall|k: int, l: int| 0 <= k < l < ps.len() ==> (#[trigger] ps[k]).span <= (#[trigger] ps[l]).span
    &&& forall|k: int, l: int|
        0 <= k && l == k + 1 && l < ps.len() && (#[trigger] ps[k]).span == (#[trigger] ps[l]).span
            ==> ps[k].overlay != ps[l].overlay
}

impl LogViewState {
    /// The highlight of character `i` of span `s` of line `line_idx`: a
    /// character with width takes the highlight of the columns it covers,
    /// counted over the spans before it; a zero-width one keeps the highlight
    /// of the character before it in its span (none at the start of a span).
    pub open spec fn char_overlay(self, line_idx: usize, spans: Seq<String>, s: int, i: int) -> Overlay
        decreases i,
    {
        let c = spans[s]@[i];
        let col = columns(spans_text(spans.take(s)) + spans[s]@.take(i)) as int;
        if char_columns(c) > 0 {
            self.overlay_for(line_idx, col, col + char_columns(c))
        } else if i <= 0 {
            Overlay::Plain
        } else {
            self.char_overlay(line_idx, spans, s, i - 1)
        }
    }
}

proof fn lemma_pieces_push(ps: Seq<Piece>, p: Piece)
    ensures
        forall|t: int|
            #[trigger] piece_texts(ps.push(p), t) == piece_texts(ps, t) + if p.span == t {
                p.text@
            } else {
                Seq::<char>::empty()
            },
        forall|t: int|
            #[trigger] piece_overlays(ps.push(p), t) == piece_overlays(ps, t) + if p.span == t {
                Seq::new(p.text@.len(), |j: int| p.overlay)
            } else {
                Seq::<Overlay>::empty()
            },
{
    assert(ps.push(p).drop_last() =~= ps);
}

proof fn lemma_push_well_cut(ps: Seq<Piece>, p: Piece)
    requires
        pieces_well_cut(ps),
        p.text@.len() > 0,
        forall|k: int| 0 <= k < ps.len() ==> (#[trigger] ps[k]).span <= p.span,
        ps.len() > 0 && ps.last().span == p.span ==> ps.last().overlay != p.overlay,
    ensures
        pieces_well_cut(ps.push(p)),
{
    let q = ps.push(p);
    assert forall|k: int| 0 <= k < q.len() implies (#[trigger] q[k]).text@.len() > 0 by {
        if k < ps.len() {
            assert(q[k] == ps[k]);
        }
    }
    assert forall|k: int, l: int| 0 <= k < l < q.len() implies (#[trigger] q[k]).span <= (#[trigger] q[l]).span by {
        assert(q[k] == ps[k]);
        if l < ps.len() {
            assert(q[l] == ps[l]);
        }
    }
    assert forall|k: int, l: int|
        0 <= k && l == k + 1 && l < q.len() && (#[trigger] q[k]).span == (#[trigger] q[l]).span implies q[k].overlay
        != q[l].overlay by {
        assert(q[k] == ps[k]);
        if l < ps.len() {
            assert(q[l] == ps[l]);
        } else {
            assert(ps[k] == ps.last());
        }
    }
}

proof fn lemma_spans_text_prefix(spans: Seq<String>, i: int)
    requires
        0 <= i < spans.len(),
    ensures
        spans_text(spans.take(i + 1)) == spans_text(spans.take(i)) + spans[i]@,
        spans_text(spans.take(i + 1)).len() <= spans_text(spans).len(),
    decreases spans.len(),
{
    assert(spans.take(i + 1).drop_last() =~= spans.take(i));
    if i + 1 < spans.len() {
        lemma_spans_text_prefix(spans.drop_last(), i);
        assert(spans.drop_last().take(i + 1) =~= spans.take(i + 1));
        assert(spans.drop_last().take(i) =~= spans.take(i));
    } else {
        assert(spans.take(i + 1) =~= spans);
    }
}

impl LogViewState {
    /// Cut the spans of one styled line `line_idx` into runs of equal
    /// highlight, walking the visible columns across the spans.
    pub fn highlight_pieces(&self, line_idx: usize, spans: &Vec<String>) -> (out: Vec<Piece>)
        requires
            measurable(spans_text(spans@)),
        ensures
            pieces_well_cut(out@),
            forall|k: int| 0 <= k < out@.len() ==> (#[trigger] out@[k]).span < spans@.len(),
            forall|s: int| 0 <= s < spans@.len() ==> #[trigger] piece_texts(out@, s) == spans@[s]@,
            forall|s: int|
                0 <= s < spans@.len() ==> #[trigger] piece_overlays(out@, s) == Seq::new(
                    spans@[s]@.len(),
                    |i: int| self.char_overlay(line_idx, spans@, s, i),
                ),
    {
        let mut out: Vec<Piece> = Vec::new();
        let mut col: usize = 0;
        let mut si: usize = 0;
        let ghost all = spans@;
        assert(spans_text(all.take(0)) =~= Seq::<char>::empty());
        while si < spans.len()
            invariant
                all == spans@,
                measurable(spans_text(all)),
                si <= all.len(),
                pieces_well_cut(out@),
                forall|k: int| 0 <= k < out@.len() ==> (#[trigger] out@[k]).span < si,
                forall|t: int| 0 <= t < si ==> #[trigger] piece_texts(out@, t) == all[t]@,
                forall|t: int|
                    0 <= t < si ==> #[trigger] piece_overlays(out@, t) == Seq::new(
                        all[t]@.len(),
                        |i: int| self.char_overlay(line_idx, all, t, i),
                    ),
                forall|t: int| t >= si ==> #[trigger] piece_texts(out@, t) == Seq::<char>::empty(),
                forall|t: int| t >= si ==> #[trigger] piece_overlays(out@, t) == Seq::<Overlay>::empty(),
                col == columns(spans_text(all.take(si as int))),
                col <= 3 * spans_text(all.take(si as int)).len(),
                spans_text(all.take(si as int)).len() <= spans_text(all).len(),
            decreases all.len() - si,
        {
            let chars = chars_of(spans[si].as_str());
            let ghost prefix = spans_text(all.take(si as int));
            proof {
                lemma_spans_text_prefix(all, si as int);
            }
            let mut seg = String::new();
            let mut seg_ov: Option<Overlay> = None;
            let ghost mut run_ov: Overlay = Overlay::Plain;
            let mut i: usize = 0;
            proof {
                assert(seg@.len() == 0);
                assert(piece_overlays(out@, si as int) == Seq::<Overlay>::empty());
                assert(piece_texts(out@, si as int) == Seq::<char>::empty());
                let lhs = piece_overlays(out@, si as int) + Seq::new(seg@.len(), |j: int| run_ov);
                let rhs = Seq::new(0nat, |j: int| self.char_overlay(line_idx, all, si as int, j));
                assert(lhs.len() == 0);
                assert(rhs.len() == 0);
                assert(lhs =~= rhs);
                assert(piece_texts(out@, si as int) + seg@ =~= chars@.take(0));
            }
            while i < chars.len()
                invariant
                    all == spans@,
                    si < all.len(),
                    chars@ == all[si as int]@,
                    prefix == spans_text(all.take(si as int)),
                    prefix.len() + chars@.len() <= spans_text(all).len(),
                    measurable(spans_text(all)),
                    i <= chars@.len(),
                    pieces_well_cut(out@),
                    forall|k: int| 0 <= k < out@.len() ==> (#[trigger] out@[k]).span <= si,
                    forall|t: int| 0 <= t < si ==> #[trigger] piece_texts(out@, t) == all[t]@,
                    forall|t: int|
                        0 <= t < si ==> #[trigger] piece_overlays(out@, t) == Seq::new(
                            all[t]@.len(),
                            |j: int| self.char_overlay(line_idx, all, t, j),
                        ),
                    forall|t: int| t > si ==> #[trigger] piece_texts(out@, t) == Seq::<char>::empty(),
                    forall|t: int| t > si ==> #[trigger] piece_overlays(out@, t) == Seq::<Overlay>::empty(),
                    piece_texts(out@, si as int) + seg@ == chars@.take(i as int),
                    piece_overlays(out@, si as int) + Seq::new(seg@.len(), |j: int| run_ov)
                        == Seq::new(i as nat, |j: int| self.char_overlay(line_idx, all, si as int, j)),
                    (i == 0) == (seg_ov is None),
                    i == 0 ==> seg@.len() == 0,
                    i > 0 ==> seg@.len() > 0,
                    i > 0 ==> seg_ov == Some(run_ov),
                    i > 0 ==> run_ov == self.char_overlay(line_idx, all, si as int, i - 1),
                    out@.len() > 0 && out@.last().span == si ==> seg_ov is Some && out@.last().overlay
                        != seg_ov.unwrap(),
                    col == columns(prefix + chars@.take(i as int)),
                    col <= 3 * (prefix.len() + i),
                decreases chars@.len() - i,
            {
                let ch = chars[i];
                let w = display_width_char(ch);
                assert(prefix + chars@.take(i as int) == spans_text(all.take(si as int)) + all[si as int]@.take(
                    i as int,
                ));
                let ov = if w == 0 {
                    match seg_ov {
                        Some(o) => o,
                        None => Overlay::Plain,
                    }
                } else {
                    self.overlay_at(line_idx, col, col + w)
                };
                assert(ov == self.char_overlay(line_idx, all, si as int, i as int));
                let ghost before = out@;
                let ghost old_seg = seg@;
                let mut cut = false;
                match seg_ov {
                    Some(o) => {
                        if o != ov {
                            cut = true;
                        }
                    },
                    None => {},
                }
                if cut {
                    let o = seg_ov.unwrap();
                    let piece_text = seg;
                    seg = String::new();
                    let p = Piece { span: si, text: piece_text, overlay: o };
                    proof {
                        lemma_pieces_push(out@, p);
                        lemma_push_well_cut(out@, p);
                    }
                    out.push(p);
                    proof {
                        assert forall|t: int| 0 <= t < si implies #[trigger] piece_texts(out@, t) == all[t]@ by {
                            assert(piece_texts(out@, t) =~= piece_texts(before, t));
                        }
                        assert forall|t: int| 0 <= t < si implies #[trigger] piece_overlays(out@, t) == Seq::new(
                            all[t]@.len(),
                            |j: int| self.char_overlay(line_idx, all, t, j),
                        ) by {
                            assert(piece_overlays(out@, t) =~= piece_overlays(before, t));
                        }
                        assert forall|t: int| t > si implies #[trigger] piece_texts(out@, t) == Seq::<char>::empty() by {
                            assert(piece_texts(out@, t) =~= piece_texts(before, t));
                        }
                        assert forall|t: int| t > si implies #[trigger] piece_overlays(out@, t) == Seq::<Overlay>::empty() by {
                            assert(piece_overlays(out@, t) =~= piece_overlays(before, t));
                        }
                        assert(piece_texts(out@, si as int) =~= piece_texts(before, si as int) + old_seg);
                        assert(piece_overlays(out@, si as int) =~= piece_overlays(before, si as int) + Seq::new(
                            old_seg.len(),
                            |j: int| o,
                        ));
                        assert(seg@ =~= Seq::<char>::empty());
                    }
                }
                let ghost mid_texts = piece_texts(out@, si as int);
                let ghost mid_ovs = piece_overlays(out@, si as int);
                let ghost mid_seg = seg@;
                proof {
                    if cut {
                        assert(mid_texts == chars@.take(i as int));
                        assert(mid_ovs == Seq::new(i as nat, |j: int| self.char_overlay(line_idx, all, si as int, j)));
                    } else if i > 0 {
                        assert(seg_ov == Some(ov));
                    }
                }
                push_char(&mut seg, ch);
                seg_ov = Some(ov);
                let ghost prev_ov = run_ov;
                proof {
                    run_ov = ov;
                    assert(chars@.take(i + 1) =~= chars@.take(i as int).push(ch));
                    assert(mid_texts + seg@ =~= chars@.take(i + 1));
                    assert(Seq::new(seg@.len(), |j: int| run_ov) =~= Seq::new(mid_seg.len(), |j: int| ov).push(ov));
                    assert(Seq::new((i + 1) as nat, |j: int| self.char_overlay(line_idx, all, si as int, j))
                        =~= Seq::new(i as nat, |j: int| self.char_overlay(line_idx, all, si as int, j)).push(ov));
                    if !cut && i > 0 {
                        assert(prev_ov == ov);
                    }
                    assert(mid_ovs + Seq::new(seg@.len(), |j: int| run_ov) =~= Seq::new(
                        (i + 1) as nat,
                        |j: int| self.char_overlay(line_idx, all, si as int, j),
                    ));
                    assert((prefix + chars@.take(i + 1)).drop_last() =~= prefix + chars@.take(i as int));
                    assert((prefix + chars@.take(i + 1)).last() == ch);
                }
                col = col + w;
                i = i + 1;
            }
            let ghost before = out@;
            let ghost last_seg = seg@;
            match seg_ov {
                Some(o) => {
                    let p = Piece { span: si, text: seg, overlay: o };
                    proof {
                        lemma_pieces_push(out@, p);
                        lemma_push_well_cut(out@, p);
                    }
                    out.push(p);
                    proof {
                        assert(piece_texts(out@, si as int) =~= piece_texts(before, si as int) + last_seg);
                        assert(piece_overlays(out@, si as int) =~= piece_overlays(before, si as int) + Seq::new(
                            last_seg.len(),
                            |j: int| o,
                        ));
                    }
                },
                None => {},
            }
            proof {
                assert(chars@.take(chars@.len() as int) =~= chars@);
                assert forall|t: int| 0 <= t < si + 1 implies #[trigger] piece_texts(out@, t) == all[t]@ by {
                    if t < si {
                        assert(piece_texts(out@, t) =~= piece_texts(before, t));
                    } else if seg_ov is None {
                        assert(piece_texts(out@, t) =~= Seq::<char>::empty());
                    }
                }
                assert forall|t: int| 0 <= t < si + 1 implies #[trigger] piece_overlays(out@, t) == Seq::new(
                    all[t]@.len(),
                    |j: int| self.char_overlay(line_idx, all, t, j),
                ) by {
                    if t < si {
                        assert(piece_overlays(out@, t) =~= piece_overlays(before, t));
                    } else {
                        assert(piece_overlays(out@, t) =~= Seq::new(
                            all[t]@.len(),
                            |j: int| self.char_overlay(line_idx, all, t, j),
                        ));
                    }
                }
                assert forall|t: int| t >= si + 1 implies #[trigger] piece_texts(out@, t) == Seq::<char>::empty() by {
                    assert(piece_texts(out@, t) =~= piece_texts(before, t));
                }
                assert forall|t: int| t >= si + 1 implies #[trigger] piece_overlays(out@, t) == Seq::<Overlay>::empty() by {
                    assert(piece_overlays(out@, t) =~= piece_overlays(before, t));
                }
                assert(prefix + chars@ == spans_text(all.take(si + 1)));
            }
            si = si + 1;
        }
        assert(all.take(all.len() as int) =~= all);
        out
    }
}

} // verus!
