//! The lazy reshape pass and the geometry queries that depend on it:
//! hit-testing a pixel point to a position, the caret rectangle of a
//! position, and the paint projection.
//!
//! Every query begins by bringing the layout cache up to date
//! (`reshape_all`), so its answers are always read from a laid-out state.

use vstd::prelude::*;
use crate::editor::{Editor, TextLine};
use crate::geom::{unset_rect, IPoint, Rect, MAX_COORD};
use crate::layout::{layout_rows, shape};
use crate::model::{normalize, pos_wf, total_len, MAX_LINES, MAX_TEXT};
use crate::position::TextPosition;

verus! {

broadcast use
    Editor::repr_lines_view,
    Editor::repr_width,
    Editor::repr_height,
    Editor::repr_font,
    Editor::repr_font_mgr,
    Editor::repr_needs_reshape,
;

/// `stack_y` reads only the line heights.
proof fn lemma_stack_y_heights(a: Seq<TextLine>, b: Seq<TextLine>, j: int)
    requires
        a.len() == b.len(),
        forall|k: int| 0 <= k < a.len() ==> (#[trigger] a[k]).height == b[k].height,
        j <= a.len(),
    ensures
        Editor::stack_y(a, j) == Editor::stack_y(b, j),
    decreases j,
{
    if j > 0 {
        lemma_stack_y_heights(a, b, j - 1);
    }
}

/// Bound on the stacked origins: heights are at most `MAX_METRIC` each.
proof fn lemma_stack_y_bounds(a: Seq<TextLine>, j: int)
    requires
        0 <= j <= a.len(),
        forall|k: int| 0 <= k < a.len() ==> (#[trigger] a[k]).wf(),
    ensures
        0 <= Editor::stack_y(a, j) <= 0x1_0000 * j,
    decreases j,
{
    if j > 0 {
        lemma_stack_y_bounds(a, j - 1);
    }
}

impl Editor {
    /// Bring the whole layout cache up to date: if a reshape is pending,
    /// give an empty document its one empty line, shape every stale line
    /// with the current font and width, stack the line origins top to
    /// bottom, store the total height, and clear the reshape flag.  When
    /// nothing is pending this is a no-op.
    #[verifier::rlimit(100)]
    pub fn reshape_all(&mut self)
        requires
            old(self).wf(),
        ensures
            final(self).wf(),
            !final(self).spec_needs_reshape(),
            final(self).laid_out(),
            !old(self).spec_needs_reshape() ==> *final(self) == *old(self),
            old(self).spec_needs_reshape() ==> final(self).texts() == (if old(self).texts().len() == 0 {
                seq![Seq::<u8>::empty()]
            } else {
                old(self).texts()
            }),
            forall|j: int|
                0 <= j < final(self).lines_view().len() ==> (#[trigger] final(self).lines_view()[j]).cursor_pos@.len() == final(self).texts()[j].len() + 1,
            forall|j: int|
                0 <= j < final(self).lines_view().len() && (j >= old(self).lines_view().len()
                    || !old(self).lines_view()[j].shaped) ==> (#[trigger] final(self).lines_view()[j]).height == final(self).spec_font().spacing,
            forall|j: int, b: int|
                #![trigger final(self).lines_view()[j].word_boundaries@[b]]
                0 <= j < final(self).lines_view().len() && (j >= old(self).lines_view().len()
                    || !old(self).lines_view()[j].shaped) && 0 <= b < final(self).lines_view()[j].word_boundaries@.len() ==> final(self).lines_view()[j].word_boundaries@[b] == crate::utf8::is_boundary(
                    final(self).texts()[j],
                    b,
                ),
            forall|j: int, b: int|
                #![trigger final(self).lines_view()[j].cursor_pos@[b]]
                0 <= j < final(self).lines_view().len() && (j >= old(self).lines_view().len()
                    || !old(self).lines_view()[j].shaped) && 0 <= b < final(self).texts()[j].len() ==> (final(self).lines_view()[j].cursor_pos@[b]
                    == crate::geom::spec_unset_rect() <==> !crate::utf8::is_boundary(
                    final(self).texts()[j],
                    b,
                )),
            final(self).spec_width() == old(self).spec_width(),
            final(self).spec_font() == old(self).spec_font(),
            final(self).spec_font_mgr() == old(self).spec_font_mgr(),
    {
        if !self.needs_reshape {
            proof {
                assert(self.laid_out());
                assert forall|j: int| 0 <= j < self.lines_view().len() implies (#[trigger] self
                    .lines_view()[j]).cursor_pos@.len() == self.texts()[j].len() + 1 by {
                    assert(self.lines_view()[j].wf());
                }
            }
            return ;
        }
        if self.lines.len() == 0 {
            self.lines.push(TextLine::new(Vec::new()));
            proof {
                assert(self.texts() =~= seq![Seq::<u8>::empty()]);
                assert(total_len(self.texts()) == 0) by {
                    assert(self.texts()[0].len() == 0);
                    assert(self.texts().drop_first() =~= Seq::<Seq<u8>>::empty());
                    assert(total_len(Seq::<Seq<u8>>::empty()) == 0);
                }
            }
        }
        let ghost t0 = self.texts();
        let ghost lstart = self.lines@;
        let n = self.lines.len();
        let mut i: usize = 0;
        while i < n
            invariant
                n == self.lines@.len() == lstart.len(),
                i <= n,
                self.texts() == t0,
                n <= MAX_LINES,
                total_len(self.texts()) <= MAX_TEXT,
                -MAX_COORD <= self.width <= MAX_COORD,
                self.font.wf(),
                forall|k: int| 0 <= k < n ==> (#[trigger] self.lines@[k]).wf(),
                forall|k: int| 0 <= k < i ==> (#[trigger] self.lines@[k]).shaped,
                forall|k: int| i <= k < n ==> #[trigger] self.lines@[k] == lstart[k],
                forall|k: int|
                    0 <= k < i && !lstart[k].shaped ==> (#[trigger] self.lines@[k]).height
                        == self.font.spacing,
                forall|k: int, b: int|
                    #![trigger self.lines@[k].word_boundaries@[b]]
                    0 <= k < i && !lstart[k].shaped && 0 <= b
                        < self.lines@[k].word_boundaries@.len() ==> self.lines@[
                    k].word_boundaries@[b] == crate::utf8::is_boundary(self.texts()[k], b),
                forall|k: int, b: int|
                    #![trigger self.lines@[k].cursor_pos@[b]]
                    0 <= k < i && !lstart[k].shaped && 0 <= b < self.texts()[k].len() ==> (
                    self.lines@[k].cursor_pos@[b] == crate::geom::spec_unset_rect()
                        <==> !crate::utf8::is_boundary(self.texts()[k], b)),
                forall|k: int|
                    0 <= k < i && lstart[k].shaped ==> #[trigger] self.lines@[k] == lstart[k],
                self.width == old(self).width,
                self.font == old(self).font,
                self.font_mgr == old(self).font_mgr,
                self.height == old(self).height,
                self.needs_reshape,
            decreases n - i,
        {
            if !self.lines[i].shaped {
                let rows = layout_rows(&self.lines[i].text, &self.font, self.width);
                let res = shape(&self.lines[i].text, &rows, &self.font);
                let line = &mut self.lines[i];
                line.cursor_pos = res.glyph_bounds;
                line.line_end_offsets = res.line_break_offsets;
                line.word_boundaries = res.word_breaks;
                line.height = res.vertical_advance;
                line.shaped = true;
                proof {
                    assert(self.texts() =~= t0);
                    let tx = self.lines@[i as int].text@;
                    crate::layout::lemma_cover_slots(rows@, tx, res.glyph_bounds@);
                    assert(crate::editor::rect_stored_ok(self.lines@[i as int].cursor_pos@[0]))
                        by {
                        assert(res.glyph_bounds@[0] == crate::geom::spec_unset_rect()
                            || crate::shape::rect_shape_ok(res.glyph_bounds@[0]));
                    }
                    assert forall|q: int|
                        0 <= q < self.lines@[i as int].cursor_pos@.len() implies
                        crate::editor::rect_stored_ok(
                        #[trigger] self.lines@[i as int].cursor_pos@[q],
                    ) by {
                        assert(res.glyph_bounds@[q] == crate::geom::spec_unset_rect()
                            || crate::shape::rect_shape_ok(res.glyph_bounds@[q]));
                    }
                    assert(self.lines@[i as int].wf());
                }
            }
            i = i + 1;
        }
        let ghost lshaped = self.lines@;
        let mut y: i64 = 0;
        let mut i: usize = 0;
        while i < n
            invariant
                n == self.lines@.len(),
                i <= n,
                n <= MAX_LINES,
                self.texts() == t0,
                total_len(self.texts()) <= MAX_TEXT,
                -MAX_COORD <= self.width <= MAX_COORD,
                self.font.wf(),
                lshaped.len() == n,
                forall|k: int| 0 <= k < n ==> (#[trigger] self.lines@[k]).height == lshaped[k].height,
                forall|k: int|
                    0 <= k < n ==> (#[trigger] self.lines@[k]).word_boundaries
                        == lshaped[k].word_boundaries,
                forall|k: int|
                    0 <= k < n ==> (#[trigger] self.lines@[k]).cursor_pos == lshaped[k].cursor_pos,
                forall|k: int| 0 <= k < n ==> (#[trigger] self.lines@[k]).wf(),
                forall|k: int| 0 <= k < n ==> (#[trigger] self.lines@[k]).shaped,
                forall|k: int|
                    0 <= k < i ==> (#[trigger] self.lines@[k]).origin == (IPoint {
                        x: 0,
                        y: Editor::stack_y(self.lines@, k) as i64,
                    }),
                y == Editor::stack_y(self.lines@, i as int),
                0 <= y <= 0x1_0000 * (i as int),
                self.width == old(self).width,
                self.font == old(self).font,
                self.font_mgr == old(self).font_mgr,
                self.needs_reshape,
            decreases n - i,
        {
            let ghost before = self.lines@;
            let line = &mut self.lines[i];
            line.origin = IPoint { x: 0, y };
            let h = line.height;
            proof {
                lemma_stack_y_heights(before, self.lines@, i as int);
                lemma_stack_y_heights(before, self.lines@, i + 1);
                assert forall|k: int|
                    0 <= k < i implies (#[trigger] self.lines@[k]).origin == (IPoint {
                    x: 0,
                    y: Editor::stack_y(self.lines@, k) as i64,
                }) by {
                    lemma_stack_y_heights(before, self.lines@, k);
                }
                assert(self.texts() =~= t0);
            }
            y = y + h;
            i = i + 1;
        }
        self.height = y;
        self.needs_reshape = false;
        proof {
            assert(final(self).laid_out());
            assert forall|j: int| 0 <= j < final(self).lines_view().len() implies (#[trigger] final(self).lines_view()[j]).cursor_pos@.len() == final(self).texts()[j].len() + 1 by {
                assert(final(self).lines_view()[j].wf());
            }
        }
    }
}

/// The first set cursor slot of `cp` containing `pt`, scanning from `i`.
pub open spec fn first_hit(cp: Seq<Rect>, pt: IPoint, i: int) -> Option<int>
    decreases cp.len() - i,
{
    if i < 0 || i >= cp.len() {
        None
    } else if cp[i] != crate::geom::spec_unset_rect() && cp[i].spec_contains(pt) {
        Some(i)
    } else {
        first_hit(cp, pt, i + 1)
    }
}

/// Whether `xy` lies in line `j`'s vertical band: the strip of the wrap
/// width running from the line's origin down to the next line's origin
/// (or without bound for the last line).
pub open spec fn band_contains(width: i64, lines: Seq<TextLine>, j: int, xy: IPoint) -> bool {
    let top = lines[j].origin.y as int;
    let bottom: int = if j + 1 < lines.len() {
        lines[j + 1].origin.y as int
    } else {
        i64::MAX as int
    };
    0 <= xy.x < width && top <= xy.y < bottom
}

/// The hit-test search from line `j` on: the first line whose band holds
/// the point answers, with the first matching cursor slot, or with the
/// approximate line-start / line-end fallback.
pub open spec fn hit_from(width: i64, lines: Seq<TextLine>, xy: IPoint, j: int) -> Option<
    TextPosition,
>
    decreases lines.len() - j,
{
    if j < 0 || j >= lines.len() {
        None
    } else if band_contains(width, lines, j, xy) {
        let pt = IPoint { x: (xy.x - lines[j].origin.x) as i64, y: (xy.y - lines[j].origin.y) as i64 };
        match first_hit(lines[j].cursor_pos@, pt, 0) {
            Some(i) => Some(TextPosition { paragraph_index: j as usize, text_byte_index: i as usize }),
            None => Some(
                TextPosition {
                    paragraph_index: j as usize,
                    text_byte_index: if xy.x <= lines[j].origin.x {
                        0
                    } else {
                        lines[j].text@.len() as usize
                    },
                },
            ),
        }
    } else {
        hit_from(width, lines, xy, j + 1)
    }
}

impl Editor {
    /// Hit-test a pixel point: reshape, then find the line whose vertical
    /// band holds the point and within it the first cursor rectangle
    /// containing the point; with no exact rectangle the result
    /// approximates to the start or end of that line.  `None` only when no
    /// band holds the point (above the document, or outside the width).
    pub fn get_position(&mut self, xy: IPoint) -> (r: Option<TextPosition>)
        requires
            old(self).wf(),
            -MAX_COORD <= xy.x <= MAX_COORD,
            -MAX_COORD <= xy.y <= MAX_COORD,
        ensures
            final(self).wf(),
            !final(self).spec_needs_reshape(),
            !old(self).spec_needs_reshape() ==> *final(self) == *old(self),
            !old(self).spec_needs_reshape() ==> final(self).texts() == old(self).texts(),
            old(self).spec_needs_reshape() ==> final(self).texts() == (if old(self).texts().len() == 0 {
                seq![Seq::<u8>::empty()]
            } else {
                old(self).texts()
            }),
            r == hit_from(
                final(self).spec_width(),
                final(self).lines_view(),
                xy,
                0,
            ),
            r is Some ==> r.unwrap().paragraph_index < final(self).texts().len()
                && r.unwrap().text_byte_index <= final(self).texts()[
                r.unwrap().paragraph_index as int].len(),
    {
        self.reshape_all();
        let ghost post = *self;
        let n = self.lines.len();
        let mut j: usize = 0;
        while j < n
            invariant
                n == self.lines@.len(),
                j <= n,
                self.wf(),
                !self.spec_needs_reshape(),
                *self == post,
                !old(self).spec_needs_reshape() ==> *self == *old(self),
                !old(self).spec_needs_reshape() ==> self.texts() == old(self).texts(),
                old(self).spec_needs_reshape() ==> self.texts() == (if old(self).texts().len()
                    == 0 {
                    seq![Seq::<u8>::empty()]
                } else {
                    old(self).texts()
                }),
                hit_from(self.spec_width(), self.lines@, xy, 0) == hit_from(
                    self.spec_width(),
                    self.lines@,
                    xy,
                    j as int,
                ),
                -MAX_COORD <= xy.x <= MAX_COORD,
                -MAX_COORD <= xy.y <= MAX_COORD,
            decreases n - j,
        {
            let top = self.lines[j].origin.y;
            let bottom = if j + 1 < n {
                self.lines[j + 1].origin.y
            } else {
                i64::MAX
            };
            if 0 <= xy.x && xy.x < self.width && top <= xy.y && xy.y < bottom {
                proof {
                    assert(band_contains(self.spec_width(), self.lines@, j as int, xy));
                    assert(self.lines@[j as int].wf());
                }
                let line = &self.lines[j];
                let pt = IPoint { x: xy.x - line.origin.x, y: xy.y - line.origin.y };
                let ghost cp = line.cursor_pos@;
                let m = line.cursor_pos.len();
                let mut i: usize = 0;
                while i < m
                    invariant
                        m == cp.len(),
                        i <= m,
                        *self == post,
                        self.wf(),
                        !self.spec_needs_reshape(),
                        !old(self).spec_needs_reshape() ==> *self == *old(self),
                !old(self).spec_needs_reshape() ==> self.texts() == old(self).texts(),
                old(self).spec_needs_reshape() ==> self.texts() == (if old(self).texts().len()
                    == 0 {
                    seq![Seq::<u8>::empty()]
                } else {
                    old(self).texts()
                }),
                        n == self.lines@.len(),
                        (j as int) < n,
                        *line == self.lines@[j as int],
                        self.lines@[j as int].wf(),
                        cp == self.lines@[j as int].cursor_pos@,
                        band_contains(self.spec_width(), self.lines@, j as int, xy),
                        pt == (IPoint {
                            x: (xy.x - self.lines@[j as int].origin.x) as i64,
                            y: (xy.y - self.lines@[j as int].origin.y) as i64,
                        }),
                        hit_from(self.spec_width(), self.lines@, xy, 0) == hit_from(
                            self.spec_width(),
                            self.lines@,
                            xy,
                            j as int,
                        ),
                        first_hit(cp, pt, 0) == first_hit(cp, pt, i as int),
                    decreases m - i,
                {
                    let c = line.cursor_pos[i];
                    let u = unset_rect();
                    if !(c == u) && c.contains(pt) {
                        proof {
                            assert(first_hit(cp, pt, i as int) == Some(i as int));
                            assert(hit_from(self.spec_width(), self.lines@, xy, j as int)
                                == Some(
                                TextPosition {
                                    paragraph_index: j,
                                    text_byte_index: i,
                                },
                            ));
                        }
                        return Some(TextPosition::new(i, j));
                    }
                    i = i + 1;
                }
                let byte = if xy.x <= line.origin.x {
                    0
                } else {
                    line.text.len()
                };
                proof {
                    assert(first_hit(cp, pt, 0) is None);
                    assert(hit_from(self.spec_width(), self.lines@, xy, j as int) == Some(
                        TextPosition { paragraph_index: j, text_byte_index: byte },
                    ));
                }
                return Some(TextPosition::new(byte, j));
            }
            j = j + 1;
        }
        None
    }

    /// The caret rectangle for `cursor`: reshape, normalize the position,
    /// and narrow its cursor slot to a two-pixel-wide caret at the slot's
    /// left edge, shifted to document coordinates by the line origin.
    /// After the reshape every in-range index has a cache entry, so the
    /// only document without a caret rectangle is the fresh empty one
    /// (nothing pending, no lines).
    pub fn get_location(&mut self, cursor: TextPosition) -> (r: Option<Rect>)
        requires
            old(self).wf(),
        ensures
            final(self).wf(),
            !final(self).spec_needs_reshape(),
            !old(self).spec_needs_reshape() ==> *final(self) == *old(self),
            !old(self).spec_needs_reshape() ==> final(self).texts() == old(self).texts(),
            old(self).spec_needs_reshape() ==> final(self).texts() == (if old(self).texts().len()
                == 0 {
                seq![Seq::<u8>::empty()]
            } else {
                old(self).texts()
            }),
            ({
                let ls = final(self).texts();
                let lv = final(self).lines_view();
                if ls.len() == 0 {
                    r is None
                } else {
                    let c = normalize(ls, cursor);
                    let line = lv[c.paragraph_index as int];
                    let b = line.cursor_pos@[c.text_byte_index as int];
                    r == Some(
                        Rect {
                            left: (b.left - 1 + line.origin.x) as i64,
                            top: (b.top + line.origin.y) as i64,
                            right: (b.left + 1 + line.origin.x) as i64,
                            bottom: (b.bottom + line.origin.y) as i64,
                        },
                    )
                }
            }),
    {
        self.reshape_all();
        if self.lines.len() == 0 {
            return None;
        }
        let ghost ls = self.texts();
        proof {
            assert(crate::model::lines_sized(ls)) by {
                crate::model::lemma_total_len_nonneg(ls);
                assert forall|k: int| 0 <= k < ls.len() implies #[trigger] ls[k].len()
                    <= MAX_TEXT by {
                    assert(self.lines_view()[k].wf());
                }
            }
            crate::model::lemma_normalize_wf(ls, cursor);
        }
        let c = self.mov(crate::position::Movement::Nowhere, cursor);
        proof {
            assert(c == normalize(ls, cursor));
            assert(self.lines_view()[c.paragraph_index as int].wf());
        }
        let line = &self.lines[c.paragraph_index];
        let b = line.cursor_pos[c.text_byte_index];
        proof {
            assert(crate::editor::rect_stored_ok(b));
            assert(0 <= line.origin.y <= 0x1_0000 * (self.lines@.len() as int)) by {
                assert(self.laid_out());
                lemma_stack_y_bounds(self.lines@, c.paragraph_index as int);
            }
        }
        Some(
            Rect {
                left: b.left - 1 + line.origin.x,
                top: b.top + line.origin.y,
                right: b.left + 1 + line.origin.x,
                bottom: b.bottom + line.origin.y,
            },
        )
    }
}

/// One drawing primitive of the paint projection, in issue order.
#[derive(Clone, Copy, Debug, PartialEq, Eq, Structural)]
pub enum PaintOp {
    /// Fill the whole surface with a color.
    Background { color: u32 },
    /// Fill a rectangle, in document coordinates.
    Fill { rect: Rect, color: u32 },
    /// Draw line `line`'s glyph run at its origin.
    GlyphRun { line: usize, origin: IPoint, color: u32 },
}

/// What to paint: the colors (ARGB words), an optional selection given as
/// the mark and the caret, and an optional caret position.
pub struct PaintOpts {
    pub background_color: u32,
    pub foreground_color: u32,
    pub selection_color: u32,
    pub cursor_color: u32,
    pub selection: Option<(TextPosition, TextPosition)>,
    pub cursor: Option<TextPosition>,
}

impl Default for PaintOpts {
    /// White background, black text, a light blue selection, a red caret,
    /// no selection and no caret.
    fn default() -> (r: PaintOpts)
        ensures
            r.background_color == 0xFFFFFFFFu32,
            r.foreground_color == 0xFF000000u32,
            r.selection_color == 0xFFBAD3FCu32,
            r.cursor_color == 0xFFFF0000u32,
            r.selection is None,
            r.cursor is None,
    {
        PaintOpts {
            background_color: 0xFFFFFFFF,
            foreground_color: 0xFF000000,
            selection_color: 0xFFBAD3FC,
            cursor_color: 0xFFFF0000,
            selection: None,
            cursor: None,
        }
    }
}

/// The caret rectangle of a (normalized) position in a laid-out state:
/// its cursor slot narrowed to a two-pixel bar at the slot's left edge,
/// shifted by the line origin.
pub open spec fn spec_caret_rect(lv: Seq<TextLine>, ls: Seq<Seq<u8>>, cursor: TextPosition) -> Rect {
    let c = normalize(ls, cursor);
    let line = lv[c.paragraph_index as int];
    let b = line.cursor_pos@[c.text_byte_index as int];
    Rect {
        left: (b.left - 1 + line.origin.x) as i64,
        top: (b.top + line.origin.y) as i64,
        right: (b.left + 1 + line.origin.x) as i64,
        bottom: (b.bottom + line.origin.y) as i64,
    }
}

/// The fills of the selection walk: one per position from `p` up to
/// `end`, stepping right, each the position's cursor slot shifted by its
/// line origin.
pub open spec fn sel_walk(
    lv: Seq<TextLine>,
    ls: Seq<Seq<u8>>,
    p: TextPosition,
    end: TextPosition,
    color: u32,
) -> Seq<PaintOp>
    decreases crate::laws::pos_rank(ls, end) - crate::laws::pos_rank(ls, p)
        when crate::model::lines_wf(ls) && crate::model::lines_sized(ls) && ls.len() > 0 && pos_wf(
            ls,
            p,
        ) && pos_wf(ls, end)
        via sel_walk_decreases
{
    if p.spec_lt(end) {
        seq![
            PaintOp::Fill {
                rect: lv[p.paragraph_index as int].cursor_pos@[
                p.text_byte_index as int].spec_with_offset(lv[p.paragraph_index as int].origin),
                color,
            },
        ] + sel_walk(lv, ls, crate::model::move_right_at(ls, p), end, color)
    } else {
        Seq::empty()
    }
}

#[via_fn]
proof fn sel_walk_decreases(
    lv: Seq<TextLine>,
    ls: Seq<Seq<u8>>,
    p: TextPosition,
    end: TextPosition,
    color: u32,
) {
    if p.spec_lt(end) {
        assert(p != crate::laws::doc_end(ls)) by {
            if p == crate::laws::doc_end(ls) {
                assert(end.text_byte_index <= ls[end.paragraph_index as int].len());
            }
        }
        crate::laws::lemma_move_right_advances(ls, p);
        let r = crate::model::move_right_at(ls, p);
        crate::laws::lemma_rank_order(ls, p, r);
        crate::laws::lemma_rank_order(ls, p, end);
        assert(pos_wf(ls, end));
        assert(r.spec_le(end));
        if r.spec_lt(end) {
            crate::laws::lemma_rank_order(ls, r, end);
        }
    }
}

impl Editor {
    /// Append one selection fill per position from the lesser of the two
    /// ends to the greater, walking right.
    fn paint_selection(
        &self,
        ops: &mut Vec<PaintOp>,
        mark: TextPosition,
        current: TextPosition,
        color: u32,
    )
        requires
            self.wf(),
            !self.spec_needs_reshape(),
            self.texts().len() > 0,
            pos_wf(self.texts(), mark),
            pos_wf(self.texts(), current),
        ensures
            final(ops)@ == old(ops)@ + sel_walk(
                self.lines_view(),
                self.texts(),
                TextPosition::spec_range_start(mark, current),
                TextPosition::spec_range_end(mark, current),
                color,
            ),
    {
        let ghost ls = self.texts();
        let ghost lv = self.lines_view();
        let ghost n0 = old(ops)@.len() as int;
        proof {
            assert(crate::model::lines_sized(ls)) by {
                crate::model::lemma_total_len_nonneg(ls);
                assert forall|k: int| 0 <= k < ls.len() implies #[trigger] ls[k].len()
                    <= MAX_TEXT by {
                    assert(self.lines_view()[k].wf());
                }
            }
            assert(crate::model::lines_wf(ls)) by {
                assert forall|k: int|
                    0 <= k < ls.len() implies crate::utf8::is_utf8(#[trigger] ls[k])
                    && crate::text::no_nl(ls[k]) by {
                    assert(self.lines_view()[k].wf());
                }
            }
        }
        let range = TextPosition::range(mark, current);
        let mut pos = range.start;
        let ghost end = range.end;
        proof {
            assert(ops@.skip(n0) =~= Seq::<PaintOp>::empty());
        }
        while pos.lt(&range.end)
            invariant
                self.wf(),
                !self.spec_needs_reshape(),
                self.texts() == ls,
                self.lines_view() == lv,
                ls.len() > 0,
                crate::model::lines_wf(ls),
                crate::model::lines_sized(ls),
                end == range.end,
                pos_wf(ls, pos),
                pos_wf(ls, end),
                range.start.spec_le(pos),
                pos.spec_le(end),
                n0 == old(ops)@.len(),
                ops@.len() >= n0,
                ops@.subrange(0, n0) == old(ops)@,
                sel_walk(lv, ls, range.start, end, color) == ops@.skip(n0) + sel_walk(
                    lv,
                    ls,
                    pos,
                    end,
                    color,
                ),
            decreases crate::laws::pos_rank(ls, end) - crate::laws::pos_rank(ls, pos),
        {
            proof {
                assert(self.lines_view()[pos.paragraph_index as int].wf());
                assert(self.laid_out());
                lemma_stack_y_bounds(self.lines_view(), pos.paragraph_index as int);
                assert(crate::editor::rect_stored_ok(
                    self.lines_view()[pos.paragraph_index as int].cursor_pos@[
                    pos.text_byte_index as int],
                ));
            }
            let line = &self.lines[pos.paragraph_index];
            let r = line.cursor_pos[pos.text_byte_index];
            let shifted = r.with_offset(line.origin);
            let ghost ops0 = ops@;
            ops.push(PaintOp::Fill { rect: shifted, color });
            let ghost prev = pos;
            pos = self.mov(crate::position::Movement::Right, pos);
            proof {
                crate::model::lemma_normalize_of_valid(ls, prev);
                assert(pos == crate::model::move_right_at(ls, prev));
                assert(prev != crate::laws::doc_end(ls)) by {
                    if prev == crate::laws::doc_end(ls) {
                        assert(prev.spec_lt(end));
                        assert(end.text_byte_index <= ls[end.paragraph_index as int].len());
                    }
                }
                crate::laws::lemma_move_right_advances(ls, prev);
                assert(pos.spec_le(end)) by {
                    assert(prev.spec_lt(end));
                }
                crate::laws::lemma_rank_order(ls, prev, pos);
                if pos.spec_lt(end) {
                    crate::laws::lemma_rank_order(ls, pos, end);
                }
                let op = PaintOp::Fill { rect: shifted, color };
                assert(sel_walk(lv, ls, prev, end, color) == seq![op] + sel_walk(
                    lv,
                    ls,
                    pos,
                    end,
                    color,
                ));
                assert(ops@.skip(n0) =~= ops0.skip(n0) + seq![op]);
                assert(ops@.subrange(0, n0) =~= ops0.subrange(0, n0));
                assert(ops0.skip(n0) + (seq![op] + sel_walk(lv, ls, pos, end, color)) =~= (
                ops0.skip(n0) + seq![op]) + sel_walk(lv, ls, pos, end, color));
            }
        }
        proof {
            assert(sel_walk(lv, ls, pos, end, color) =~= Seq::<PaintOp>::empty());
            assert(sel_walk(lv, ls, range.start, end, color) =~= ops@.skip(n0));
            assert(final(ops)@ =~= old(ops)@ + ops@.skip(n0));
        }
    }

    /// Append one glyph-run op per line, in order, at the stacked origins.
    fn paint_runs(&self, ops: &mut Vec<PaintOp>, color: u32)
        requires
            self.wf(),
        ensures
            final(ops)@ == old(ops)@ + Seq::new(
                self.lines_view().len(),
                |k: int|
                    PaintOp::GlyphRun {
                        line: k as usize,
                        origin: self.lines_view()[k].origin,
                        color,
                    },
            ),
    {
        let ghost n0 = old(ops)@.len() as int;
        let n = self.lines.len();
        let mut j: usize = 0;
        while j < n
            invariant
                n == self.lines@.len(),
                j <= n,
                n0 == old(ops)@.len(),
                ops@.len() == n0 + j,
                ops@.subrange(0, n0) == old(ops)@,
                forall|k: int|
                    0 <= k < j ==> ops@[n0 + k] == (PaintOp::GlyphRun {
                        line: k as usize,
                        origin: self.lines@[k].origin,
                        color,
                    }),
            decreases n - j,
        {
            let line = &self.lines[j];
            ops.push(
                PaintOp::GlyphRun { line: j, origin: line.origin, color },
            );
            proof {
                assert(ops@.subrange(0, n0) =~= old(ops)@);
            }
            j = j + 1;
        }
        proof {
            assert(final(ops)@ =~= old(ops)@ + Seq::new(
                self.lines_view().len(),
                |k: int|
                    PaintOp::GlyphRun {
                        line: k as usize,
                        origin: self.lines_view()[k].origin,
                        color,
                    },
            ));
        }
    }

    /// The paint projection: a full-surface background fill; the cursor
    /// rectangle of every selected position, walked by repeated rightward
    /// movement from the lesser selection end to the greater; the caret
    /// (a two-pixel bar at its position) if one is given; then every
    /// line's glyph run at its stacked origin.  The cache is brought up to
    /// date first, and the op list is pinned exactly: background, the
    /// selection walk, the caret, the runs.
    #[verifier::rlimit(100)]
    #[verifier::spinoff_prover]
    pub fn paint(&mut self, options: PaintOpts) -> (ops: Vec<PaintOp>)
        requires
            old(self).wf(),
            options.selection matches Some(sel) ==> pos_wf(old(self).texts(), sel.0) && pos_wf(
                old(self).texts(),
                sel.1,
            ),
        ensures
            final(self).wf(),
            !final(self).spec_needs_reshape(),
            !old(self).spec_needs_reshape() ==> final(self).texts() == old(self).texts(),
            old(self).spec_needs_reshape() ==> final(self).texts() == (if old(self).texts().len()
                == 0 {
                seq![Seq::<u8>::empty()]
            } else {
                old(self).texts()
            }),
            ops@.len() >= 1,
            ops@[0] == (PaintOp::Background { color: options.background_color }),
            final(self).texts().len() == 0 ==> ops@.len() == 1,
            ops@ == seq![PaintOp::Background { color: options.background_color }] + (
            match options.selection {
                Some(sel) => if final(self).texts().len() == 0 {
                    Seq::<PaintOp>::empty()
                } else {
                    sel_walk(
                        final(self).lines_view(),
                        final(self).texts(),
                        TextPosition::spec_range_start(sel.0, sel.1),
                        TextPosition::spec_range_end(sel.0, sel.1),
                        options.selection_color,
                    )
                },
                None => Seq::<PaintOp>::empty(),
            }) + (match options.cursor {
                Some(c) => if final(self).texts().len() == 0 {
                    Seq::<PaintOp>::empty()
                } else {
                    seq![
                        PaintOp::Fill {
                            rect: spec_caret_rect(
                                final(self).lines_view(),
                                final(self).texts(),
                                c,
                            ),
                            color: options.cursor_color,
                        },
                    ]
                },
                None => Seq::<PaintOp>::empty(),
            }) + Seq::new(
                final(self).lines_view().len(),
                |k: int|
                    PaintOp::GlyphRun {
                        line: k as usize,
                        origin: final(self).lines_view()[k].origin,
                        color: options.foreground_color,
                    },
            ),
    {
        self.reshape_all();
        let ghost post = *self;
        let mut ops: Vec<PaintOp> = Vec::new();
        ops.push(PaintOp::Background { color: options.background_color });
        if self.lines.len() == 0 {
            proof {
                assert(ops@ =~= seq![
                    PaintOp::Background { color: options.background_color },
                ] + Seq::<PaintOp>::empty() + Seq::<PaintOp>::empty() + Seq::new(
                    0,
                    |k: int|
                        PaintOp::GlyphRun {
                            line: k as usize,
                            origin: final(self).lines_view()[k].origin,
                            color: options.foreground_color,
                        },
                ));
            }
            return ops;
        }
        let ghost ls = self.texts();
        let ghost lv = self.lines_view();
        if let Some((mark, current)) = options.selection {
            self.paint_selection(&mut ops, mark, current, options.selection_color);
        }
        let ghost sel_seq = ops@.skip(1);
        if let Some(cursor) = options.cursor {
            match self.get_location(cursor) {
                Some(rect) => {
                    proof {
                        assert(rect == spec_caret_rect(lv, ls, cursor));
                    }
                    ops.push(PaintOp::Fill { rect, color: options.cursor_color });
                },
                None => {},
            }
        }
        let ghost mid_ops = ops@;
        proof {
            assert(mid_ops =~= seq![PaintOp::Background { color: options.background_color }]
                + sel_seq + (match options.cursor {
                Some(c) => seq![
                    PaintOp::Fill {
                        rect: spec_caret_rect(lv, ls, c),
                        color: options.cursor_color,
                    },
                ],
                None => Seq::<PaintOp>::empty(),
            }));
        }
        self.paint_runs(&mut ops, options.foreground_color);
        proof {
            assert(sel_seq == (match options.selection {
                Some(sel) => sel_walk(
                    lv,
                    ls,
                    TextPosition::spec_range_start(sel.0, sel.1),
                    TextPosition::spec_range_end(sel.0, sel.1),
                    options.selection_color,
                ),
                None => Seq::<PaintOp>::empty(),
            }));
            assert(ops@ =~= seq![PaintOp::Background { color: options.background_color }] + (
            match options.selection {
                Some(sel) => sel_walk(
                    lv,
                    ls,
                    TextPosition::spec_range_start(sel.0, sel.1),
                    TextPosition::spec_range_end(sel.0, sel.1),
                    options.selection_color,
                ),
                None => Seq::<PaintOp>::empty(),
            }) + (match options.cursor {
                Some(c) => seq![
                    PaintOp::Fill {
                        rect: spec_caret_rect(lv, ls, c),
                        color: options.cursor_color,
                    },
                ],
                None => Seq::<PaintOp>::empty(),
            }) + Seq::new(
                lv.len(),
                |k: int|
                    PaintOp::GlyphRun {
                        line: k as usize,
                        origin: lv[k].origin,
                        color: options.foreground_color,
                    },
            ));
        }
        ops
    }
}

} // verus!
