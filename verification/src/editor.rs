//! The text buffer: an ordered sequence of paragraphs with a per-line
//! layout cache, position-addressed edits, caret movement, and two-level
//! dirty tracking (a document flag plus a per-line `shaped` flag).
//!
//! Every operation's contract is stated against the sequence-of-byte-
//! sequences model in `model`: the buffer's observable text is `texts()`
//! and each edit computes exactly the model function of the same name.

use vstd::prelude::*;
use crate::font::Font;
use crate::geom::{IPoint, Rect, MAX_COORD};
use crate::model::{
    find_fwd, insert_lines, insert_pos, lemma_move_wf, lemma_normalize_wf, lines_sized,
    move_left_at, move_right_at, normalize, pos_wf, remove_lines, total_len, MAX_LINES, MAX_TEXT,
};
use crate::position::{Movement, PosRange, TextPosition};
use crate::text::{
    bytes_append, bytes_sub, count_nl, lemma_split_lines_len, lemma_split_lines_piece_len,
    lemma_split_lines_wf, no_nl, split_lines, split_newlines,
};
use crate::utf8::{is_boundary, is_utf8, snap_to_boundary};

verus! {

/// Bound every stored cursor rectangle obeys, loose enough for any
/// coordinate the layout can produce and tight enough that shifting a
/// rectangle by a line origin stays in `i64`.
pub const RECT_BOUND: i64 = 0x2000_0000_0000_0000;

/// One paragraph: its text plus the layout cache the shaping step fills.
pub struct TextLine {
    /// Raw UTF-8 text of the paragraph; never contains a hard newline.
    pub text: Vec<u8>,
    /// One rectangle per byte offset plus a trailing caret slot;
    /// filled when `shaped`.
    pub cursor_pos: Vec<Rect>,
    /// Ascending wrap-point byte offsets; empty when the line fits one row.
    pub line_end_offsets: Vec<usize>,
    /// One flag per byte offset, true at UTF-8 code-point boundaries.
    pub word_boundaries: Vec<bool>,
    /// Top-left pixel of the line within the document.
    pub origin: IPoint,
    /// Vertical extent in pixels.
    pub height: i64,
    /// False whenever text, width or font changed since the last shape.
    pub shaped: bool,
}

impl TextLine {
    /// Structural soundness of one line and its cache.
    pub open spec fn wf(self) -> bool {
        &&& is_utf8(self.text@)
        &&& no_nl(self.text@)
        &&& self.text@.len() <= MAX_TEXT
        &&& self.origin.x == 0
        &&& 0 <= self.origin.y
        &&& 0 <= self.height <= crate::geom::MAX_METRIC
        &&& self.shaped ==> {
            &&& 1 <= self.height
            &&& self.cursor_pos@.len() == self.text@.len() + 1
            &&& self.word_boundaries@.len() == self.text@.len()
            &&& forall|i: int|
                0 <= i < self.cursor_pos@.len() ==> rect_stored_ok(#[trigger] self.cursor_pos@[i])
            &&& forall|a: int, b: int|
                0 <= a < b < self.line_end_offsets@.len() ==> #[trigger] self.line_end_offsets@[a]
                    < #[trigger] self.line_end_offsets@[b]
            &&& forall|i: int|
                0 <= i < self.line_end_offsets@.len() ==> #[trigger] self.line_end_offsets@[i]
                    <= self.text@.len()
        }
    }

    /// A fresh, unshaped line holding `text`.
    pub fn new(text: Vec<u8>) -> (r: TextLine)
        ensures
            r.text == text,
            !r.shaped,
            r.cursor_pos@.len() == 0,
            r.line_end_offsets@.len() == 0,
            r.word_boundaries@.len() == 0,
            r.origin == (IPoint { x: 0, y: 0 }),
            r.height == 0,
    {
        TextLine {
            text,
            cursor_pos: Vec::new(),
            line_end_offsets: Vec::new(),
            word_boundaries: Vec::new(),
            origin: IPoint { x: 0, y: 0 },
            height: 0,
            shaped: false,
        }
    }
}

/// A stored cursor rectangle is either the unset sentinel or bounded.
pub open spec fn rect_stored_ok(r: Rect) -> bool {
    ||| r == crate::geom::spec_unset_rect()
    ||| {
        &&& -RECT_BOUND <= r.left <= RECT_BOUND
        &&& -RECT_BOUND <= r.top <= RECT_BOUND
        &&& -RECT_BOUND <= r.right <= RECT_BOUND
        &&& -RECT_BOUND <= r.bottom <= RECT_BOUND
    }
}

/// The buffer: the paragraphs, the layout inputs (width, font, font
/// provider handle), the derived document height, and the document-level
/// reshape flag.
pub struct Editor {
    pub(crate) lines: Vec<TextLine>,
    pub(crate) width: i64,
    pub(crate) height: i64,
    pub(crate) font: Font,
    pub(crate) font_mgr: u64,
    pub(crate) needs_reshape: bool,
}

impl Editor {
    /// The stored lines, as the contracts see them.
    pub closed spec fn lines_view(&self) -> Seq<TextLine> {
        self.lines@
    }

    /// The representation equations below let the crate's other modules
    /// reason about the buffer's closed views.
    pub(crate) broadcast proof fn repr_lines_view(e: Editor)
        ensures
            #[trigger] e.lines_view() == e.lines@,
    {
    }

    pub(crate) broadcast proof fn repr_width(e: Editor)
        ensures
            #[trigger] e.spec_width() == e.width,
    {
    }

    pub(crate) broadcast proof fn repr_height(e: Editor)
        ensures
            #[trigger] e.spec_height() == e.height,
    {
    }

    pub(crate) broadcast proof fn repr_font(e: Editor)
        ensures
            #[trigger] e.spec_font() == e.font,
    {
    }

    pub(crate) broadcast proof fn repr_font_mgr(e: Editor)
        ensures
            #[trigger] e.spec_font_mgr() == e.font_mgr,
    {
    }

    pub(crate) broadcast proof fn repr_needs_reshape(e: Editor)
        ensures
            #[trigger] e.spec_needs_reshape() == e.needs_reshape,
    {
    }

    /// The document's observable text: one byte sequence per paragraph.
    pub open spec fn texts(&self) -> Seq<Seq<u8>> {
        self.lines_view().map(|i: int, l: TextLine| l.text@)
    }

    pub closed spec fn spec_width(&self) -> i64 {
        self.width
    }

    pub closed spec fn spec_height(&self) -> i64 {
        self.height
    }

    pub closed spec fn spec_font(&self) -> Font {
        self.font
    }

    pub closed spec fn spec_font_mgr(&self) -> u64 {
        self.font_mgr
    }

    pub closed spec fn spec_needs_reshape(&self) -> bool {
        self.needs_reshape
    }

    /// Vertical origin of line `j` when heights are stacked top to bottom.
    pub open spec fn stack_y(lines: Seq<TextLine>, j: int) -> int
        decreases j,
    {
        if j <= 0 {
            0
        } else {
            Self::stack_y(lines, j - 1) + lines[j - 1].height
        }
    }

    /// The laid-out state geometry queries rely on: every line shaped, its
    /// origin the stack of the heights above it, the document height the
    /// total.
    pub open spec fn laid_out(&self) -> bool {
        &&& forall|j: int| 0 <= j < self.lines_view().len() ==> (#[trigger] self.lines_view()[j]).shaped
        &&& forall|j: int|
            0 <= j < self.lines_view().len() ==> (#[trigger] self.lines_view()[j]).origin == (IPoint {
                x: 0,
                y: Self::stack_y(self.lines_view(), j) as i64,
            })
        &&& self.spec_height() == Self::stack_y(self.lines_view(), self.lines_view().len() as int)
    }

    /// No line's cache is current.
    pub open spec fn all_unshaped(&self) -> bool {
        forall|k: int|
            0 <= k < self.lines_view().len() ==> !(#[trigger] self.lines_view()[k]).shaped
    }

    /// The buffer invariant: well-formed lines of bounded total size,
    /// bounded width, a well-formed font, and — whenever no reshape is
    /// pending — a fully laid-out cache.
    pub open spec fn wf(&self) -> bool {
        &&& forall|k: int| 0 <= k < self.lines_view().len() ==> (#[trigger] self.lines_view()[k]).wf()
        &&& self.lines_view().len() <= MAX_LINES
        &&& total_len(self.texts()) <= MAX_TEXT
        &&& -MAX_COORD <= self.spec_width() <= MAX_COORD
        &&& self.spec_font().wf()
        &&& !self.spec_needs_reshape() ==> self.laid_out()
    }

    /// An empty buffer with the built-in font at its default size, zero
    /// width, and nothing to reshape.
    pub fn new() -> (r: Editor)
        ensures
            r.wf(),
            r.texts().len() == 0,
            r.spec_width() == 0,
            r.spec_height() == 0,
            !r.spec_needs_reshape(),
            r.spec_font() == Font::spec_with_size(17),
    {
        Editor {
            lines: Vec::new(),
            width: 0,
            height: 0,
            font: Font::with_size(17),
            font_mgr: 0,
            needs_reshape: false,
        }
    }

    pub fn get_height(&self) -> (r: i64)
        ensures
            r == self.spec_height(),
    {
        self.height
    }

    pub fn line_count(&self) -> (r: usize)
        ensures
            r == self.texts().len(),
    {
        self.lines.len()
    }

    /// The text of line `i`, if it exists.
    pub fn line(&self, i: usize) -> (r: Option<&Vec<u8>>)
        ensures
            i < self.texts().len() ==> r is Some && r.unwrap()@ == self.texts()[i as int],
            i >= self.texts().len() ==> r is None,
    {
        if i < self.lines.len() {
            Some(&self.lines[i].text)
        } else {
            None
        }
    }

    /// The stored lines themselves, cache included.
    pub fn text(&self) -> (r: &Vec<TextLine>)
        ensures
            r@ == self.lines_view(),
    {
        &self.lines
    }

    pub fn line_height(&self, index: usize) -> (r: i64)
        requires
            index < self.lines_view().len(),
        ensures
            r == self.lines_view()[index as int].height,
    {
        self.lines[index].height
    }

    pub fn font(&self) -> (r: &Font)
        ensures
            *r == self.spec_font(),
    {
        &self.font
    }

    /// Mark line `i` stale: its cache no longer matches its inputs.
    fn mark_dirty(&mut self, i: usize)
        requires
            i < old(self).lines_view().len(),
        ensures
            final(self).lines_view() == old(self).lines_view().update(
                i as int,
                final(self).lines_view()[i as int],
            ),
            final(self).lines_view()[i as int] == (TextLine {
                shaped: false,
                word_boundaries: final(self).lines_view()[i as int].word_boundaries,
                ..old(self).lines_view()[i as int]
            }),
            final(self).lines_view()[i as int].word_boundaries@.len() == 0,
            final(self).width == old(self).width,
            final(self).height == old(self).height,
            final(self).font == old(self).font,
            final(self).font_mgr == old(self).font_mgr,
            final(self).needs_reshape == old(self).needs_reshape,
    {
        let line = &mut self.lines[i];
        line.shaped = false;
        line.word_boundaries = Vec::new();
    }

    /// Set the wrap width; a changed width invalidates every line and
    /// schedules a document-wide reshape.
    pub fn set_width(&mut self, w: i64)
        requires
            old(self).wf(),
            -MAX_COORD <= w <= MAX_COORD,
        ensures
            final(self).wf(),
            final(self).spec_width() == w,
            final(self).texts() == old(self).texts(),
            w == old(self).spec_width() ==> *final(self) == *old(self),
            w != old(self).spec_width() ==> final(self).spec_needs_reshape() && final(self).all_unshaped(),
            final(self).spec_font() == old(self).spec_font(),
            final(self).spec_height() == old(self).spec_height(),
    {
        if self.width != w {
            self.width = w;
            self.needs_reshape = true;
            self.mark_all_dirty();
        }
    }

    /// Set the font; a changed font invalidates every line.
    pub fn set_font(&mut self, font: Font)
        requires
            old(self).wf(),
            font.wf(),
        ensures
            final(self).wf(),
            final(self).spec_font() == font,
            final(self).texts() == old(self).texts(),
            font == old(self).spec_font() ==> *final(self) == *old(self),
            font != old(self).spec_font() ==> final(self).spec_needs_reshape() && final(self).all_unshaped(),
            final(self).spec_width() == old(self).spec_width(),
    {
        if !(self.font == font) {
            self.font = font;
            self.needs_reshape = true;
            self.mark_all_dirty();
        }
    }

    /// Set the font-provider handle; always invalidates every line.
    pub fn set_font_mgr(&mut self, font_mgr: u64)
        requires
            old(self).wf(),
        ensures
            final(self).wf(),
            final(self).spec_font_mgr() == font_mgr,
            final(self).texts() == old(self).texts(),
            final(self).spec_needs_reshape(),
            final(self).all_unshaped(),
            final(self).spec_width() == old(self).spec_width(),
            final(self).spec_font() == old(self).spec_font(),
    {
        self.font_mgr = font_mgr;
        self.needs_reshape = true;
        self.mark_all_dirty();
    }

    /// Invalidate the cache of every line.
    fn mark_all_dirty(&mut self)
        ensures
            final(self).lines_view().len() == old(self).lines_view().len(),
            forall|k: int|
                0 <= k < final(self).lines_view().len() ==> #[trigger] final(self).lines_view()[k]
                    == (TextLine {
                    shaped: false,
                    word_boundaries: final(self).lines_view()[k].word_boundaries,
                    ..old(self).lines_view()[k]
                }),
            forall|k: int|
                0 <= k < final(self).lines_view().len() ==> (#[trigger] final(self).lines_view()[k]).word_boundaries@.len() == 0,
            final(self).texts() == old(self).texts(),
            final(self).width == old(self).width,
            final(self).height == old(self).height,
            final(self).font == old(self).font,
            final(self).font_mgr == old(self).font_mgr,
            final(self).needs_reshape == old(self).needs_reshape,
    {
        let n = self.lines.len();
        let mut i: usize = 0;
        while i < n
            invariant
                n == self.lines@.len(),
                i <= n,
                self.lines@.len() == old(self).lines@.len(),
                forall|k: int|
                    0 <= k < i ==> #[trigger] self.lines@[k] == (TextLine {
                        shaped: false,
                        word_boundaries: self.lines@[k].word_boundaries,
                        ..old(self).lines@[k]
                    }),
                forall|k: int| 0 <= k < i ==> (#[trigger] self.lines@[k]).word_boundaries@.len() == 0,
                forall|k: int| i <= k < n ==> #[trigger] self.lines@[k] == old(self).lines@[k],
                self.width == old(self).width,
                self.height == old(self).height,
                self.font == old(self).font,
                self.font_mgr == old(self).font_mgr,
                self.needs_reshape == old(self).needs_reshape,
            decreases n - i,
        {
            let line = &mut self.lines[i];
            line.shaped = false;
            line.word_boundaries = Vec::new();
            i = i + 1;
        }
        proof {
            assert(final(self).texts() =~= old(self).texts());
        }
    }

    /// Caret movement.  The position is first normalized (paragraph
    /// clamped, byte snapped down to a boundary), then the movement is
    /// applied; the result is exactly the model's `move` function and is
    /// always a valid position.  Only `Nowhere`, `Left` and `Right` are
    /// defined; the remaining movement kinds are excluded here rather than
    /// silently treated as no-ops.
    pub fn mov(&self, mov: Movement, pos: TextPosition) -> (r: TextPosition)
        requires
            self.wf(),
            mov == Movement::Nowhere || mov == Movement::Left || mov == Movement::Right,
        ensures
            r == crate::model::move_spec(self.texts(), mov, pos),
            pos_wf(self.texts(), r),
    {
        let ghost ls = self.texts();
        proof {
            assert(lines_sized(ls));
            lemma_normalize_wf(ls, pos);
        }
        if self.lines.len() == 0 {
            return TextPosition::new(0, 0);
        }
        let mut p = pos;
        if p.paragraph_index >= self.lines.len() {
            p.paragraph_index = self.lines.len() - 1;
            p.text_byte_index = self.lines[p.paragraph_index].text.len();
        } else {
            p.text_byte_index = snap_to_boundary(
                &self.lines[p.paragraph_index].text,
                p.text_byte_index,
            );
        }
        proof {
            assert(p == normalize(ls, pos));
            lemma_move_wf(ls, p);
        }
        match mov {
            Movement::Left => {
                if p.text_byte_index == 0 {
                    if p.paragraph_index > 0 {
                        p.paragraph_index = p.paragraph_index - 1;
                        p.text_byte_index = self.lines[p.paragraph_index].text.len();
                    }
                } else {
                    p.text_byte_index = snap_to_boundary(
                        &self.lines[p.paragraph_index].text,
                        p.text_byte_index - 1,
                    );
                }
                proof {
                    assert(p == move_left_at(ls, normalize(ls, pos)));
                }
                p
            },
            Movement::Right => {
                match self.scan_right(p) {
                    Some(j) => {
                        p.text_byte_index = j;
                    },
                    None => {
                        if p.paragraph_index + 1 < self.lines.len() {
                            p.paragraph_index = p.paragraph_index + 1;
                            p.text_byte_index = 0;
                        }
                    },
                }
                proof {
                    assert(p == move_right_at(ls, normalize(ls, pos)));
                }
                p
            },
            _ => p,
        }
    }

    /// Bounded forward boundary scan within the line of a normalized
    /// position: the next boundary lies at most four bytes ahead.
    fn scan_right(&self, p: TextPosition) -> (r: Option<usize>)
        requires
            self.wf(),
            self.lines_view().len() > 0,
            pos_wf(self.texts(), p),
        ensures
            ({
                let f = find_fwd(
                    self.texts()[p.paragraph_index as int],
                    p.text_byte_index as int,
                    1,
                );
                match r {
                    Some(j) => f == Some(j as int),
                    None => f is None,
                }
            }),
    {
        let text = &self.lines[p.paragraph_index].text;
        let ghost s = text@;
        let i = p.text_byte_index;
        proof {
            assert(s.len() <= MAX_TEXT);
            reveal_with_fuel(find_fwd, 6);
        }
        if i + 1 <= text.len() && crate::utf8::is_char_boundary(text, i + 1) {
            Some(i + 1)
        } else if i + 2 <= text.len() && crate::utf8::is_char_boundary(text, i + 2) {
            Some(i + 2)
        } else if i + 3 <= text.len() && crate::utf8::is_char_boundary(text, i + 3) {
            Some(i + 3)
        } else if i + 4 <= text.len() && crate::utf8::is_char_boundary(text, i + 4) {
            Some(i + 4)
        } else {
            proof {
                assert(find_fwd(s, i as int, 5) is None);
            }
            None
        }
    }

    /// Insert `text` at `pos`.  Empty text is a no-op returning `pos`
    /// unchanged.  Otherwise the position is normalized, the text is split
    /// on hard newlines, the pieces are spliced in (a pure in-place splice
    /// when the text has no newline), and the position immediately after
    /// the inserted text is returned — a position that never splits a
    /// multi-byte code point.
    pub fn insert(&mut self, pos: TextPosition, text: &Vec<u8>) -> (r: TextPosition)
        requires
            old(self).wf(),
            is_utf8(text@),
            text@.len() == 0 || (total_len(old(self).texts()) + text@.len() <= MAX_TEXT && old(self).texts().len() + count_nl(text@) < MAX_LINES),
        ensures
            final(self).wf(),
            text@.len() == 0 ==> *final(self) == *old(self) && r == pos,
            text@.len() > 0 ==> ({
                let ls = old(self).texts();
                let np = normalize(ls, pos);
                let parts = split_lines(text@);
                &&& final(self).texts() == insert_lines(ls, np, parts)
                &&& r == insert_pos(ls, np, parts)
                &&& pos_wf(final(self).texts(), r)
                &&& !final(self).lines_view()[np.paragraph_index as int].shaped
                &&& forall|k: int|
                    0 <= k < np.paragraph_index ==> final(self).lines_view()[k] == old(self).lines_view()[k]
                &&& forall|k: int|
                    np.paragraph_index + parts.len() <= k < final(self).lines_view().len()
                        ==> final(self).lines_view()[k] == old(self).lines_view()[k - (parts.len()
                        - 1)]
                &&& (ls.len() > 0 ==> final(self).lines_view()[np.paragraph_index as int] == (
                TextLine {
                    text: final(self).lines_view()[np.paragraph_index as int].text,
                    shaped: false,
                    word_boundaries: final(self).lines_view()[np.paragraph_index as int].word_boundaries,
                    ..old(self).lines_view()[np.paragraph_index as int]
                }))
                &&& forall|k: int|
                    np.paragraph_index < k < np.paragraph_index + parts.len() ==> !(
                    #[trigger] final(self).lines_view()[k]).shaped && final(self).lines_view()[k].origin == (IPoint { x: 0, y: 0 }) && final(self).lines_view()[k].height == 0
                &&& (ls.len() == 0 ==> final(self).all_unshaped())
                &&& final(self).spec_needs_reshape()
                &&& final(self).spec_width() == old(self).spec_width()
                &&& final(self).spec_font() == old(self).spec_font()
                &&& final(self).spec_font_mgr() == old(self).spec_font_mgr()
            }),
    {
        if text.len() == 0 {
            return pos;
        }
        let ghost ls = self.texts();
        let ghost sp = split_lines(text@);
        proof {
            lemma_split_lines_wf(text@);
            lemma_split_lines_piece_len(text@);
            lemma_split_lines_len(text@);
            lemma_normalize_wf(ls, pos);
            crate::model::lemma_total_len_nonneg(ls);
            crate::model::lemma_split_total(text@);
        }
        self.needs_reshape = true;
        let p = self.mov(Movement::Nowhere, pos);
        proof {
            assert(p == normalize(ls, pos));
        }
        let mut parts = split_newlines(text);
        if self.lines.len() == 0 {
            proof {
                assert(parts@.map_values(|v: Vec<u8>| v@) =~= sp);
            }
            let r = self.insert_append(parts);
            proof {
                crate::model::lemma_insert_wf(ls, p, sp);
                assert(final(self).texts() =~= insert_lines(ls, p, sp));
            }
            r
        } else {
            let first = parts.remove(0);
            proof {
                assert(first@ == sp[0]);
                assert(ls[p.paragraph_index as int].len() <= total_len(ls));
                assert(sp[0].len() <= text@.len());
                assert(sp.last().len() <= text@.len());
            }
            if parts.len() == 0 {
                self.insert_single(p, first, Ghost(ls), Ghost(sp))
            } else {
                self.insert_multi(p, first, parts, Ghost(ls), Ghost(sp))
            }
        }
    }

    /// Append-at-end case of `insert`: the document is empty and each part
    /// becomes a brand-new trailing paragraph.
    fn insert_append(&mut self, parts: Vec<Vec<u8>>) -> (r: TextPosition)
        requires
            old(self).wf(),
            old(self).texts().len() == 0,
            old(self).spec_needs_reshape(),
            1 <= parts@.len() <= MAX_LINES,
            forall|k: int|
                0 <= k < parts@.len() ==> is_utf8((#[trigger] parts@[k])@) && no_nl(parts@[k]@)
                    && parts@[k]@.len() <= MAX_TEXT,
            total_len(parts@.map_values(|v: Vec<u8>| v@)) <= MAX_TEXT,
        ensures
            final(self).wf(),
            final(self).texts() == parts@.map_values(|v: Vec<u8>| v@),
            final(self).all_unshaped(),
            forall|k: int|
                0 <= k < final(self).lines_view().len() ==> (#[trigger] final(self).lines_view()[k]).origin == (IPoint { x: 0, y: 0 }) && final(self).lines_view()[k].height == 0,
            r == (TextPosition {
                paragraph_index: (parts@.len() - 1) as usize,
                text_byte_index: parts@.last()@.len() as usize,
            }),
            pos_wf(final(self).texts(), r),
            final(self).spec_needs_reshape(),
            final(self).spec_width() == old(self).spec_width(),
            final(self).spec_font() == old(self).spec_font(),
            final(self).spec_font_mgr() == old(self).spec_font_mgr(),
            final(self).spec_height() == old(self).spec_height(),
    {
        let ghost sp = parts@.map_values(|v: Vec<u8>| v@);
        let ghost m = sp.len();
        proof {
            crate::model::lemma_total_len_nonneg(sp);
        }
        let mut parts = parts;
        let mut k: usize = 0;
        while parts.len() > 0
            invariant
                k + parts@.len() == m,
                m <= MAX_LINES,
                forall|idx: int| 0 <= idx < parts@.len() ==> #[trigger] parts@[idx]@ == sp[k + idx],
                forall|idx: int| 0 <= idx < m ==> is_utf8(#[trigger] sp[idx]) && no_nl(sp[idx])
                    && sp[idx].len() <= MAX_TEXT,
                self.lines@.len() == k,
                forall|j: int|
                    0 <= j < k ==> (#[trigger] self.lines@[j]).text@ == sp[j]
                        && !self.lines@[j].shaped && self.lines@[j].origin == (IPoint {
                        x: 0,
                        y: 0,
                    }) && self.lines@[j].height == 0,
                self.width == old(self).width,
                self.height == old(self).height,
                self.font == old(self).font,
                self.font_mgr == old(self).font_mgr,
                self.needs_reshape,
            decreases parts@.len(),
        {
            let piece = parts.remove(0);
            self.lines.push(TextLine::new(piece));
            k = k + 1;
        }
        let last_idx = self.lines.len() - 1;
        let rb = self.lines[last_idx].text.len();
        proof {
            assert(final(self).texts() =~= sp);
            assert(final(self).texts()[m - 1] == sp.last());
            assert(is_boundary(sp.last(), sp.last().len() as int));
            assert forall|j: int| 0 <= j < final(self).lines_view().len() implies (
            #[trigger] final(self).lines_view()[j]).wf() by {
                assert(final(self).lines_view()[j].text@ == sp[j]);
            }
        }
        TextPosition::new(rb, last_idx)
    }

    /// Fast path of `insert`: no newline in the text, a pure in-place
    /// splice into the target line.
    fn insert_single(
        &mut self,
        p: TextPosition,
        first: Vec<u8>,
        Ghost(ls): Ghost<Seq<Seq<u8>>>,
        Ghost(sp): Ghost<Seq<Seq<u8>>>,
    ) -> (r: TextPosition)
        requires
            old(self).wf(),
            old(self).texts() == ls,
            ls.len() > 0,
            old(self).spec_needs_reshape(),
            pos_wf(ls, p),
            sp.len() == 1,
            sp[0] == first@,
            is_utf8(first@),
            no_nl(first@),
            total_len(ls) + first@.len() <= MAX_TEXT,
            ls[p.paragraph_index as int].len() <= total_len(ls),
        ensures
            final(self).wf(),
            final(self).texts() == insert_lines(ls, p, sp),
            r == insert_pos(ls, p, sp),
            pos_wf(final(self).texts(), r),
            !final(self).lines_view()[p.paragraph_index as int].shaped,
            forall|k: int|
                0 <= k < old(self).lines_view().len() && k != p.paragraph_index ==> final(self).lines_view()[k] == old(self).lines_view()[k],
            final(self).lines_view()[p.paragraph_index as int] == (TextLine {
                text: final(self).lines_view()[p.paragraph_index as int].text,
                shaped: false,
                word_boundaries: final(self).lines_view()[p.paragraph_index as int].word_boundaries,
                ..old(self).lines_view()[p.paragraph_index as int]
            }),
            final(self).spec_needs_reshape(),
            final(self).spec_width() == old(self).spec_width(),
            final(self).spec_font() == old(self).spec_font(),
            final(self).spec_font_mgr() == old(self).spec_font_mgr(),
    {
        let pi = p.paragraph_index;
        let bi = p.text_byte_index;
        let ghost line0 = ls[pi as int];
        self.mark_dirty(pi);
        let mut nt = bytes_sub(&self.lines[pi].text, 0, bi);
        bytes_append(&mut nt, &first);
        let tail = bytes_sub(&self.lines[pi].text, bi, self.lines[pi].text.len());
        bytes_append(&mut nt, &tail);
        let rb = nt.len() - tail.len();
        let ghost nts = nt@;
        let line = &mut self.lines[pi];
        line.text = nt;
        proof {
            crate::model::lemma_insert_wf(ls, p, sp);
            assert(nts == line0.take(bi as int) + sp[0] + line0.skip(bi as int));
            assert(final(self).texts() =~= insert_lines(ls, p, sp));
            crate::model::lemma_total_len_update(ls, pi as int, nts);
            assert(rb == bi + sp[0].len());
            assert forall|j: int| 0 <= j < final(self).lines_view().len() implies (
            #[trigger] final(self).lines_view()[j]).wf() by {
                if j != pi {
                    assert(final(self).lines_view()[j] == old(self).lines_view()[j]);
                } else {
                    assert(final(self).texts()[j] == nts);
                }
            }
        }
        TextPosition::new(rb, pi)
    }

    /// Newline-spanning path of `insert`: the target line is split at the
    /// insertion point, interior parts are spliced in as new paragraphs,
    /// and the last part takes over the original tail.
    #[verifier::rlimit(100)]
    #[verifier::spinoff_prover]
    fn insert_multi(
        &mut self,
        p: TextPosition,
        first: Vec<u8>,
        parts: Vec<Vec<u8>>,
        Ghost(ls): Ghost<Seq<Seq<u8>>>,
        Ghost(sp): Ghost<Seq<Seq<u8>>>,
    ) -> (r: TextPosition)
        requires
            old(self).wf(),
            old(self).texts() == ls,
            ls.len() > 0,
            old(self).spec_needs_reshape(),
            pos_wf(ls, p),
            sp.len() == parts@.len() + 1,
            ls.len() + parts@.len() <= MAX_LINES,
            sp[0] == first@,
            forall|idx: int| 0 <= idx < parts@.len() ==> #[trigger] parts@[idx]@ == sp[idx + 1],
            forall|k: int| 0 <= k < sp.len() ==> is_utf8(#[trigger] sp[k]) && no_nl(sp[k]),
            parts@.len() >= 1,
            total_len(ls) + total_len(sp) <= MAX_TEXT,
            forall|k: int| 0 <= k < sp.len() ==> #[trigger] sp[k].len() <= MAX_TEXT,
            ls[p.paragraph_index as int].len() + sp[0].len() <= MAX_TEXT,
            ls[p.paragraph_index as int].len() + sp.last().len() <= MAX_TEXT,
        ensures
            final(self).wf(),
            final(self).texts() == insert_lines(ls, p, sp),
            r == insert_pos(ls, p, sp),
            pos_wf(final(self).texts(), r),
            forall|k: int|
                p.paragraph_index <= k < p.paragraph_index + sp.len() ==> !(#[trigger] final(self).lines_view()[k]).shaped,
            forall|k: int|
                0 <= k < p.paragraph_index ==> final(self).lines_view()[k] == old(self).lines_view()[k],
            forall|k: int|
                p.paragraph_index + sp.len() <= k < final(self).lines_view().len() ==> final(self).lines_view()[k] == old(self).lines_view()[k - (sp.len() - 1)],
            final(self).lines_view()[p.paragraph_index as int] == (TextLine {
                text: final(self).lines_view()[p.paragraph_index as int].text,
                shaped: false,
                word_boundaries: final(self).lines_view()[p.paragraph_index as int].word_boundaries,
                ..old(self).lines_view()[p.paragraph_index as int]
            }),
            forall|k: int|
                p.paragraph_index < k < p.paragraph_index + sp.len() ==> (#[trigger] final(self).lines_view()[k]).origin == (IPoint { x: 0, y: 0 }) && final(self).lines_view()[k].height == 0,
            final(self).spec_needs_reshape(),
            final(self).spec_width() == old(self).spec_width(),
            final(self).spec_font() == old(self).spec_font(),
            final(self).spec_font_mgr() == old(self).spec_font_mgr(),
    {
        let ghost m = sp.len();
        let pi = p.paragraph_index;
        let bi = p.text_byte_index;
        let ghost line0 = ls[pi as int];
        proof {
            crate::model::lemma_total_len_nonneg(sp);
            assert(sp[0].len() <= total_len(sp)) by {
                crate::model::lemma_total_len_nonneg(sp);
            }
        }
        self.mark_dirty(pi);
        let mut parts = parts;
        let tail = bytes_sub(&self.lines[pi].text, bi, self.lines[pi].text.len());
        let mut head = bytes_sub(&self.lines[pi].text, 0, bi);
        bytes_append(&mut head, &first);
        let ghost heads = head@;
        {
            let line = &mut self.lines[pi];
            line.text = head;
        }
        let ghost l0 = self.lines@;
        let mut k: usize = 1;
        while parts.len() > 1
            invariant
                1 <= k,
                k + parts@.len() == m,
                parts@.len() >= 1,
                m <= MAX_LINES,
                (pi as int) < l0.len() <= MAX_LINES,
                forall|idx: int| 0 <= idx < parts@.len() ==> #[trigger] parts@[idx]@ == sp[k + idx],
                forall|idx: int| 0 <= idx < m ==> is_utf8(#[trigger] sp[idx]) && no_nl(sp[idx])
                    && sp[idx].len() <= MAX_TEXT,
                self.lines@.len() == l0.len() + k - 1,
                forall|j: int| 0 <= j <= pi ==> #[trigger] self.lines@[j] == l0[j],
                forall|j: int|
                    pi < j < pi + k ==> (#[trigger] self.lines@[j]).text@ == sp[j - pi]
                        && !self.lines@[j].shaped && self.lines@[j].origin == (IPoint {
                        x: 0,
                        y: 0,
                    }) && self.lines@[j].height == 0,
                forall|j: int|
                    pi + k <= j < self.lines@.len() ==> #[trigger] self.lines@[j] == l0[j - (k - 1)],
                self.width == old(self).width,
                self.height == old(self).height,
                self.font == old(self).font,
                self.font_mgr == old(self).font_mgr,
                self.needs_reshape,
            decreases parts@.len(),
        {
            let piece = parts.remove(0);
            self.lines.insert(pi + k, TextLine::new(piece));
            k = k + 1;
        }
        let mut last = parts.remove(0);
        let rb = last.len();
        bytes_append(&mut last, &tail);
        let ghost lasts = last@;
        self.lines.insert(pi + k, TextLine::new(last));
        proof {
            assert(k == m - 1);
            crate::model::lemma_insert_wf(ls, p, sp);
            assert(heads == line0.take(bi as int) + sp[0]);
            assert(lasts == sp.last() + line0.skip(bi as int));
            assert(final(self).texts() =~= insert_lines(ls, p, sp));
            crate::model::lemma_insert_total(ls, p, sp);
            assert forall|j: int| 0 <= j < final(self).lines_view().len() implies (
            #[trigger] final(self).lines_view()[j]).wf() by {
                let r2 = insert_lines(ls, p, sp);
                assert(final(self).texts()[j] == r2[j]);
                if j < pi {
                    assert(final(self).lines_view()[j] == old(self).lines_view()[j]);
                } else if j == pi {
                    assert(final(self).texts()[j] == heads);
                } else if j < pi + k {
                    assert(final(self).texts()[j] == sp[j - pi]);
                } else if j == pi + k {
                    assert(final(self).texts()[j] == lasts);
                } else {
                    assert(final(self).lines_view()[j] == old(self).lines_view()[j - (m - 1)]);
                }
            }
            assert forall|kk: int| 0 <= kk < pi implies final(self).lines_view()[kk] == old(self).lines_view()[kk] by {
                assert(final(self).lines_view()[kk] == l0[kk]);
            }
            assert forall|kk: int|
                pi + m <= kk < final(self).lines_view().len() implies final(self).lines_view()[kk]
                == old(self).lines_view()[kk - (m - 1)] by {
                assert(final(self).lines_view()[kk] == l0[kk - (m - 1)]);
            }
            assert(final(self).lines_view()[pi as int] == l0[pi as int]);
            assert(final(self).lines_view()[pi as int] == (TextLine {
                text: final(self).lines_view()[pi as int].text,
                shaped: false,
                word_boundaries: final(self).lines_view()[pi as int].word_boundaries,
                ..old(self).lines_view()[pi as int]
            }));
        }
        TextPosition::new(rb, pi + k)
    }

    /// Remove the range `[start, end)` of `range`.  A no-op returning
    /// `start` when the range is empty or its start paragraph is out of
    /// bounds.  Within one paragraph the byte range is deleted in place;
    /// across paragraphs the tail paragraph merges into the head — the
    /// head keeps its prefix plus the tail's suffix from `end` on — and
    /// the paragraphs after the head through the tail are deleted.
    /// Always returns `start`.
    #[verifier::rlimit(100)]
    pub fn remove(&mut self, range: PosRange) -> (r: TextPosition)
        requires
            old(self).wf(),
            range.start == range.end || range.start.paragraph_index >= old(self).texts().len()
                || (range.start.spec_le(range.end) && pos_wf(old(self).texts(), range.start)
                && pos_wf(old(self).texts(), range.end)),
        ensures
            final(self).wf(),
            r == range.start,
            (range.start == range.end || range.start.paragraph_index >= old(self).texts().len())
                ==> *final(self) == *old(self),
            !(range.start == range.end || range.start.paragraph_index >= old(self).texts().len())
                ==> ({
                &&& final(self).texts() == remove_lines(old(self).texts(), range.start, range.end)
                &&& pos_wf(final(self).texts(), range.start)
                &&& !final(self).lines_view()[range.start.paragraph_index as int].shaped
                &&& forall|k: int|
                    0 <= k < range.start.paragraph_index ==> final(self).lines_view()[k] == old(self).lines_view()[k]
                &&& forall|k: int|
                    range.start.paragraph_index < k < final(self).lines_view().len() ==> final(self).lines_view()[k] == old(self).lines_view()[k + (range.end.paragraph_index
                        - range.start.paragraph_index)]
                &&& final(self).lines_view()[range.start.paragraph_index as int] == (TextLine {
                    text: final(self).lines_view()[range.start.paragraph_index as int].text,
                    shaped: false,
                    word_boundaries: final(self).lines_view()[range.start.paragraph_index as int].word_boundaries,
                    ..old(self).lines_view()[range.start.paragraph_index as int]
                })
                &&& final(self).spec_needs_reshape()
                &&& final(self).spec_width() == old(self).spec_width()
                &&& final(self).spec_font() == old(self).spec_font()
                &&& final(self).spec_font_mgr() == old(self).spec_font_mgr()
            }),
    {
        let start = range.start;
        let end = range.end;
        if (start.paragraph_index == end.paragraph_index && start.text_byte_index
            == end.text_byte_index) || start.paragraph_index >= self.lines.len() {
            return start;
        }
        let ghost ls = self.texts();
        proof {
            crate::model::lemma_total_len_nonneg(ls);
            crate::model::lemma_remove_wf(ls, start, end);
        }
        self.needs_reshape = true;
        let si = start.paragraph_index;
        let sb = start.text_byte_index;
        let ei = end.paragraph_index;
        let eb = end.text_byte_index;
        self.mark_dirty(si);
        if si == ei {
            let mut nt = bytes_sub(&self.lines[si].text, 0, sb);
            let suf = bytes_sub(&self.lines[si].text, eb, self.lines[si].text.len());
            bytes_append(&mut nt, &suf);
            let ghost nts = nt@;
            let line = &mut self.lines[si];
            line.text = nt;
            proof {
                assert(final(self).texts() =~= remove_lines(ls, start, end));
                crate::model::lemma_total_len_update(ls, si as int, nts);
                assert forall|j: int| 0 <= j < final(self).lines_view().len() implies (
                #[trigger] final(self).lines_view()[j]).wf() by {
                    if j != si {
                        assert(final(self).lines_view()[j] == old(self).lines_view()[j]);
                    } else {
                        assert(final(self).texts()[j] == nts);
                    }
                }
            }
        } else {
            let suf = bytes_sub(&self.lines[ei].text, eb, self.lines[ei].text.len());
            let mut nt = bytes_sub(&self.lines[si].text, 0, sb);
            bytes_append(&mut nt, &suf);
            let ghost nts = nt@;
            {
                let line = &mut self.lines[si];
                line.text = nt;
            }
            let ghost l0 = self.lines@;
            let ghost dd = ei - si;
            let mut d: usize = ei - si;
            while d > 0
                invariant
                    d <= dd,
                    (si as int) + 1 < l0.len(),
                    dd == ei - si,
                    (ei as int) < l0.len(),
                    self.lines@ =~= l0.take(si + 1) + l0.skip(si + 1 + (dd - d)),
                    self.width == old(self).width,
                    self.height == old(self).height,
                    self.font == old(self).font,
                    self.font_mgr == old(self).font_mgr,
                    self.needs_reshape,
                decreases d,
            {
                proof {
                    assert(self.lines@.len() == l0.len() - (dd - d));
                }
                self.lines.remove(si + 1);
                d = d - 1;
                proof {
                    assert(self.lines@ =~= l0.take(si + 1) + l0.skip(si + 1 + (dd - d)));
                }
            }
            proof {
                assert(self.lines@ =~= l0.take(si + 1) + l0.skip(ei + 1));
                assert(final(self).texts() =~= remove_lines(ls, start, end));
                lemma_remove_total(ls, start, end);
                assert forall|j: int| 0 <= j < final(self).lines_view().len() implies (
                #[trigger] final(self).lines_view()[j]).wf() by {
                    if j < si {
                        assert(final(self).lines_view()[j] == old(self).lines_view()[j]);
                    } else if j == si {
                        assert(final(self).texts()[j] == nts);
                        crate::model::lemma_total_len_nonneg(remove_lines(ls, start, end));
                        assert(nts.len() <= total_len(remove_lines(ls, start, end)));
                        assert(final(self).lines_view()[j].text@.len() <= MAX_TEXT);
                    } else {
                        assert(final(self).lines_view()[j] == old(self).lines_view()[j + (ei
                            - si)]);
                    }
                }
            }
        }
        start
    }

    /// Replace the entire document with one paragraph per input line,
    /// discarding prior content and marking the whole document dirty.
    /// The width, font and font provider are kept.
    pub fn load(&mut self, input: Vec<Vec<u8>>)
        requires
            old(self).wf(),
            forall|k: int|
                0 <= k < input@.len() ==> is_utf8((#[trigger] input@[k])@) && no_nl(input@[k]@),
            input@.len() <= MAX_LINES,
            total_len(input@.map_values(|v: Vec<u8>| v@)) <= MAX_TEXT,
        ensures
            final(self).wf(),
            final(self).texts() == input@.map_values(|v: Vec<u8>| v@),
            final(self).all_unshaped(),
            final(self).spec_needs_reshape(),
            final(self).spec_width() == old(self).spec_width(),
            final(self).spec_font() == old(self).spec_font(),
            final(self).spec_font_mgr() == old(self).spec_font_mgr(),
    {
        let ghost tin = input@.map_values(|v: Vec<u8>| v@);
        proof {
            crate::model::lemma_total_len_nonneg(tin);
        }
        self.needs_reshape = true;
        self.lines.clear();
        let mut input = input;
        let ghost n = tin.len();
        let mut k: usize = 0;
        while input.len() > 0
            invariant
                k + input@.len() == n,
                n <= MAX_LINES,
                forall|idx: int| 0 <= idx < input@.len() ==> #[trigger] input@[idx]@ == tin[
                    k + idx],
                forall|idx: int| 0 <= idx < n ==> is_utf8(#[trigger] tin[idx]) && no_nl(tin[idx])
                    && tin[idx].len() <= total_len(tin),
                total_len(tin) <= MAX_TEXT,
                self.lines@.len() == k,
                forall|j: int|
                    0 <= j < k ==> (#[trigger] self.lines@[j]).text@ == tin[j]
                        && !self.lines@[j].shaped && self.lines@[j].origin == (IPoint {
                        x: 0,
                        y: 0,
                    }) && self.lines@[j].height == 0,
                self.width == old(self).width,
                self.height == old(self).height,
                self.font == old(self).font,
                self.font_mgr == old(self).font_mgr,
                self.needs_reshape,
            decreases input@.len(),
        {
            let piece = input.remove(0);
            self.lines.push(TextLine::new(piece));
            k = k + 1;
        }
        proof {
            assert(final(self).texts() =~= tin);
            assert forall|j: int| 0 <= j < final(self).lines_view().len() implies (
            #[trigger] final(self).lines_view()[j]).wf() by {
                assert(final(self).lines_view()[j].text@ == tin[j]);
            }
        }
    }
}

/// Merging the tail into the head never grows the document.
proof fn lemma_remove_total(ls: Seq<Seq<u8>>, start: TextPosition, end: TextPosition)
    requires
        start.paragraph_index < end.paragraph_index < ls.len(),
        start.text_byte_index <= ls[start.paragraph_index as int].len(),
        end.text_byte_index <= ls[end.paragraph_index as int].len(),
    ensures
        total_len(remove_lines(ls, start, end)) <= total_len(ls),
{
    let si = start.paragraph_index as int;
    let sb = start.text_byte_index as int;
    let ei = end.paragraph_index as int;
    let eb = end.text_byte_index as int;
    let merged = ls[si].take(sb) + ls[ei].skip(eb);
    let r = remove_lines(ls, start, end);
    assert(r =~= ls.take(si) + (seq![merged] + ls.skip(ei + 1)));
    crate::model::lemma_total_len_concat(ls.take(si), seq![merged] + ls.skip(ei + 1));
    crate::model::lemma_total_len_concat(seq![merged], ls.skip(ei + 1));
    crate::model::lemma_total_len_singleton(merged);
    crate::model::lemma_total_len_split(ls, si);
    let dropped = ls.skip(si).take(ei + 1 - si);
    crate::model::lemma_total_len_split(ls.skip(si), ei + 1 - si);
    assert(ls.skip(si).skip(ei + 1 - si) =~= ls.skip(ei + 1));
    crate::model::lemma_total_len_nonneg(dropped);
    assert(dropped[0] == ls[si]);
    assert(dropped[ei - si] == ls[ei]);
    assert(total_len(dropped) >= ls[si].len() + ls[ei].len()) by {
        crate::model::lemma_total_len_split(dropped, 1);
        assert(dropped.take(1) =~= seq![ls[si]]);
        crate::model::lemma_total_len_singleton(ls[si]);
        let rest = dropped.skip(1);
        crate::model::lemma_total_len_split(rest, rest.len() - 1);
        assert(rest.skip(rest.len() - 1) =~= seq![ls[ei]]);
        crate::model::lemma_total_len_singleton(ls[ei]);
        crate::model::lemma_total_len_nonneg(rest.take(rest.len() - 1));
    }
}

} // verus!
