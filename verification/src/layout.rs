//! Driving the shaping step over a whole line: folding the rows the
//! shaper produced into the line's cache data — metric maxima, the pen
//! walk, the committed wrap offsets and the trailing caret slot.

use vstd::prelude::*;
use crate::font::Font;
use crate::geom::{unset_rect, IPoint, Rect, MAX_COORD, MAX_METRIC};
use crate::model::MAX_TEXT;
use crate::shape::{
    cluster_slots_ok, clusters_grouped, is_cluster_end, lemma_chain_clusters, rect_shape_ok,
    rows_wf, run_chain, run_wf, set_character_bounds, spec_cluster_union, spec_selection_box,
    spec_tight_end, ShapeResult, ShapeRow, ShapeRun, MAX_RUNS, SHAPE_BOUND,
};
use crate::utf8::{is_boundary, is_utf8};

verus! {

/// Row metrics: the deepest ascent (most negative), descent and leading
/// over the first `n` runs, each starting from zero.
pub open spec fn fold_asc(runs: Seq<ShapeRun>, n: int) -> int
    decreases n,
{
    if n <= 0 {
        0
    } else {
        let p = fold_asc(runs, n - 1);
        if runs[n - 1].ascent < p {
            runs[n - 1].ascent as int
        } else {
            p
        }
    }
}

pub open spec fn fold_desc(runs: Seq<ShapeRun>, n: int) -> int
    decreases n,
{
    if n <= 0 {
        0
    } else {
        let p = fold_desc(runs, n - 1);
        if runs[n - 1].descent > p {
            runs[n - 1].descent as int
        } else {
            p
        }
    }
}

pub open spec fn fold_lead(runs: Seq<ShapeRun>, n: int) -> int
    decreases n,
{
    if n <= 0 {
        0
    } else {
        let p = fold_lead(runs, n - 1);
        if runs[n - 1].leading > p {
            runs[n - 1].leading as int
        } else {
            p
        }
    }
}

/// Sum of the first `n` runs' pen advances.
pub open spec fn fold_advx(runs: Seq<ShapeRun>, n: int) -> int
    decreases n,
{
    if n <= 0 {
        0
    } else {
        fold_advx(runs, n - 1) + runs[n - 1].advance.x
    }
}

pub open spec fn fold_advy(runs: Seq<ShapeRun>, n: int) -> int
    decreases n,
{
    if n <= 0 {
        0
    } else {
        fold_advy(runs, n - 1) + runs[n - 1].advance.y
    }
}

/// Text offset reached after the first `n` runs of a row, starting from
/// `t`: the running maximum of the runs' text ends.
pub open spec fn fold_end(runs: Seq<ShapeRun>, n: int, t: int) -> int
    decreases n,
{
    if n <= 0 {
        t
    } else {
        let p = fold_end(runs, n - 1, t);
        if runs[n - 1].utf8_end > p {
            runs[n - 1].utf8_end as int
        } else {
            p
        }
    }
}

/// Text offset reached after the first `i` rows.
pub open spec fn t_after(rows: Seq<ShapeRow>, i: int) -> int
    decreases i,
{
    if i <= 0 {
        0
    } else {
        fold_end(rows[i - 1].runs@, rows[i - 1].runs@.len() as int, t_after(rows, i - 1))
    }
}

/// The committed line-end offsets after the first `i` rows: each row
/// pushes the text offset it reached, but only when that is strictly
/// greater than the last committed offset, so the sequence is strictly
/// increasing and duplicate-free.
pub open spec fn raw_ends(rows: Seq<ShapeRow>, i: int) -> Seq<int>
    decreases i,
{
    if i <= 0 {
        Seq::empty()
    } else {
        let l = raw_ends(rows, i - 1);
        let t = t_after(rows, i);
        if l.len() == 0 || t > l.last() {
            l.push(t)
        } else {
            l
        }
    }
}

/// Vertical offset of the row after the first `i` rows: each row advances
/// by its descent + leading - ascent.
pub open spec fn offset_y_after(rows: Seq<ShapeRow>, i: int) -> int
    decreases i,
{
    if i <= 0 {
        0
    } else {
        let runs = rows[i - 1].runs@;
        offset_y_after(rows, i - 1) + fold_desc(runs, runs.len() as int) + fold_lead(
            runs,
            runs.len() as int,
        ) - fold_asc(runs, runs.len() as int)
    }
}

/// The pen position after the last row was committed.
pub open spec fn spec_pen_x(rows: Seq<ShapeRow>) -> int {
    if rows.len() == 0 {
        0
    } else {
        let lr = rows.last().runs@;
        fold_advx(lr, lr.len() as int)
    }
}

pub open spec fn spec_pen_y(rows: Seq<ShapeRow>) -> int {
    if rows.len() == 0 {
        0
    } else {
        let lr = rows.last().runs@;
        offset_y_after(rows, rows.len() - 1) - fold_asc(lr, lr.len() as int) + fold_advy(
            lr,
            lr.len() as int,
        )
    }
}

/// The synthesized trailing caret slot: at the final pen position, a
/// rectangle one font size wide.  With no ascent/descent band (an empty
/// line) it falls back to the font's own metrics.
pub open spec fn spec_final_caret(rows: Seq<ShapeRow>, font: Font) -> Rect {
    let px = spec_pen_x(rows);
    let py = spec_pen_y(rows);
    let asc = if rows.len() == 0 {
        0int
    } else {
        fold_asc(rows.last().runs@, rows.last().runs@.len() as int)
    };
    let desc = if rows.len() == 0 {
        0int
    } else {
        fold_desc(rows.last().runs@, rows.last().runs@.len() as int)
    };
    if asc == 0 || desc == 0 {
        Rect {
            left: px as i64,
            top: py as i64,
            right: (px + font.size) as i64,
            bottom: (py + font.descent - font.ascent) as i64,
        }
    } else {
        Rect {
            left: px as i64,
            top: (py + asc) as i64,
            right: (px + font.size) as i64,
            bottom: (py + desc) as i64,
        }
    }
}

/// The wrap-point offsets shaping reports: the committed line ends, minus
/// the final one (a line that fits in one row reports none).
pub open spec fn spec_line_breaks(rows: Seq<ShapeRow>) -> Seq<int> {
    let raw = raw_ends(rows, rows.len() as int);
    if raw.len() > 1 {
        raw.take(raw.len() - 1)
    } else {
        Seq::empty()
    }
}

/// Rows that cover the text: one run per row, each run's clusters walking
/// the code points of its span in order, each row starting where the one
/// before ended, the last ending at the text's end.  The rows any
/// character-by-character shaper produces — in particular `layout_rows` —
/// have this shape.
pub open spec fn rows_cover(rows: Seq<ShapeRow>, text: Seq<u8>) -> bool {
    &&& forall|i: int| 0 <= i < rows.len() ==> (#[trigger] rows[i]).runs@.len() == 1
    &&& forall|i: int|
        0 <= i < rows.len() ==> run_chain((#[trigger] rows[i]).runs@[0], text, row_start(rows, i))
    &&& rows.len() > 0 ==> rows.last().runs@[0].utf8_end == text.len()
    &&& rows.len() == 0 ==> text.len() == 0
}

/// Coverage advances: a row's text end never exceeds the start of any
/// later row.
proof fn lemma_cover_monotone(rows: Seq<ShapeRow>, text: Seq<u8>, i1: int, i2: int)
    requires
        is_utf8(text),
        rows_wf(rows, text),
        rows_cover(rows, text),
        0 <= i1 < i2 < rows.len(),
    ensures
        rows[i1].runs@[0].utf8_end <= row_start(rows, i2),
    decreases i2 - i1,
{
    if i2 == i1 + 1 {
    } else {
        lemma_cover_monotone(rows, text, i1, i2 - 1);
        let run = rows[i2 - 1].runs@[0];
        let cs = run.clusters@;
        assert(run_wf(run, text));
        crate::utf8::lemma_next_boundary(text, cs[cs.len() - 1] as int);
        if cs.len() > 1 {
            lemma_chain_clusters(run, text, row_start(rows, i2 - 1));
            assert(cs[0] < cs[cs.len() - 1]);
        }
    }
}

/// Every code-point start of a covered text is some run's cluster.
proof fn lemma_cover_hit(rows: Seq<ShapeRow>, text: Seq<u8>, b: int)
    requires
        is_utf8(text),
        rows_wf(rows, text),
        rows_cover(rows, text),
        is_boundary(text, b),
        0 <= b < text.len(),
    ensures
        exists|i: int, k: int|
            0 <= i < rows.len() && 0 <= k < rows[i].runs@[0].clusters@.len() && #[trigger] rows[
                i].runs@[0].clusters@[k] == b,
    decreases b,
{
    if b == 0 {
        assert(rows.len() > 0);
        assert(rows[0].runs@[0].clusters@[0] == 0);
    } else {
        let s = text;
        let bp = crate::utf8::snap_down(s, b - 1);
        crate::utf8::lemma_snap_down_props(s, b - 1);
        crate::utf8::lemma_snap_down_tight(s, b - 1);
        crate::utf8::lemma_next_boundary(s, bp);
        let n = crate::utf8::lead_len(s[bp]);
        assert(bp + n == b) by {
            if bp + n < b {
                assert(crate::utf8::is_cont(s[bp + n]));
                assert(is_boundary(s, bp + n));
            } else if bp + n > b {
                assert(crate::utf8::is_cont(s[b]));
            }
        }
        lemma_cover_hit(rows, text, bp);
        let (i, k): (int, int) = choose|i: int, k: int|
            0 <= i < rows.len() && 0 <= k < rows[i].runs@[0].clusters@.len() && #[trigger] rows[
                i].runs@[0].clusters@[k] == bp;
        let run = rows[i].runs@[0];
        let cs = run.clusters@;
        if k < cs.len() - 1 {
            assert(cs[k + 1] == b);
        } else {
            assert(run.utf8_end == b);
            assert(i < rows.len() - 1) by {
                if i == rows.len() - 1 {
                    assert(run.utf8_end == text.len());
                }
            }
            assert(row_start(rows, i + 1) == b);
            assert(rows[i + 1].runs@[0].clusters@[0] == b);
        }
    }
}

/// Bounds of the row folds, from the bounds of the runs.
proof fn lemma_fold_bounds(runs: Seq<ShapeRun>, n: int, text: Seq<u8>)
    requires
        0 <= n <= runs.len(),
        forall|j: int| 0 <= j < runs.len() ==> run_wf(#[trigger] runs[j], text),
    ensures
        -MAX_METRIC <= fold_asc(runs, n) <= 0,
        0 <= fold_desc(runs, n) <= MAX_METRIC,
        0 <= fold_lead(runs, n) <= MAX_METRIC,
        (-n) * 0x4_0000_0001_0000 <= fold_advx(runs, n) <= n * 0x4_0000_0001_0000,
        (-n) * 0x4_0000_0001_0000 <= fold_advy(runs, n) <= n * 0x4_0000_0001_0000,
    decreases n,
{
    if n > 0 {
        lemma_fold_bounds(runs, n - 1, text);
    }
}

/// The text offset only grows and stays within the text.
proof fn lemma_fold_end_bounds(runs: Seq<ShapeRun>, n: int, t: int, text: Seq<u8>)
    requires
        0 <= n <= runs.len(),
        forall|j: int| 0 <= j < runs.len() ==> run_wf(#[trigger] runs[j], text),
        0 <= t <= text.len(),
    ensures
        t <= fold_end(runs, n, t) <= text.len(),
    decreases n,
{
    if n > 0 {
        lemma_fold_end_bounds(runs, n - 1, t, text);
    }
}

/// The committed offset is at least every run's text end.
proof fn lemma_fold_end_ge(runs: Seq<ShapeRun>, n: int, t: int, j: int)
    requires
        0 <= j < n <= runs.len(),
    ensures
        fold_end(runs, n, t) >= runs[j].utf8_end,
    decreases n,
{
    if j < n - 1 {
        lemma_fold_end_ge(runs, n - 1, t, j);
    }
}

/// After shaping rows that cover the text, a cursor slot below the text
/// length is set exactly at the code-point boundaries: every code point's
/// start holds its glyph's selection box, everything else the sentinel.
pub proof fn lemma_cover_slots(rows: Seq<ShapeRow>, text: Seq<u8>, gb: Seq<Rect>)
    requires
        is_utf8(text),
        rows_wf(rows, text),
        rows_cover(rows, text),
        gb.len() == text.len() + 1,
        forall|i: int|
            0 <= i < text.len() ==> #[trigger] gb[i] == crate::geom::spec_unset_rect() || (
            rect_shape_ok(gb[i]) && is_boundary(text, i)),
        forall|i: int, k: int|
            #![trigger rows[i].runs@[0].clusters@[k]]
            0 <= i < rows.len() && 0 <= k < rows[i].runs@[0].clusters@.len() ==> gb[rows[
                i].runs@[0].clusters@[k] as int] == spec_selection_box(
                rows[i].runs@[0].ascent,
                rows[i].runs@[0].descent,
                rows[i].runs@[0].advances@[k],
                rows[i].runs@[0].positions@[k],
            ),
    ensures
        forall|b: int|
            0 <= b < text.len() ==> ((#[trigger] gb[b]) == crate::geom::spec_unset_rect()
                <==> !is_boundary(text, b)),
{
    assert forall|b: int| 0 <= b < text.len() && is_boundary(text, b) implies (#[trigger] gb[b])
        != crate::geom::spec_unset_rect() by {
        lemma_cover_hit(rows, text, b);
        let (i, k): (int, int) = choose|i: int, k: int|
            0 <= i < rows.len() && 0 <= k < rows[i].runs@[0].clusters@.len() && #[trigger] rows[
                i].runs@[0].clusters@[k] == b;
        let run = rows[i].runs@[0];
        assert(run_wf(run, text));
        assert(gb[b] == spec_selection_box(
            run.ascent,
            run.descent,
            run.advances@[k],
            run.positions@[k],
        ));
        assert(-MAX_COORD <= run.positions@[k].x <= MAX_COORD);
    }
}

/// One covered row's character-bounds call pins its clusters' slots to
/// their glyphs' selection boxes and leaves every earlier row's slots
/// alone: coverage advances, so the rows' writes never meet.
proof fn lemma_cover_claims(
    rows: Seq<ShapeRow>,
    text: Seq<u8>,
    ri: int,
    pre: Seq<Rect>,
    post: Seq<Rect>,
    run: ShapeRun,
)
    requires
        is_utf8(text),
        rows_wf(rows, text),
        rows_cover(rows, text),
        0 <= ri < rows.len(),
        run == rows[ri].runs@[0],
        pre.len() == post.len(),
        pre.len() == text.len(),
        forall|i: int|
            0 <= i < pre.len() && !crate::shape::in_cluster_span(
                run.clusters@,
                run.utf8_end as int,
                i,
            ) ==> post[i] == pre[i],
        clusters_grouped(run.clusters@) ==> (forall|g: int|
            #[trigger] is_cluster_end(run.clusters@, g) ==> cluster_slots_ok(
                post,
                pre,
                text,
                run,
                g,
            )),
        forall|i2: int, k: int|
            #![trigger rows[i2].runs@[0].clusters@[k]]
            0 <= i2 < ri && 0 <= k < rows[i2].runs@[0].clusters@.len() ==> pre[rows[
                i2].runs@[0].clusters@[k] as int] == spec_selection_box(
                rows[i2].runs@[0].ascent,
                rows[i2].runs@[0].descent,
                rows[i2].runs@[0].advances@[k],
                rows[i2].runs@[0].positions@[k],
            ),
    ensures
        forall|i2: int, k: int|
            #![trigger rows[i2].runs@[0].clusters@[k]]
            0 <= i2 <= ri && 0 <= k < rows[i2].runs@[0].clusters@.len() ==> post[rows[
                i2].runs@[0].clusters@[k] as int] == spec_selection_box(
                rows[i2].runs@[0].ascent,
                rows[i2].runs@[0].descent,
                rows[i2].runs@[0].advances@[k],
                rows[i2].runs@[0].positions@[k],
            ),
{
    let cs = run.clusters@;
    let e = run.utf8_end as int;
    assert(run_wf(run, text));
    lemma_chain_clusters(run, text, row_start(rows, ri));
    assert forall|k: int| 0 <= k < cs.len() implies post[cs[k] as int] == spec_selection_box(
        run.ascent,
        run.descent,
        run.advances@[k],
        run.positions@[k],
    ) by {
        assert(is_cluster_end(cs, k));
        assert(cluster_slots_ok(post, pre, text, run, k));
        assert(spec_cluster_union(run, k, k) == spec_selection_box(
            run.ascent,
            run.descent,
            run.advances@[k],
            run.positions@[k],
        ));
    }
    assert forall|i2: int, k: int|
        #![trigger rows[i2].runs@[0].clusters@[k]]
        0 <= i2 < ri && 0 <= k < rows[i2].runs@[0].clusters@.len() implies post[rows[
        i2].runs@[0].clusters@[k] as int] == pre[rows[i2].runs@[0].clusters@[k] as int] by {
        let b = rows[i2].runs@[0].clusters@[k] as int;
        assert(run_wf(rows[i2].runs@[0], text));
        assert(b < rows[i2].runs@[0].utf8_end);
        lemma_cover_monotone(rows, text, i2, ri);
        assert(b < row_start(rows, ri));
        assert(cs[0] == row_start(rows, ri));
        assert(!crate::shape::in_cluster_span(cs, e, b)) by {
            if crate::shape::in_cluster_span(cs, e, b) {
                let g = choose|g: int|
                    #[trigger] is_cluster_end(cs, g) && cs[g] <= b < spec_tight_end(
                        cs,
                        cs[g] as int,
                        cs.len() as int,
                        e,
                    );
                if g > 0 {
                    assert(cs[0] < cs[g]);
                }
            }
        }
        assert(0 <= b < pre.len());
    }
}

/// Shape one line: consume the rows the shaper produced and fill the
/// line's cache data.
///
/// The wrap offsets are exactly the strictly increasing committed line
/// ends (minus the trailing one); the boundary flags mark exactly the
/// UTF-8 code-point boundaries; the vertical advance is the font's line
/// spacing; the cursor array has one slot per byte plus the trailing
/// caret, which is placed at the final pen position.
#[verifier::rlimit(100)]
pub fn shape(text: &Vec<u8>, rows: &Vec<ShapeRow>, font: &Font) -> (r: ShapeResult)
    requires
        is_utf8(text@),
        text@.len() <= MAX_TEXT,
        rows_wf(rows@, text@),
        font.wf(),
    ensures
        r.glyph_bounds@.len() == text@.len() + 1,
        r.word_breaks@.len() == text@.len(),
        forall|i: int| 0 <= i < text@.len() ==> r.word_breaks@[i] == is_boundary(text@, i),
        r.vertical_advance == font.spacing,
        1 <= r.vertical_advance <= MAX_METRIC,
        r.line_break_offsets@.len() == spec_line_breaks(rows@).len(),
        forall|i: int|
            0 <= i < r.line_break_offsets@.len() ==> #[trigger] r.line_break_offsets@[i]
                == spec_line_breaks(rows@)[i],
        forall|a: int, b: int|
            0 <= a < b < r.line_break_offsets@.len() ==> #[trigger] r.line_break_offsets@[a]
                < #[trigger] r.line_break_offsets@[b],
        forall|i: int|
            0 <= i < r.line_break_offsets@.len() ==> 0 < #[trigger] r.line_break_offsets@[i]
                <= text@.len(),
        forall|i: int|
            0 <= i < text@.len() ==> #[trigger] r.glyph_bounds@[i] == crate::geom::spec_unset_rect()
                || (rect_shape_ok(r.glyph_bounds@[i]) && is_boundary(text@, i)),
        r.glyph_bounds@[text@.len() as int] == spec_final_caret(rows@, *font),
        rect_shape_ok(r.glyph_bounds@[text@.len() as int]),
        rows_cover(rows@, text@) ==> (forall|i: int, k: int|
            #![trigger rows@[i].runs@[0].clusters@[k]]
            0 <= i < rows@.len() && 0 <= k < rows@[i].runs@[0].clusters@.len() ==> r.glyph_bounds@[
            rows@[i].runs@[0].clusters@[k] as int] == spec_selection_box(
                rows@[i].runs@[0].ascent,
                rows@[i].runs@[0].descent,
                rows@[i].runs@[0].advances@[k],
                rows@[i].runs@[0].positions@[k],
            )),
{
    let tlen = text.len();
    let mut gb: Vec<Rect> = Vec::new();
    let mut gi: usize = 0;
    while gi < tlen
        invariant
            gi <= tlen,
            gb@.len() == gi,
            forall|i: int| 0 <= i < gi ==> #[trigger] gb@[i] == crate::geom::spec_unset_rect(),
        decreases tlen - gi,
    {
        gb.push(unset_rect());
        gi = gi + 1;
    }
    let mut line_ends: Vec<usize> = Vec::new();
    let mut text_offset: usize = 0;
    let mut off_y: i64 = 0;
    let mut pen_x: i64 = 0;
    let mut pen_y: i64 = 0;
    let mut last_asc: i64 = 0;
    let mut last_desc: i64 = 0;
    let nrows = rows.len();
    let mut ri: usize = 0;
    while ri < nrows
        invariant
            ri <= nrows == rows@.len(),
            is_utf8(text@),
            text@.len() == tlen <= MAX_TEXT,
            rows_wf(rows@, text@),
            font.wf(),
            gb@.len() == tlen,
            forall|i: int|
                0 <= i < tlen ==> #[trigger] gb@[i] == crate::geom::spec_unset_rect() || (
                rect_shape_ok(gb@[i]) && is_boundary(text@, i)),
            rows_cover(rows@, text@) ==> (forall|i2: int, k: int|
                #![trigger rows@[i2].runs@[0].clusters@[k]]
                0 <= i2 < ri && 0 <= k < rows@[i2].runs@[0].clusters@.len() ==> gb@[
                rows@[i2].runs@[0].clusters@[k] as int] == spec_selection_box(
                    rows@[i2].runs@[0].ascent,
                    rows@[i2].runs@[0].descent,
                    rows@[i2].runs@[0].advances@[k],
                    rows@[i2].runs@[0].positions@[k],
                )),
            text_offset == t_after(rows@, ri as int),
            0 <= text_offset <= tlen,
            off_y == offset_y_after(rows@, ri as int),
            0 <= off_y <= 0x3_0000 * (ri as int),
            line_ends@.len() == raw_ends(rows@, ri as int).len(),
            forall|i: int|
                0 <= i < line_ends@.len() ==> #[trigger] line_ends@[i] == raw_ends(
                    rows@,
                    ri as int,
                )[i],
            forall|a: int, b: int|
                0 <= a < b < line_ends@.len() ==> #[trigger] line_ends@[a] < #[trigger] line_ends@[b],
            line_ends@.len() > 0 ==> line_ends@.last() <= text_offset,
            forall|i: int| 0 <= i < line_ends@.len() ==> 0 < #[trigger] line_ends@[i] <= tlen,
            ri == 0 ==> pen_x == 0 && pen_y == 0 && last_asc == 0 && last_desc == 0,
            ri > 0 ==> {
                let lr = rows@[ri - 1].runs@;
                &&& pen_x == fold_advx(lr, lr.len() as int)
                &&& pen_y == offset_y_after(rows@, ri - 1) - fold_asc(lr, lr.len() as int)
                    + fold_advy(lr, lr.len() as int)
                &&& last_asc == fold_asc(lr, lr.len() as int)
                &&& last_desc == fold_desc(lr, lr.len() as int)
            },
            -0x900_0000_0000_0000 <= pen_x <= 0x900_0000_0000_0000,
            -0x900_0000_0000_0000 <= pen_y <= 0x900_0000_0000_0000,
            -MAX_METRIC <= last_asc <= 0,
            0 <= last_desc <= MAX_METRIC,
        decreases nrows - ri,
    {
        let row = &rows[ri];
        let nr = row.runs.len();
        proof {
            assert(rows@[ri as int].runs@.len() <= MAX_RUNS);
            assert(rows@.len() <= MAX_TEXT);
            assert forall|jj: int| 0 <= jj < row.runs@.len() implies run_wf(
                #[trigger] row.runs@[jj],
                text@,
            ) by {
                assert(run_wf(rows@[ri as int].runs@[jj], text@));
            }
            assert(off_y <= 0xC000_0000_0000);
            lemma_fold_bounds(row.runs@, nr as int, text@);
        }
        let mut asc: i64 = 0;
        let mut desc: i64 = 0;
        let mut lead: i64 = 0;
        let mut j: usize = 0;
        while j < nr
            invariant
                j <= nr == row.runs@.len(),
                nr <= MAX_RUNS,
                forall|jj: int|
                    0 <= jj < row.runs@.len() ==> run_wf(#[trigger] row.runs@[jj], text@),
                is_utf8(text@),
                asc == fold_asc(row.runs@, j as int),
                desc == fold_desc(row.runs@, j as int),
                lead == fold_lead(row.runs@, j as int),
                -MAX_METRIC <= asc <= 0,
                0 <= desc <= MAX_METRIC,
                0 <= lead <= MAX_METRIC,
            decreases nr - j,
        {
            let run = &row.runs[j];
            if run.ascent < asc {
                asc = run.ascent;
            }
            if run.descent > desc {
                desc = run.descent;
            }
            if run.leading > lead {
                lead = run.leading;
            }
            j = j + 1;
        }
        pen_x = 0;
        pen_y = off_y - asc;
        let ghost t_row0 = text_offset as int;
        let mut j: usize = 0;
        while j < nr
            invariant
                j <= nr == row.runs@.len(),
                forall|jj: int|
                    0 <= jj < row.runs@.len() ==> run_wf(#[trigger] row.runs@[jj], text@),
                (ri as int) < rows@.len() <= MAX_TEXT,
                row == rows@[ri as int],
                rows_wf(rows@, text@),
                off_y == offset_y_after(rows@, ri as int),
                is_utf8(text@),
                text@.len() == tlen <= MAX_TEXT,
                font.wf(),
                gb@.len() == tlen,
                forall|i: int|
                    0 <= i < tlen ==> #[trigger] gb@[i] == crate::geom::spec_unset_rect() || (
                    rect_shape_ok(gb@[i]) && is_boundary(text@, i)),
                rows_cover(rows@, text@) ==> (forall|i2: int, k: int|
                    #![trigger rows@[i2].runs@[0].clusters@[k]]
                    (0 <= i2 < ri || (i2 == ri && j > 0)) && 0 <= k
                        < rows@[i2].runs@[0].clusters@.len() ==> gb@[
                    rows@[i2].runs@[0].clusters@[k] as int] == spec_selection_box(
                        rows@[i2].runs@[0].ascent,
                        rows@[i2].runs@[0].descent,
                        rows@[i2].runs@[0].advances@[k],
                        rows@[i2].runs@[0].positions@[k],
                    )),
                pen_x == fold_advx(row.runs@, j as int),
                pen_y == offset_y_after(rows@, ri as int) - fold_asc(row.runs@, nr as int)
                    + fold_advy(row.runs@, j as int),
                0 <= off_y <= 0x3_0000 * (ri as int),
                asc == fold_asc(row.runs@, nr as int),
                -MAX_METRIC <= asc <= 0,
                nr <= MAX_RUNS,
                (ri as int) <= MAX_TEXT,
                text_offset == fold_end(row.runs@, j as int, t_row0),
                t_row0 == t_after(rows@, ri as int),
                0 <= t_row0 <= tlen,
                0 <= text_offset <= tlen,
                (-(j as int)) * 0x4_0000_0001_0000 <= pen_x <= (j as int) * 0x4_0000_0001_0000,
                (-(j as int)) * 0x4_0000_0001_0000 - 0x3_0000 * (ri as int) - 0x1_0000 <= pen_y
                    <= (j as int) * 0x4_0000_0001_0000 + 0x3_0000 * (ri as int) + 0x1_0000,
            decreases nr - j,
        {
            let run = &row.runs[j];
            proof {
                lemma_fold_end_bounds(row.runs@, j as int, t_row0, text@);
            }
            let ghost pre_gb = gb@;
            set_character_bounds(&mut gb, text, run);
            proof {
                if rows_cover(rows@, text@) {
                    assert(rows@[ri as int].runs@.len() == 1);
                    assert(j == 0);
                    assert(*run == rows@[ri as int].runs@[0]);
                    lemma_cover_claims(
                        rows@,
                        text@,
                        ri as int,
                        pre_gb,
                        gb@,
                        *run,
                    );
                }
            }
            pen_x = pen_x + run.advance.x;
            pen_y = pen_y + run.advance.y;
            if run.utf8_end > text_offset {
                text_offset = run.utf8_end;
            }
            j = j + 1;
        }
        proof {
            lemma_fold_end_bounds(row.runs@, nr as int, t_row0, text@);
            assert((nr as int) * 0x4_0000_0001_0000 <= 0x800_0000_2000_0000) by (nonlinear_arith)
                requires
                    0 <= nr <= 0x200,
            ;
        }
        proof {
            assert(text_offset >= 1) by {
                lemma_fold_end_ge(row.runs@, nr as int, t_row0, 0);
                assert(run_wf(row.runs@[0], text@));
                assert(row.runs@[0].clusters@[0] < row.runs@[0].utf8_end);
            }
        }
        if line_ends.len() == 0 {
            line_ends.push(text_offset);
        } else if text_offset > line_ends[line_ends.len() - 1] {
            line_ends.push(text_offset);
        }
        off_y = off_y + (desc + lead - asc);
        last_asc = asc;
        last_desc = desc;
        ri = ri + 1;
        proof {
            assert(raw_ends(rows@, ri as int) == (if raw_ends(rows@, ri - 1).len() == 0 || t_after(
                rows@,
                ri as int,
            ) > raw_ends(rows@, ri - 1).last() {
                raw_ends(rows@, ri - 1).push(t_after(rows@, ri as int))
            } else {
                raw_ends(rows@, ri - 1)
            }));
        }
    }
    let fin: Rect = if last_asc == 0 || last_desc == 0 {
        Rect {
            left: pen_x,
            top: pen_y,
            right: pen_x + font.size,
            bottom: pen_y + (font.descent - font.ascent),
        }
    } else {
        Rect { left: pen_x, top: pen_y + last_asc, right: pen_x + font.size, bottom: pen_y
            + last_desc }
    };
    proof {
        assert(fin == spec_final_caret(rows@, *font));
    }
    gb.push(fin);
    let mut lbo: Vec<usize> = Vec::new();
    if line_ends.len() > 1 {
        lbo = line_ends;
        lbo.pop();
    }
    let mut wb: Vec<bool> = Vec::new();
    let mut wi: usize = 0;
    while wi < tlen
        invariant
            wi <= tlen == text@.len(),
            wb@.len() == wi,
            forall|i: int| 0 <= i < wi ==> #[trigger] wb@[i] == is_boundary(text@, i),
        decreases tlen - wi,
    {
        wb.push(crate::utf8::is_char_boundary(text, wi));
        wi = wi + 1;
    }
    ShapeResult {
        line_break_offsets: lbo,
        glyph_bounds: gb,
        word_breaks: wb,
        vertical_advance: font.spacing,
    }
}

/// Baseline height of visual row `i` under the fixed-advance model: the
/// first row sits one ascent below the top, each further row advances by
/// descent + leading - ascent.
pub open spec fn row_base_y(font: Font, i: int) -> int
    decreases i,
{
    if i <= 0 {
        -font.ascent
    } else {
        row_base_y(font, i - 1) + (font.descent + font.leading - font.ascent)
    }
}

/// First byte of visual row `i`: the text end of the row before it.
pub open spec fn row_start(rows: Seq<ShapeRow>, i: int) -> int {
    if i <= 0 {
        0
    } else {
        rows[i - 1].runs@[0].utf8_end as int
    }
}

/// One fixed-advance run starting at byte `start` on baseline `rowy`:
/// its clusters walk the code points of the covered span in order, one
/// glyph per code point, each with the font's uniform advance, pen
/// positions stepping by that advance along the baseline, the font's own
/// vertical metrics, and a run advance of the accumulated width.
pub open spec fn fixed_run_wf(
    run: ShapeRun,
    text: Seq<u8>,
    font: Font,
    start: int,
    rowy: int,
) -> bool {
    let adv = font.spec_glyph_advance() as int;
    let g = run.clusters@.len() as int;
    &&& g >= 1
    &&& run.clusters@[0] == start
    &&& forall|j: int|
        0 <= j < g - 1 ==> (#[trigger] run.clusters@[j + 1]) == run.clusters@[j]
            + crate::utf8::lead_len(text[run.clusters@[j] as int])
    &&& run.utf8_end == run.clusters@[g - 1] + crate::utf8::lead_len(
        text[run.clusters@[g - 1] as int],
    )
    &&& forall|j: int| 0 <= j < g ==> (#[trigger] run.advances@[j]) == font.spec_glyph_advance()
    &&& forall|j: int|
        0 <= j < g ==> (#[trigger] run.positions@[j]) == (IPoint {
            x: (j * adv) as i64,
            y: rowy as i64,
        })
    &&& run.ascent == font.ascent
    &&& run.descent == font.descent
    &&& run.leading == font.leading
    &&& run.advance == (IPoint { x: (g * adv) as i64, y: 0 })
}

/// The built-in run producer: a fixed-advance layout in which every code
/// point becomes one glyph of the font's uniform advance, with greedy
/// shape-then-wrap line breaking at the given width.  Its rows satisfy
/// everything `shape` requires, so the engine is complete without a
/// platform shaper.
///
/// The contract pins the layout: one run per row; the runs' clusters walk
/// every code point of the text exactly once, in order (each row starts
/// where the one before ended, and the last ends at the text's end); each
/// glyph that joined a row fit within the width, and every row but the
/// last closed because one more glyph would not have fit.
#[verifier::rlimit(100)]
#[verifier::spinoff_prover]
pub fn layout_rows(text: &Vec<u8>, font: &Font, width: i64) -> (rows: Vec<ShapeRow>)
    requires
        is_utf8(text@),
        text@.len() <= MAX_TEXT,
        font.wf(),
        -MAX_COORD <= width <= MAX_COORD,
    ensures
        rows_wf(rows@, text@),
        rows@.len() == 0 <==> text@.len() == 0,
        forall|i: int| 0 <= i < rows@.len() ==> (#[trigger] rows@[i]).runs@.len() == 1,
        forall|i: int|
            0 <= i < rows@.len() ==> fixed_run_wf(
                (#[trigger] rows@[i]).runs@[0],
                text@,
                *font,
                row_start(rows@, i),
                row_base_y(*font, i),
            ),
        rows@.len() > 0 ==> rows@.last().runs@[0].utf8_end == text@.len(),
        forall|i: int, j: int|
            #![trigger rows@[i].runs@[0].positions@[j]]
            0 <= i < rows@.len() && 1 <= j < rows@[i].runs@[0].positions@.len()
                ==> rows@[i].runs@[0].positions@[j].x + font.spec_glyph_advance() <= width,
        forall|i: int|
            0 <= i < rows@.len() - 1 ==> (#[trigger] rows@[i]).runs@[0].advance.x
                + font.spec_glyph_advance() > width,
        rows_cover(rows@, text@),
{
    let adv = font.glyph_advance();
    let mut rows: Vec<ShapeRow> = Vec::new();
    let mut glyphs: Vec<u16> = Vec::new();
    let mut positions: Vec<IPoint> = Vec::new();
    let mut clusters: Vec<usize> = Vec::new();
    let mut advances: Vec<i64> = Vec::new();
    let mut pen_x: i64 = 0;
    let mut off_y: i64 = 0;
    let mut j: usize = 0;
    while j < text.len()
        invariant
            is_utf8(text@),
            text@.len() <= MAX_TEXT,
            font.wf(),
            -MAX_COORD <= width <= MAX_COORD,
            adv == font.spec_glyph_advance(),
            1 <= adv <= MAX_METRIC,
            j <= text@.len(),
            is_boundary(text@, j as int),
            glyphs@.len() == positions@.len() == clusters@.len() == advances@.len(),
            rows@.len() + glyphs@.len() <= j,
            rows_wf(rows@, text@),
            forall|i: int| 0 <= i < rows@.len() ==> (#[trigger] rows@[i]).runs@.len() == 1,
            forall|i: int|
                0 <= i < rows@.len() ==> fixed_run_wf(
                    (#[trigger] rows@[i]).runs@[0],
                    text@,
                    *font,
                    row_start(rows@, i),
                    row_base_y(*font, i),
                ),
            forall|i: int, jj: int|
                #![trigger rows@[i].runs@[0].positions@[jj]]
                0 <= i < rows@.len() && 1 <= jj < rows@[i].runs@[0].positions@.len()
                    ==> rows@[i].runs@[0].positions@[jj].x + adv <= width,
            forall|i: int|
                0 <= i < rows@.len() ==> (#[trigger] rows@[i]).runs@[0].advance.x + adv > width,
            glyphs@.len() == 0 ==> j == 0 && rows@.len() == 0 && pen_x == 0,
            glyphs@.len() > 0 ==> clusters@[0] == row_start(rows@, rows@.len() as int),
            glyphs@.len() > 0 ==> j == clusters@.last() + crate::utf8::lead_len(
                text@[clusters@.last() as int],
            ),
            forall|c: int|
                0 <= c < clusters@.len() - 1 ==> (#[trigger] clusters@[c + 1]) == clusters@[c]
                    + crate::utf8::lead_len(text@[clusters@[c] as int]),
            forall|c: int|
                0 <= c < clusters@.len() ==> (#[trigger] clusters@[c]) < j && is_boundary(
                    text@,
                    clusters@[c] as int,
                ),
            forall|c: int|
                0 <= c < positions@.len() ==> #[trigger] positions@[c] == (IPoint {
                    x: (c * (adv as int)) as i64,
                    y: row_base_y(*font, rows@.len() as int) as i64,
                }),
            forall|c: int|
                0 <= c < positions@.len() ==> 0 <= (#[trigger] positions@[c]).x <= MAX_COORD && 0
                    <= positions@[c].y <= MAX_COORD,
            forall|c: int| 0 <= c < advances@.len() ==> (#[trigger] advances@[c]) == adv,
            forall|c: int|
                1 <= c < positions@.len() ==> (#[trigger] positions@[c]).x + adv <= width,
            pen_x == glyphs@.len() * (adv as int),
            0 <= pen_x <= MAX_COORD + MAX_METRIC,
            off_y == row_base_y(*font, rows@.len() as int) + font.ascent,
            0 <= off_y,
            off_y <= 0x3_0000 * (rows@.len() as int),
        decreases text@.len() - j,
    {
        let next = crate::utf8::next_char_boundary(text, j);
        if glyphs.len() > 0 && pen_x + adv > width {
            // close the current visual row and start a new one
            let ghost g = glyphs@.len() as int;
            let ghost pend = positions@;
            let run = ShapeRun {
                glyphs,
                positions,
                clusters,
                advances,
                ascent: font.ascent,
                descent: font.descent,
                leading: font.leading,
                advance: IPoint { x: pen_x, y: 0 },
                utf8_end: j,
            };
            proof {
                assert(run_wf(run, text@));
                assert((g + 1) * (adv as int) == g * (adv as int) + adv) by (nonlinear_arith);
                assert(fixed_run_wf(
                    run,
                    text@,
                    *font,
                    row_start(rows@, rows@.len() as int),
                    row_base_y(*font, rows@.len() as int),
                ));
            }
            let ghost rows0 = rows@;
            rows.push(ShapeRow { runs: vec![run] });
            glyphs = Vec::new();
            positions = Vec::new();
            clusters = Vec::new();
            advances = Vec::new();
            pen_x = 0;
            off_y = off_y + (font.descent + font.leading - font.ascent);
            proof {
                assert(row_base_y(*font, rows@.len() as int) == row_base_y(
                    *font,
                    rows@.len() - 1,
                ) + (font.descent + font.leading - font.ascent));
                assert(rows@.drop_last() =~= rows0);
                assert forall|i: int, jj: int|
                    0 <= i < rows@.len() && 0 <= jj < rows@[i].runs@.len() implies run_wf(
                    #[trigger] rows@[i].runs@[jj],
                    text@,
                ) by {
                    if i < rows@.len() - 1 {
                        assert(run_wf(rows0[i].runs@[jj], text@));
                    }
                }
                assert forall|i: int| 0 <= i < rows@.len() implies fixed_run_wf(
                    (#[trigger] rows@[i]).runs@[0],
                    text@,
                    *font,
                    row_start(rows@, i),
                    row_base_y(*font, i),
                ) by {
                    if i < rows@.len() - 1 {
                        assert(fixed_run_wf(
                            rows0[i].runs@[0],
                            text@,
                            *font,
                            row_start(rows0, i),
                            row_base_y(*font, i),
                        ));
                        assert(row_start(rows@, i) == row_start(rows0, i));
                    }
                }
                assert forall|i: int, jj: int|
                    #![trigger rows@[i].runs@[0].positions@[jj]]
                    0 <= i < rows@.len() && 1 <= jj < rows@[i].runs@[0].positions@.len() implies
                    rows@[i].runs@[0].positions@[jj].x + adv <= width by {
                    if i < rows@.len() - 1 {
                        assert(rows@[i].runs@[0].positions@[jj]
                            == rows0[i].runs@[0].positions@[jj]);
                    } else {
                        assert(rows@[i].runs@[0].positions@[jj] == pend[jj]);
                    }
                }
            }
        }
        let ghost g = glyphs@.len() as int;
        let ghost rb = row_base_y(*font, rows@.len() as int);
        proof {
            assert((g + 1) * (adv as int) == g * (adv as int) + adv) by (nonlinear_arith);
            assert(g * (adv as int) == pen_x) by (nonlinear_arith)
                requires
                    (g == 0 && pen_x == 0) || pen_x == g * (adv as int),
            ;
            assert(off_y - font.ascent == rb);
        }
        glyphs.push(0);
        positions.push(IPoint { x: pen_x, y: off_y - font.ascent });
        clusters.push(j);
        advances.push(adv);
        pen_x = pen_x + adv;
        j = next;
        proof {
            assert(positions@[g] == (IPoint { x: (g * (adv as int)) as i64, y: rb as i64 }));
            assert(pen_x == glyphs@.len() * (adv as int)) by (nonlinear_arith)
                requires
                    pen_x == (g + 1) * (adv as int),
                    glyphs@.len() == g + 1,
            ;
        }
    }
    if glyphs.len() > 0 {
        let ghost g = glyphs@.len() as int;
        let ghost pend = positions@;
        let run = ShapeRun {
            glyphs,
            positions,
            clusters,
            advances,
            ascent: font.ascent,
            descent: font.descent,
            leading: font.leading,
            advance: IPoint { x: pen_x, y: 0 },
            utf8_end: text.len(),
        };
        proof {
            assert(run_wf(run, text@));
            assert(fixed_run_wf(
                run,
                text@,
                *font,
                row_start(rows@, rows@.len() as int),
                row_base_y(*font, rows@.len() as int),
            ));
        }
        let ghost rows0 = rows@;
        rows.push(ShapeRow { runs: vec![run] });
        proof {
            assert(rows@.drop_last() =~= rows0);
            assert forall|i: int, jj: int|
                0 <= i < rows@.len() && 0 <= jj < rows@[i].runs@.len() implies run_wf(
                #[trigger] rows@[i].runs@[jj],
                text@,
            ) by {
                if i < rows@.len() - 1 {
                    assert(run_wf(rows0[i].runs@[jj], text@));
                }
            }
            assert forall|i: int| 0 <= i < rows@.len() implies fixed_run_wf(
                (#[trigger] rows@[i]).runs@[0],
                text@,
                *font,
                row_start(rows@, i),
                row_base_y(*font, i),
            ) by {
                if i < rows@.len() - 1 {
                    assert(fixed_run_wf(
                        rows0[i].runs@[0],
                        text@,
                        *font,
                        row_start(rows0, i),
                        row_base_y(*font, i),
                    ));
                    assert(row_start(rows@, i) == row_start(rows0, i));
                }
            }
            assert forall|i: int, jj: int|
                #![trigger rows@[i].runs@[0].positions@[jj]]
                0 <= i < rows@.len() && 1 <= jj < rows@[i].runs@[0].positions@.len() implies
                rows@[i].runs@[0].positions@[jj].x + adv <= width by {
                if i < rows@.len() - 1 {
                    assert(rows@[i].runs@[0].positions@[jj] == rows0[i].runs@[0].positions@[jj]);
                } else {
                    assert(rows@[i].runs@[0].positions@[jj] == pend[jj]);
                }
            }
        }
    }
    proof {
        assert forall|i: int| 0 <= i < rows@.len() implies run_chain(
            (#[trigger] rows@[i]).runs@[0],
            text@,
            row_start(rows@, i),
        ) by {
            assert(fixed_run_wf(
                rows@[i].runs@[0],
                text@,
                *font,
                row_start(rows@, i),
                row_base_y(*font, i),
            ));
        }
    }
    rows
}

} // verus!
