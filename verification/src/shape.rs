//! The shaping step: turning shaped glyph runs into the per-byte cursor
//! rectangles, wrap-point offsets, boundary flags and vertical advance the
//! buffer caches for each line.
//!
//! A platform shaper delivers, per visual row, runs of glyphs with pen
//! positions, source byte clusters and advance widths; that data arrives
//! here as plain values (`ShapeRow` / `ShapeRun`) and everything computed
//! from it is verified.  `layout_rows` is the built-in fixed-advance run
//! producer, so the engine is complete on its own; rows from a platform
//! shaper can be handed to `shape` just the same.

use vstd::prelude::*;
use crate::font::Font;
use crate::geom::{unset_rect, IPoint, Rect, MAX_COORD, MAX_METRIC};
use crate::model::MAX_TEXT;
use crate::utf8::{is_boundary, is_cont, is_utf8, next_char_boundary};

verus! {

/// Most runs one visual row may carry.
pub const MAX_RUNS: usize = 0x200;

/// Bound that every cursor rectangle produced by shaping satisfies.
pub const SHAPE_BOUND: i64 = 0x1000_0000_0000_0000;

/// One shaped glyph run: parallel arrays of glyph ids, pen positions,
/// source byte clusters and advance widths, plus the run font's vertical
/// metrics, the run's pen advance, and the byte offset the line text is
/// covered up to once this run is committed.
pub struct ShapeRun {
    pub glyphs: Vec<u16>,
    pub positions: Vec<IPoint>,
    pub clusters: Vec<usize>,
    pub advances: Vec<i64>,
    pub ascent: i64,
    pub descent: i64,
    pub leading: i64,
    pub advance: IPoint,
    pub utf8_end: usize,
}

/// One visual row: the runs between two line-break decisions of the
/// shaper, in visual order.
pub struct ShapeRow {
    pub runs: Vec<ShapeRun>,
}

/// What shaping one line yields (see the fields of the line cache).
pub struct ShapeResult {
    pub line_break_offsets: Vec<usize>,
    pub glyph_bounds: Vec<Rect>,
    pub word_breaks: Vec<bool>,
    pub vertical_advance: i64,
}

/// Soundness of one run against the line text: parallel arrays of equal
/// nonzero length, clusters that are in-range code-point boundaries, and
/// bounded metrics and coordinates.
pub open spec fn run_wf(r: ShapeRun, text: Seq<u8>) -> bool {
    &&& r.glyphs@.len() >= 1
    &&& r.positions@.len() == r.glyphs@.len()
    &&& r.clusters@.len() == r.glyphs@.len()
    &&& r.advances@.len() == r.glyphs@.len()
    &&& r.utf8_end <= text.len()
    &&& forall|i: int|
        0 <= i < r.clusters@.len() ==> (#[trigger] r.clusters@[i]) < r.utf8_end && is_boundary(
            text,
            r.clusters@[i] as int,
        )
    &&& -MAX_METRIC <= r.ascent <= 0
    &&& 0 <= r.descent <= MAX_METRIC
    &&& 0 <= r.leading <= MAX_METRIC
    &&& forall|i: int|
        0 <= i < r.positions@.len() ==> -MAX_COORD <= (#[trigger] r.positions@[i]).x <= MAX_COORD
            && -MAX_COORD <= r.positions@[i].y <= MAX_COORD
    &&& forall|i: int|
        0 <= i < r.advances@.len() ==> -MAX_METRIC <= (#[trigger] r.advances@[i]) <= MAX_METRIC
    &&& -(MAX_COORD + MAX_METRIC) <= r.advance.x <= MAX_COORD + MAX_METRIC
    &&& -(MAX_COORD + MAX_METRIC) <= r.advance.y <= MAX_COORD + MAX_METRIC
}

/// Soundness of a whole row sequence against the line text.  A committed
/// row always carries at least one run: the shaper breaks lines between
/// glyphs, never around nothing.
pub open spec fn rows_wf(rows: Seq<ShapeRow>, text: Seq<u8>) -> bool {
    &&& rows.len() <= MAX_TEXT
    &&& forall|i: int| 0 <= i < rows.len() ==> 1 <= (#[trigger] rows[i]).runs@.len() <= MAX_RUNS
    &&& forall|i: int, j: int|
        0 <= i < rows.len() && 0 <= j < rows[i].runs@.len() ==> run_wf(
            #[trigger] rows[i].runs@[j],
            text,
        )
}

/// The selection box of one glyph: its advance wide (clamped away from
/// zero so zero-advance marks still get a caret), spanning the run font's
/// ascent-to-descent band at the glyph's pen position.
pub open spec fn spec_selection_box(ascent: i64, descent: i64, advance: i64, pos: IPoint) -> Rect {
    let adv: i64 = if advance == 0 {
        1
    } else {
        advance
    };
    Rect {
        left: pos.x,
        top: (pos.y + ascent) as i64,
        right: (pos.x + adv) as i64,
        bottom: (pos.y + descent) as i64,
    }
}

fn selection_box(ascent: i64, descent: i64, advance: i64, pos: IPoint) -> (r: Rect)
    requires
        -MAX_METRIC <= ascent <= 0,
        0 <= descent <= MAX_METRIC,
        -MAX_METRIC <= advance <= MAX_METRIC,
        -MAX_COORD <= pos.x <= MAX_COORD,
        -MAX_COORD <= pos.y <= MAX_COORD,
    ensures
        r == spec_selection_box(ascent, descent, advance, pos),
        -(MAX_COORD + MAX_METRIC) <= r.left <= MAX_COORD + MAX_METRIC,
        -(MAX_COORD + MAX_METRIC) <= r.top <= MAX_COORD + MAX_METRIC,
        -(MAX_COORD + MAX_METRIC) <= r.right <= MAX_COORD + MAX_METRIC,
        -(MAX_COORD + MAX_METRIC) <= r.bottom <= MAX_COORD + MAX_METRIC,
{
    let adv: i64 = if advance == 0 {
        1
    } else {
        advance
    };
    Rect { left: pos.x, top: pos.y + ascent, right: pos.x + adv, bottom: pos.y + descent }
}

/// A rectangle within the bound every shaped cursor rectangle satisfies.
pub open spec fn rect_shape_ok(r: Rect) -> bool {
    &&& -SHAPE_BOUND <= r.left <= SHAPE_BOUND
    &&& -SHAPE_BOUND <= r.top <= SHAPE_BOUND
    &&& -SHAPE_BOUND <= r.right <= SHAPE_BOUND
    &&& -SHAPE_BOUND <= r.bottom <= SHAPE_BOUND
}

/// Equal cluster values sit next to each other: the grouping every
/// left-to-right (or right-to-left) shaper produces.
pub open spec fn clusters_grouped(cs: Seq<usize>) -> bool {
    forall|a: int, b: int, c: int|
        #![trigger cs[a], cs[b], cs[c]]
        0 <= a < b < c < cs.len() && cs[a] == cs[c] ==> cs[b] == cs[a]
}

/// Glyph `g` is the last glyph of its cluster.
pub open spec fn is_cluster_end(cs: Seq<usize>, g: int) -> bool {
    0 <= g < cs.len() && (g == cs.len() - 1 || cs[g] != cs[g + 1])
}

/// First glyph of the cluster that glyph `g` belongs to.
pub open spec fn cluster_begin(cs: Seq<usize>, g: int) -> int
    decreases g,
{
    if g <= 0 {
        0
    } else if cs[g - 1] == cs[g] {
        cluster_begin(cs, g - 1)
    } else {
        g
    }
}

/// The tightest bracketing byte span's end for a cluster beginning at
/// `tb`: the smallest cluster value of the first `n` glyphs strictly
/// above `tb`, or `e` when none brackets it.
pub open spec fn spec_tight_end(cs: Seq<usize>, tb: int, n: int, e: int) -> int
    decreases n,
{
    if n <= 0 {
        e
    } else {
        let p = spec_tight_end(cs, tb, n - 1, e);
        if tb < cs[n - 1] && (cs[n - 1] as int) < p {
            cs[n - 1] as int
        } else {
            p
        }
    }
}

/// The union of the selection boxes of glyphs `lo..=hi` of a run.
pub open spec fn spec_cluster_union(run: ShapeRun, lo: int, hi: int) -> Rect
    decreases hi - lo,
{
    if hi <= lo {
        spec_selection_box(run.ascent, run.descent, run.advances@[lo], run.positions@[lo])
    } else {
        spec_cluster_union(run, lo, hi - 1).spec_join(
            spec_selection_box(run.ascent, run.descent, run.advances@[hi], run.positions@[hi]),
        )
    }
}

/// Byte `i` lies in the span of one of the first `upto` glyphs' clusters.
pub open spec fn in_span_upto(cs: Seq<usize>, e: int, i: int, upto: int) -> bool {
    exists|g: int|
        #[trigger] is_cluster_end(cs, g) && g < upto && cs[g] <= i < spec_tight_end(
            cs,
            cs[g] as int,
            cs.len() as int,
            e,
        )
}

/// Byte `i` lies in some cluster's span of the run.
pub open spec fn in_cluster_span(cs: Seq<usize>, e: int, i: int) -> bool {
    in_span_upto(cs, e, i, cs.len() as int)
}

/// What the cluster ending at glyph `g` leaves in the cursor array:
/// over its byte span, its glyphs' union box — assigned to the span's
/// start when the span is one code point, else divided into equal-width
/// sub-boxes, one per code point, left to right; bytes of the span that
/// start no code point keep their previous slots.
pub open spec fn cluster_slots_ok(
    cur: Seq<Rect>,
    prev: Seq<Rect>,
    text: Seq<u8>,
    run: ShapeRun,
    g: int,
) -> bool {
    let cs = run.clusters@;
    let tb = cs[g] as int;
    let te = spec_tight_end(cs, tb, cs.len() as int, run.utf8_end as int);
    let bx = spec_cluster_union(run, cluster_begin(cs, g), g);
    let count = count_pts(text, tb, te);
    if count <= 1 {
        cur[tb] == bx && (forall|i: int| tb < i < te ==> cur[i] == prev[i])
    } else {
        forall|i: int|
            tb <= i < te ==> cur[i] == (if is_cont(text[i]) {
                prev[i]
            } else {
                spec_sub_box(bx, count, count_pts(text, tb, i))
            })
    }
}

/// The tight end sits strictly above its cluster start and never beyond
/// the fallback.
proof fn lemma_tight_end_bounds(cs: Seq<usize>, tb: int, n: int, e: int)
    requires
        tb < e,
    ensures
        tb < spec_tight_end(cs, tb, n, e) <= e,
    decreases n,
{
    if n > 0 {
        lemma_tight_end_bounds(cs, tb, n - 1, e);
    }
}

/// The tight end is at most every cluster value above the start.
proof fn lemma_tight_end_le(cs: Seq<usize>, tb: int, n: int, e: int, x: int)
    requires
        0 <= x < n,
        tb < cs[x],
    ensures
        spec_tight_end(cs, tb, n, e) <= cs[x],
    decreases n,
{
    if x < n - 1 {
        lemma_tight_end_le(cs, tb, n - 1, e, x);
    }
}

/// The scanned group bounds determine the cluster's first glyph.
proof fn lemma_cluster_begin_is(cs: Seq<usize>, g: int, st: int)
    requires
        0 <= st <= g < cs.len(),
        forall|j: int| #![trigger cs[j]] st <= j < g ==> cs[j] == cs[j + 1],
        st == 0 || cs[st - 1] != cs[st],
    ensures
        cluster_begin(cs, g) == st,
    decreases g - st,
{
    if g > st {
        assert(cs[g - 1] == cs[g]);
        lemma_cluster_begin_is(cs, g - 1, st);
    }
}

/// In a grouped run two distinct cluster ends carry distinct values, and
/// their byte spans do not overlap.
proof fn lemma_spans_disjoint(cs: Seq<usize>, e: int, g1: int, g2: int)
    requires
        clusters_grouped(cs),
        is_cluster_end(cs, g1),
        is_cluster_end(cs, g2),
        g1 != g2,
        forall|x: int| 0 <= x < cs.len() ==> (#[trigger] cs[x]) < e,
    ensures
        cs[g1] != cs[g2],
        cs[g1] < cs[g2] ==> spec_tight_end(cs, cs[g1] as int, cs.len() as int, e) <= cs[g2],
        cs[g2] < cs[g1] ==> spec_tight_end(cs, cs[g2] as int, cs.len() as int, e) <= cs[g1],
{
    if cs[g1] == cs[g2] {
        if g1 < g2 {
            assert(cs[g1 + 1] == cs[g1]);
        } else {
            assert(cs[g2 + 1] == cs[g2]);
        }
    }
    if cs[g1] < cs[g2] {
        lemma_tight_end_le(cs, cs[g1] as int, cs.len() as int, e, g2);
    }
    if cs[g2] < cs[g1] {
        lemma_tight_end_le(cs, cs[g2] as int, cs.len() as int, e, g1);
    }
}

/// A run whose clusters walk consecutive code points: one glyph per code
/// point of the covered span, in order, the text end one code point past
/// the last.
pub open spec fn run_chain(run: ShapeRun, text: Seq<u8>, start: int) -> bool {
    let cs = run.clusters@;
    let g = cs.len() as int;
    &&& g >= 1
    &&& cs[0] == start
    &&& forall|k: int|
        0 <= k < g - 1 ==> (#[trigger] cs[k + 1]) == cs[k] + crate::utf8::lead_len(
            text[cs[k] as int],
        )
    &&& run.utf8_end == cs[g - 1] + crate::utf8::lead_len(text[cs[g - 1] as int])
}

/// The tight end is the fallback or one of the cluster values above the
/// start.
proof fn lemma_tight_end_in(cs: Seq<usize>, tb: int, n: int, e: int)
    requires
        0 <= n <= cs.len(),
    ensures
        spec_tight_end(cs, tb, n, e) == e || exists|x: int|
            0 <= x < n && cs[x] == spec_tight_end(cs, tb, n, e) && tb < cs[x],
    decreases n,
{
    if n > 0 {
        lemma_tight_end_in(cs, tb, n - 1, e);
    }
}

/// A range of continuation bytes holds no code-point start.
proof fn lemma_count_pts_conts(s: Seq<u8>, a: int, b: int)
    requires
        forall|j: int| a <= j < b ==> is_cont(s[j]),
    ensures
        count_pts(s, a, b) == 0,
    decreases b - a,
{
    if a < b {
        lemma_count_pts_conts(s, a + 1, b);
    }
}

/// The clusters of a chained run are strictly increasing.
proof fn lemma_chain_increasing(run: ShapeRun, text: Seq<u8>, start: int, k1: int, k2: int)
    requires
        run_wf(run, text),
        run_chain(run, text, start),
        is_utf8(text),
        0 <= k1 < k2 < run.clusters@.len(),
    ensures
        run.clusters@[k1] < run.clusters@[k2],
    decreases k2 - k1,
{
    let cs = run.clusters@;
    crate::utf8::lemma_next_boundary(text, cs[k1] as int);
    if k1 + 1 < k2 {
        lemma_chain_increasing(run, text, start, k1 + 1, k2);
    }
}

/// In a chained run every glyph is its own cluster: its span is exactly
/// its code point, holding one code-point start.
pub proof fn lemma_chain_clusters(run: ShapeRun, text: Seq<u8>, start: int)
    requires
        run_wf(run, text),
        run_chain(run, text, start),
        is_utf8(text),
    ensures
        clusters_grouped(run.clusters@),
        forall|k: int| 0 <= k < run.clusters@.len() ==> is_cluster_end(run.clusters@, k),
        forall|k: int| 0 <= k < run.clusters@.len() ==> cluster_begin(run.clusters@, k) == k,
        forall|k: int|
            0 <= k < run.clusters@.len() ==> spec_tight_end(
                run.clusters@,
                run.clusters@[k] as int,
                run.clusters@.len() as int,
                run.utf8_end as int,
            ) == run.clusters@[k] + crate::utf8::lead_len(text[run.clusters@[k] as int]),
        forall|k: int|
            0 <= k < run.clusters@.len() ==> count_pts(
                text,
                run.clusters@[k] as int,
                run.clusters@[k] + crate::utf8::lead_len(text[run.clusters@[k] as int]),
            ) == 1,
        forall|k1: int, k2: int|
            #![trigger run.clusters@[k1], run.clusters@[k2]]
            0 <= k1 < k2 < run.clusters@.len() ==> run.clusters@[k1] < run.clusters@[k2],
{
    let cs = run.clusters@;
    let g = cs.len() as int;
    let e = run.utf8_end as int;
    assert forall|k1: int, k2: int|
        #![trigger cs[k1], cs[k2]]
        0 <= k1 < k2 < g implies cs[k1] < cs[k2] by {
        lemma_chain_increasing(run, text, start, k1, k2);
    }
    assert forall|k: int| 0 <= k < g implies cluster_begin(cs, k) == k by {
        if k > 0 {
            assert(cs[k - 1] < cs[k]);
        }
    }
    assert forall|k: int| 0 <= k < g implies spec_tight_end(cs, cs[k] as int, g, e) == cs[k]
        + crate::utf8::lead_len(text[cs[k] as int]) by {
        let tb = cs[k] as int;
        let target = cs[k] + crate::utf8::lead_len(text[cs[k] as int]);
        crate::utf8::lemma_next_boundary(text, tb);
        lemma_tight_end_in(cs, tb, g, e);
        if k < g - 1 {
            assert(cs[k + 1] == target);
            lemma_tight_end_le(cs, tb, g, e, k + 1);
            assert(spec_tight_end(cs, tb, g, e) >= target) by {
                if spec_tight_end(cs, tb, g, e) != e {
                    let x = choose|x: int|
                        0 <= x < g && cs[x] == spec_tight_end(cs, tb, g, e) && tb < cs[x];
                    assert(x > k);
                    if x > k + 1 {
                        assert(cs[k + 1] < cs[x]);
                    }
                } else {
                    assert(cs[g - 1] >= cs[k + 1] || g - 1 == k + 1);
                    crate::utf8::lemma_next_boundary(text, cs[g - 1] as int);
                }
            }
        } else {
            assert(spec_tight_end(cs, tb, g, e) == e) by {
                if spec_tight_end(cs, tb, g, e) != e {
                    let x = choose|x: int|
                        0 <= x < g && cs[x] == spec_tight_end(cs, tb, g, e) && tb < cs[x];
                    assert(cs[x] <= cs[g - 1]);
                }
            }
        }
    }
    assert forall|k: int| 0 <= k < g implies count_pts(
        text,
        cs[k] as int,
        cs[k] + crate::utf8::lead_len(text[cs[k] as int]),
    ) == 1 by {
        let a = cs[k] as int;
        crate::utf8::lemma_next_boundary(text, a);
        let n = crate::utf8::lead_len(text[a]);
        assert(!is_cont(text[a])) by {
            if a == 0 {
                crate::utf8::lemma_utf8_first_not_cont(text);
            }
        }
        lemma_count_pts_conts(text, a + 1, a + n);
    }
}

/// One processed cluster preserves the claims about the clusters before
/// it and extends them to itself: under grouping the spans are disjoint,
/// so the write into the new span leaves the old spans' slots alone.
#[verifier::rlimit(100)]
#[verifier::spinoff_prover]
proof fn lemma_cluster_step(
    cs: Seq<usize>,
    e: int,
    text: Seq<u8>,
    run: ShapeRun,
    old_cur: Seq<Rect>,
    pre: Seq<Rect>,
    post: Seq<Rect>,
    g: int,
    tb: int,
    te: int,
    bx: Rect,
)
    requires
        cs == run.clusters@,
        e == run.utf8_end as int,
        run_wf(run, text),
        old_cur.len() == pre.len(),
        pre.len() == post.len(),
        old_cur.len() >= run.utf8_end,
        is_cluster_end(cs, g),
        tb == cs[g] as int,
        te == spec_tight_end(cs, tb, cs.len() as int, e),
        forall|i: int|
            0 <= i < old_cur.len() && !(#[trigger] in_span_upto(cs, e, i, g)) ==> pre[i]
                == old_cur[i],
        clusters_grouped(cs) ==> (forall|gg: int|
            #[trigger] is_cluster_end(cs, gg) && gg < g ==> cluster_slots_ok(
                pre,
                old_cur,
                text,
                run,
                gg,
            )),
        forall|i: int| 0 <= i < pre.len() && !(tb <= i < te) ==> post[i] == pre[i],
        ({
            let count = count_pts(text, tb, te);
            if count <= 1 {
                post[tb] == bx && (forall|i: int| tb < i < te ==> post[i] == pre[i])
            } else {
                forall|i: int|
                    tb <= i < te ==> post[i] == (if is_cont(text[i]) {
                        pre[i]
                    } else {
                        spec_sub_box(bx, count, count_pts(text, tb, i))
                    })
            }
        }),
        bx == spec_cluster_union(run, cluster_begin(cs, g), g),
    ensures
        clusters_grouped(cs) ==> (forall|gg: int|
            #[trigger] is_cluster_end(cs, gg) && gg < g + 1 ==> cluster_slots_ok(
                post,
                old_cur,
                text,
                run,
                gg,
            )),
        forall|i: int|
            0 <= i < old_cur.len() && !(#[trigger] in_span_upto(cs, e, i, g + 1)) ==> post[i]
                == old_cur[i],
{
    assert(forall|x: int| 0 <= x < cs.len() ==> (#[trigger] cs[x]) < e);
    lemma_tight_end_bounds(cs, tb, cs.len() as int, e);
    if clusters_grouped(cs) {
        assert forall|i: int| tb <= i < te implies !in_span_upto(cs, e, i, g) by {
            if in_span_upto(cs, e, i, g) {
                let w = choose|gg: int|
                    #[trigger] is_cluster_end(cs, gg) && gg < g && cs[gg] <= i < spec_tight_end(
                        cs,
                        cs[gg] as int,
                        cs.len() as int,
                        e,
                    );
                lemma_spans_disjoint(cs, e, w, g);
            }
        }
        assert forall|i: int| tb <= i < te implies pre[i] == old_cur[i] by {
            assert(!in_span_upto(cs, e, i, g));
        }
        assert(cluster_slots_ok(post, old_cur, text, run, g)) by {
            let count = count_pts(text, tb, te);
            if count <= 1 {
                assert(post[tb] == bx);
                assert forall|i: int| tb < i < te implies post[i] == old_cur[i] by {
                    assert(post[i] == pre[i]);
                }
            } else {
                assert forall|i: int| tb <= i < te implies post[i] == (if is_cont(text[i]) {
                    old_cur[i]
                } else {
                    spec_sub_box(bx, count, count_pts(text, tb, i))
                }) by {
                    if is_cont(text[i]) {
                        assert(post[i] == pre[i]);
                    }
                }
            }
        }
        assert forall|gg: int| #[trigger] is_cluster_end(cs, gg) && gg < g + 1 implies
            cluster_slots_ok(post, old_cur, text, run, gg) by {
            if gg < g {
                lemma_spans_disjoint(cs, e, gg, g);
                let gtb = cs[gg] as int;
                let gte = spec_tight_end(cs, gtb, cs.len() as int, e);
                lemma_tight_end_bounds(cs, gtb, cs.len() as int, e);
                assert forall|i: int| gtb <= i < gte implies post[i] == pre[i] by {
                    assert(!(tb <= i < te)) by {
                        if cs[gg] < cs[g] {
                            assert(gte <= cs[g]);
                        } else {
                            assert(te <= cs[gg]);
                        }
                    }
                }
                assert(cluster_slots_ok(pre, old_cur, text, run, gg));
                assert(cluster_slots_ok(post, old_cur, text, run, gg)) by {
                    let count = count_pts(text, gtb, gte);
                    if count <= 1 {
                        assert(post[gtb] == pre[gtb]);
                        assert forall|i: int| gtb < i < gte implies post[i] == old_cur[i] by {
                            assert(pre[i] == old_cur[i]);
                        }
                    } else {
                        assert forall|i: int|
                            gtb <= i < gte implies post[i] == (if is_cont(text[i]) {
                            old_cur[i]
                        } else {
                            spec_sub_box(
                                spec_cluster_union(run, cluster_begin(cs, gg), gg),
                                count,
                                count_pts(text, gtb, i),
                            )
                        }) by {
                            assert(post[i] == pre[i]);
                        }
                    }
                }
            }
        }
    }
    assert forall|i: int|
        0 <= i < old_cur.len() && !(#[trigger] in_span_upto(cs, e, i, g + 1)) implies post[i]
        == old_cur[i] by {
        assert(!(tb <= i < te)) by {
            if tb <= i < te {
                assert(is_cluster_end(cs, g) && g < g + 1 && cs[g] <= i < spec_tight_end(
                    cs,
                    cs[g] as int,
                    cs.len() as int,
                    e,
                ));
            }
        }
        assert(!in_span_upto(cs, e, i, g)) by {
            if in_span_upto(cs, e, i, g) {
                let w = choose|gg: int|
                    #[trigger] is_cluster_end(cs, gg) && gg < g && cs[gg] <= i < spec_tight_end(
                        cs,
                        cs[gg] as int,
                        cs.len() as int,
                        e,
                    );
                assert(is_cluster_end(cs, w) && w < g + 1);
            }
        }
    }
}

/// Assign cursor rectangles for every cluster of one run.
///
/// Glyphs with equal cluster values form one cluster; a cluster's byte
/// span runs from its cluster value to the nearest other cluster value
/// above it (or the run's text end).  The union of the cluster's glyph
/// selection boxes is assigned to the span's byte offset when the span is
/// a single code point; a span of several code points divides the box into
/// equal-width sub-boxes, one per code point, left to right.
///
/// The contract pins the outcome: slots outside every cluster span are
/// untouched, and — when equal cluster values are adjacent, as every
/// shaper emits them — each cluster's span holds exactly the boxes above
/// (`cluster_slots_ok`).
#[verifier::rlimit(100)]
#[verifier::spinoff_prover]
pub fn set_character_bounds(cursors: &mut Vec<Rect>, text: &Vec<u8>, run: &ShapeRun)
    requires
        is_utf8(text@),
        text@.len() <= MAX_TEXT,
        run_wf(*run, text@),
        old(cursors)@.len() >= run.utf8_end,
    ensures
        final(cursors)@.len() == old(cursors)@.len(),
        forall|i: int|
            run.utf8_end <= i < old(cursors)@.len() ==> final(cursors)@[i] == old(cursors)@[i],
        forall|i: int|
            0 <= i < run.utf8_end ==> final(cursors)@[i] == old(cursors)@[i] || (rect_shape_ok(
                #[trigger] final(cursors)@[i],
            ) && is_boundary(text@, i)),
        forall|i: int|
            0 <= i < old(cursors)@.len() && !in_cluster_span(
                run.clusters@,
                run.utf8_end as int,
                i,
            ) ==> final(cursors)@[i] == old(cursors)@[i],
        clusters_grouped(run.clusters@) ==> (forall|g: int|
            #[trigger] is_cluster_end(run.clusters@, g) ==> cluster_slots_ok(
                final(cursors)@,
                old(cursors)@,
                text@,
                *run,
                g,
            )),
{
    let n = run.glyphs.len();
    let ghost cs = run.clusters@;
    let ghost e = run.utf8_end as int;
    let mut cluster_start: usize = 0;
    let mut glyph_index: usize = 0;
    while glyph_index < n
        invariant
            n == run.glyphs@.len(),
            cs == run.clusters@,
            e == run.utf8_end as int,
            glyph_index <= n,
            cluster_start <= glyph_index,
            is_utf8(text@),
            text@.len() <= MAX_TEXT,
            run_wf(*run, text@),
            cursors@.len() == old(cursors)@.len() >= run.utf8_end,
            forall|i: int|
                run.utf8_end <= i < old(cursors)@.len() ==> cursors@[i] == old(cursors)@[i],
            forall|i: int|
                0 <= i < run.utf8_end ==> cursors@[i] == old(cursors)@[i] || (rect_shape_ok(
                    #[trigger] cursors@[i],
                ) && is_boundary(text@, i)),
            forall|j: int| #![trigger cs[j]] cluster_start <= j < glyph_index ==> cs[j] == cs[j + 1],
            cluster_start == 0 || cluster_start >= n || cs[cluster_start - 1] != cs[cluster_start as int],
            clusters_grouped(cs) ==> (forall|g: int|
                #[trigger] is_cluster_end(cs, g) && g < glyph_index ==> cluster_slots_ok(
                    cursors@,
                    old(cursors)@,
                    text@,
                    *run,
                    g,
                )),
            forall|i: int|
                0 <= i < old(cursors)@.len() && !(#[trigger] in_span_upto(
                    cs,
                    e,
                    i,
                    glyph_index as int,
                )) ==> cursors@[i] == old(cursors)@[i],
        decreases n - glyph_index,
    {
        if glyph_index + 1 < n && run.clusters[glyph_index] == run.clusters[glyph_index + 1] {
            // multi-glyph cluster: wait for its last glyph
            proof {
                assert(!is_cluster_end(cs, glyph_index as int));
                assert forall|i: int|
                    0 <= i < old(cursors)@.len() && !(#[trigger] in_span_upto(
                        cs,
                        e,
                        i,
                        glyph_index + 1,
                    )) implies cursors@[i] == old(cursors)@[i] by {
                    if in_span_upto(cs, e, i, glyph_index as int) {
                        let w = choose|g: int|
                            #[trigger] is_cluster_end(cs, g) && g < glyph_index && cs[g] <= i
                                < spec_tight_end(cs, cs[g] as int, cs.len() as int, e);
                        assert(is_cluster_end(cs, w) && w < glyph_index + 1);
                    }
                }
            }
            glyph_index = glyph_index + 1;
            continue;
        }
        proof {
            assert(is_cluster_end(cs, glyph_index as int));
        }
        let text_begin = run.clusters[glyph_index];
        let ghost tb = text_begin as int;
        // tightest cluster value above `text_begin`, else the run's text end
        let mut text_end = run.utf8_end;
        let mut ci: usize = 0;
        while ci < n
            invariant
                n == run.clusters@.len(),
                cs == run.clusters@,
                e == run.utf8_end as int,
                ci <= n,
                run_wf(*run, text@),
                tb == text_begin as int,
                text_begin == run.clusters@[glyph_index as int],
                glyph_index < n,
                text_end == spec_tight_end(cs, tb, ci as int, e),
                text_begin < text_end <= run.utf8_end,
            decreases n - ci,
        {
            let cluster = run.clusters[ci];
            if cluster > text_begin && cluster < text_end {
                text_end = cluster;
            }
            ci = ci + 1;
        }
        // union of the cluster's glyph boxes
        let mut cluster_box = selection_box(
            run.ascent,
            run.descent,
            run.advances[cluster_start],
            run.positions[cluster_start],
        );
        let mut gi: usize = cluster_start + 1;
        while gi <= glyph_index
            invariant
                run_wf(*run, text@),
                cluster_start < gi <= glyph_index + 1,
                glyph_index < n == run.glyphs@.len(),
                cluster_box == spec_cluster_union(*run, cluster_start as int, gi - 1),
                -(MAX_COORD + MAX_METRIC) <= cluster_box.left <= MAX_COORD + MAX_METRIC,
                -(MAX_COORD + MAX_METRIC) <= cluster_box.top <= MAX_COORD + MAX_METRIC,
                -(MAX_COORD + MAX_METRIC) <= cluster_box.right <= MAX_COORD + MAX_METRIC,
                -(MAX_COORD + MAX_METRIC) <= cluster_box.bottom <= MAX_COORD + MAX_METRIC,
            decreases glyph_index + 1 - gi,
        {
            let b = selection_box(run.ascent, run.descent, run.advances[gi], run.positions[gi]);
            cluster_box.join(b);
            gi = gi + 1;
        }
        let ghost te = spec_tight_end(cs, tb, cs.len() as int, e);
        proof {
            assert(text_end == te);
            assert(cluster_box == spec_cluster_union(*run, cluster_start as int,
            glyph_index as int));
            lemma_cluster_begin_is(cs, glyph_index as int, cluster_start as int);
            assert(forall|x: int| 0 <= x < cs.len() ==> (#[trigger] cs[x]) < e);
        }
        // for the next cluster
        cluster_start = glyph_index + 1;
        let ghost pre = cursors@;
        assign_cluster_box(cursors, text, text_begin, text_end, cluster_box);
        proof {
            lemma_cluster_step(
                cs,
                e,
                text@,
                *run,
                old(cursors)@,
                pre,
                cursors@,
                glyph_index as int,
                tb,
                te,
                cluster_box,
            );
        }
        glyph_index = glyph_index + 1;
    }
}

/// Number of code-point starts (non-continuation bytes) in `s[a..b]`.
pub open spec fn count_pts(s: Seq<u8>, a: int, b: int) -> int
    decreases b - a,
{
    if a >= b {
        0
    } else {
        (if is_cont(s[a]) {
            0int
        } else {
            1int
        }) + count_pts(s, a + 1, b)
    }
}

proof fn lemma_count_pts_snoc(s: Seq<u8>, a: int, b: int)
    requires
        a <= b,
    ensures
        count_pts(s, a, b + 1) == count_pts(s, a, b) + (if is_cont(s[b]) {
            0int
        } else {
            1int
        }),
    decreases b - a,
{
    if a < b {
        lemma_count_pts_snoc(s, a + 1, b);
    } else {
        assert(count_pts(s, b + 1, b + 1) == 0);
        assert(count_pts(s, a, b) == 0);
    }
}

proof fn lemma_count_pts_mono(s: Seq<u8>, a: int, b: int, c: int)
    requires
        a <= b <= c,
    ensures
        0 <= count_pts(s, a, b) <= count_pts(s, a, c),
    decreases c - b,
{
    if b == c {
        lemma_count_pts_nonneg(s, a, b);
    } else {
        lemma_count_pts_mono(s, a, b, c - 1);
        lemma_count_pts_snoc(s, a, c - 1);
        lemma_count_pts_nonneg(s, a, b);
    }
}

proof fn lemma_count_pts_nonneg(s: Seq<u8>, a: int, b: int)
    ensures
        0 <= count_pts(s, a, b) <= (if b > a {
            b - a
        } else {
            0int
        }),
    decreases b - a,
{
    if a < b {
        lemma_count_pts_nonneg(s, a + 1, b);
    }
}

/// The sub-box width a cluster box is divided into, one share per code
/// point: an equal split of the box width, never below one device unit.
pub open spec fn spec_sub_width(cluster_box: Rect, count: int) -> int {
    let bw: int = if cluster_box.right > cluster_box.left {
        cluster_box.right - cluster_box.left
    } else {
        0
    };
    if bw / count < 1 {
        1
    } else {
        bw / count
    }
}

/// The sub-box assigned to the `idx`-th code point of a divided cluster.
pub open spec fn spec_sub_box(cluster_box: Rect, count: int, idx: int) -> Rect {
    let w = spec_sub_width(cluster_box, count);
    Rect {
        left: (cluster_box.left + idx * w) as i64,
        top: cluster_box.top,
        right: (cluster_box.left + idx * w + w) as i64,
        bottom: cluster_box.bottom,
    }
}

/// Write one cluster's box over its byte span `[text_begin, text_end)`:
/// directly when the span is one code point, else split into equal-width
/// sub-boxes assigned to each code point's starting byte.
fn assign_cluster_box(
    cursors: &mut Vec<Rect>,
    text: &Vec<u8>,
    text_begin: usize,
    text_end: usize,
    cluster_box: Rect,
)
    requires
        is_utf8(text@),
        text@.len() <= MAX_TEXT,
        text_begin < text_end <= text@.len(),
        text_end <= old(cursors)@.len(),
        is_boundary(text@, text_begin as int),
        -(MAX_COORD + MAX_METRIC) <= cluster_box.left <= MAX_COORD + MAX_METRIC,
        -(MAX_COORD + MAX_METRIC) <= cluster_box.top <= MAX_COORD + MAX_METRIC,
        -(MAX_COORD + MAX_METRIC) <= cluster_box.right <= MAX_COORD + MAX_METRIC,
        -(MAX_COORD + MAX_METRIC) <= cluster_box.bottom <= MAX_COORD + MAX_METRIC,
    ensures
        final(cursors)@.len() == old(cursors)@.len(),
        forall|i: int|
            0 <= i < old(cursors)@.len() && !(text_begin <= i < text_end) ==> final(cursors)@[i]
                == old(cursors)@[i],
        forall|i: int|
            text_begin <= i < text_end ==> final(cursors)@[i] == old(cursors)@[i] || (
            rect_shape_ok(#[trigger] final(cursors)@[i]) && is_boundary(text@, i)),
        ({
            let count = count_pts(text@, text_begin as int, text_end as int);
            if count <= 1 {
                final(cursors)@[text_begin as int] == cluster_box && (forall|i: int|
                    text_begin < i < text_end ==> final(cursors)@[i] == old(cursors)@[i])
            } else {
                forall|i: int|
                    text_begin <= i < text_end ==> #[trigger] final(cursors)@[i] == (if is_cont(
                        text@[i],
                    ) {
                        old(cursors)@[i]
                    } else {
                        spec_sub_box(cluster_box, count, count_pts(text@, text_begin as int, i))
                    })
            }
        }),
{
    // number of code points in the span
    let mut count: usize = 0;
    let mut j: usize = text_begin;
    while j < text_end
        invariant
            text_begin <= j <= text_end <= text@.len(),
            count == count_pts(text@, text_begin as int, j as int),
            count <= j - text_begin,
        decreases text_end - j,
    {
        proof {
            lemma_count_pts_snoc(text@, text_begin as int, j as int);
        }
        if !(0x80 <= text[j] && text[j] < 0xC0) {
            count = count + 1;
        }
        j = j + 1;
    }
    if count <= 1 {
        // single code point (or single byte): the box is the caret box
        let slot = &mut cursors[text_begin];
        *slot = cluster_box;
        return ;
    }
    // several code points: equal-width sub-boxes, left to right
    let bw = if cluster_box.right > cluster_box.left {
        cluster_box.right - cluster_box.left
    } else {
        0
    };
    let q = bw / (count as i64);
    let width: i64 = if q < 1 {
        1
    } else {
        q
    };
    let ghost cap: int = if bw > count as int {
        bw as int
    } else {
        count as int
    };
    proof {
        assert((count as i64) * width <= cap) by (nonlinear_arith)
            requires
                count >= 1,
                width >= 1,
                bw >= 0,
                cap == (if bw > count as int {
                    bw as int
                } else {
                    count as int
                }),
                width == (if (bw as int) / (count as int) < 1 {
                    1int
                } else {
                    (bw as int) / (count as int)
                }),
        ;
    }
    let mut x = cluster_box.left;
    let mut placed: usize = 0;
    let mut j: usize = text_begin;
    while j < text_end
        invariant
            text_begin <= j <= text_end <= text@.len(),
            text_end <= cursors@.len(),
            1 <= count <= MAX_TEXT,
            width >= 1,
            0 <= bw <= 2 * (MAX_COORD + MAX_METRIC),
            cap == (if bw > count as int {
                bw as int
            } else {
                count as int
            }),
            (count as i64) * width <= cap,
            placed == count_pts(text@, text_begin as int, j as int),
            count == count_pts(text@, text_begin as int, text_end as int),
            placed <= count,
            -(MAX_COORD + MAX_METRIC) <= cluster_box.left <= MAX_COORD + MAX_METRIC,
            -(MAX_COORD + MAX_METRIC) <= cluster_box.top <= MAX_COORD + MAX_METRIC,
            -(MAX_COORD + MAX_METRIC) <= cluster_box.bottom <= MAX_COORD + MAX_METRIC,
            x == cluster_box.left + placed * width,
            width == spec_sub_width(cluster_box, count as int),
            forall|i: int|
                text_begin <= i < j ==> #[trigger] cursors@[i] == (if is_cont(text@[i]) {
                    old(cursors)@[i]
                } else {
                    spec_sub_box(cluster_box, count as int, count_pts(text@, text_begin as int, i))
                }),
            forall|i: int| j <= i < text_end ==> #[trigger] cursors@[i] == old(cursors)@[i],
            cursors@.len() == old(cursors)@.len(),
            forall|i: int|
                0 <= i < old(cursors)@.len() && !(text_begin <= i < text_end) ==> cursors@[i]
                    == old(cursors)@[i],
            forall|i: int|
                text_begin <= i < text_end ==> cursors@[i] == old(cursors)@[i] || (rect_shape_ok(
                    #[trigger] cursors@[i],
                ) && is_boundary(text@, i)),
        decreases text_end - j,
    {
        proof {
            lemma_count_pts_snoc(text@, text_begin as int, j as int);
            lemma_count_pts_mono(text@, text_begin as int, j + 1, text_end as int);
        }
        if !(0x80 <= text[j] && text[j] < 0xC0) {
            proof {
                assert(placed + 1 <= count);
                assert((placed + 1) * width == placed * width + width) by (nonlinear_arith);
                assert(placed * width >= 0 && (placed + 1) * width <= (count as int) * width)
                    by (nonlinear_arith)
                    requires
                        0 <= placed,
                        placed + 1 <= count,
                        width >= 1,
                ;
            }
            let r = Rect {
                left: x,
                top: cluster_box.top,
                right: x + width,
                bottom: cluster_box.bottom,
            };
            let slot = &mut cursors[j];
            *slot = r;
            x = x + width;
            placed = placed + 1;
        }
        j = j + 1;
    }
}

} // verus!
