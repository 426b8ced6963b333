//! The buffer's general guarantees, stated once over the document model
//! and proved for every document and position.  The buffer's operations
//! promise in their contracts to compute exactly these model functions,
//! so each law transfers directly to the executable editor.
//!
//! Two further guarantees live directly in operation contracts rather
//! than here: a freshly laid-out line always has one cursor slot per text
//! byte plus the trailing caret (`Editor::reshape_all`), and the position
//! an insertion returns never splits a multi-byte code point
//! (`Editor::insert` ensures it is valid for the new document).

use vstd::prelude::*;
use crate::model::{
    find_fwd, insert_lines, insert_pos, lemma_normalize_of_valid, lemma_normalize_wf, lines_sized,
    lines_wf, move_left_at, move_right_at, move_spec, normalize, pos_wf, remove_lines,
};
use crate::position::{Movement, TextPosition};
use crate::text::{lemma_split_lines_single, no_nl, split_lines};
use crate::utf8::{
    is_boundary, is_cont, lemma_boundary_junction, lemma_next_boundary,
    lemma_snap_down_at_boundary, lemma_snap_down_props, lemma_snap_down_tight, lemma_utf8_split,
    snap_down,
};

verus! {

/// The position after the last byte of the last paragraph.
pub open spec fn doc_end(ls: Seq<Seq<u8>>) -> TextPosition {
    TextPosition {
        paragraph_index: (ls.len() - 1) as usize,
        text_byte_index: ls.last().len() as usize,
    }
}

/// Clamping a position to the document (`move` with `Nowhere`) always
/// yields a valid position — paragraph in range, byte on a code-point
/// boundary — and doing it twice is the same as doing it once.
pub proof fn lemma_move_nowhere_idempotent(ls: Seq<Seq<u8>>, p: TextPosition)
    requires
        lines_sized(ls),
    ensures
        pos_wf(ls, move_spec(ls, Movement::Nowhere, p)),
        move_spec(ls, Movement::Nowhere, move_spec(ls, Movement::Nowhere, p)) == move_spec(
            ls,
            Movement::Nowhere,
            p,
        ),
{
    lemma_normalize_wf(ls, p);
    if ls.len() > 0 {
        lemma_normalize_of_valid(ls, normalize(ls, p));
    }
}

/// `find_fwd` starting at a boundary whose next boundary is `n` bytes
/// ahead (nothing but continuation bytes in between) finds exactly it.
proof fn lemma_find_fwd_exact(s: Seq<u8>, i: int, n: int)
    requires
        1 <= n <= 4,
        0 <= i,
        i + n <= s.len(),
        is_boundary(s, i + n),
        forall|j: int| i < j < i + n ==> is_cont(s[j]),
    ensures
        find_fwd(s, i, 1) == Some(i + n),
{
    reveal_with_fuel(find_fwd, 6);
    assert(forall|j: int| i < j < i + n ==> !is_boundary(s, j));
}

/// Past the end of the line the bounded forward scan finds nothing.
proof fn lemma_find_fwd_none(s: Seq<u8>, i: int)
    requires
        i >= s.len(),
    ensures
        find_fwd(s, i, 1) is None,
{
    reveal_with_fuel(find_fwd, 6);
}

/// One step right then one step left returns to where it started, for
/// every valid position except the document end.
pub proof fn lemma_right_then_left(ls: Seq<Seq<u8>>, p: TextPosition)
    requires
        lines_wf(ls),
        lines_sized(ls),
        ls.len() > 0,
        pos_wf(ls, p),
        p != doc_end(ls),
    ensures
        move_left_at(ls, move_right_at(ls, p)) == p,
{
    let s = ls[p.paragraph_index as int];
    let b = p.text_byte_index as int;
    if b < s.len() {
        lemma_next_boundary(s, b);
        let n = lead_gap(s, b);
        lemma_find_fwd_exact(s, b, n);
        let q = move_right_at(ls, p);
        assert(q.text_byte_index == b + n);
        if n == 1 {
            lemma_snap_down_at_boundary(s, b);
        } else {
            crate::utf8::lemma_snap_down_is(s, b + n - 1, b);
        }
    } else {
        lemma_find_fwd_none(s, b);
        assert(p.paragraph_index + 1 < ls.len()) by {
            if p.paragraph_index + 1 == ls.len() {
                assert(p == doc_end(ls));
            }
        }
        let q = move_right_at(ls, p);
        assert(q.text_byte_index == 0 && q.paragraph_index == p.paragraph_index + 1);
    }
}

/// The length of the code point starting at a boundary.
spec fn lead_gap(s: Seq<u8>, i: int) -> int {
    crate::utf8::lead_len(s[i])
}

/// At the document end a step right stays put.
pub proof fn lemma_right_at_end(ls: Seq<Seq<u8>>)
    requires
        lines_wf(ls),
        lines_sized(ls),
        ls.len() > 0,
    ensures
        move_right_at(ls, doc_end(ls)) == doc_end(ls),
{
    let p = doc_end(ls);
    lemma_find_fwd_none(ls[p.paragraph_index as int], p.text_byte_index as int);
}

/// One step left then one step right returns to where it started, for
/// every valid position except the document start (where a step left
/// stays put).
pub proof fn lemma_left_then_right(ls: Seq<Seq<u8>>, p: TextPosition)
    requires
        lines_wf(ls),
        lines_sized(ls),
        ls.len() > 0,
        pos_wf(ls, p),
        !(p.paragraph_index == 0 && p.text_byte_index == 0),
    ensures
        move_right_at(ls, move_left_at(ls, p)) == p,
{
    let s = ls[p.paragraph_index as int];
    let b = p.text_byte_index as int;
    if b > 0 {
        lemma_snap_down_props(s, b - 1);
        lemma_snap_down_tight(s, b - 1);
        let q = snap_down(s, b - 1);
        assert(0 <= q <= b - 1);
        lemma_next_boundary(s, q);
        let n = lead_gap(s, q);
        assert(q + n == b) by {
            if q + n < b {
                assert(is_cont(s[q + n]));
                assert(is_boundary(s, q + n));
            } else if q + n > b {
                assert(is_cont(s[b]));
            }
        }
        lemma_find_fwd_exact(s, q, n);
    } else {
        let prev = ls[p.paragraph_index - 1];
        lemma_find_fwd_none(prev, prev.len() as int);
    }
}

/// The text a removal takes out: the bytes of the range, with a newline
/// at each paragraph break it crosses.
pub open spec fn removed_text(ls: Seq<Seq<u8>>, start: TextPosition, end: TextPosition) -> Seq<
    u8,
> {
    let si = start.paragraph_index as int;
    let sb = start.text_byte_index as int;
    let ei = end.paragraph_index as int;
    let eb = end.text_byte_index as int;
    if si == ei {
        ls[si].subrange(sb, eb)
    } else {
        crate::text::join_nl(
            seq![ls[si].skip(sb)] + ls.subrange(si + 1, ei) + seq![ls[ei].take(eb)],
        )
    }
}

/// Removing any range and re-inserting the exact removed text at the
/// range's start restores the document, and the insertion lands back at
/// the range's end.
pub proof fn lemma_remove_insert_roundtrip(ls: Seq<Seq<u8>>, start: TextPosition, end: TextPosition)
    requires
        lines_wf(ls),
        lines_sized(ls),
        ls.len() > 0,
        start.spec_le(end),
        pos_wf(ls, start),
        pos_wf(ls, end),
    ensures
        ({
            let after = remove_lines(ls, start, end);
            let parts = split_lines(removed_text(ls, start, end));
            &&& normalize(after, start) == start
            &&& insert_lines(after, start, parts) == ls
            &&& insert_pos(after, start, parts) == end
        }),
{
    let si = start.paragraph_index as int;
    let sb = start.text_byte_index as int;
    let ei = end.paragraph_index as int;
    let eb = end.text_byte_index as int;
    let after = remove_lines(ls, start, end);
    if si == ei {
        let line = ls[si];
        let removed = line.subrange(sb, eb);
        let nl = line.take(sb) + line.skip(eb);
        assert(after == ls.update(si, nl));
        assert(no_nl(removed)) by {
            assert(forall|j: int| 0 <= j < removed.len() ==> removed[j] == line[j + sb]);
        }
        lemma_split_lines_single(removed);
        lemma_utf8_split(line, sb);
        lemma_utf8_split(line, eb);
        lemma_boundary_junction(line.take(sb), line.skip(eb));
        assert(is_boundary(nl, sb));
        lemma_snap_down_at_boundary(nl, sb);
        assert(normalize(after, start) == start);
        let parts = split_lines(removed);
        assert(parts.len() == 1 && parts[0] == removed);
        assert(nl.take(sb) =~= line.take(sb));
        assert(nl.skip(sb) =~= line.skip(eb));
        assert(nl.take(sb) + removed + nl.skip(sb) =~= line);
        assert(insert_lines(after, start, parts) =~= ls);
        assert(insert_pos(after, start, parts).text_byte_index == sb + removed.len());
        assert(insert_pos(after, start, parts) == end);
    } else {
        let h = ls[si];
        let t = ls[ei];
        let merged = h.take(sb) + t.skip(eb);
        assert(after =~= ls.take(si) + seq![merged] + ls.skip(ei + 1));
        let rp = seq![h.skip(sb)] + ls.subrange(si + 1, ei) + seq![t.take(eb)];
        let m = rp.len();
        assert(m == ei - si + 1);
        assert(forall|k: int| 0 <= k < rp.len() ==> no_nl(#[trigger] rp[k])) by {
            assert(no_nl(rp[0])) by {
                assert(forall|j: int| 0 <= j < rp[0].len() ==> rp[0][j] == h[j + sb]);
            }
            assert(no_nl(rp[m - 1])) by {
                assert(forall|j: int| 0 <= j < rp[m - 1].len() ==> rp[m - 1][j] == t[j]);
            }
            assert(forall|k: int| 1 <= k < m - 1 ==> rp[k] == ls[si + k]);
        }
        crate::text::lemma_split_join(rp);
        let parts = split_lines(removed_text(ls, start, end));
        assert(parts == rp);
        // the start stays a valid position of the merged line
        lemma_utf8_split(h, sb);
        lemma_utf8_split(t, eb);
        lemma_boundary_junction(h.take(sb), t.skip(eb));
        assert(is_boundary(merged, sb));
        assert(after[si] == merged);
        lemma_snap_down_at_boundary(merged, sb);
        assert(normalize(after, start) == start);
        // splicing the pieces back in rebuilds every original line
        let back = insert_lines(after, start, parts);
        assert(merged.take(sb) =~= h.take(sb));
        assert(merged.skip(sb) =~= t.skip(eb));
        assert(merged.take(sb) + parts[0] =~= h);
        assert(parts.last() + merged.skip(sb) =~= t);
        assert(after.take(si) =~= ls.take(si));
        assert(after.skip(si + 1) =~= ls.skip(ei + 1));
        assert(parts.subrange(1, m - 1) =~= ls.subrange(si + 1, ei));
        assert(back =~= ls);
        assert(insert_pos(after, start, parts).paragraph_index == ei);
        assert(insert_pos(after, start, parts).text_byte_index == eb);
        assert(insert_pos(after, start, parts) == end);
    }
}

/// Total order rank of a position: bytes of the paragraphs above it (one
/// extra per separating newline) plus its byte index.
pub open spec fn len_sum(ls: Seq<Seq<u8>>, j: int) -> int
    decreases j,
{
    if j <= 0 {
        0
    } else {
        len_sum(ls, j - 1) + ls[j - 1].len() + 1
    }
}

pub open spec fn pos_rank(ls: Seq<Seq<u8>>, p: TextPosition) -> int {
    len_sum(ls, p.paragraph_index as int) + p.text_byte_index
}

proof fn lemma_len_sum_mono(ls: Seq<Seq<u8>>, a: int, b: int)
    requires
        0 <= a <= b,
    ensures
        len_sum(ls, a) <= len_sum(ls, b),
    decreases b - a,
{
    if a < b {
        lemma_len_sum_mono(ls, a, b - 1);
    }
}

/// The lexicographic order on valid positions agrees with their rank.
pub proof fn lemma_rank_order(ls: Seq<Seq<u8>>, p: TextPosition, q: TextPosition)
    requires
        ls.len() > 0,
        pos_wf(ls, p),
        pos_wf(ls, q),
        p.spec_lt(q),
    ensures
        pos_rank(ls, p) < pos_rank(ls, q),
{
    if p.paragraph_index < q.paragraph_index {
        lemma_len_sum_mono(ls, p.paragraph_index + 1, q.paragraph_index as int);
    }
}

/// A step right from any valid position short of the document end moves
/// strictly forward, to the very next valid position.
pub proof fn lemma_move_right_advances(ls: Seq<Seq<u8>>, p: TextPosition)
    requires
        lines_wf(ls),
        lines_sized(ls),
        ls.len() > 0,
        pos_wf(ls, p),
        p != doc_end(ls),
    ensures
        pos_wf(ls, move_right_at(ls, p)),
        p.spec_lt(move_right_at(ls, p)),
        forall|q: TextPosition|
            #[trigger] pos_wf(ls, q) && p.spec_lt(q) ==> move_right_at(ls, p).spec_le(q),
{
    crate::model::lemma_move_wf(ls, p);
    let s = ls[p.paragraph_index as int];
    let b = p.text_byte_index as int;
    let r = move_right_at(ls, p);
    if b < s.len() {
        lemma_next_boundary(s, b);
        let n = lead_gap(s, b);
        lemma_find_fwd_exact(s, b, n);
        assert(r.text_byte_index == b + n);
        assert forall|q: TextPosition| #[trigger] pos_wf(ls, q) && p.spec_lt(q) implies r.spec_le(
            q,
        ) by {
            if q.paragraph_index == p.paragraph_index {
                assert(q.text_byte_index > b);
                if q.text_byte_index < b + n {
                    assert(is_cont(s[q.text_byte_index as int]));
                }
            }
        }
    } else {
        lemma_find_fwd_none(s, b);
        assert(p.paragraph_index + 1 < ls.len()) by {
            if p.paragraph_index + 1 == ls.len() {
                assert(p == doc_end(ls));
            }
        }
        assert forall|q: TextPosition| #[trigger] pos_wf(ls, q) && p.spec_lt(q) implies r.spec_le(
            q,
        ) by {
            if q.paragraph_index == p.paragraph_index {
                assert(q.text_byte_index > s.len());
            }
        }
    }
}

} // verus!
