//! The mathematical model of the buffer: a document is a sequence of
//! newline-free UTF-8 byte sequences, and every edit and caret movement is
//! a function on that sequence.  The executable buffer promises in its
//! contracts to compute exactly these functions.

use vstd::prelude::*;
use crate::position::TextPosition;
use crate::text::no_nl;
use crate::utf8::{
    is_boundary, is_utf8, lemma_snap_down_at_boundary, lemma_snap_down_props, snap_down,
};

verus! {

/// Every paragraph is structurally valid UTF-8 and free of hard newlines.
pub open spec fn lines_wf(ls: Seq<Seq<u8>>) -> bool {
    forall|k: int| 0 <= k < ls.len() ==> is_utf8(#[trigger] ls[k]) && no_nl(ls[k])
}

/// A position is valid for a document when its paragraph exists and its
/// byte index sits on a code-point boundary of that paragraph (for the
/// empty document only the sentinel `(0, 0)` is valid).
pub open spec fn pos_wf(ls: Seq<Seq<u8>>, p: TextPosition) -> bool {
    if ls.len() == 0 {
        p.paragraph_index == 0 && p.text_byte_index == 0
    } else {
        &&& p.paragraph_index < ls.len()
        &&& p.text_byte_index <= ls[p.paragraph_index as int].len()
        &&& is_boundary(ls[p.paragraph_index as int], p.text_byte_index as int)
    }
}

/// Total number of text bytes in the document.
pub open spec fn total_len(ls: Seq<Seq<u8>>) -> int
    decreases ls.len(),
{
    if ls.len() == 0 {
        0
    } else {
        ls[0].len() + total_len(ls.drop_first())
    }
}

/// Clamp an arbitrary position onto the document: out-of-range paragraphs
/// land at the end of the last line, byte indices snap down to the nearest
/// boundary at or below them.
pub open spec fn normalize(ls: Seq<Seq<u8>>, p: TextPosition) -> TextPosition {
    if ls.len() == 0 {
        TextPosition { paragraph_index: 0, text_byte_index: 0 }
    } else if p.paragraph_index >= ls.len() {
        TextPosition {
            paragraph_index: (ls.len() - 1) as usize,
            text_byte_index: ls.last().len() as usize,
        }
    } else {
        TextPosition {
            paragraph_index: p.paragraph_index,
            text_byte_index: snap_down(
                ls[p.paragraph_index as int],
                p.text_byte_index as int,
            ) as usize,
        }
    }
}

/// One step left from a normalized position: to the previous boundary in
/// the line, or to the end of the previous paragraph from byte 0.
pub open spec fn move_left_at(ls: Seq<Seq<u8>>, p: TextPosition) -> TextPosition {
    if p.text_byte_index == 0 {
        if p.paragraph_index > 0 {
            TextPosition {
                paragraph_index: (p.paragraph_index - 1) as usize,
                text_byte_index: ls[p.paragraph_index - 1].len() as usize,
            }
        } else {
            p
        }
    } else {
        TextPosition {
            paragraph_index: p.paragraph_index,
            text_byte_index: snap_down(
                ls[p.paragraph_index as int],
                p.text_byte_index - 1,
            ) as usize,
        }
    }
}

/// The first boundary within the next four bytes after `i`, mirroring the
/// bounded forward scan of the caret (four bytes is the longest UTF-8
/// sequence).
pub open spec fn find_fwd(s: Seq<u8>, i: int, d: int) -> Option<int>
    decreases 5 - d,
{
    if d > 4 {
        None
    } else if i + d <= s.len() && is_boundary(s, i + d) {
        Some(i + d)
    } else {
        find_fwd(s, i, d + 1)
    }
}

/// One step right from a normalized position: to the next boundary in the
/// line, else to byte 0 of the next paragraph, else unchanged (document
/// end).
pub open spec fn move_right_at(ls: Seq<Seq<u8>>, p: TextPosition) -> TextPosition {
    let s = ls[p.paragraph_index as int];
    match find_fwd(s, p.text_byte_index as int, 1) {
        Some(j) => TextPosition { paragraph_index: p.paragraph_index, text_byte_index: j as usize },
        None => if p.paragraph_index + 1 < ls.len() {
            TextPosition {
                paragraph_index: (p.paragraph_index + 1) as usize,
                text_byte_index: 0,
            }
        } else {
            p
        },
    }
}

/// The complete movement function: normalize, then step.  An empty
/// document pins the caret at the sentinel.  Only `Nowhere`, `Left` and
/// `Right` are defined movements; for any other kind this yields the
/// normalized position, but the buffer refuses those kinds outright.
pub open spec fn move_spec(
    ls: Seq<Seq<u8>>,
    m: crate::position::Movement,
    p: TextPosition,
) -> TextPosition {
    if ls.len() == 0 {
        TextPosition { paragraph_index: 0, text_byte_index: 0 }
    } else {
        let np = normalize(ls, p);
        match m {
            crate::position::Movement::Left => move_left_at(ls, np),
            crate::position::Movement::Right => move_right_at(ls, np),
            _ => np,
        }
    }
}

/// Result of inserting the newline-split `parts` at normalized position
/// `p`: the target line is split at the byte index, the first part goes to
/// the head, interior parts become new paragraphs, and the last part takes
/// over the original tail.  Into an empty document the parts become the
/// document.
pub open spec fn insert_lines(ls: Seq<Seq<u8>>, p: TextPosition, parts: Seq<Seq<u8>>) -> Seq<
    Seq<u8>,
> {
    let pi = p.paragraph_index as int;
    let bi = p.text_byte_index as int;
    if ls.len() == 0 {
        parts
    } else if parts.len() == 1 {
        ls.update(pi, ls[pi].take(bi) + parts[0] + ls[pi].skip(bi))
    } else {
        ls.take(pi) + seq![ls[pi].take(bi) + parts[0]] + parts.subrange(1, parts.len() - 1)
            + seq![parts.last() + ls[pi].skip(bi)] + ls.skip(pi + 1)
    }
}

/// The position immediately after the inserted text.
pub open spec fn insert_pos(ls: Seq<Seq<u8>>, p: TextPosition, parts: Seq<Seq<u8>>) -> TextPosition {
    if ls.len() == 0 {
        TextPosition {
            paragraph_index: (parts.len() - 1) as usize,
            text_byte_index: parts.last().len() as usize,
        }
    } else if parts.len() == 1 {
        TextPosition {
            paragraph_index: p.paragraph_index,
            text_byte_index: (p.text_byte_index + parts[0].len()) as usize,
        }
    } else {
        TextPosition {
            paragraph_index: (p.paragraph_index + parts.len() - 1) as usize,
            text_byte_index: parts.last().len() as usize,
        }
    }
}

/// Result of removing `[start, end)`.  Within one paragraph the byte range
/// goes; across paragraphs the tail merges into the head — the head keeps
/// its prefix up to `start` plus the tail paragraph's suffix from `end`
/// on — and every paragraph after the head up to and including the tail
/// is deleted.
pub open spec fn remove_lines(ls: Seq<Seq<u8>>, start: TextPosition, end: TextPosition) -> Seq<
    Seq<u8>,
> {
    let si = start.paragraph_index as int;
    let sb = start.text_byte_index as int;
    let ei = end.paragraph_index as int;
    let eb = end.text_byte_index as int;
    if si == ei {
        ls.update(si, ls[si].take(sb) + ls[si].skip(eb))
    } else {
        ls.take(si) + seq![ls[si].take(sb) + ls[ei].skip(eb)] + ls.skip(ei + 1)
    }
}

/// Cap on the number of paragraphs a document may hold.
pub const MAX_LINES: usize = 0x4000_0000;

/// Cap on the total number of text bytes a document may hold.
pub const MAX_TEXT: usize = 0x4000_0000;

/// Document sizes that fit the machine: paragraph count and line lengths
/// bounded so that pixel sums stay inside `i64` and indices inside `usize`.
pub open spec fn lines_sized(ls: Seq<Seq<u8>>) -> bool {
    &&& ls.len() <= MAX_LINES
    &&& forall|k: int| 0 <= k < ls.len() ==> #[trigger] ls[k].len() <= MAX_TEXT
}

pub proof fn lemma_total_len_nonneg(ls: Seq<Seq<u8>>)
    ensures
        0 <= total_len(ls),
        forall|k: int| 0 <= k < ls.len() ==> #[trigger] ls[k].len() <= total_len(ls),
    decreases ls.len(),
{
    if ls.len() > 0 {
        lemma_total_len_nonneg(ls.drop_first());
        assert(forall|k: int| 1 <= k < ls.len() ==> ls[k] == ls.drop_first()[k - 1]);
    }
}

pub proof fn lemma_total_len_concat(a: Seq<Seq<u8>>, b: Seq<Seq<u8>>)
    ensures
        total_len(a + b) == total_len(a) + total_len(b),
    decreases a.len(),
{
    if a.len() == 0 {
        assert(a + b =~= b);
    } else {
        assert((a + b).drop_first() =~= a.drop_first() + b);
        assert((a + b)[0] == a[0]);
        lemma_total_len_concat(a.drop_first(), b);
    }
}

pub proof fn lemma_total_len_split(ls: Seq<Seq<u8>>, i: int)
    requires
        0 <= i <= ls.len(),
    ensures
        total_len(ls) == total_len(ls.take(i)) + total_len(ls.skip(i)),
{
    assert(ls =~= ls.take(i) + ls.skip(i));
    lemma_total_len_concat(ls.take(i), ls.skip(i));
}

pub proof fn lemma_total_len_update(ls: Seq<Seq<u8>>, i: int, v: Seq<u8>)
    requires
        0 <= i < ls.len(),
    ensures
        total_len(ls.update(i, v)) == total_len(ls) - ls[i].len() + v.len(),
{
    let u = ls.update(i, v);
    lemma_total_len_split(ls, i);
    lemma_total_len_split(u, i);
    assert(u.take(i) =~= ls.take(i));
    lemma_total_len_split(ls.skip(i), 1);
    lemma_total_len_split(u.skip(i), 1);
    assert(u.skip(i).take(1) =~= seq![v]);
    assert(ls.skip(i).take(1) =~= seq![ls[i]]);
    assert(u.skip(i).skip(1) =~= ls.skip(i).skip(1));
    assert(total_len(seq![v]) == v.len()) by {
        assert(seq![v].drop_first() =~= Seq::<Seq<u8>>::empty());
    }
    assert(total_len(seq![ls[i]]) == ls[i].len()) by {
        assert(seq![ls[i]].drop_first() =~= Seq::<Seq<u8>>::empty());
    }
}

pub proof fn lemma_total_len_singleton(v: Seq<u8>)
    ensures
        total_len(seq![v]) == v.len(),
{
    assert(total_len(Seq::<Seq<u8>>::empty()) == 0);
    assert(seq![v].drop_first() =~= Seq::<Seq<u8>>::empty());
    assert(seq![v][0] == v);
}

/// A multi-part insert grows the document by exactly the bytes of the
/// parts.
pub proof fn lemma_insert_total(ls: Seq<Seq<u8>>, p: TextPosition, parts: Seq<Seq<u8>>)
    requires
        ls.len() > 0,
        pos_wf(ls, p),
        parts.len() >= 2,
    ensures
        total_len(insert_lines(ls, p, parts)) == total_len(ls) + total_len(parts),
{
    let pi = p.paragraph_index as int;
    let bi = p.text_byte_index as int;
    let m = parts.len() as int;
    let head = ls[pi].take(bi) + parts[0];
    let tail = parts.last() + ls[pi].skip(bi);
    let mid = parts.subrange(1, m - 1);
    let r = insert_lines(ls, p, parts);
    assert(r =~= ls.take(pi) + (seq![head] + (mid + (seq![tail] + ls.skip(pi + 1)))));
    lemma_total_len_concat(ls.take(pi), seq![head] + (mid + (seq![tail] + ls.skip(pi + 1))));
    lemma_total_len_concat(seq![head], mid + (seq![tail] + ls.skip(pi + 1)));
    lemma_total_len_concat(mid, seq![tail] + ls.skip(pi + 1));
    lemma_total_len_concat(seq![tail], ls.skip(pi + 1));
    lemma_total_len_singleton(head);
    lemma_total_len_singleton(tail);
    lemma_total_len_split(ls, pi);
    lemma_total_len_split(ls.skip(pi), 1);
    assert(ls.skip(pi).take(1) =~= seq![ls[pi]]);
    lemma_total_len_singleton(ls[pi]);
    assert(ls.skip(pi).skip(1) =~= ls.skip(pi + 1));
    assert(parts =~= seq![parts[0]] + (mid + seq![parts.last()]));
    lemma_total_len_concat(seq![parts[0]], mid + seq![parts.last()]);
    lemma_total_len_concat(mid, seq![parts.last()]);
    lemma_total_len_singleton(parts[0]);
    lemma_total_len_singleton(parts.last());
}

/// The pieces of a newline split carry every byte but the newlines.
pub proof fn lemma_split_total(t: Seq<u8>)
    ensures
        total_len(crate::text::split_lines(t)) + crate::text::count_nl(t) == t.len(),
    decreases t.len(),
{
    crate::text::lemma_find_nl_bounds(t);
    let k = crate::text::find_nl(t);
    let sp = crate::text::split_lines(t);
    if k >= t.len() {
        assert(sp =~= seq![t]);
        crate::text::lemma_count_nl_none(t);
        assert(sp.drop_first() =~= Seq::<Seq<u8>>::empty());
        assert(total_len(sp.drop_first()) == 0);
        assert(total_len(sp) == t.len());
    } else {
        lemma_split_total(t.skip(k + 1));
        crate::text::lemma_count_nl_split(t, k);
        assert(sp == seq![t.take(k)] + crate::text::split_lines(t.skip(k + 1)));
        assert(sp.drop_first() =~= crate::text::split_lines(t.skip(k + 1)));
        assert(sp[0] == t.take(k));
        assert(total_len(sp) == k + total_len(crate::text::split_lines(t.skip(k + 1))));
    }
}

/// Splitting a valid newline-free line at a boundary leaves two valid
/// newline-free halves.
proof fn lemma_line_split_wf(s: Seq<u8>, i: int)
    requires
        is_utf8(s),
        no_nl(s),
        0 <= i <= s.len(),
        is_boundary(s, i),
    ensures
        is_utf8(s.take(i)),
        is_utf8(s.skip(i)),
        no_nl(s.take(i)),
        no_nl(s.skip(i)),
{
    crate::utf8::lemma_utf8_split(s, i);
    assert(forall|j: int| 0 <= j < i ==> s.take(i)[j] == s[j]);
    assert(forall|j: int| 0 <= j < s.len() - i ==> s.skip(i)[j] == s[j + i]);
}

/// Inserting well-formed parts into a well-formed document at a valid
/// position yields a well-formed document, and the returned position is
/// valid in it (in particular, it never splits a code point).
pub proof fn lemma_insert_wf(ls: Seq<Seq<u8>>, p: TextPosition, parts: Seq<Seq<u8>>)
    requires
        lines_wf(ls),
        pos_wf(ls, p),
        parts.len() >= 1,
        forall|k: int| 0 <= k < parts.len() ==> is_utf8(#[trigger] parts[k]) && no_nl(parts[k]),
        ls.len() + parts.len() <= MAX_LINES + 1,
        forall|k: int| 0 <= k < ls.len() ==> #[trigger] ls[k].len() <= MAX_TEXT,
        forall|k: int| 0 <= k < parts.len() ==> #[trigger] parts[k].len() <= MAX_TEXT,
        ls.len() > 0 ==> ls[p.paragraph_index as int].len() + parts[0].len() <= MAX_TEXT
            && ls[p.paragraph_index as int].len() + parts.last().len() <= MAX_TEXT,
    ensures
        lines_wf(insert_lines(ls, p, parts)),
        pos_wf(insert_lines(ls, p, parts), insert_pos(ls, p, parts)),
{
    let r = insert_lines(ls, p, parts);
    let q = insert_pos(ls, p, parts);
    let pi = p.paragraph_index as int;
    let bi = p.text_byte_index as int;
    if ls.len() == 0 {
        assert(is_boundary(parts.last(), parts.last().len() as int));
    } else {
        let line = ls[pi];
        lemma_line_split_wf(line, bi);
        if parts.len() == 1 {
            let nl = line.take(bi) + parts[0] + line.skip(bi);
            crate::utf8::lemma_utf8_concat(line.take(bi), parts[0]);
            crate::utf8::lemma_utf8_concat(line.take(bi) + parts[0], line.skip(bi));
            assert(no_nl(nl)) by {
                assert(forall|j: int| 0 <= j < bi ==> nl[j] == line.take(bi)[j]);
            }
            assert(lines_wf(r)) by {
                assert(forall|k: int| 0 <= k < r.len() && k != pi ==> r[k] == ls[k]);
                assert(r[pi] == nl);
            }
            crate::utf8::lemma_boundary_junction(line.take(bi) + parts[0], line.skip(bi));
            assert(nl =~= (line.take(bi) + parts[0]) + line.skip(bi));
            assert(is_boundary(nl, bi + parts[0].len()));
        } else {
            let m = parts.len() as int;
            let head = line.take(bi) + parts[0];
            let tail = parts.last() + line.skip(bi);
            crate::utf8::lemma_utf8_concat(line.take(bi), parts[0]);
            crate::utf8::lemma_utf8_concat(parts.last(), line.skip(bi));
            assert(no_nl(head)) by {
                assert(forall|j: int| 0 <= j < bi ==> head[j] == line.take(bi)[j]);
            }
            assert(no_nl(tail)) by {
                assert(forall|j: int|
                    parts.last().len() <= j < tail.len() ==> tail[j] == line.skip(bi)[j
                        - parts.last().len()]);
            }
            assert(r.len() == ls.len() + m - 1);
            assert(lines_wf(r)) by {
                assert(forall|k: int| 0 <= k < pi ==> r[k] == ls[k]);
                assert(r[pi] == head);
                assert(forall|k: int|
                    pi < k < pi + m - 1 ==> r[k] == parts.subrange(1, m - 1)[k - pi - 1]);
                assert(forall|k: int| 1 <= k < m - 1 ==> parts.subrange(1, m - 1)[k - 1] == parts[k]);
                assert(r[pi + m - 1] == tail);
                assert(forall|k: int|
                    pi + m - 1 < k < r.len() ==> r[k] == ls.skip(pi + 1)[k - (pi + m)]
                        && ls.skip(pi + 1)[k - (pi + m)] == ls[k - m + 1]);
            }
            crate::utf8::lemma_boundary_junction(parts.last(), line.skip(bi));
            assert(r[pi + m - 1] == tail);
            assert(is_boundary(tail, parts.last().len() as int));
        }
    }
}

/// Removing a valid range from a well-formed document leaves a
/// well-formed document.
pub proof fn lemma_remove_wf(ls: Seq<Seq<u8>>, start: TextPosition, end: TextPosition)
    requires
        lines_wf(ls),
        start.paragraph_index <= end.paragraph_index < ls.len(),
        pos_wf(ls, start),
        pos_wf(ls, end),
    ensures
        lines_wf(remove_lines(ls, start, end)),
        remove_lines(ls, start, end).len() == ls.len() - (end.paragraph_index
            - start.paragraph_index),
        pos_wf(remove_lines(ls, start, end), start),
{
    let r = remove_lines(ls, start, end);
    let si = start.paragraph_index as int;
    let sb = start.text_byte_index as int;
    let ei = end.paragraph_index as int;
    let eb = end.text_byte_index as int;
    lemma_line_split_wf(ls[si], sb);
    lemma_line_split_wf(ls[ei], eb);
    let merged = ls[si].take(sb) + ls[ei].skip(eb);
    crate::utf8::lemma_utf8_concat(ls[si].take(sb), ls[ei].skip(eb));
    assert(no_nl(merged)) by {
        assert(forall|j: int| 0 <= j < sb ==> merged[j] == ls[si].take(sb)[j]);
        assert(forall|j: int| sb <= j < merged.len() ==> merged[j] == ls[ei].skip(eb)[j - sb]);
    }
    crate::utf8::lemma_boundary_junction(ls[si].take(sb), ls[ei].skip(eb));
    if si == ei {
        assert(lines_wf(r)) by {
            assert(forall|k: int| 0 <= k < r.len() && k != si ==> r[k] == ls[k]);
            assert(r[si] == merged);
        }
    } else {
        assert(r.len() == ls.len() - (ei - si));
        assert(lines_wf(r)) by {
            assert(forall|k: int| 0 <= k < si ==> r[k] == ls[k]);
            assert(r[si] == merged);
            assert(forall|k: int| si < k < r.len() ==> r[k] == ls[k + (ei - si)]);
        }
        assert(r[si] == merged);
    }
    assert(is_boundary(merged, sb));
}

/// Normalization always yields a valid position.
pub proof fn lemma_normalize_wf(ls: Seq<Seq<u8>>, p: TextPosition)
    requires
        lines_sized(ls),
    ensures
        pos_wf(ls, normalize(ls, p)),
{
    if ls.len() == 0 {
    } else if p.paragraph_index >= ls.len() {
        assert(ls[ls.len() - 1].len() <= MAX_TEXT);
    } else {
        assert(ls[p.paragraph_index as int].len() <= MAX_TEXT);
        lemma_snap_down_props(ls[p.paragraph_index as int], p.text_byte_index as int);
    }
}

/// Normalizing a valid position changes nothing.
pub proof fn lemma_normalize_of_valid(ls: Seq<Seq<u8>>, p: TextPosition)
    requires
        lines_sized(ls),
        pos_wf(ls, p),
    ensures
        normalize(ls, p) == p,
{
    if ls.len() == 0 {
    } else {
        lemma_snap_down_at_boundary(ls[p.paragraph_index as int], p.text_byte_index as int);
    }
}

/// `find_fwd` only ever answers with a boundary a short step ahead.
pub proof fn lemma_find_fwd_props(s: Seq<u8>, i: int, d: int)
    requires
        1 <= d <= 4,
    ensures
        match find_fwd(s, i, d) {
            Some(j) => i + d <= j <= i + 4 && j <= s.len() && is_boundary(s, j),
            None => true,
        },
    decreases 5 - d,
{
    if d < 4 {
        lemma_find_fwd_props(s, i, d + 1);
    } else {
        assert(find_fwd(s, i, 5) is None);
    }
}

/// Movement from a normalized position yields a valid position.
pub proof fn lemma_move_wf(ls: Seq<Seq<u8>>, p: TextPosition)
    requires
        lines_sized(ls),
        pos_wf(ls, p),
        ls.len() > 0,
    ensures
        pos_wf(ls, move_left_at(ls, p)),
        pos_wf(ls, move_right_at(ls, p)),
{
    let s = ls[p.paragraph_index as int];
    assert(s.len() <= MAX_TEXT);
    if p.text_byte_index == 0 {
        if p.paragraph_index > 0 {
            assert(ls[p.paragraph_index - 1].len() <= MAX_TEXT);
        }
    } else {
        lemma_snap_down_props(s, p.text_byte_index - 1);
    }
    lemma_find_fwd_props(s, p.text_byte_index as int, 1);
}

} // verus!
