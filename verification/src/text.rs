//! Splitting inserted text on hard newlines, and the byte-vector helpers
//! the buffer edits are built from.
//!
//! A paragraph never contains `\n` (0x0A); text handed to `insert` or
//! `load` is cut at each newline into the pieces that become paragraphs.
//! `split_lines` is the specification of that cut, and the lemmas here show
//! that cutting valid UTF-8 yields valid, newline-free pieces.

use vstd::prelude::*;
use crate::utf8::{is_boundary, is_utf8, lemma_next_boundary, lemma_utf8_split};

verus! {

pub const NL: u8 = 0x0A;

/// No hard newline anywhere in the bytes.
pub open spec fn no_nl(s: Seq<u8>) -> bool {
    forall|i: int| 0 <= i < s.len() ==> s[i] != NL
}

/// Index of the first newline, or the length when there is none.
pub open spec fn find_nl(t: Seq<u8>) -> int
    decreases t.len(),
{
    if t.len() == 0 {
        0
    } else if t[0] == NL {
        0
    } else {
        1 + find_nl(t.skip(1))
    }
}

/// The newline-delimited pieces of `t`, in order.  Always non-empty: text
/// with no newline is one piece, and every newline starts a further piece.
pub open spec fn split_lines(t: Seq<u8>) -> Seq<Seq<u8>>
    decreases t.len(),
    via split_lines_decreases
{
    let k = find_nl(t);
    if k >= t.len() {
        seq![t]
    } else {
        seq![t.take(k)] + split_lines(t.skip(k + 1))
    }
}

#[via_fn]
proof fn split_lines_decreases(t: Seq<u8>) {
    lemma_find_nl_bounds(t);
}

/// Number of newline bytes in `t`.
pub open spec fn count_nl(t: Seq<u8>) -> int
    decreases t.len(),
{
    if t.len() == 0 {
        0
    } else {
        (if t[0] == NL { 1int } else { 0int }) + count_nl(t.skip(1))
    }
}

pub proof fn lemma_find_nl_bounds(t: Seq<u8>)
    ensures
        0 <= find_nl(t) <= t.len(),
        find_nl(t) < t.len() ==> t[find_nl(t)] == NL,
        forall|j: int| 0 <= j < find_nl(t) ==> t[j] != NL,
    decreases t.len(),
{
    if t.len() == 0 || t[0] == NL {
    } else {
        lemma_find_nl_bounds(t.skip(1));
        assert(forall|j: int| 1 <= j < find_nl(t) ==> t[j] == t.skip(1)[j - 1]);
    }
}

/// A scan that saw no newline before `k` and one (or the end) at `k`
/// has found `find_nl`.
pub proof fn lemma_find_nl_is(t: Seq<u8>, k: int)
    requires
        0 <= k <= t.len(),
        forall|j: int| 0 <= j < k ==> t[j] != NL,
        k == t.len() || t[k] == NL,
    ensures
        find_nl(t) == k,
{
    lemma_find_nl_bounds(t);
    if find_nl(t) < k {
        assert(t[find_nl(t)] == NL);
    } else if find_nl(t) > k {
        assert(t[k] != NL);
    }
}

pub proof fn lemma_split_lines_len(t: Seq<u8>)
    ensures
        split_lines(t).len() == count_nl(t) + 1,
    decreases t.len(),
{
    lemma_find_nl_bounds(t);
    let k = find_nl(t);
    if k >= t.len() {
        lemma_count_nl_none(t);
    } else {
        lemma_split_lines_len(t.skip(k + 1));
        lemma_count_nl_split(t, k);
    }
}

/// With no newline present the count is zero.
pub proof fn lemma_count_nl_none(t: Seq<u8>)
    requires
        forall|j: int| 0 <= j < t.len() ==> t[j] != NL,
    ensures
        count_nl(t) == 0,
    decreases t.len(),
{
    if t.len() > 0 {
        assert(forall|j: int| 0 <= j < t.skip(1).len() ==> t.skip(1)[j] == t[j + 1]);
        lemma_count_nl_none(t.skip(1));
    }
}

/// Counting across the first newline: none before it, one at it, the rest after.
pub proof fn lemma_count_nl_split(t: Seq<u8>, k: int)
    requires
        0 <= k < t.len(),
        t[k] == NL,
        forall|j: int| 0 <= j < k ==> t[j] != NL,
    ensures
        count_nl(t) == 1 + count_nl(t.skip(k + 1)),
    decreases k,
{
    if k == 0 {
        assert(t.skip(1) =~= t.skip(k + 1));
    } else {
        assert(t.skip(1)[k - 1] == t[k]);
        assert(forall|j: int| 0 <= j < k - 1 ==> t.skip(1)[j] == t[j + 1]);
        lemma_count_nl_split(t.skip(1), k - 1);
        assert(t.skip(1).skip(k) =~= t.skip(k + 1));
    }
}

/// Each piece of a valid text is valid UTF-8 and holds no newline.
pub proof fn lemma_split_lines_wf(t: Seq<u8>)
    requires
        is_utf8(t),
    ensures
        forall|k: int|
            0 <= k < split_lines(t).len() ==> is_utf8(#[trigger] split_lines(t)[k]) && no_nl(
                split_lines(t)[k]),
    decreases t.len(),
{
    lemma_find_nl_bounds(t);
    let k = find_nl(t);
    if k >= t.len() {
        assert(split_lines(t)[0] == t);
    } else {
        assert(is_boundary(t, k));
        lemma_next_boundary(t, k);
        assert(is_boundary(t, k + 1));
        lemma_utf8_split(t, k);
        lemma_utf8_split(t, k + 1);
        assert(is_utf8(t.take(k))) by {
            lemma_utf8_split(t, k);
        }
        assert(t.take(k + 1).take(k) =~= t.take(k));
        lemma_split_lines_wf(t.skip(k + 1));
        assert(split_lines(t)[0] == t.take(k));
        assert(forall|j: int|
            1 <= j < split_lines(t).len() ==> split_lines(t)[j] == split_lines(t.skip(k + 1))[j
                - 1]);
    }
}

/// The pieces of newline-free text are the text itself.
pub proof fn lemma_split_lines_single(t: Seq<u8>)
    requires
        no_nl(t),
    ensures
        split_lines(t) == seq![t],
{
    lemma_find_nl_is(t, t.len() as int);
}

/// Pieces never outgrow the text they were cut from.
pub proof fn lemma_split_lines_piece_len(t: Seq<u8>)
    ensures
        forall|k: int| 0 <= k < split_lines(t).len() ==> #[trigger] split_lines(t)[k].len()
            <= t.len(),
    decreases t.len(),
{
    lemma_find_nl_bounds(t);
    let k = find_nl(t);
    if k < t.len() {
        lemma_split_lines_piece_len(t.skip(k + 1));
        assert(forall|j: int|
            1 <= j < split_lines(t).len() ==> split_lines(t)[j] == split_lines(t.skip(k + 1))[j
                - 1]);
    }
}

/// Copy of the byte range `[a, b)` of `v`.
pub fn bytes_sub(v: &Vec<u8>, a: usize, b: usize) -> (r: Vec<u8>)
    requires
        a <= b <= v@.len(),
    ensures
        r@ == v@.subrange(a as int, b as int),
{
    let mut r: Vec<u8> = Vec::new();
    let mut i: usize = a;
    while i < b
        invariant
            a <= i <= b <= v@.len(),
            r@ == v@.subrange(a as int, i as int),
        decreases b - i,
    {
        r.push(v[i]);
        proof {
            assert(v@.subrange(a as int, i + 1 as int) =~= v@.subrange(a as int, i as int).push(
                v@[i as int]));
        }
        i = i + 1;
    }
    r
}

/// Append the bytes of `src` to `dst`.
pub fn bytes_append(dst: &mut Vec<u8>, src: &Vec<u8>)
    ensures
        final(dst)@ == old(dst)@ + src@,
{
    let mut i: usize = 0;
    while i < src.len()
        invariant
            i <= src@.len(),
            dst@ == old(dst)@ + src@.subrange(0, i as int),
        decreases src@.len() - i,
    {
        dst.push(src[i]);
        proof {
            assert(old(dst)@ + src@.subrange(0, i + 1 as int) =~= (old(dst)@ + src@.subrange(
                0,
                i as int,
            )).push(src@[i as int]));
        }
        i = i + 1;
    }
    proof {
        assert(src@.subrange(0, src@.len() as int) =~= src@);
    }
}

/// Cut `t` at each newline into the pieces `split_lines` describes.
pub fn split_newlines(t: &Vec<u8>) -> (r: Vec<Vec<u8>>)
    ensures
        r@.len() == split_lines(t@).len(),
        forall|k: int| 0 <= k < r@.len() ==> #[trigger] r@[k]@ == split_lines(t@)[k],
        r@.len() >= 1,
        r@.len() == count_nl(t@) + 1,
{
    proof {
        lemma_split_lines_len(t@);
        assert(t@.skip(0) =~= t@);
    }
    let mut out: Vec<Vec<u8>> = Vec::new();
    let mut start: usize = 0;
    let mut i: usize = 0;
    while i < t.len()
        invariant
            start <= i <= t@.len(),
            forall|j: int| start <= j < i ==> t@[j] != NL,
            split_lines(t@).len() == out@.len() + split_lines(t@.skip(start as int)).len(),
            forall|k: int| 0 <= k < out@.len() ==> #[trigger] out@[k]@ == split_lines(t@)[k],
            forall|k: int|
                out@.len() <= k < split_lines(t@).len() ==> split_lines(t@)[k] == split_lines(
                    t@.skip(start as int),
                )[k - out@.len()],
        decreases t@.len() - i,
    {
        if t[i] == NL {
            let piece = bytes_sub(t, start, i);
            proof {
                let u = t@.skip(start as int);
                assert(forall|j: int| 0 <= j < i - start ==> u[j] == t@[j + start]);
                assert(u[i - start] == t@[i as int]);
                lemma_find_nl_is(u, i - start);
                assert(u.take(i - start) =~= t@.subrange(start as int, i as int));
                assert(u.skip(i - start + 1) =~= t@.skip(i + 1));
                assert(split_lines(u) == seq![u.take(i - start)] + split_lines(t@.skip(i + 1)));
            }
            out.push(piece);
            start = i + 1;
        }
        i = i + 1;
    }
    let last = bytes_sub(t, start, t.len());
    proof {
        let u = t@.skip(start as int);
        assert(forall|j: int| 0 <= j < u.len() ==> u[j] == t@[j + start]);
        lemma_find_nl_is(u, u.len() as int);
        assert(split_lines(u) == seq![u]);
        assert(u =~= t@.subrange(start as int, t@.len() as int));
    }
    out.push(last);
    out
}

/// The newline-joined text of a sequence of pieces.
pub open spec fn join_nl(ps: Seq<Seq<u8>>) -> Seq<u8>
    decreases ps.len(),
{
    if ps.len() == 0 {
        Seq::empty()
    } else if ps.len() == 1 {
        ps[0]
    } else {
        ps[0] + seq![NL] + join_nl(ps.drop_first())
    }
}

/// Splitting the newline-joined text of newline-free pieces yields the
/// pieces back.
pub proof fn lemma_split_join(ps: Seq<Seq<u8>>)
    requires
        ps.len() >= 1,
        forall|k: int| 0 <= k < ps.len() ==> no_nl(#[trigger] ps[k]),
    ensures
        split_lines(join_nl(ps)) == ps,
    decreases ps.len(),
{
    let t = join_nl(ps);
    if ps.len() == 1 {
        lemma_split_lines_single(ps[0]);
        assert(split_lines(t) =~= ps);
    } else {
        let p0 = ps[0];
        assert(forall|j: int| 0 <= j < p0.len() ==> t[j] == p0[j]);
        assert(t[p0.len() as int] == NL);
        lemma_find_nl_is(t, p0.len() as int);
        assert(t.take(p0.len() as int) =~= p0);
        assert(t.skip(p0.len() as int + 1) =~= join_nl(ps.drop_first()));
        lemma_split_join(ps.drop_first());
        assert(split_lines(t) == seq![p0] + split_lines(t.skip(p0.len() as int + 1)));
        assert(split_lines(t) =~= ps);
    }
}

} // verus!
