//! Byte-level UTF-8 structure: code-point boundaries, structural validity,
//! and downward snapping of byte indices onto boundaries.
//!
//! The buffer stores line text as raw bytes, so every position calculation
//! reduces to the predicates here.  `is_boundary` matches the usual UTF-8
//! boundary test (index 0, the length, or a non-continuation byte);
//! `is_utf8` demands that every lead byte announces a sequence that is
//! actually followed by the right number of continuation bytes, which is
//! exactly the structure the movement lemmas need.

use vstd::prelude::*;

verus! {

/// True for bytes `0x80..=0xBF`, which can only continue a multi-byte
/// code point, never start one.
pub open spec fn is_cont(b: u8) -> bool {
    0x80 <= b && b < 0xC0
}

/// Length of the code point announced by lead byte `b`;
/// 0 for continuation bytes and for bytes no UTF-8 sequence starts with.
pub open spec fn lead_len(b: u8) -> int {
    if b < 0x80 {
        1
    } else if b < 0xC0 {
        0
    } else if b < 0xE0 {
        2
    } else if b < 0xF0 {
        3
    } else if b < 0xF8 {
        4
    } else {
        0
    }
}

/// Structural validity: the bytes parse as a sequence of code points,
/// each lead byte followed by its continuation bytes.
pub open spec fn is_utf8(s: Seq<u8>) -> bool
    decreases s.len(),
{
    if s.len() == 0 {
        true
    } else {
        let n = lead_len(s[0]);
        &&& 1 <= n <= s.len()
        &&& (forall|j: int| 1 <= j < n ==> is_cont(s[j]))
        &&& is_utf8(s.skip(n))
    }
}

/// Code-point boundary at index `i`: the start, the end, or a byte that
/// does not continue a multi-byte sequence.
pub open spec fn is_boundary(s: Seq<u8>, i: int) -> bool {
    i == 0 || i == s.len() || (0 < i < s.len() && !is_cont(s[i]))
}

/// The largest boundary at or below `i` (and at most `s.len()`).
pub open spec fn snap_down(s: Seq<u8>, i: int) -> int
    decreases i,
{
    if i <= 0 {
        0
    } else if i >= s.len() {
        s.len() as int
    } else if !is_cont(s[i]) {
        i
    } else {
        snap_down(s, i - 1)
    }
}

/// Executable boundary test on a byte vector, mirroring `is_boundary`.
pub fn is_char_boundary(s: &Vec<u8>, i: usize) -> (r: bool)
    requires
        i <= s.len(),
    ensures
        r == is_boundary(s@, i as int),
{
    i == 0 || i == s.len() || !(0x80 <= s[i] && s[i] < 0xC0)
}

/// Executable downward snap, mirroring `snap_down`.
pub fn snap_to_boundary(s: &Vec<u8>, i: usize) -> (r: usize)
    ensures
        r == snap_down(s@, i as int),
        r <= i,
        r <= s.len(),
        is_boundary(s@, r as int),
{
    proof {
        lemma_snap_down_props(s@, i as int);
    }
    if i >= s.len() {
        s.len()
    } else {
        let mut j: usize = i;
        while j > 0 && 0x80 <= s[j] && s[j] < 0xC0
            invariant
                j <= i < s@.len(),
                snap_down(s@, i as int) == snap_down(s@, j as int),
            decreases j,
        {
            j = j - 1;
        }
        j
    }
}

/// The boundary that starts the next code point of a valid sequence: one
/// code-point length ahead, never more than four bytes.
pub fn next_char_boundary(s: &Vec<u8>, i: usize) -> (r: usize)
    requires
        is_utf8(s@),
        is_boundary(s@, i as int),
        i < s@.len(),
        s@.len() <= 0x4000_0000,
    ensures
        r == i + lead_len(s@[i as int]),
        i < r <= s@.len(),
        r <= i + 4,
        is_boundary(s@, r as int),
        forall|j: int| i < j < r ==> is_cont(s@[j]),
{
    proof {
        lemma_next_boundary(s@, i as int);
    }
    let b = s[i];
    if b < 0x80 {
        i + 1
    } else if b < 0xE0 {
        i + 2
    } else if b < 0xF0 {
        i + 3
    } else {
        i + 4
    }
}

/// `snap_down` lands on a boundary, never exceeds its argument or the length.
pub proof fn lemma_snap_down_props(s: Seq<u8>, i: int)
    ensures
        is_boundary(s, snap_down(s, i)),
        snap_down(s, i) <= i || (i < 0 && snap_down(s, i) == 0),
        0 <= snap_down(s, i) <= s.len(),
    decreases i,
{
    if i <= 0 || i >= s.len() || !is_cont(s[i]) {
    } else {
        lemma_snap_down_props(s, i - 1);
    }
}

/// Snapping an index that is already a boundary is the identity.
pub proof fn lemma_snap_down_at_boundary(s: Seq<u8>, i: int)
    requires
        0 <= i <= s.len(),
        is_boundary(s, i),
    ensures
        snap_down(s, i) == i,
{
}

/// Everything strictly between the snapped index and `i` is a continuation
/// byte, so the snap really is the nearest boundary below.
pub proof fn lemma_snap_down_tight(s: Seq<u8>, i: int)
    requires
        0 <= i < s.len(),
    ensures
        forall|j: int| snap_down(s, i) < j <= i ==> is_cont(s[j]),
    decreases i,
{
    if i <= 0 || !is_cont(s[i]) {
    } else {
        lemma_snap_down_tight(s, i - 1);
    }
}

/// A boundary below `i` with only continuation bytes above it is what
/// `snap_down` finds.
pub proof fn lemma_snap_down_is(s: Seq<u8>, i: int, b: int)
    requires
        0 <= b <= i < s.len(),
        is_boundary(s, b),
        forall|j: int| b < j <= i ==> is_cont(s[j]),
    ensures
        snap_down(s, i) == b,
    decreases i,
{
    if i == b {
    } else {
        lemma_snap_down_is(s, i - 1, b);
    }
}

/// A valid sequence never starts with a continuation byte.
pub proof fn lemma_utf8_first_not_cont(s: Seq<u8>)
    requires
        is_utf8(s),
        s.len() > 0,
    ensures
        !is_cont(s[0]),
        1 <= lead_len(s[0]) <= 4,
{
    assert(1 <= lead_len(s[0]));
    if is_cont(s[0]) {
        assert(lead_len(s[0]) == 0);
    }
}

/// Boundaries transfer between a valid sequence and its tail beyond one
/// code point: `is_boundary(s, i)` with `i >= n` matches the tail at `i - n`.
proof fn lemma_boundary_skip(s: Seq<u8>, n: int, i: int)
    requires
        0 < n <= s.len(),
        n <= i <= s.len(),
        is_utf8(s.skip(n)),
    ensures
        is_boundary(s, i) == is_boundary(s.skip(n), i - n),
{
    if i < s.len() {
        assert(s.skip(n)[i - n] == s[i]);
        if i == n {
            lemma_utf8_first_not_cont(s.skip(n));
        }
    }
}

/// From any boundary short of the end of a valid sequence, the next
/// boundary is exactly one code-point length away, with only continuation
/// bytes in between.
pub proof fn lemma_next_boundary(s: Seq<u8>, i: int)
    requires
        is_utf8(s),
        is_boundary(s, i),
        0 <= i < s.len(),
    ensures
        1 <= lead_len(s[i]) <= 4,
        i + lead_len(s[i]) <= s.len(),
        is_boundary(s, i + lead_len(s[i])),
        forall|j: int| i < j < i + lead_len(s[i]) ==> is_cont(s[j]),
    decreases s.len(),
{
    let n = lead_len(s[0]);
    if i == 0 {
        lemma_utf8_first_not_cont(s);
        if n < s.len() {
            lemma_utf8_first_not_cont(s.skip(n));
            lemma_boundary_skip(s, n, n);
        }
    } else {
        assert(i >= n) by {
            if i < n {
                assert(is_cont(s[i]));
            }
        }
        lemma_boundary_skip(s, n, i);
        lemma_next_boundary(s.skip(n), i - n);
        assert(s.skip(n)[i - n] == s[i]);
        lemma_boundary_skip(s, n, i + lead_len(s[i]));
        assert forall|j: int| i < j < i + lead_len(s[i]) implies is_cont(s[j]) by {
            assert(s.skip(n)[j - n] == s[j]);
        }
    }
}

/// The seam of a concatenation is a boundary whenever the right part is
/// valid (or empty): nothing to the right can continue a code point of the
/// left part.
pub proof fn lemma_boundary_junction(a: Seq<u8>, b: Seq<u8>)
    requires
        is_utf8(b),
    ensures
        is_boundary(a + b, a.len() as int),
{
    if b.len() > 0 {
        lemma_utf8_first_not_cont(b);
        assert((a + b)[a.len() as int] == b[0]);
    }
}

/// Concatenating two valid sequences yields a valid sequence.
pub proof fn lemma_utf8_concat(s: Seq<u8>, t: Seq<u8>)
    requires
        is_utf8(s),
        is_utf8(t),
    ensures
        is_utf8(s + t),
    decreases s.len(),
{
    if s.len() == 0 {
        assert(s + t =~= t);
    } else {
        let n = lead_len(s[0]);
        lemma_utf8_concat(s.skip(n), t);
        assert(s.skip(n) + t =~= (s + t).skip(n));
        assert((s + t)[0] == s[0]);
        assert(forall|j: int| 1 <= j < n ==> (s + t)[j] == s[j]);
    }
}

/// Splitting a valid sequence at a boundary yields two valid sequences.
pub proof fn lemma_utf8_split(s: Seq<u8>, i: int)
    requires
        is_utf8(s),
        is_boundary(s, i),
        0 <= i <= s.len(),
    ensures
        is_utf8(s.take(i)),
        is_utf8(s.skip(i)),
    decreases s.len(),
{
    if i == 0 {
        assert(s.take(0) =~= Seq::<u8>::empty());
        assert(s.skip(0) =~= s);
    } else if i == s.len() {
        assert(s.take(i) =~= s);
        assert(s.skip(i) =~= Seq::<u8>::empty());
    } else {
        let n = lead_len(s[0]);
        assert(i >= n) by {
            if i < n {
                assert(is_cont(s[i]));
            }
        }
        lemma_boundary_skip(s, n, i);
        lemma_utf8_split(s.skip(n), i - n);
        assert(s.skip(n).skip(i - n) =~= s.skip(i));
        assert(s.skip(n).take(i - n) =~= s.take(i).skip(n));
        assert(is_utf8(s.take(i))) by {
            assert(s.take(i)[0] == s[0]);
            assert(forall|j: int| 1 <= j < n ==> s.take(i)[j] == s[j]);
            assert(is_utf8(s.take(i).skip(n)));
        }
    }
}

} // verus!
