//! Caret addressing: `(paragraph index, UTF-8 byte index)` positions,
//! their lexicographic order, and the movement kinds a caret can make.

use vstd::prelude::*;

verus! {

/// A caret location: a paragraph and a byte offset into that paragraph's
/// UTF-8 text.  Ordering is lexicographic on `(paragraph, byte)`; it decides
/// selection direction.
// note: paragraph first so the lexicographic order reads off the fields
#[derive(Clone, Copy, Debug, PartialEq, Eq, Structural)]
pub struct TextPosition {
    /// logical line, based on hard newline characters.
    pub paragraph_index: usize,
    /// index into the UTF-8 representation of the line.
    pub text_byte_index: usize,
}

/// Half-open span of positions, `start` the lesser end.
#[derive(Clone, Copy, Debug, PartialEq, Eq, Structural)]
pub struct PosRange {
    pub start: TextPosition,
    pub end: TextPosition,
}

impl TextPosition {
    pub fn new(text_byte_index: usize, paragraph_index: usize) -> (r: TextPosition)
        ensures
            r == (TextPosition { paragraph_index, text_byte_index }),
    {
        TextPosition { paragraph_index, text_byte_index }
    }

    /// Strict lexicographic order on `(paragraph, byte)`.
    pub open spec fn spec_lt(self, other: TextPosition) -> bool {
        self.paragraph_index < other.paragraph_index || (self.paragraph_index
            == other.paragraph_index && self.text_byte_index < other.text_byte_index)
    }

    pub open spec fn spec_le(self, other: TextPosition) -> bool {
        self.spec_lt(other) || self == other
    }

    pub fn lt(&self, other: &TextPosition) -> (r: bool)
        ensures
            r == self.spec_lt(*other),
    {
        self.paragraph_index < other.paragraph_index || (self.paragraph_index
            == other.paragraph_index && self.text_byte_index < other.text_byte_index)
    }

    /// The lesser of two positions.
    pub open spec fn spec_range_start(pos1: TextPosition, pos2: TextPosition) -> TextPosition {
        if pos2.spec_lt(pos1) {
            pos2
        } else {
            pos1
        }
    }

    /// The greater of two positions.
    pub open spec fn spec_range_end(pos1: TextPosition, pos2: TextPosition) -> TextPosition {
        if pos2.spec_lt(pos1) {
            pos1
        } else {
            pos2
        }
    }

    /// The span between two positions, whichever order they are given in.
    pub fn range(pos1: TextPosition, pos2: TextPosition) -> (r: PosRange)
        ensures
            r.start.spec_le(r.end),
            r.start == TextPosition::spec_range_start(pos1, pos2),
            r.end == TextPosition::spec_range_end(pos1, pos2),
            (r.start == pos1 && r.end == pos2) || (r.start == pos2 && r.end == pos1),
            pos1.spec_le(pos2) ==> r.start == pos1 && r.end == pos2,
            pos2.spec_lt(pos1) ==> r.start == pos2 && r.end == pos1,
    {
        if pos2.lt(&pos1) {
            PosRange { start: pos2, end: pos1 }
        } else {
            PosRange { start: pos1, end: pos2 }
        }
    }
}

/// The caret movements the buffer understands.  `Up`, `Down`, `Home`, `End`,
/// `WordLeft` and `WordRight` are declared for API completeness but are not
/// defined by the buffer; `mov` excludes them by precondition.
#[derive(Clone, Copy, Debug, PartialEq, Eq, Structural)]
pub enum Movement {
    Nowhere,
    Left,
    Up,
    Right,
    Down,
    Home,
    End,
    WordLeft,
    WordRight,
}

} // verus!
