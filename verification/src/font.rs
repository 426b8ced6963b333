//! The font model the layout code reads.
//!
//! A platform font object is opaque; what the buffer and the shaping step
//! actually consume are a handful of vertical metrics, a size, and an
//! identity used to detect font changes.  Those are held here as plain
//! integers in device units.  The built-in fixed-advance layout derives a
//! uniform glyph advance from the size; externally shaped runs carry their
//! own per-glyph advances instead.

use vstd::prelude::*;
use crate::geom::MAX_METRIC;

verus! {

#[derive(Clone, Copy, Debug, PartialEq, Eq, Structural)]
pub struct Font {
    /// Identity of the underlying typeface + parameters; equality of ids
    /// is what "the font changed" means to the buffer.
    pub id: u64,
    /// Point size in device units.
    pub size: i64,
    /// Distance from baseline to top, as a non-positive offset.
    pub ascent: i64,
    /// Distance from baseline to bottom, non-negative.
    pub descent: i64,
    /// Extra space below the descent, non-negative.
    pub leading: i64,
    /// Vertical advance of a line of this font, already rounded up.
    pub spacing: i64,
}

impl Font {
    /// Metrics a font must satisfy for layout arithmetic to stay in range.
    pub open spec fn wf(self) -> bool {
        &&& 0 < self.size <= MAX_METRIC
        &&& -MAX_METRIC <= self.ascent <= 0
        &&& 0 <= self.descent <= MAX_METRIC
        &&& 0 <= self.leading <= MAX_METRIC
        &&& 1 <= self.spacing <= MAX_METRIC
    }

    pub fn new(id: u64, size: i64, ascent: i64, descent: i64, leading: i64, spacing: i64) -> (r:
        Font)
        requires
            0 < size <= MAX_METRIC,
            -MAX_METRIC <= ascent <= 0,
            0 <= descent <= MAX_METRIC,
            0 <= leading <= MAX_METRIC,
            1 <= spacing <= MAX_METRIC,
        ensures
            r == (Font { id, size, ascent, descent, leading, spacing }),
            r.wf(),
    {
        Font { id, size, ascent, descent, leading, spacing }
    }

    /// The built-in metric model for a given size: ascent is the full size
    /// above the baseline, descent a quarter of it below, no leading.
    pub open spec fn spec_with_size(size: i64) -> Font {
        Font {
            id: 0,
            size,
            ascent: (-size) as i64,
            descent: (size / 4) as i64,
            leading: 0,
            spacing: (size + size / 4) as i64,
        }
    }

    pub fn with_size(size: i64) -> (r: Font)
        requires
            0 < size <= MAX_METRIC / 2,
        ensures
            r == Font::spec_with_size(size),
            r.wf(),
    {
        Font { id: 0, size, ascent: -size, descent: size / 4, leading: 0, spacing: size + size / 4 }
    }

    /// Advance width the built-in fixed-advance layout gives every glyph.
    pub open spec fn spec_glyph_advance(self) -> i64 {
        ((self.size + 1) / 2) as i64
    }

    pub fn glyph_advance(&self) -> (r: i64)
        requires
            self.wf(),
        ensures
            r == self.spec_glyph_advance(),
            1 <= r <= MAX_METRIC,
    {
        (self.size + 1) / 2
    }
}

} // verus!
