//! Integer pixel geometry.
//!
//! All coordinates are `i64` device units, so sums of positions, advances
//! and stacked line heights stay exact.  `MAX_COORD` bounds externally
//! supplied coordinates and `MAX_METRIC` bounds font metrics; together they
//! keep every coordinate computed by the layout code far inside `i64`.

use vstd::prelude::*;

verus! {

/// Bound on externally supplied pixel coordinates and wrap widths.
pub const MAX_COORD: i64 = 0x4_0000_0000_0000;

/// Bound on font metrics (size, ascent magnitude, descent, leading,
/// line spacing) and per-glyph advance widths.
pub const MAX_METRIC: i64 = 0x1_0000;

#[derive(Clone, Copy, Debug, PartialEq, Eq, Structural)]
pub struct IPoint {
    pub x: i64,
    pub y: i64,
}

#[derive(Clone, Copy, Debug, PartialEq, Eq, Structural)]
pub struct Rect {
    pub left: i64,
    pub top: i64,
    pub right: i64,
    pub bottom: i64,
}

impl IPoint {
    pub fn new(x: i64, y: i64) -> (r: IPoint)
        ensures
            r == (IPoint { x, y }),
    {
        IPoint { x, y }
    }
}

impl Rect {
    pub open spec fn spec_new(left: i64, top: i64, right: i64, bottom: i64) -> Rect {
        Rect { left, top, right, bottom }
    }

    pub fn new(left: i64, top: i64, right: i64, bottom: i64) -> (r: Rect)
        ensures
            r == Rect::spec_new(left, top, right, bottom),
    {
        Rect { left, top, right, bottom }
    }

    /// A rectangle contains a point when the point lies inside its
    /// half-open extent; an empty or inverted rectangle contains nothing.
    pub open spec fn spec_contains(self, p: IPoint) -> bool {
        self.left <= p.x < self.right && self.top <= p.y < self.bottom
    }

    pub fn contains(&self, p: IPoint) -> (r: bool)
        ensures
            r == self.spec_contains(p),
    {
        self.left <= p.x && p.x < self.right && self.top <= p.y && p.y < self.bottom
    }

    /// The smallest rectangle covering `self` and `other`.
    pub open spec fn spec_join(self, other: Rect) -> Rect {
        Rect {
            left: if other.left < self.left { other.left } else { self.left },
            top: if other.top < self.top { other.top } else { self.top },
            right: if other.right > self.right { other.right } else { self.right },
            bottom: if other.bottom > self.bottom { other.bottom } else { self.bottom },
        }
    }

    pub fn join(&mut self, other: Rect)
        ensures
            *final(self) == old(self).spec_join(other),
    {
        if other.left < self.left {
            self.left = other.left;
        }
        if other.top < self.top {
            self.top = other.top;
        }
        if other.right > self.right {
            self.right = other.right;
        }
        if other.bottom > self.bottom {
            self.bottom = other.bottom;
        }
    }

    pub open spec fn spec_with_offset(self, d: IPoint) -> Rect {
        Rect {
            left: (self.left + d.x) as i64,
            top: (self.top + d.y) as i64,
            right: (self.right + d.x) as i64,
            bottom: (self.bottom + d.y) as i64,
        }
    }

    pub fn with_offset(&self, d: IPoint) -> (r: Rect)
        requires
            i64::MIN <= self.left + d.x <= i64::MAX,
            i64::MIN <= self.top + d.y <= i64::MAX,
            i64::MIN <= self.right + d.x <= i64::MAX,
            i64::MIN <= self.bottom + d.y <= i64::MAX,
        ensures
            r == self.spec_with_offset(d),
    {
        Rect {
            left: self.left + d.x,
            top: self.top + d.y,
            right: self.right + d.x,
            bottom: self.bottom + d.y,
        }
    }

    pub open spec fn spec_width(self) -> int {
        self.right - self.left
    }
}

/// Sentinel marking a cursor slot no shaped cluster was assigned to.
/// Far outside every coordinate the layout can produce, yet far enough
/// from the integer limits that offsetting it stays exact.
pub open spec fn spec_unset_rect() -> Rect {
    Rect {
        left: -0x4000_0000_0000_0000i64,
        top: -0x4000_0000_0000_0000i64,
        right: -0x4000_0000_0000_0000i64,
        bottom: -0x4000_0000_0000_0000i64,
    }
}

/// Executable sentinel value; equality against it tells an assigned cursor
/// slot from an untouched one.
pub fn unset_rect() -> (r: Rect)
    ensures
        r == spec_unset_rect(),
{
    Rect {
        left: -0x4000_0000_0000_0000i64,
        top: -0x4000_0000_0000_0000i64,
        right: -0x4000_0000_0000_0000i64,
        bottom: -0x4000_0000_0000_0000i64,
    }
}

} // verus!
