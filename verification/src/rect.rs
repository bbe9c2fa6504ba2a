//! An axis-aligned integer rectangle with containment and overlap helpers.

use vstd::prelude::*;

verus! {

/// An axis-aligned rectangle. `(x, y)` is the top-left corner, in pixels,
/// inside some buffer; `w` and `h` are its width and height.
#[derive(Clone, Copy, Debug, PartialEq, Eq, Structural)]
pub struct Rect {
    pub x: u32,
    pub y: u32,
    pub w: u32,
    pub h: u32,
}

impl Rect {
    /// The x-coordinate one past the right edge.
    pub open spec fn right(self) -> int {
        self.x + self.w
    }

    /// The y-coordinate one past the bottom edge.
    pub open spec fn bottom(self) -> int {
        self.y + self.h
    }

    /// Two rectangles overlap when they share at least one pixel.
    /// A rectangle of zero width or height overlaps nothing.
    pub open spec fn overlaps(self, other: Rect) -> bool {
        &&& self.x < other.right()
        &&& other.x < self.right()
        &&& self.y < other.bottom()
        &&& other.y < self.bottom()
    }

    /// The rectangle lies fully inside a buffer of the given dimensions.
    pub open spec fn within(self, width: int, height: int) -> bool {
        self.right() <= width && self.bottom() <= height
    }

    /// Construct a rectangle.
    pub fn new(x: u32, y: u32, w: u32, h: u32) -> (r: Rect)
        ensures
            r == (Rect { x, y, w, h }),
    {
        Rect { x, y, w, h }
    }

    /// Whether this rectangle shares at least one pixel with `other`.
    pub fn intersects(&self, other: &Rect) -> (r: bool)
        ensures
            r == self.overlaps(*other),
    {
        let sr: u64 = self.x as u64 + self.w as u64;
        let ob: u64 = other.y as u64 + other.h as u64;
        let or: u64 = other.x as u64 + other.w as u64;
        let sb: u64 = self.y as u64 + self.h as u64;
        (self.x as u64) < or && (other.x as u64) < sr && (self.y as u64) < ob
            && (other.y as u64) < sb
    }
}

} // verus!
