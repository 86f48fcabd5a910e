//! Axis-aligned rectangles in pixel coordinates.

use vstd::prelude::*;

verus! {

/// A rectangle of `width` by `height` pixels whose top-left corner is
/// `(x, y)`. It may reach beyond an image; every use clips it to the image
/// first.
#[derive(Debug, Clone, Copy, PartialEq, Eq, Structural)]
pub struct Region {
    pub x: u32,
    pub y: u32,
    pub width: u32,
    pub height: u32,
}

impl Region {
    /// Number of pixels of the unclipped rectangle.
    pub open spec fn area(self) -> int {
        self.width * self.height
    }

    /// `(px, py)` lies in the rectangle.
    pub open spec fn contains(self, px: int, py: int) -> bool {
        self.x <= px < self.x + self.width && self.y <= py < self.y + self.height
    }

    /// `(px, py)` lies in the rectangle after it is clipped to an image of
    /// `width` by `height` pixels.
    pub open spec fn covers(self, width: int, height: int, px: int, py: int) -> bool {
        self.contains(px, py) && 0 <= px < width && 0 <= py < height
    }

    /// First column to the right of the clipped rectangle (never below `x`
    /// unless the rectangle starts outside the image).
    pub open spec fn end_x(self, width: int) -> int {
        if self.x + self.width <= width { self.x + self.width } else { width }
    }

    /// First row below the clipped rectangle.
    pub open spec fn end_y(self, height: int) -> int {
        if self.y + self.height <= height { self.y + self.height } else { height }
    }

    /// The column at which the rectangle, clipped to `width` columns, ends.
    pub fn clip_x(&self, width: u32) -> (end: u32)
        ensures
            end == self.end_x(width as int),
    {
        let right: u64 = self.x as u64 + self.width as u64;
        if right <= width as u64 { right as u32 } else { width }
    }

    /// The row at which the rectangle, clipped to `height` rows, ends.
    pub fn clip_y(&self, height: u32) -> (end: u32)
        ensures
            end == self.end_y(height as int),
    {
        let bottom: u64 = self.y as u64 + self.height as u64;
        if bottom <= height as u64 { bottom as u32 } else { height }
    }

    /// The smallest rectangle that holds both this rectangle and `(px, py)`.
    pub open spec fn hull(self, px: int, py: int) -> Region {
        let left = if px < self.x { px } else { self.x as int };
        let top = if py < self.y { py } else { self.y as int };
        let right = if px + 1 > self.x + self.width { px + 1 } else { self.x + self.width };
        let bottom = if py + 1 > self.y + self.height { py + 1 } else { self.y + self.height };
        Region { x: left as u32, y: top as u32, width: (right - left) as u32, height: (bottom - top) as u32 }
    }

    /// Grows the rectangle just enough to hold `(px, py)`.
    pub fn extended(&self, px: u32, py: u32) -> (out: Region)
        requires
            self.width >= 1,
            self.height >= 1,
            self.x + self.width <= u32::MAX,
            self.y + self.height <= u32::MAX,
            px < u32::MAX,
            py < u32::MAX,
        ensures
            out == self.hull(px as int, py as int),
            out.x == if px < self.x { px } else { self.x },
            out.y == if py < self.y { py } else { self.y },
            out.x + out.width == if px + 1 > self.x + self.width { px + 1 } else { self.x + self.width },
            out.y + out.height == if py + 1 > self.y + self.height { py + 1 } else { self.y + self.height },
    {
        let left = if px < self.x { px } else { self.x };
        let top = if py < self.y { py } else { self.y };
        let right = if px + 1 > self.x + self.width { px + 1 } else { self.x + self.width };
        let bottom = if py + 1 > self.y + self.height { py + 1 } else { self.y + self.height };
        Region { x: left, y: top, width: right - left, height: bottom - top }
    }

    /// A position is covered exactly when it lies between the rectangle's
    /// corner and its clipped ends.
    pub proof fn lemma_covers(self, width: int, height: int, px: int, py: int)
        requires
            0 <= width,
            0 <= height,
        ensures
            self.covers(width, height, px, py) <==> (self.x <= px < self.end_x(width) && self.y <= py
                < self.end_y(height)),
    {
    }
}

} // verus!
