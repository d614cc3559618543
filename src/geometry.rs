use vstd::prelude::*;

verus! {

/// An axis-aligned rectangle in atlas texel space, `[min, max)` on each axis.
#[derive(Clone, Copy, Debug, PartialEq, Eq, Hash)]
pub struct TexRect {
    pub min_x: u32,
    pub min_y: u32,
    pub max_x: u32,
    pub max_y: u32,
}

/// An axis-aligned rectangle in screen pixel space, `[min, max)` on each axis.
#[derive(Clone, Copy, Debug, PartialEq, Eq, Hash)]
pub struct PixelRect {
    pub min_x: i32,
    pub min_y: i32,
    pub max_x: i32,
    pub max_y: i32,
}

impl PixelRect {
    pub open spec fn spec_width(&self) -> int {
        self.max_x - self.min_x
    }

    pub open spec fn spec_height(&self) -> int {
        self.max_y - self.min_y
    }

    /// The rectangle has no pixels.
    pub open spec fn spec_is_empty(&self) -> bool {
        self.max_x <= self.min_x || self.max_y <= self.min_y
    }

    pub fn width(&self) -> (r: u32)
        requires
            self.min_x <= self.max_x,
        ensures
            r == self.spec_width(),
    {
        (self.max_x as i64 - self.min_x as i64) as u32
    }

    pub fn height(&self) -> (r: u32)
        requires
            self.min_y <= self.max_y,
        ensures
            r == self.spec_height(),
    {
        (self.max_y as i64 - self.min_y as i64) as u32
    }
}

impl TexRect {
    pub open spec fn spec_width(&self) -> int {
        self.max_x - self.min_x
    }

    pub open spec fn spec_height(&self) -> int {
        self.max_y - self.min_y
    }

    /// The rectangle with one texel taken off each side, as used by padded glyphs.
    pub open spec fn spec_unpadded(&self) -> TexRect {
        TexRect {
            min_x: (self.min_x + 1) as u32,
            min_y: (self.min_y + 1) as u32,
            max_x: (self.max_x - 1) as u32,
            max_y: (self.max_y - 1) as u32,
        }
    }

    /// Removes the one-texel transparent border of a padded glyph.
    pub fn unpadded(self) -> (r: TexRect)
        requires
            self.min_x < u32::MAX,
            self.min_y < u32::MAX,
            self.max_x > 0,
            self.max_y > 0,
        ensures
            r == self.spec_unpadded(),
    {
        TexRect {
            min_x: self.min_x + 1,
            min_y: self.min_y + 1,
            max_x: self.max_x - 1,
            max_y: self.max_y - 1,
        }
    }

    pub fn width(&self) -> (r: u32)
        requires
            self.min_x <= self.max_x,
        ensures
            r == self.spec_width(),
    {
        self.max_x - self.min_x
    }

    pub fn height(&self) -> (r: u32)
        requires
            self.min_y <= self.max_y,
        ensures
            r == self.spec_height(),
    {
        self.max_y - self.min_y
    }
}

} // verus!
