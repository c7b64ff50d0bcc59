//! Geometry primitives shared by every packing strategy.
//!
//! Coordinates are atlas-local pixels with the origin at the top-left corner.
//! In specifications a rectangle covers the half-open ranges
//! `[x, x + w)` and `[y, y + h)`, computed over mathematical integers.

use vstd::prelude::*;

verus! {

/// Configuration for a texture packer.
#[derive(Debug, Copy, Clone, PartialEq, Eq, Structural)]
pub struct PackerConfig {
    /// Max width of the packed image. Default value is `1024`.
    pub max_width: u32,
    /// Max height of the packed image. Default value is `1024`.
    pub max_height: u32,
    /// True to allow rotation of the input images. Default value is `true`. Images rotated will be
    /// rotated 90 degrees clockwise.
    pub allow_flipping: bool,
}

impl Default for PackerConfig {
    fn default() -> (config: PackerConfig)
        ensures
            config == (PackerConfig { max_width: 1024, max_height: 1024, allow_flipping: true }),
    {
        PackerConfig { max_width: 1024, max_height: 1024, allow_flipping: true }
    }
}

impl PackerConfig {
    /// The atlas bounds as a size.
    pub open spec fn bounds(self) -> Size {
        Size { w: self.max_width, h: self.max_height }
    }

    /// The same configuration with the bounds replaced when `resize` is given.
    pub open spec fn resized(self, resize: Option<Size>) -> PackerConfig {
        match resize {
            Some(size) => PackerConfig {
                max_width: size.w,
                max_height: size.h,
                allow_flipping: self.allow_flipping,
            },
            None => self,
        }
    }

    /// Whether a `w` by `h` request, in the orientations this configuration
    /// allows, fits an atlas that holds nothing yet.
    pub open spec fn admits(self, w: u32, h: u32) -> bool {
        &&& w > 0
        &&& h > 0
        &&& {
            ||| w <= self.max_width && h <= self.max_height
            ||| self.allow_flipping && h <= self.max_width && w <= self.max_height
        }
    }
}

/// Defines a rectangle in pixels with the origin at the top-left of the texture atlas.
#[derive(Default, Copy, Clone, Debug, PartialEq, Eq, Structural)]
pub struct Rect {
    pub x: u32,
    pub y: u32,
    pub w: u32,
    pub h: u32,
}

impl Rect {
    /// First column to the right of the rectangle.
    pub open spec fn right_edge(self) -> int {
        self.x + self.w
    }

    /// First row below the rectangle.
    pub open spec fn bottom_edge(self) -> int {
        self.y + self.h
    }

    /// `w * h` as a mathematical integer.
    pub open spec fn spec_area(self) -> nat {
        (self.w as nat) * (self.h as nat)
    }

    /// The two rectangles share at least one pixel.
    pub open spec fn overlaps(self, other: Rect) -> bool {
        &&& self.x < other.right_edge()
        &&& other.x < self.right_edge()
        &&& self.y < other.bottom_edge()
        &&& other.y < self.bottom_edge()
    }

    /// `other` lies inside `self` on all four edges.
    pub open spec fn covers(self, other: Rect) -> bool {
        &&& self.x <= other.x
        &&& other.right_edge() <= self.right_edge()
        &&& self.y <= other.y
        &&& other.bottom_edge() <= self.bottom_edge()
    }

    /// The rectangle lies inside `[0, bounds.w) x [0, bounds.h)`.
    pub open spec fn fits_in(self, bounds: Size) -> bool {
        &&& self.right_edge() <= bounds.w
        &&& self.bottom_edge() <= bounds.h
    }

    /// Create a new [Rect] based on a position and its width and height.
    pub fn new(x: u32, y: u32, w: u32, h: u32) -> (r: Rect)
        ensures
            r == (Rect { x, y, w, h }),
    {
        Rect { x, y, w, h }
    }

    /// The number of pixels of the rectangle, in 64 bits.
    pub fn area(&self) -> (a: u64)
        ensures
            a == self.spec_area(),
    {
        assert(self.w * self.h <= 0xffff_ffff * 0xffff_ffff) by (nonlinear_arith)
            requires
                self.w <= 0xffff_ffff,
                self.h <= 0xffff_ffff,
        ;
        self.w as u64 * self.h as u64
    }

    /// Width and height of the rectangle.
    pub fn size(&self) -> (s: Size)
        ensures
            s == (Size { w: self.w, h: self.h }),
    {
        Size { w: self.w, h: self.h }
    }

    /// Get the top coordinate of the rectangle.
    pub fn top(&self) -> (t: u32)
        ensures
            t == self.y,
    {
        self.y
    }

    /// Get the bottom coordinate of the rectangle: its last row, `y + h - 1`.
    ///
    /// A rectangle without rows at the very top of the atlas has no last
    /// row, and one that reaches past the 32-bit range has none that can be
    /// returned.
    pub fn bottom(&self) -> (b: u32)
        requires
            1 <= self.bottom_edge() <= u32::MAX + 1,
        ensures
            b == self.bottom_edge() - 1,
    {
        if self.h > 0 {
            self.y + (self.h - 1)
        } else {
            self.y - 1
        }
    }

    /// Get the left coordinate of the rectangle.
    pub fn left(&self) -> (l: u32)
        ensures
            l == self.x,
    {
        self.x
    }

    /// Get the right coordinate of the rectangle: its last column, `x + w - 1`.
    ///
    /// A rectangle without columns at the very left of the atlas has no last
    /// column, and one that reaches past the 32-bit range has none that can
    /// be returned.
    pub fn right(&self) -> (r: u32)
        requires
            1 <= self.right_edge() <= u32::MAX + 1,
        ensures
            r == self.right_edge() - 1,
    {
        if self.w > 0 {
            self.x + (self.w - 1)
        } else {
            self.x - 1
        }
    }

    /// Check if this rectangle contains another.
    pub fn contains(&self, other: &Rect) -> (inside: bool)
        ensures
            inside == self.covers(*other),
    {
        self.x <= other.x && self.x as u64 + self.w as u64 >= other.x as u64 + other.w as u64
            && self.y <= other.y && self.y as u64 + self.h as u64 >= other.y as u64
            + other.h as u64
    }
}

/// [`Rect`] that could be flipped sideway (rotated by 90 degrees clockwise)
#[derive(Default, Clone, Copy, Debug, PartialEq, Eq, Structural)]
pub struct Rectf {
    pub x: u32,
    pub y: u32,
    pub w: u32,
    pub h: u32,
    pub flipped: bool,
}

impl Rectf {
    /// The placed rectangle without its orientation.
    pub open spec fn spec_rect(&self) -> Rect {
        Rect { x: self.x, y: self.y, w: self.w, h: self.h }
    }

    /// The placement holds a `w` by `h` request: as asked, or with the sides
    /// swapped when it is flipped.
    pub open spec fn holds(self, w: u32, h: u32) -> bool {
        if self.flipped {
            self.w == h && self.h == w
        } else {
            self.w == w && self.h == h
        }
    }

    /// The rectangle with its orientation.
    pub fn from_rect(rect: Rect, flipped: bool) -> (r: Rectf)
        ensures
            r == (Rectf { x: rect.x, y: rect.y, w: rect.w, h: rect.h, flipped }),
    {
        Rectf { x: rect.x, y: rect.y, w: rect.w, h: rect.h, flipped }
    }

    /// The placed rectangle without its orientation.
    #[verifier::when_used_as_spec(spec_rect)]
    pub fn rect(&self) -> (r: Rect)
        ensures
            r == self.spec_rect(),
    {
        Rect { x: self.x, y: self.y, w: self.w, h: self.h }
    }
}

/// Width and height of a rectangle or of an atlas.
#[derive(Default, Clone, Copy, Debug, PartialEq, Eq, Structural)]
pub struct Size {
    pub w: u32,
    pub h: u32,
}

impl Size {
    /// `w * h` as a mathematical integer.
    pub open spec fn spec_area(self) -> nat {
        (self.w as nat) * (self.h as nat)
    }

    /// The longer of the two sides.
    pub open spec fn spec_max_side(&self) -> u32 {
        if self.h > self.w {
            self.h
        } else {
            self.w
        }
    }

    /// The shorter of the two sides.
    pub open spec fn spec_min_side(&self) -> u32 {
        if self.h < self.w {
            self.h
        } else {
            self.w
        }
    }

    /// `2 * w + 2 * h` as a mathematical integer.
    pub open spec fn spec_perimeter(self) -> nat {
        (2 * self.w + 2 * self.h) as nat
    }

    /// The size grown, where needed, to reach the right and bottom edges of `r`.
    pub open spec fn expanded(self, r: Rect) -> Size
        recommends
            r.right_edge() <= u32::MAX,
            r.bottom_edge() <= u32::MAX,
    {
        Size {
            w: if self.w >= r.right_edge() {
                self.w
            } else {
                r.right_edge() as u32
            },
            h: if self.h >= r.bottom_edge() {
                self.h
            } else {
                r.bottom_edge() as u32
            },
        }
    }

    /// The empty size.
    pub fn zero() -> (s: Size)
        ensures
            s == (Size { w: 0, h: 0 }),
    {
        Size { w: 0, h: 0 }
    }

    /// A size of `w` by `h`.
    pub fn new(w: u32, h: u32) -> (s: Size)
        ensures
            s == (Size { w, h }),
    {
        Size { w, h }
    }

    /// Swaps width and height in place.
    pub fn flip(&mut self) -> (r: &Self)
        ensures
            final(self).w == old(self).h,
            final(self).h == old(self).w,
            *r == *final(self),
    {
        let w = self.w;
        self.w = self.h;
        self.h = w;
        self
    }

    /// The longer of the two sides.
    #[verifier::when_used_as_spec(spec_max_side)]
    pub fn max_side(&self) -> (m: u32)
        ensures
            m == self.spec_max_side(),
    {
        if self.h > self.w {
            self.h
        } else {
            self.w
        }
    }

    /// The shorter of the two sides.
    #[verifier::when_used_as_spec(spec_min_side)]
    pub fn min_side(&self) -> (m: u32)
        ensures
            m == self.spec_min_side(),
    {
        if self.h < self.w {
            self.h
        } else {
            self.w
        }
    }

    /// The number of pixels of a rectangle of this size, in 64 bits.
    pub fn area(&self) -> (a: u64)
        ensures
            a == self.spec_area(),
    {
        assert(self.w * self.h <= 0xffff_ffff * 0xffff_ffff) by (nonlinear_arith)
            requires
                self.w <= 0xffff_ffff,
                self.h <= 0xffff_ffff,
        ;
        self.w as u64 * self.h as u64
    }

    /// Twice the width plus twice the height, in 64 bits.
    pub fn perimeter(&self) -> (p: u64)
        ensures
            p == self.spec_perimeter(),
    {
        2 * (self.w as u64) + 2 * (self.h as u64)
    }

    /// Grows the size, where needed, to reach the right and bottom edges of `r`.
    pub fn expand_with(&mut self, r: &Rect)
        requires
            r.right_edge() <= u32::MAX,
            r.bottom_edge() <= u32::MAX,
        ensures
            *final(self) == old(self).expanded(*r),
    {
        let right = r.x + r.w;
        let bottom = r.y + r.h;
        if right > self.w {
            self.w = right;
        }
        if bottom > self.h {
            self.h = bottom;
        }
    }
}

} // verus!
