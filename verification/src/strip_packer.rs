//! Row-filling strategy: one cursor that moves left to right, top to bottom.
//!
//! A request joins the current row when it fits the rest of it, and starts
//! a new row below otherwise. Nothing is ever moved or rotated, and room
//! left in finished rows is not used again.

use vstd::prelude::*;
use crate::geometry::{PackerConfig, Rectf, Size};
use crate::packer::{bounding_box, clear_of, lemma_push_disjoint, pairwise_disjoint, Packer};

verus! {

/// Mathematical state of a [`StripPacker`].
pub struct StripState {
    pub config: PackerConfig,
    /// Where the next rectangle of the current row starts.
    pub cursor_x: u32,
    /// Top of the current row.
    pub cursor_y: u32,
    /// Height of the tallest rectangle in the current row.
    pub row_height: u32,
    /// Set once a request was refused for want of height.
    pub overflowed: bool,
    /// Bounding box of the placements.
    pub used: Size,
    /// The placements since the last reset, oldest first.
    pub placed: Seq<Rectf>,
}

impl StripState {
    /// The state of an atlas that holds nothing.
    pub open spec fn fresh(config: PackerConfig) -> StripState {
        StripState {
            config,
            cursor_x: 0,
            cursor_y: 0,
            row_height: 0,
            overflowed: false,
            used: Size { w: 0, h: 0 },
            placed: Seq::empty(),
        }
    }

    /// The request does not fit the rest of the current row.
    pub open spec fn wraps(self, w: u32) -> bool {
        self.cursor_x + w > self.config.max_width
    }

    /// Left edge of the place the request would get: the cursor, or the
    /// start of the next row when the current row has no room left.
    pub open spec fn slot_x(self, w: u32) -> int {
        if self.wraps(w) {
            0
        } else {
            self.cursor_x as int
        }
    }

    /// Top edge of the place the request would get.
    pub open spec fn slot_y(self, w: u32) -> int {
        if self.wraps(w) {
            self.cursor_y + self.row_height
        } else {
            self.cursor_y as int
        }
    }

    /// Height of the row the request would join, the request included.
    pub open spec fn row_height_with(self, w: u32, h: u32) -> int {
        if self.wraps(w) || self.row_height < h {
            h as int
        } else {
            self.row_height as int
        }
    }

    /// The request is one the strategy looks at: it has an area and is no
    /// wider than the atlas.
    pub open spec fn considers(self, w: u32, h: u32) -> bool {
        w > 0 && h > 0 && w <= self.config.max_width
    }

    /// The request is placed: the row it would join ends inside the atlas.
    pub open spec fn accepts(self, w: u32, h: u32) -> bool {
        &&& self.considers(w, h)
        &&& self.slot_y(w) + self.row_height_with(w, h) <= self.config.max_height
    }

    /// The state after a request for `w` by `h`, and the answer to it. A
    /// refused request moves nothing; one refused for want of height is
    /// remembered in `overflowed`.
    pub open spec fn insert(self, w: u32, h: u32) -> (StripState, Option<Rectf>) {
        if self.accepts(w, h) {
            let rect = Rectf {
                x: self.slot_x(w) as u32,
                y: self.slot_y(w) as u32,
                w,
                h,
                flipped: false,
            };
            (
                StripState {
                    config: self.config,
                    cursor_x: (self.slot_x(w) + w) as u32,
                    cursor_y: self.slot_y(w) as u32,
                    row_height: self.row_height_with(w, h) as u32,
                    overflowed: self.overflowed,
                    used: self.used.expanded(rect.spec_rect()),
                    placed: self.placed.push(rect),
                },
                Some(rect),
            )
        } else if self.considers(w, h) {
            (StripState { overflowed: true, ..self }, None)
        } else {
            (self, None)
        }
    }

    /// The state after a reset.
    pub open spec fn reset(self, resize: Option<Size>) -> StripState {
        StripState::fresh(self.config.resized(resize))
    }

    /// The current row ends inside the atlas, and every placement lies
    /// inside the atlas and above the bottom of the current row, those of
    /// the current row to the left of the cursor.
    pub open spec fn inv(self) -> bool {
        &&& self.cursor_x <= self.config.max_width
        &&& self.cursor_y + self.row_height <= self.config.max_height
        &&& forall|i: int|
            0 <= i < self.placed.len() ==> {
                let r = (#[trigger] self.placed[i]).spec_rect();
                &&& r.w > 0
                &&& r.h > 0
                &&& r.fits_in(self.config.bounds())
                &&& r.bottom_edge() <= self.cursor_y + self.row_height
                &&& r.bottom_edge() > self.cursor_y ==> r.right_edge() <= self.cursor_x
            }
        &&& pairwise_disjoint(self.placed)
        &&& self.used == bounding_box(self.placed)
        &&& self.used.w <= self.config.max_width
        &&& self.used.h <= self.config.max_height
    }

    /// An accepted request is placed as asked, inside the atlas and clear
    /// of everything placed before, and the invariant holds afterwards.
    pub proof fn lemma_insert(self, w: u32, h: u32)
        requires
            self.inv(),
        ensures
            self.insert(w, h).0.inv(),
            self.insert(w, h).0.config == self.config,
            match self.insert(w, h).1 {
                Some(rect) => {
                    &&& self.insert(w, h).0.placed == self.placed.push(rect)
                    &&& w > 0
                    &&& h > 0
                    &&& rect.holds(w, h)
                    &&& !rect.flipped
                    &&& rect.spec_rect().fits_in(self.config.bounds())
                    &&& clear_of(self.placed, rect.spec_rect())
                    &&& self.reset(None).insert(w, h).1 is Some
                },
                None => self.insert(w, h).0 == (StripState {
                    overflowed: self.insert(w, h).0.overflowed,
                    ..self
                }),
            },
    {
        let (next, r) = self.insert(w, h);
        if let Some(rect) = r {
            assert(next.placed.drop_last() == self.placed);
            assert(clear_of(self.placed, rect.spec_rect()));
            lemma_push_disjoint(self.placed, rect);
            assert forall|i: int| 0 <= i < next.placed.len() implies {
                let r = (#[trigger] next.placed[i]).spec_rect();
                &&& r.w > 0
                &&& r.h > 0
                &&& r.fits_in(next.config.bounds())
                &&& r.bottom_edge() <= next.cursor_y + next.row_height
                &&& r.bottom_edge() > next.cursor_y ==> r.right_edge() <= next.cursor_x
            } by {
                if i < self.placed.len() {
                    assert(next.placed[i] == self.placed[i]);
                }
            }
        }
    }
}

/// Packer that fills the atlas row by row, as font atlases are commonly
/// filled: fast, and dense only where the heights are much alike.
#[derive(Clone)]
pub struct StripPacker {
    config: PackerConfig,
    /// Used for when allocating new rectangles.
    cursor: [u32; 2],
    row_height: u32,
    /// Set when someone requested more space than was available.
    overflowed: bool,
    used_area: Size,
    placed: Ghost<Seq<Rectf>>,
}

impl View for StripPacker {
    type V = StripState;

    closed spec fn view(&self) -> StripState {
        StripState {
            config: self.config,
            cursor_x: self.cursor[0],
            cursor_y: self.cursor[1],
            row_height: self.row_height,
            overflowed: self.overflowed,
            used: self.used_area,
            placed: self.placed@,
        }
    }
}

impl StripPacker {
    /// A packer for atlases of the given configuration, with nothing placed.
    pub fn new(config: PackerConfig) -> (packer: Self)
        ensures
            packer@ == StripState::fresh(config),
            packer@.inv(),
    {
        Self {
            config,
            cursor: [0, 0],
            row_height: 0,
            overflowed: false,
            used_area: Size::zero(),
            placed: Ghost(Seq::empty()),
        }
    }

    /// Where the next rectangle of the current row starts: column and row.
    pub fn cursor(&self) -> (c: [u32; 2])
        ensures
            c[0] == self@.cursor_x,
            c[1] == self@.cursor_y,
    {
        self.cursor
    }

    /// The configuration the packer was made with or last resized to.
    pub fn config(&self) -> (config: PackerConfig)
        ensures
            config == self@.config,
    {
        self.config
    }

    /// Whether a request was refused for want of height since the last reset.
    pub fn overflowed(&self) -> (o: bool)
        ensures
            o == self@.overflowed,
    {
        self.overflowed
    }

    /// Bottom edge of the current row: how much of the atlas height is filled.
    pub fn filled_height(&self) -> (filled: u32)
        requires
            self@.inv(),
        ensures
            filled == self@.cursor_y + self@.row_height,
    {
        self.cursor[1] + self.row_height
    }
}

impl Packer for StripPacker {
    open spec fn inv(state: StripState) -> bool {
        state.inv()
    }

    open spec fn config(state: StripState) -> PackerConfig {
        state.config
    }

    open spec fn placed(state: StripState) -> Seq<Rectf> {
        state.placed
    }

    open spec fn spec_insert(state: StripState, w: u32, h: u32) -> (StripState, Option<Rectf>) {
        state.insert(w, h)
    }

    open spec fn spec_reset(state: StripState, resize: Option<Size>) -> StripState {
        state.reset(resize)
    }

    proof fn lemma_insert(state: StripState, w: u32, h: u32) {
        state.lemma_insert(w, h);
    }

    proof fn lemma_inv(state: StripState) {
    }

    proof fn lemma_reset(state: StripState, other: StripState, resize: Option<Size>) {
    }

    fn insert(&mut self, w: u32, h: u32) -> (r: Option<Rectf>) {
        if w == 0 || h == 0 || w > self.config.max_width {
            return None;
        }
        let wraps = w > self.config.max_width - self.cursor[0];
        let x = if wraps {
            0
        } else {
            self.cursor[0]
        };
        let y = if wraps {
            self.cursor[1] + self.row_height
        } else {
            self.cursor[1]
        };
        let row_height = if wraps || self.row_height < h {
            h
        } else {
            self.row_height
        };
        if row_height > self.config.max_height - y {
            self.overflowed = true;
            return None;
        }
        let rect = Rectf { x, y, w, h, flipped: false };
        proof {
            old(self)@.lemma_insert(w, h);
        }
        self.cursor = [x + w, y];
        self.row_height = row_height;
        self.used_area.expand_with(&rect.rect());
        self.placed = Ghost(self.placed@.push(rect));
        Some(rect)
    }

    fn reset(&mut self, resize: Option<Size>) {
        if let Some(size) = resize {
            self.config.max_width = size.w;
            self.config.max_height = size.h;
        }
        self.cursor = [0, 0];
        self.row_height = 0;
        self.overflowed = false;
        self.used_area = Size::zero();
        self.placed = Ghost(Seq::empty());
    }

    fn used_area(&self) -> (used: Size) {
        self.used_area
    }
}

} // verus!
