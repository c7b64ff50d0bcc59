//! Skyline strategy: the upper boundary of what has been placed is kept as
//! a row of horizontal segments, and each request comes to rest on that
//! boundary where its bottom edge ends up lowest.

use vstd::prelude::*;
use crate::geometry::{PackerConfig, Rect, Rectf, Size};
use crate::packer::{bounding_box, clear_of, lemma_push_disjoint, pairwise_disjoint, Packer};

verus! {

/// One segment of the skyline: `w` columns from `x` on are filled down to
/// row `y`, which is the first free row there.
#[derive(Clone, Copy, Debug, PartialEq, Eq, Structural)]
pub struct Skyline {
    pub x: u32,
    pub y: u32,
    pub w: u32,
}

impl Skyline {
    /// First column to the right of the segment.
    pub open spec fn end(self) -> int {
        self.x + self.w
    }

    /// The first column of the segment.
    pub fn left(&self) -> (l: u32)
        ensures
            l == self.x,
    {
        self.x
    }

    /// The last column of the segment, `x + w - 1`.
    ///
    /// A segment without columns at the very left of the atlas has no last
    /// column, and one that reaches past the 32-bit range has none that
    /// can be returned.
    pub fn right(&self) -> (r: u32)
        requires
            1 <= self.end() <= u32::MAX + 1,
        ensures
            r == self.end() - 1,
    {
        if self.w > 0 {
            self.x + (self.w - 1)
        } else {
            self.x - 1
        }
    }
}

/// Each segment starts where the one before it ends.
pub open spec fn contiguous(skylines: Seq<Skyline>) -> bool {
    forall|i: int, j: int|
        0 <= i && j == i + 1 && j < skylines.len() ==> (#[trigger] skylines[i]).end() == (
        #[trigger] skylines[j]).x
}

/// The segments cover the columns from `from` to `to`, left to right and
/// without a gap.
pub open spec fn covers(skylines: Seq<Skyline>, from: int, to: int) -> bool {
    &&& skylines.len() > 0
    &&& skylines[0].x == from
    &&& skylines.last().end() == to
    &&& contiguous(skylines)
}

/// No two neighbouring segments are at the same height.
pub open spec fn stepped(skylines: Seq<Skyline>) -> bool {
    forall|i: int, j: int|
        0 <= i && j == i + 1 && j < skylines.len() ==> (#[trigger] skylines[i]).y != (
        #[trigger] skylines[j]).y
}

/// The lowest row at which something that spans the columns up to `right`
/// can rest on the segments from `from` on: the largest height among
/// those of them that start left of `right`.
pub open spec fn span_top(skylines: Seq<Skyline>, from: int, right: int) -> int
    decreases skylines.len() - from,
{
    if from < 0 || from >= skylines.len() || skylines[from].x >= right {
        0
    } else {
        let rest = span_top(skylines, from + 1, right);
        if skylines[from].y >= rest {
            skylines[from].y as int
        } else {
            rest
        }
    }
}

/// Index of the segment that the column `p` belongs to: the last one that
/// starts at or left of it. Negative where no segment does.
pub open spec fn seg_at(skylines: Seq<Skyline>, p: int) -> int
    decreases skylines.len(),
{
    if skylines.len() == 0 {
        -1
    } else if skylines.last().x <= p {
        skylines.len() - 1
    } else {
        seg_at(skylines.drop_last(), p)
    }
}

/// Height of the skyline in the column `p`.
pub open spec fn height_at(skylines: Seq<Skyline>, p: int) -> int {
    if seg_at(skylines, p) >= 0 {
        skylines[seg_at(skylines, p)].y as int
    } else {
        0
    }
}

/// The segments from `s` that lie right of the column `right`: those that
/// end at or before it are gone, and one that it cuts starts at `right`.
pub open spec fn trim(s: Seq<Skyline>, right: int) -> Seq<Skyline>
    decreases s.len(),
{
    if s.len() == 0 || s[0].x >= right {
        s
    } else if s[0].end() <= right {
        trim(s.drop_first(), right)
    } else {
        seq![Skyline { x: right as u32, y: s[0].y, w: (s[0].end() - right) as u32 }]
            + s.drop_first()
    }
}

/// The skyline once `rect` rests on it from the segment at `index` on: a
/// new segment at the bottom edge of `rect`, as wide as `rect`, takes the
/// place of what was under it.
pub open spec fn raise(skylines: Seq<Skyline>, index: int, rect: Rect) -> Seq<Skyline> {
    skylines.take(index).push(
        Skyline { x: rect.x, y: rect.bottom_edge() as u32, w: rect.w },
    ) + trim(skylines.skip(index), rect.right_edge())
}

/// The segments with every run of neighbours at one height made one
/// segment.
pub open spec fn merged(s: Seq<Skyline>) -> Seq<Skyline>
    decreases s.len(),
{
    if s.len() <= 1 {
        s
    } else {
        let head = merged(s.drop_last());
        if head.len() > 0 && head.last().y == s.last().y {
            head.drop_last().push(
                Skyline { x: head.last().x, y: head.last().y, w: (head.last().w + s.last().w) as u32 },
            )
        } else {
            head.push(s.last())
        }
    }
}

/// Mathematical state of a [`SkylinePacker`].
pub struct SkylineState {
    pub config: PackerConfig,
    /// The skyline, left to right.
    pub skylines: Seq<Skyline>,
    /// Bounding box of the placements.
    pub used: Size,
    /// The placements since the last reset, oldest first.
    pub placed: Seq<Rectf>,
}

impl SkylineState {
    /// The state of an atlas that holds nothing: one segment at the top,
    /// as wide as the atlas.
    pub open spec fn fresh(config: PackerConfig) -> SkylineState {
        SkylineState {
            config,
            skylines: seq![Skyline { x: 0, y: 0, w: config.max_width }],
            used: Size { w: 0, h: 0 },
            placed: Seq::empty(),
        }
    }

    /// Where a `w` by `h` rectangle comes to rest when its left edge is
    /// that of the segment at `i`: on the highest of the segments that it
    /// spans. `None` when it would then reach beyond the atlas.
    pub open spec fn can_put(self, i: int, w: u32, h: u32) -> Option<Rect> {
        let x = self.skylines[i].x;
        let y = span_top(self.skylines, i, x + w);
        if x + w > self.config.max_width || y + h > self.config.max_height {
            None
        } else {
            Some(Rect { x, y: y as u32, w, h })
        }
    }

    /// The better of the best place so far and the place `r` at segment
    /// `i`: the new one only where its bottom edge is lower, or as low
    /// with a narrower segment under its left edge.
    pub open spec fn pick(self, best: Option<(int, Rect)>, i: int, r: Option<Rect>) -> Option<
        (int, Rect),
    > {
        match (best, r) {
            (_, None) => best,
            (None, Some(rect)) => Some((i, rect)),
            (Some((index, kept)), Some(rect)) => if rect.bottom_edge() < kept.bottom_edge() || (
            rect.bottom_edge() == kept.bottom_edge() && self.skylines[i].w
                < self.skylines[index].w) {
                Some((i, rect))
            } else {
                best
            },
        }
    }

    /// The best place for the request among those that start at one of
    /// the first `n` segments, taken left to right, at each segment as
    /// asked first and then, where flipping is allowed, flipped.
    pub open spec fn best_place(self, w: u32, h: u32, n: int) -> Option<(int, Rect)>
        decreases n,
    {
        if n <= 0 {
            None
        } else {
            let before = self.best_place(w, h, n - 1);
            let normal = self.pick(before, n - 1, self.can_put(n - 1, w, h));
            if self.config.allow_flipping {
                self.pick(normal, n - 1, self.can_put(n - 1, h, w))
            } else {
                normal
            }
        }
    }

    /// The place a request gets: the segment that its left edge is on and
    /// the rectangle it fills. Requests without an area get none.
    pub open spec fn find(self, w: u32, h: u32) -> Option<(int, Rect)> {
        if w == 0 || h == 0 {
            None
        } else {
            self.best_place(w, h, self.skylines.len() as int)
        }
    }

    /// The state after a request for `w` by `h`, and the answer to it. A
    /// placement counts as flipped when its width is not the one asked for.
    pub open spec fn insert(self, w: u32, h: u32) -> (SkylineState, Option<Rectf>) {
        match self.find(w, h) {
            Some((index, rect)) => {
                let placed = Rectf {
                    x: rect.x,
                    y: rect.y,
                    w: rect.w,
                    h: rect.h,
                    flipped: w != rect.w,
                };
                (
                    SkylineState {
                        config: self.config,
                        skylines: merged(raise(self.skylines, index, rect)),
                        used: self.used.expanded(rect),
                        placed: self.placed.push(placed),
                    },
                    Some(placed),
                )
            },
            None => (self, None),
        }
    }

    /// The state after a reset.
    pub open spec fn reset(self, resize: Option<Size>) -> SkylineState {
        SkylineState::fresh(self.config.resized(resize))
    }

    /// No segment is higher than the atlas.
    pub open spec fn low(self) -> bool {
        forall|i: int|
            0 <= i < self.skylines.len() ==> (#[trigger] self.skylines[i]).y
                <= self.config.max_height
    }

    /// Every placement lies above the skyline: in each column that it
    /// fills it ends at or before the height of the skyline there.
    pub open spec fn under_skyline(self) -> bool {
        forall|k: int, p: int|
            0 <= k < self.placed.len() && (#[trigger] self.placed[k]).x <= p
                < self.placed[k].spec_rect().right_edge()
                ==> self.placed[k].spec_rect().bottom_edge() <= #[trigger] height_at(
                self.skylines,
                p,
            )
    }

    /// The skyline covers exactly the width of the atlas, no two
    /// neighbouring segments are at the same height and none is higher
    /// than the atlas; the placements have an area and lie inside the
    /// atlas and above the skyline, and `used` is their bounding box.
    pub open spec fn inv(self) -> bool {
        &&& covers(self.skylines, 0, self.config.max_width as int)
        &&& stepped(self.skylines)
        &&& self.low()
        &&& self.under_skyline()
        &&& forall|k: int|
            0 <= k < self.placed.len() ==> {
                &&& (#[trigger] self.placed[k]).w > 0
                &&& self.placed[k].h > 0
                &&& self.placed[k].spec_rect().fits_in(self.config.bounds())
            }
        &&& pairwise_disjoint(self.placed)
        &&& self.used == bounding_box(self.placed)
        &&& self.used.w <= self.config.max_width
        &&& self.used.h <= self.config.max_height
    }
}

/// Packer that keeps the skyline of what it has placed and rests each
/// request where its bottom edge ends up lowest.
pub struct SkylinePacker {
    config: PackerConfig,
    // the skylines are sorted by their `x` position
    skylines: Vec<Skyline>,
    used_area: Size,
    placed: Ghost<Seq<Rectf>>,
}

impl View for SkylinePacker {
    type V = SkylineState;

    closed spec fn view(&self) -> SkylineState {
        SkylineState {
            config: self.config,
            skylines: self.skylines@,
            used: self.used_area,
            placed: self.placed@,
        }
    }
}

impl SkylinePacker {
    /// A packer for atlases of the given configuration, with nothing placed.
    pub fn new(config: PackerConfig) -> (packer: Self)
        ensures
            packer@ == SkylineState::fresh(config),
            packer@.inv(),
    {
        let mut skylines = Vec::new();
        skylines.push(Skyline { x: 0, y: 0, w: config.max_width });
        let packer = SkylinePacker {
            config,
            skylines,
            used_area: Size::zero(),
            placed: Ghost(Seq::empty()),
        };
        assert(packer@.skylines == SkylineState::fresh(config).skylines);
        packer
    }

    /// Where a `w` by `h` rectangle comes to rest when its left edge is
    /// that of the segment at `from`, if it fits the atlas there.
    fn can_put(&self, from: usize, w: u32, h: u32) -> (r: Option<Rect>)
        requires
            covers(self@.skylines, 0, self@.config.max_width as int),
            from < self@.skylines.len(),
            w > 0,
        ensures
            r == self@.can_put(from as int, w, h),
    {
        let ghost start = from as int;
        let ghost right = self.skylines[start].x + w;
        let mut i = from;
        let mut rect = Rect::new(self.skylines[i].x, 0, w, h);
        let mut width_left = rect.w;
        proof {
            lemma_contiguous_order(self.skylines@, start, self.skylines@.len() - 1);
        }
        loop
            invariant
                covers(self@.skylines, 0, self@.config.max_width as int),
                start == from,
                0 <= start <= i < self.skylines.len(),
                self.skylines[start].x <= self.config.max_width,
                right == self.skylines[start].x + w,
                rect == (Rect { x: self.skylines[start].x, y: rect.y, w, h }),
                self.skylines[i as int].x < right,
                width_left == right - self.skylines[i as int].x,
                span_top(self.skylines@, start, right) == if rect.y >= span_top(
                    self.skylines@,
                    i as int,
                    right,
                ) {
                    rect.y as int
                } else {
                    span_top(self.skylines@, i as int, right)
                },
            decreases self.skylines.len() - i,
        {
            let ghost rest = span_top(self.skylines@, i + 1, right);
            if self.skylines[i].y > rect.y {
                rect.y = self.skylines[i].y;
            }
            assert(span_top(self.skylines@, start, right) == if rect.y >= rest {
                rect.y as int
            } else {
                rest
            });
            // the source rect is too large
            if rect.w > self.config.max_width - rect.x || rect.y > self.config.max_height
                || rect.h > self.config.max_height - rect.y {
                return None;
            }
            if self.skylines[i].w >= width_left {
                assert(rest == 0);
                return Some(rect);
            }
            proof {
                lemma_contiguous_order(
                    self.skylines@,
                    i as int,
                    self.skylines@.len() - 1,
                );
            }
            width_left -= self.skylines[i].w;
            i += 1;
        }
    }

    /// The best place for the request: the segment that its left edge is
    /// on and the rectangle it fills.
    fn find_skyline(&self, w: u32, h: u32) -> (found: Option<(usize, Rect)>)
        requires
            covers(self@.skylines, 0, self@.config.max_width as int),
            w > 0,
            h > 0,
        ensures
            match found {
                Some((index, rect)) => self@.find(w, h) == Some((index as int, rect)),
                None => self@.find(w, h) is None,
            },
            found matches Some((index, rect)) ==> index < self@.skylines.len(),
    {
        let mut best: Option<(usize, Rect)> = None;

        // keep the bottom and the width as small as possible
        let mut i: usize = 0;
        while i < self.skylines.len()
            invariant
                i <= self.skylines.len(),
                covers(self@.skylines, 0, self@.config.max_width as int),
                w > 0,
                h > 0,
                match best {
                    Some((index, rect)) => self@.best_place(w, h, i as int) == Some(
                        (index as int, rect),
                    ) && index < i && rect.bottom_edge() <= u32::MAX,
                    None => self@.best_place(w, h, i as int) is None,
                },
            decreases self.skylines.len() - i,
        {
            let normal = self.can_put(i, w, h);
            best = self.pick(best, i, normal);
            if self.config.allow_flipping {
                let turned = self.can_put(i, h, w);
                best = self.pick(best, i, turned);
            }
            i += 1;
        }
        best
    }

    /// Keeps the better of the best place so far and the place `r` at
    /// segment `i`.
    fn pick(&self, best: Option<(usize, Rect)>, i: usize, r: Option<Rect>) -> (kept: Option<
        (usize, Rect),
    >)
        requires
            i < self@.skylines.len(),
            best matches Some((index, rect)) ==> index < self@.skylines.len()
                && rect.bottom_edge() <= u32::MAX,
            r matches Some(rect) ==> rect.bottom_edge() <= u32::MAX,
        ensures
            match kept {
                Some((index, rect)) => Some((index as int, rect)),
                None => None,
            } == self@.pick(
                match best {
                    Some((index, rect)) => Some((index as int, rect)),
                    None => None,
                },
                i as int,
                r,
            ),
            kept matches Some((index, rect)) ==> (index == i || best == kept),
    {
        match (best, r) {
            (_, None) => best,
            (None, Some(rect)) => Some((i, rect)),
            (Some((index, kept)), Some(rect)) => {
                let bottom = kept.y + kept.h;
                let candidate = rect.y + rect.h;
                if candidate < bottom || (candidate == bottom && self.skylines[i].w
                    < self.skylines[index].w) {
                    Some((i, rect))
                } else {
                    best
                }
            },
        }
    }

    /// Lays a segment for `rect` over the skyline from `index` on and
    /// cuts away what lies under it.
    fn split(&mut self, index: usize, rect: &Rect)
        requires
            covers(old(self)@.skylines, 0, old(self)@.config.max_width as int),
            index < old(self)@.skylines.len(),
            rect.x == old(self)@.skylines[index as int].x,
            rect.w > 0,
            rect.h > 0,
            rect.right_edge() <= old(self)@.config.max_width,
            rect.bottom_edge() <= u32::MAX,
        ensures
            final(self)@ == (SkylineState {
                skylines: raise(old(self)@.skylines, index as int, *rect),
                ..old(self)@
            }),
    {
        let skyline = Skyline { x: rect.left(), y: rect.bottom() + 1, w: rect.w };
        let ghost before = self.skylines@;
        let ghost right = rect.right_edge();

        self.skylines.insert(index, skyline);
        let ghost head = before.take(index as int).push(skyline);
        let ghost mut tail = before.skip(index as int);
        assert(self.skylines@ == head + tail);
        assert forall|j: int| 0 <= j < tail.len() implies (#[trigger] tail[j]).end()
            <= u32::MAX by {
            lemma_contiguous_order(before, index + j, before.len() - 1);
        }
        assert(index < self.skylines.len());

        let i = index + 1;
        while i < self.skylines.len()
            invariant_except_break
                self.skylines@ == head + tail,
                trim(before.skip(index as int), right) == trim(tail, right),
            invariant
                i == index + 1,
                i == head.len(),
                head[i - 1] == skyline,
                skyline.end() == right,
                1 <= right <= u32::MAX,
                forall|j: int| 0 <= j < tail.len() ==> (#[trigger] tail[j]).end() <= u32::MAX,
                self.config == old(self).config,
                self.used_area == old(self).used_area,
                self.placed == old(self).placed,
            ensures
                self.skylines@ == head + trim(before.skip(index as int), right),
                self.config == old(self).config,
                self.used_area == old(self).used_area,
                self.placed == old(self).placed,
            decreases self.skylines.len() - i,
        {
            assert(self.skylines[i as int] == tail[0]);
            assert(self.skylines[i - 1] == skyline);
            if self.skylines[i].left() <= self.skylines[i - 1].right() {
                let shrink = self.skylines[i - 1].right() - self.skylines[i].left() + 1;
                if self.skylines[i].w <= shrink {
                    self.skylines.remove(i);
                    proof {
                        assert(self.skylines@ == head + tail.drop_first());
                        tail = tail.drop_first();
                    }
                } else {
                    let cut = Skyline {
                        x: self.skylines[i].x + shrink,
                        y: self.skylines[i].y,
                        w: self.skylines[i].w - shrink,
                    };
                    self.skylines[i] = cut;
                    assert(self.skylines@ == head + (seq![cut] + tail.drop_first()));
                    break ;
                }
            } else {
                break ;
            }
        }
    }

    /// Makes one segment of every run of neighbouring segments at one
    /// height.
    fn merge(&mut self)
        requires
            covers(old(self)@.skylines, 0, old(self)@.config.max_width as int),
        ensures
            final(self)@ == (SkylineState {
                skylines: merged(old(self)@.skylines),
                ..old(self)@
            }),
    {
        let ghost before = self.skylines@;
        let ghost width = self.config.max_width as int;
        let ghost mut k: int = 1;
        let mut i: usize = 1;
        proof {
            assert(before.take(1).len() == 1);
            assert(before == before.take(1) + before.skip(1));
            lemma_merged_covers(before.take(1), 0, before[0].end());
        }
        while i < self.skylines.len()
            invariant
                1 <= i <= self.skylines.len(),
                1 <= k <= before.len(),
                covers(before, 0, width),
                width <= u32::MAX,
                i == merged(before.take(k)).len(),
                self.skylines@ == merged(before.take(k)) + before.skip(k),
                self.config == old(self).config,
                self.used_area == old(self).used_area,
                self.placed == old(self).placed,
            decreases before.len() - k,
        {
            let ghost head = merged(before.take(k));
            proof {
                assert(before.take(k + 1).drop_last() == before.take(k));
                assert(before.take(k + 1).last() == before[k]);
                assert(self.skylines[i as int] == before[k]);
                assert(self.skylines[i - 1] == head.last());
                assert(before.skip(k).drop_first() == before.skip(k + 1));
                lemma_covers_prefix(before, 0, width, k);
                lemma_merged_covers(before.take(k), 0, before[k].x as int);
                lemma_contiguous_order(before, k, before.len() - 1);
            }
            if self.skylines[i - 1].y == self.skylines[i].y {
                let joined = Skyline {
                    x: self.skylines[i - 1].x,
                    y: self.skylines[i - 1].y,
                    w: self.skylines[i - 1].w + self.skylines[i].w,
                };
                self.skylines[i - 1] = joined;
                self.skylines.remove(i);
                proof {
                    assert(self.skylines@ == head.drop_last().push(joined) + before.skip(k + 1));
                    k = k + 1;
                }
            } else {
                proof {
                    assert(self.skylines@ == head.push(before[k]) + before.skip(k + 1));
                    k = k + 1;
                }
                i += 1;
            }
        }
        proof {
            assert(before.take(k) == before);
            assert(before.skip(k).len() == 0);
        }
    }
}

impl Packer for SkylinePacker {
    open spec fn inv(state: SkylineState) -> bool {
        state.inv()
    }

    open spec fn config(state: SkylineState) -> PackerConfig {
        state.config
    }

    open spec fn placed(state: SkylineState) -> Seq<Rectf> {
        state.placed
    }

    open spec fn spec_insert(state: SkylineState, w: u32, h: u32) -> (
        SkylineState,
        Option<Rectf>,
    ) {
        state.insert(w, h)
    }

    open spec fn spec_reset(state: SkylineState, resize: Option<Size>) -> SkylineState {
        state.reset(resize)
    }

    proof fn lemma_insert(state: SkylineState, w: u32, h: u32) {
        state.lemma_insert(w, h);
    }

    proof fn lemma_inv(state: SkylineState) {
    }

    proof fn lemma_reset(state: SkylineState, other: SkylineState, resize: Option<Size>) {
        SkylineState::lemma_fresh_admits(state.config.resized(resize), 1, 1);
    }

    fn insert(&mut self, w: u32, h: u32) -> (r: Option<Rectf>) {
        if w == 0 || h == 0 {
            return None;
        }
        proof {
            self@.lemma_insert(w, h);
            self@.lemma_best_place(w, h, self@.skylines.len() as int);
        }
        if let Some((i, rect)) = self.find_skyline(w, h) {
            self.split(i, &rect);
            proof {
                lemma_raise(
                    old(self)@.skylines,
                    old(self)@.config.max_width as int,
                    i as int,
                    rect,
                );
            }
            self.merge();
            self.used_area.expand_with(&rect);
            let placed = Rectf::from_rect(rect, w != rect.w);
            self.placed = Ghost(self.placed@.push(placed));
            Some(placed)
        } else {
            None
        }
    }

    fn reset(&mut self, resize: Option<Size>) {
        if let Some(size) = resize {
            self.config.max_width = size.w;
            self.config.max_height = size.h;
        }
        self.used_area = Size::zero();
        self.skylines.clear();
        self.skylines.push(Skyline { x: 0, y: 0, w: self.config.max_width });
        self.placed = Ghost(Seq::empty());
        proof {
            assert(self@.skylines == SkylineState::fresh(self.config).skylines);
            SkylineState::lemma_fresh_admits(self.config, 1, 1);
        }
    }

    fn used_area(&self) -> (used: Size) {
        self.used_area
    }
}

/// In a row of segments that follow one another, a later segment starts
/// no further left than an earlier one ends.
pub proof fn lemma_contiguous_order(skylines: Seq<Skyline>, i: int, j: int)
    requires
        contiguous(skylines),
        0 <= i <= j < skylines.len(),
    ensures
        skylines[i].x <= skylines[j].x,
        skylines[i].end() <= skylines[j].end(),
        i < j ==> skylines[i].end() <= skylines[j].x,
    decreases j - i,
{
    if i < j {
        lemma_contiguous_order(skylines, i, j - 1);
        assert(skylines[j - 1].end() == skylines[j].x);
    }
}

/// The first `k` of the segments that cover a range cover it up to where
/// the next segment starts.
pub proof fn lemma_covers_prefix(skylines: Seq<Skyline>, from: int, to: int, k: int)
    requires
        covers(skylines, from, to),
        1 <= k <= skylines.len(),
    ensures
        covers(skylines.take(k), from, skylines[k - 1].end()),
        k < skylines.len() ==> skylines[k - 1].end() == skylines[k].x,
{
    let prefix = skylines.take(k);
    assert forall|i: int, j: int| 0 <= i && j == i + 1 && j < prefix.len() implies (
    #[trigger] prefix[i]).end() == (#[trigger] prefix[j]).x by {
        assert(skylines[i].end() == skylines[j].x);
    }
    if k < skylines.len() {
        assert(skylines[k - 1].end() == skylines[k].x);
    }
}

/// Merging keeps the range that the segments cover, and leaves no two
/// neighbouring segments at the same height.
pub proof fn lemma_merged_covers(skylines: Seq<Skyline>, from: int, to: int)
    requires
        covers(skylines, from, to),
        to <= u32::MAX,
    ensures
        covers(merged(skylines), from, to),
        stepped(merged(skylines)),
        merged(skylines).last().y == skylines.last().y,
    decreases skylines.len(),
{
    if skylines.len() > 1 {
        let front = skylines.drop_last();
        let k = skylines.len() - 1;
        assert(front == skylines.take(k));
        lemma_covers_prefix(skylines, from, to, k);
        lemma_merged_covers(front, from, skylines[k].x as int);
        let head = merged(front);
        let result = merged(skylines);
        if head.last().y == skylines.last().y {
            let joined = result.last();
            assert forall|i: int, j: int| 0 <= i && j == i + 1 && j < result.len() implies (
            #[trigger] result[i]).end() == (#[trigger] result[j]).x && result[i].y
                != result[j].y by {
                assert(head[i].end() == head[j].x);
                assert(head[i].y != head[j].y);
            }
        } else {
            assert forall|i: int, j: int| 0 <= i && j == i + 1 && j < result.len() implies (
            #[trigger] result[i]).end() == (#[trigger] result[j]).x && result[i].y
                != result[j].y by {
                if j < head.len() {
                    assert(head[i].end() == head[j].x);
                    assert(head[i].y != head[j].y);
                }
            }
        }
    }
}

/// The segment of a column is the last that starts at or left of it.
pub proof fn lemma_seg_at(skylines: Seq<Skyline>, p: int)
    ensures
        -1 <= seg_at(skylines, p) < skylines.len(),
        seg_at(skylines, p) >= 0 ==> skylines[seg_at(skylines, p)].x <= p,
        forall|k: int| seg_at(skylines, p) < k < skylines.len() ==> (#[trigger] skylines[k]).x > p,
    decreases skylines.len(),
{
    if skylines.len() > 0 && skylines.last().x > p {
        let front = skylines.drop_last();
        lemma_seg_at(front, p);
        assert forall|k: int| seg_at(skylines, p) < k < skylines.len() implies (
        #[trigger] skylines[k]).x > p by {
            if k < front.len() {
                assert(front[k] == skylines[k]);
            }
        }
    }
}

/// A segment that starts at or left of a column, with every later segment
/// right of it, is the segment of that column.
pub proof fn lemma_seg_at_is(skylines: Seq<Skyline>, p: int, j: int)
    requires
        0 <= j < skylines.len(),
        skylines[j].x <= p,
        forall|k: int| j < k < skylines.len() ==> (#[trigger] skylines[k]).x > p,
    ensures
        seg_at(skylines, p) == j,
    decreases skylines.len(),
{
    if j < skylines.len() - 1 {
        let front = skylines.drop_last();
        assert(skylines[skylines.len() - 1].x > p);
        assert forall|k: int| j < k < front.len() implies (#[trigger] front[k]).x > p by {
            assert(front[k] == skylines[k]);
        }
        lemma_seg_at_is(front, p, j);
    }
}

/// In a row of segments that covers a range, a column of the range lies
/// in its segment.
pub proof fn lemma_seg_at_holds(skylines: Seq<Skyline>, from: int, to: int, p: int)
    requires
        covers(skylines, from, to),
        from <= p < to,
    ensures
        0 <= seg_at(skylines, p) < skylines.len(),
        skylines[seg_at(skylines, p)].x <= p < skylines[seg_at(skylines, p)].end(),
{
    lemma_seg_at(skylines, p);
    let j = seg_at(skylines, p);
    if j < 0 {
        assert(skylines[0].x > p);
    } else if j < skylines.len() - 1 {
        assert(skylines[j].end() == skylines[j + 1].x);
    }
}

/// What rests on the segments from `from` on and spans the columns up to
/// `right` rests at or below the height of each segment that it spans.
pub proof fn lemma_span_top_bounds(skylines: Seq<Skyline>, from: int, right: int, j: int)
    requires
        contiguous(skylines),
        0 <= from <= j < skylines.len(),
        skylines[j].x < right,
    ensures
        span_top(skylines, from, right) >= skylines[j].y,
    decreases j - from,
{
    lemma_contiguous_order(skylines, from, j);
    if from < j {
        lemma_span_top_bounds(skylines, from + 1, right, j);
    }
}

/// The segments from the one at `k` on cover the range from where that
/// segment starts.
pub proof fn lemma_covers_suffix(skylines: Seq<Skyline>, from: int, to: int, k: int)
    requires
        covers(skylines, from, to),
        0 <= k < skylines.len(),
    ensures
        covers(skylines.skip(k), skylines[k].x as int, to),
{
    let suffix = skylines.skip(k);
    assert forall|i: int, j: int| 0 <= i && j == i + 1 && j < suffix.len() implies (
    #[trigger] suffix[i]).end() == (#[trigger] suffix[j]).x by {
        assert(skylines[i + k].end() == skylines[j + k].x);
    }
}

/// In a row of segments that covers a range, every segment starts and
/// ends inside the range.
pub proof fn lemma_covers_bounds(skylines: Seq<Skyline>, from: int, to: int, i: int)
    requires
        covers(skylines, from, to),
        0 <= i < skylines.len(),
    ensures
        from <= skylines[i].x,
        skylines[i].end() <= to,
{
    lemma_contiguous_order(skylines, 0, i);
    lemma_contiguous_order(skylines, i, skylines.len() - 1);
}

/// A column right of where the second segment starts has the same height
/// with and without the first segment.
proof fn lemma_height_without_first(skylines: Seq<Skyline>, p: int)
    requires
        skylines.len() > 1,
        skylines[1].x <= p,
    ensures
        height_at(skylines.drop_first(), p) == height_at(skylines, p),
{
    let rest = skylines.drop_first();
    lemma_seg_at(skylines, p);
    let j = seg_at(skylines, p);
    if j < 1 {
        assert(skylines[1].x > p);
    }
    assert forall|k: int| j - 1 < k < rest.len() implies (#[trigger] rest[k]).x > p by {
        assert(rest[k] == skylines[k + 1]);
    }
    lemma_seg_at_is(rest, p, j - 1);
}

/// What is left of a row of segments right of a column covers the rest of
/// the range and has the height of the row in every column of it.
pub proof fn lemma_trim(s: Seq<Skyline>, from: int, to: int, right: int)
    requires
        covers(s, from, to),
        0 <= from <= right <= to <= u32::MAX,
    ensures
        (trim(s, right).len() == 0 && right == to) || covers(trim(s, right), right, to),
        forall|p: int| right <= p < to ==> #[trigger] height_at(trim(s, right), p) == height_at(s, p),
    decreases s.len(),
{
    let t = trim(s, right);
    if s[0].x >= right {
    } else if s[0].end() <= right {
        let rest = s.drop_first();
        if s.len() == 1 {
            assert(rest.len() == 0);
            assert(trim(rest, right) == rest);
        } else {
            assert(s[0].end() == s[1].x);
            lemma_covers_suffix(s, from, to, 1);
            assert(rest == s.skip(1));
            lemma_trim(rest, s[1].x as int, to, right);
            assert forall|p: int| right <= p < to implies #[trigger] height_at(t, p) == height_at(
                s,
                p,
            ) by {
                lemma_height_without_first(s, p);
            }
        }
    } else {
        let cut = t[0];
        lemma_covers_bounds(s, from, to, 0);
        assert(cut.end() == s[0].end());
        assert forall|i: int, j: int| 0 <= i && j == i + 1 && j < t.len() implies (
        #[trigger] t[i]).end() == (#[trigger] t[j]).x by {
            assert(s[i].end() == s[j].x);
            assert(t[j] == s[j]);
        }
        if s.len() > 1 {
            assert(t.last() == s.last());
        }
        assert forall|p: int| right <= p < to implies #[trigger] height_at(t, p) == height_at(
            s,
            p,
        ) by {
            lemma_seg_at(s, p);
            let j = seg_at(s, p);
            assert forall|k: int| j < k < t.len() implies (#[trigger] t[k]).x > p by {
                assert(t[k] == s[k]);
            }
            if j > 0 {
                assert(t[j] == s[j]);
            }
            lemma_seg_at_is(t, p, j);
        }
    }
}

/// Trimming raises no segment.
pub proof fn lemma_trim_low(s: Seq<Skyline>, right: int, limit: int)
    requires
        forall|i: int| 0 <= i < s.len() ==> (#[trigger] s[i]).y <= limit,
    ensures
        forall|i: int|
            0 <= i < trim(s, right).len() ==> (#[trigger] trim(s, right)[i]).y <= limit,
    decreases s.len(),
{
    let t = trim(s, right);
    if s.len() == 0 || s[0].x >= right {
    } else if s[0].end() <= right {
        let rest = s.drop_first();
        assert forall|i: int| 0 <= i < rest.len() implies (#[trigger] rest[i]).y <= limit by {
            assert(rest[i] == s[i + 1]);
        }
        lemma_trim_low(rest, right, limit);
        assert(t == trim(rest, right));
    } else {
        assert(t == seq![t[0]] + s.drop_first());
        assert forall|i: int| 0 <= i < t.len() implies (#[trigger] t[i]).y <= limit by {
            if i > 0 {
                assert(t[i] == s[i]);
            } else {
                assert(t[0].y == s[0].y);
            }
        }
    }
}

/// Once a rectangle rests on the skyline, the skyline still covers the
/// width of the atlas; it is at the bottom edge of the rectangle in the
/// columns of the rectangle and as it was in every other column.
pub proof fn lemma_raise(skylines: Seq<Skyline>, width: int, index: int, rect: Rect)
    requires
        covers(skylines, 0, width),
        width <= u32::MAX,
        0 <= index < skylines.len(),
        rect.x == skylines[index].x,
        rect.w > 0,
        rect.right_edge() <= width,
        rect.bottom_edge() <= u32::MAX,
    ensures
        covers(raise(skylines, index, rect), 0, width),
        forall|p: int|
            0 <= p < width ==> #[trigger] height_at(raise(skylines, index, rect), p) == if rect.x
                <= p < rect.right_edge() {
                rect.bottom_edge()
            } else {
                height_at(skylines, p)
            },
{
    let right = rect.right_edge();
    let laid = Skyline { x: rect.x, y: rect.bottom_edge() as u32, w: rect.w };
    let head = skylines.take(index).push(laid);
    let under = skylines.skip(index);
    let tail = trim(under, right);
    let raised = raise(skylines, index, rect);
    assert(raised == head + tail);
    lemma_covers_suffix(skylines, 0, width, index);
    lemma_trim(under, rect.x as int, width, right);
    assert forall|i: int, j: int| 0 <= i && j == i + 1 && j < raised.len() implies (
    #[trigger] raised[i]).end() == (#[trigger] raised[j]).x by {
        if j < index {
            assert(skylines[i].end() == skylines[j].x);
        } else if j == index {
            assert(skylines[i].end() == skylines[j].x);
        } else if j == index + 1 {
            assert(raised[j] == tail[0]);
        } else {
            assert(raised[i] == tail[i - index - 1]);
            assert(raised[j] == tail[j - index - 1]);
            assert(tail[i - index - 1].end() == tail[j - index - 1].x);
        }
    }
    if index == 0 {
        assert(raised[0] == laid);
    } else {
        assert(raised[0] == skylines[0]);
    }
    if tail.len() > 0 {
        assert(raised.last() == tail.last());
    } else {
        assert(raised.last() == laid);
    }
    assert forall|p: int| 0 <= p < width implies #[trigger] height_at(raised, p) == if rect.x
        <= p < rect.right_edge() {
        rect.bottom_edge()
    } else {
        height_at(skylines, p)
    } by {
        lemma_seg_at_holds(skylines, 0, width, p);
        lemma_seg_at(skylines, p);
        let j = seg_at(skylines, p);
        if p < rect.x {
            if j >= index {
                lemma_contiguous_order(skylines, index, j);
            }
            assert(raised[j] == skylines[j]);
            assert forall|k: int| j < k < raised.len() implies (#[trigger] raised[k]).x > p by {
                if k < index {
                    assert(raised[k] == skylines[k]);
                } else if k > index {
                    assert(raised[k] == tail[k - index - 1]);
                    lemma_covers_bounds(tail, right, width, k - index - 1);
                }
            }
            lemma_seg_at_is(raised, p, j);
        } else if p < right {
            assert(raised[index] == laid);
            assert forall|k: int| index < k < raised.len() implies (#[trigger] raised[k]).x
                > p by {
                assert(raised[k] == tail[k - index - 1]);
                lemma_covers_bounds(tail, right, width, k - index - 1);
            }
            lemma_seg_at_is(raised, p, index);
        } else {
            lemma_seg_at_holds(tail, right, width, p);
            lemma_seg_at(tail, p);
            let m = seg_at(tail, p);
            assert(raised[index + 1 + m] == tail[m]);
            assert forall|k: int| index + 1 + m < k < raised.len() implies (
            #[trigger] raised[k]).x > p by {
                assert(raised[k] == tail[k - index - 1]);
            }
            lemma_seg_at_is(raised, p, index + 1 + m);
            assert(height_at(tail, p) == height_at(under, p));
            if j < index {
                assert(skylines[index].x > p);
            }
            assert(under[j - index] == skylines[j]);
            assert forall|k: int| j - index < k < under.len() implies (#[trigger] under[k]).x
                > p by {
                assert(under[k] == skylines[k + index]);
            }
            lemma_seg_at_is(under, p, j - index);
        }
    }
}

/// Merging leaves the height of the skyline as it is in every column.
pub proof fn lemma_merged_heights(skylines: Seq<Skyline>, from: int, to: int)
    requires
        covers(skylines, from, to),
        to <= u32::MAX,
    ensures
        forall|p: int| #[trigger] height_at(merged(skylines), p) == height_at(skylines, p),
    decreases skylines.len(),
{
    if skylines.len() > 1 {
        let front = skylines.drop_last();
        let k = skylines.len() - 1;
        let closing = skylines.last();
        assert(front == skylines.take(k));
        lemma_covers_prefix(skylines, from, to, k);
        lemma_merged_covers(front, from, closing.x as int);
        lemma_merged_heights(front, from, closing.x as int);
        let head = merged(front);
        let result = merged(skylines);
        assert forall|p: int| #[trigger] height_at(result, p) == height_at(skylines, p) by {
            if closing.x <= p {
                assert(seg_at(skylines, p) == skylines.len() - 1);
                if head.last().y == closing.y {
                    assert(result.last().x == head.last().x);
                }
                assert(seg_at(result, p) == result.len() - 1);
            } else {
                assert(seg_at(skylines, p) == seg_at(front, p));
                lemma_seg_at(front, p);
                assert(height_at(skylines, p) == height_at(front, p));
                assert(height_at(front, p) == height_at(head, p));
                if head.last().y == closing.y {
                    assert(result.drop_last() == head.drop_last());
                    lemma_seg_at(head.drop_last(), p);
                    if head.last().x <= p {
                        assert(seg_at(result, p) == result.len() - 1);
                        assert(seg_at(head, p) == head.len() - 1);
                    } else {
                        assert(seg_at(result, p) == seg_at(head.drop_last(), p));
                        assert(seg_at(head, p) == seg_at(head.drop_last(), p));
                    }
                } else {
                    assert(result.drop_last() == head);
                    lemma_seg_at(head, p);
                    assert(seg_at(result, p) == seg_at(head, p));
                }
            }
        }
    }
}

/// Merging raises no segment.
pub proof fn lemma_merged_low(skylines: Seq<Skyline>, limit: int)
    requires
        forall|i: int| 0 <= i < skylines.len() ==> (#[trigger] skylines[i]).y <= limit,
    ensures
        forall|i: int|
            0 <= i < merged(skylines).len() ==> (#[trigger] merged(skylines)[i]).y <= limit,
    decreases skylines.len(),
{
    if skylines.len() > 1 {
        let front = skylines.drop_last();
        assert forall|i: int| 0 <= i < front.len() implies (#[trigger] front[i]).y <= limit by {
            assert(front[i] == skylines[i]);
        }
        lemma_merged_low(front, limit);
        let head = merged(front);
        let result = merged(skylines);
        assert forall|i: int| 0 <= i < result.len() implies (#[trigger] result[i]).y <= limit by {
            if head.len() > 0 && head.last().y == skylines.last().y {
                if i < result.len() - 1 {
                    assert(result[i] == head[i]);
                } else {
                    assert(result[i].y == head.last().y);
                }
            } else {
                if i < head.len() {
                    assert(result[i] == head[i]);
                } else {
                    assert(result[i] == skylines.last());
                }
            }
        }
    }
}

impl SkylineState {
    /// The best place among the first `n` segments starts at one of them
    /// and is where the request, as asked or flipped, comes to rest there.
    pub proof fn lemma_best_place(self, w: u32, h: u32, n: int)
        requires
            n <= self.skylines.len(),
        ensures
            match self.best_place(w, h, n) {
                Some((index, rect)) => {
                    &&& 0 <= index < n
                    &&& {
                        ||| self.can_put(index, w, h) == Some(rect)
                        ||| self.config.allow_flipping && self.can_put(index, h, w) == Some(rect)
                    }
                },
                None => forall|i: int|
                    0 <= i < n ==> {
                        &&& (#[trigger] self.can_put(i, w, h)) is None
                        &&& self.config.allow_flipping ==> self.can_put(i, h, w) is None
                    },
            },
        decreases n,
    {
        if n > 0 {
            self.lemma_best_place(w, h, n - 1);
        }
    }

    /// No place is better than the best one: none that the request could
    /// take, as asked or flipped, has a lower bottom edge, or one as low
    /// with a narrower segment under its left edge.
    pub proof fn lemma_best_place_is_best(self, w: u32, h: u32, n: int, i: int, flip: bool)
        requires
            0 <= i < n <= self.skylines.len(),
            flip ==> self.config.allow_flipping,
            (if flip {
                self.can_put(i, h, w)
            } else {
                self.can_put(i, w, h)
            }) is Some,
        ensures
            self.best_place(w, h, n) is Some,
            ({
                let (index, kept) = self.best_place(w, h, n)->0;
                let rect = (if flip {
                    self.can_put(i, h, w)
                } else {
                    self.can_put(i, w, h)
                })->0;
                ||| kept.bottom_edge() < rect.bottom_edge()
                ||| kept.bottom_edge() == rect.bottom_edge() && self.skylines[index].w
                    <= self.skylines[i].w
            }),
        decreases n,
    {
        self.lemma_best_place(w, h, n - 1);
        if i < n - 1 {
            self.lemma_best_place_is_best(w, h, n - 1, i, flip);
        }
    }

    /// An atlas that holds nothing takes exactly the requests that its
    /// configuration admits.
    pub proof fn lemma_fresh_admits(config: PackerConfig, w: u32, h: u32)
        ensures
            SkylineState::fresh(config).inv(),
            SkylineState::fresh(config).find(w, h) is Some <==> config.admits(w, h),
    {
        let fresh = SkylineState::fresh(config);
        assert(fresh.best_place(w, h, 0) is None);
        assert(span_top(fresh.skylines, 1, w as int) == 0);
        assert(span_top(fresh.skylines, 1, h as int) == 0);
        assert(span_top(fresh.skylines, 0, w as int) == 0);
        assert(span_top(fresh.skylines, 0, h as int) == 0);
    }

    /// An accepted request is placed as asked or flipped, inside the atlas
    /// and clear of everything placed before, an empty atlas would accept
    /// it too, and the invariant holds afterwards; a refused request
    /// changes nothing.
    pub proof fn lemma_insert(self, w: u32, h: u32)
        requires
            self.inv(),
        ensures
            self.insert(w, h).0.inv(),
            self.insert(w, h).0.config == self.config,
            match self.insert(w, h).1 {
                Some(rect) => {
                    &&& self.insert(w, h).0.placed == self.placed.push(rect)
                    &&& w > 0
                    &&& h > 0
                    &&& rect.holds(w, h)
                    &&& rect.flipped ==> self.config.allow_flipping
                    &&& rect.spec_rect().fits_in(self.config.bounds())
                    &&& clear_of(self.placed, rect.spec_rect())
                    &&& self.reset(None).insert(w, h).1 is Some
                },
                None => self.insert(w, h).0 == self,
            },
    {
        if let Some((index, rect)) = self.find(w, h) {
            let width = self.config.max_width as int;
            let height = self.config.max_height as int;
            let right = rect.right_edge();
            let next = self.insert(w, h).0;
            let placed = self.insert(w, h).1->0;
            self.lemma_best_place(w, h, self.skylines.len() as int);
            SkylineState::lemma_fresh_admits(self.config, w, h);
            assert(self.config.admits(w, h));
            assert(placed.spec_rect() == rect);
            assert(rect.y == span_top(self.skylines, index, right));

            // what was placed before is above where the request rests
            assert forall|k: int, p: int|
                0 <= k < self.placed.len() && (#[trigger] self.placed[k]).x <= p
                    < self.placed[k].spec_rect().right_edge() && rect.x <= p
                    < right implies self.placed[k].spec_rect().bottom_edge() <= rect.y
                && rect.y >= #[trigger] height_at(self.skylines, p) by {
                lemma_seg_at_holds(self.skylines, 0, width, p);
                lemma_seg_at(self.skylines, p);
                let j = seg_at(self.skylines, p);
                if j < index {
                    assert(self.skylines[index].x > p);
                }
                lemma_span_top_bounds(self.skylines, index, right, j);
                assert(self.placed[k].spec_rect().bottom_edge() <= height_at(self.skylines, p));
            }
            assert forall|k: int| 0 <= k < self.placed.len() implies !(
            #[trigger] self.placed[k]).spec_rect().overlaps(rect) by {
                let r = self.placed[k].spec_rect();
                if r.overlaps(rect) {
                    let p = if r.x >= rect.x {
                        r.x as int
                    } else {
                        rect.x as int
                    };
                    assert(self.placed[k].x <= p < r.right_edge() && rect.x <= p < right);
                    assert(rect.y >= height_at(self.skylines, p));
                }
            }

            lemma_push_disjoint(self.placed, placed);

            // the skyline that follows
            let raised = raise(self.skylines, index, rect);
            lemma_raise(self.skylines, width, index, rect);
            lemma_merged_covers(raised, 0, width);
            lemma_merged_heights(raised, 0, width);
            assert forall|i: int| 0 <= i < raised.len() implies (#[trigger] raised[i]).y
                <= height by {
                lemma_trim_low(self.skylines.skip(index), right, height);
                if i > index {
                    assert(raised[i] == trim(self.skylines.skip(index), right)[i - index - 1]);
                } else if i < index {
                    assert(raised[i] == self.skylines[i]);
                }
            }
            lemma_merged_low(raised, height);
            assert(next.placed.drop_last() == self.placed);
            assert forall|k: int, p: int|
                0 <= k < next.placed.len() && (#[trigger] next.placed[k]).x <= p
                    < next.placed[k].spec_rect().right_edge() implies next.placed[k].spec_rect().bottom_edge()
                <= #[trigger] height_at(next.skylines, p) by {
                assert(height_at(next.skylines, p) == height_at(raised, p));
                if k < self.placed.len() {
                    assert(next.placed[k] == self.placed[k]);
                    assert(self.placed[k].spec_rect().bottom_edge() <= height_at(
                        self.skylines,
                        p,
                    ));
                }
            }
        }
    }
}

} // verus!
