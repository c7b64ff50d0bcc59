//! Free-rectangle strategy: a list of empty spaces, each request carved out
//! of the top-left corner of the most recently created space that can hold
//! it, and what is left of that space returned to the list as at most two
//! new spaces.

use vstd::prelude::*;
use crate::geometry::{PackerConfig, Rect, Rectf, Size};
use crate::packer::{bounding_box, clear_of, lemma_push_disjoint, pairwise_disjoint, Packer};

verus! {

/// What is left of `space` once a `w` by `h` rectangle is cut from its
/// top-left corner: `None` when the rectangle is larger than the space in
/// either dimension, else no space on an exact fit, one strip where one
/// dimension matches, and otherwise two spaces. Of these two the first
/// spans the full side of `space` along which more was left, the second is
/// as long as the adjacent side of the rectangle.
pub open spec fn split_spec(w: u32, h: u32, space: Rect) -> Option<Seq<Rect>> {
    let free_w = space.w - w;
    let free_h = space.h - h;
    let right = Rect { x: (space.x + w) as u32, y: space.y, w: free_w as u32, h: space.h };
    let below = Rect { x: space.x, y: (space.y + h) as u32, w: space.w, h: free_h as u32 };
    if free_w < 0 || free_h < 0 {
        None
    } else if free_w == 0 && free_h == 0 {
        Some(Seq::empty())
    } else if free_h == 0 {
        Some(seq![right])
    } else if free_w == 0 {
        Some(seq![below])
    } else if free_w > free_h {
        Some(seq![right, Rect { w, ..below }])
    } else {
        Some(seq![below, Rect { h, ..right }])
    }
}

/// The remainders of a split lie inside the space that was split, clear of
/// the rectangle cut from its corner and clear of one another.
pub proof fn lemma_split_geometry(w: u32, h: u32, space: Rect)
    requires
        split_spec(w, h, space) is Some,
        space.right_edge() <= u32::MAX,
        space.bottom_edge() <= u32::MAX,
    ensures
        ({
            let parts = split_spec(w, h, space)->0;
            let cut = Rect { x: space.x, y: space.y, w, h };
            &&& parts.len() <= 2
            &&& space.covers(cut)
            &&& forall|i: int|
                0 <= i < parts.len() ==> space.covers(#[trigger] parts[i]) && !parts[i].overlaps(
                    cut,
                )
            &&& parts.len() == 2 ==> !parts[0].overlaps(parts[1])
        }),
{
}

/// The remainder spaces of one attempt to cut a rectangle from a space: up
/// to two rectangles, or the mark of a failed attempt.
pub struct Splits {
    count: u32,
    spaces: [Rect; 2],
}

impl View for Splits {
    type V = Option<Seq<Rect>>;

    closed spec fn view(&self) -> Option<Seq<Rect>> {
        if self.count <= 2 {
            Some(Seq::new(self.count as nat, |i: int| self.spaces[i]))
        } else {
            None
        }
    }
}

/// How many spaces a split leaves behind; a failed one counts as more than
/// any that succeeded.
pub open spec fn remainder_count(splits: Option<Seq<Rect>>) -> int {
    match splits {
        Some(parts) => parts.len() as int,
        None => u32::MAX as int,
    }
}

impl Splits {
    #[verifier::type_invariant]
    spec fn wf(self) -> bool {
        self.count <= 2 || self.count == u32::MAX
    }

    /// The cut did not fit.
    pub fn failed() -> (s: Self)
        ensures
            s@ is None,
    {
        Self { count: u32::MAX, spaces: [Rect { x: 0, y: 0, w: 0, h: 0 }; 2] }
    }

    /// The cut used the space up.
    pub fn none() -> (s: Self)
        ensures
            s@ == Some(Seq::<Rect>::empty()),
    {
        Self { count: 0, spaces: [Rect { x: 0, y: 0, w: 0, h: 0 }; 2] }
    }

    /// The cut left one space.
    pub fn one(space: Rect) -> (s: Self)
        ensures
            s@ == Some(seq![space]),
    {
        let s = Self { count: 1, spaces: [space, Rect { x: 0, y: 0, w: 0, h: 0 }] };
        assert(s@->0 =~= seq![space]);
        s
    }

    /// The cut left two spaces.
    pub fn two(bigger: Rect, lesser: Rect) -> (s: Self)
        ensures
            s@ == Some(seq![bigger, lesser]),
    {
        let s = Self { count: 2, spaces: [bigger, lesser] };
        assert(s@->0 =~= seq![bigger, lesser]);
        s
    }

    /// Whether this split leaves fewer spaces than `b`; a failed split
    /// counts as leaving more than any other.
    pub fn better_than(&self, b: &Splits) -> (better: bool)
        ensures
            better == (remainder_count(self@) < remainder_count(b@)),
    {
        proof {
            use_type_invariant(self);
            use_type_invariant(b);
        }
        self.count < b.count
    }

    /// Whether the cut fitted.
    pub fn is_valid(&self) -> (valid: bool)
        ensures
            valid == (self@ is Some),
    {
        self.count <= 2
    }

    /// Number of spaces left, for a split that is valid.
    pub fn len(&self) -> (n: usize)
        requires
            self@ is Some,
        ensures
            n == self@->0.len(),
    {
        self.count as usize
    }

    /// One of the spaces left.
    pub fn get(&self, i: usize) -> (space: Rect)
        requires
            self@ is Some,
            i < self@->0.len(),
        ensures
            space == self@->0[i as int],
    {
        self.spaces[i]
    }
}

/// Cuts a `w` by `h` rectangle from the top-left corner of
/// `space_available` and returns what is left of the space.
pub fn insert_and_split(w: u32, h: u32, space_available: Rect) -> (splits: Splits)
    requires
        space_available.right_edge() <= u32::MAX,
        space_available.bottom_edge() <= u32::MAX,
    ensures
        splits@ == split_spec(w, h, space_available),
{
    if space_available.w < w || space_available.h < h {
        // Image is bigger than the candidate empty space.
        // We'll need to look further.
        return Splits::failed();
    }
    let free_w = space_available.w - w;
    let free_h = space_available.h - h;

    if free_w == 0 && free_h == 0 {
        // The image fits exactly: the space is deleted and nothing is left.
        return Splits::none();
    }
    // Exactly one of the image dimensions equals the respective dimension
    // of the candidate empty space (e.g. image = 20x40, space = 30x40):
    // the space is deleted and a single split is left, here a 10x40 space.

    if free_w > 0 && free_h == 0 {
        return Splits::one(
            Rect {
                x: space_available.x + w,
                y: space_available.y,
                w: free_w,
                h: space_available.h,
            },
        );
    }
    if free_w == 0 && free_h > 0 {
        return Splits::one(
            Rect {
                x: space_available.x,
                y: space_available.y + h,
                w: space_available.w,
                h: free_h,
            },
        );
    }
    // The image is strictly smaller than the empty space in both width and
    // height. One tiny space and one huge space serve later insertions
    // better than two of middling size: with more width left than height
    // the split runs along the vertical axis, else along the horizontal one.

    if free_w > free_h {
        let bigger_split = Rect {
            x: space_available.x + w,
            y: space_available.y,
            w: free_w,
            h: space_available.h,
        };
        let lesser_split = Rect {
            x: space_available.x,
            y: space_available.y + h,
            w: w,
            h: free_h,
        };
        return Splits::two(bigger_split, lesser_split);
    }
    let bigger_split = Rect {
        x: space_available.x,
        y: space_available.y + h,
        w: space_available.w,
        h: free_h,
    };
    let lesser_split = Rect {
        x: space_available.x + w,
        y: space_available.y,
        w: free_w,
        h: h,
    };
    Splits::two(bigger_split, lesser_split)
}

/// How a request is cut from `space`: `Some(false)` as asked, `Some(true)`
/// with its sides swapped, `None` when it does not fit. With flipping
/// allowed the orientation that leaves fewer spaces wins, and the one asked
/// for wins a tie.
pub open spec fn orientation(space: Rect, w: u32, h: u32, flipping: bool) -> Option<bool> {
    let normal = split_spec(w, h, space);
    let turned = split_spec(h, w, space);
    if flipping && turned is Some && remainder_count(turned) < remainder_count(normal) {
        Some(true)
    } else if normal is Some {
        Some(false)
    } else {
        None
    }
}

/// The space a request is cut from, by its index in `spaces`, and whether
/// the request is flipped: the last space of the list that can hold it.
pub open spec fn choose_space(spaces: Seq<Rect>, w: u32, h: u32, flipping: bool) -> Option<
    (int, bool),
>
    decreases spaces.len(),
{
    if spaces.len() == 0 {
        None
    } else {
        match orientation(spaces.last(), w, h, flipping) {
            Some(flipped) => Some((spaces.len() - 1, flipped)),
            None => choose_space(spaces.drop_last(), w, h, flipping),
        }
    }
}

/// `choose_space` picks `index` when the space there can hold the request
/// and none after it can.
pub proof fn lemma_choose_space_found(
    spaces: Seq<Rect>,
    w: u32,
    h: u32,
    flipping: bool,
    index: int,
)
    requires
        0 <= index < spaces.len(),
        orientation(spaces[index], w, h, flipping) is Some,
        forall|j: int|
            index < j < spaces.len() ==> orientation(#[trigger] spaces[j], w, h, flipping) is None,
    ensures
        choose_space(spaces, w, h, flipping) == Some(
            (index, orientation(spaces[index], w, h, flipping)->0),
        ),
    decreases spaces.len(),
{
    if index < spaces.len() - 1 {
        assert(orientation(spaces[spaces.len() - 1], w, h, flipping) is None);
        lemma_choose_space_found(spaces.drop_last(), w, h, flipping, index);
    }
}

/// `choose_space` finds nothing when no space can hold the request.
pub proof fn lemma_choose_space_none(spaces: Seq<Rect>, w: u32, h: u32, flipping: bool)
    requires
        forall|j: int|
            0 <= j < spaces.len() ==> orientation(#[trigger] spaces[j], w, h, flipping) is None,
    ensures
        choose_space(spaces, w, h, flipping) is None,
    decreases spaces.len(),
{
    if spaces.len() > 0 {
        assert(orientation(spaces[spaces.len() - 1], w, h, flipping) is None);
        lemma_choose_space_none(spaces.drop_last(), w, h, flipping);
    }
}

/// What `choose_space` picks is a space of the list that can hold the
/// request in the orientation it names.
pub proof fn lemma_choose_space_valid(spaces: Seq<Rect>, w: u32, h: u32, flipping: bool)
    ensures
        match choose_space(spaces, w, h, flipping) {
            Some((index, flipped)) => {
                &&& 0 <= index < spaces.len()
                &&& orientation(spaces[index], w, h, flipping) == Some(flipped)
            },
            None => true,
        },
    decreases spaces.len(),
{
    if spaces.len() > 0 {
        lemma_choose_space_valid(spaces.drop_last(), w, h, flipping);
    }
}

/// Mathematical state of a packer that keeps a list of free spaces.
pub struct SplitState {
    pub config: PackerConfig,
    /// The free spaces, oldest first.
    pub spaces: Seq<Rect>,
    /// Bounding box of the placements.
    pub used: Size,
    /// The placements since the last reset, oldest first.
    pub placed: Seq<Rectf>,
}

impl SplitState {
    /// The state of an atlas that holds nothing: one space, the whole atlas.
    pub open spec fn fresh(config: PackerConfig) -> SplitState {
        SplitState {
            config,
            spaces: seq![Rect { x: 0, y: 0, w: config.max_width, h: config.max_height }],
            used: Size { w: 0, h: 0 },
            placed: Seq::empty(),
        }
    }

    /// The space that a request would be cut from and its orientation.
    /// Requests without an area are never placed.
    pub open spec fn choice(self, w: u32, h: u32) -> Option<(int, bool)> {
        if w == 0 || h == 0 {
            None
        } else {
            choose_space(self.spaces, w, h, self.config.allow_flipping)
        }
    }

    /// Index of the space that a request would be cut from.
    pub open spec fn chosen_index(self, w: u32, h: u32) -> int
        recommends
            self.choice(w, h) is Some,
    {
        let (index, flipped) = self.choice(w, h)->0;
        index
    }

    /// Where a request that has a place is put.
    pub open spec fn placement(self, w: u32, h: u32) -> Rectf
        recommends
            self.choice(w, h) is Some,
    {
        let (index, flipped) = self.choice(w, h)->0;
        Rectf {
            x: self.spaces[index].x,
            y: self.spaces[index].y,
            w: if flipped {
                h
            } else {
                w
            },
            h: if flipped {
                w
            } else {
                h
            },
            flipped,
        }
    }

    /// The state after a request that has a place, given the free spaces
    /// that remain once the chosen one is taken off the list: the
    /// remainders of the chosen space go to the end of the list.
    pub open spec fn place(self, w: u32, h: u32, rest: Seq<Rect>) -> SplitState
        recommends
            self.choice(w, h) is Some,
    {
        let rect = self.placement(w, h);
        let (index, flipped) = self.choice(w, h)->0;
        SplitState {
            config: self.config,
            spaces: rest + split_spec(rect.w, rect.h, self.spaces[index])->0,
            used: self.used.expanded(rect.spec_rect()),
            placed: self.placed.push(rect),
        }
    }

    /// The state after a request for `w` by `h`, and the answer to it, for
    /// a list that keeps its order when a space is taken off.
    pub open spec fn insert(self, w: u32, h: u32) -> (SplitState, Option<Rectf>) {
        match self.choice(w, h) {
            Some((index, flipped)) => (
                self.place(w, h, self.spaces.remove(index)),
                Some(self.placement(w, h)),
            ),
            None => (self, None),
        }
    }

    /// The state after a request for `w` by `h`, and the answer to it, for
    /// a list that fills the gap of a space taken off with its last space.
    pub open spec fn insert_swapping(self, w: u32, h: u32) -> (SplitState, Option<Rectf>) {
        match self.choice(w, h) {
            Some((index, flipped)) => (
                self.place(w, h, self.spaces.update(index, self.spaces.last()).drop_last()),
                Some(self.placement(w, h)),
            ),
            None => (self, None),
        }
    }

    /// The state after a reset.
    pub open spec fn reset(self, resize: Option<Size>) -> SplitState {
        SplitState::fresh(self.config.resized(resize))
    }

    /// Every free space lies inside the atlas.
    pub open spec fn spaces_inside(self) -> bool {
        forall|i: int|
            0 <= i < self.spaces.len() ==> (#[trigger] self.spaces[i]).fits_in(
                self.config.bounds(),
            )
    }

    /// No two free spaces share a pixel.
    pub open spec fn spaces_disjoint(self) -> bool {
        forall|i: int, j: int|
            0 <= i < j < self.spaces.len() ==> !(#[trigger] self.spaces[i]).overlaps(
                #[trigger] self.spaces[j],
            )
    }

    /// No free space shares a pixel with a placement.
    pub open spec fn spaces_free(self) -> bool {
        forall|i: int, k: int|
            0 <= i < self.spaces.len() && 0 <= k < self.placed.len() ==> !(
            #[trigger] self.spaces[i]).overlaps((#[trigger] self.placed[k]).spec_rect())
    }

    /// The free spaces lie inside the atlas, clear of one another and of
    /// every placement; the placements have an area and lie inside the
    /// atlas, and `used` is their bounding box.
    pub open spec fn inv(self) -> bool {
        &&& self.spaces_inside()
        &&& self.spaces_disjoint()
        &&& self.spaces_free()
        &&& forall|k: int|
            0 <= k < self.placed.len() ==> {
                &&& (#[trigger] self.placed[k]).w > 0
                &&& self.placed[k].h > 0
                &&& self.placed[k].spec_rect().fits_in(self.config.bounds())
            }
        &&& pairwise_disjoint(self.placed)
        &&& self.used == bounding_box(self.placed)
        &&& self.used.w <= self.config.max_width
        &&& self.used.h <= self.config.max_height
    }

    /// `rest` holds the free spaces other than the one at `index`, each
    /// once: the space at `j` in `rest` is the one at `origin(j)` in the list.
    pub open spec fn is_rest(self, index: int, rest: Seq<Rect>, origin: spec_fn(int) -> int) -> bool {
        &&& forall|j: int|
            0 <= j < rest.len() ==> {
                &&& 0 <= #[trigger] origin(j) < self.spaces.len()
                &&& origin(j) != index
                &&& rest[j] == self.spaces[origin(j)]
            }
        &&& forall|j: int, k: int|
            0 <= j < k < rest.len() ==> #[trigger] origin(j) != #[trigger] origin(k)
    }

    /// A request that has a place is put, as asked or flipped, inside the
    /// atlas and clear of everything placed before, and the invariant holds
    /// of the state that follows, whichever way the chosen space left the
    /// list.
    pub proof fn lemma_place(self, w: u32, h: u32, rest: Seq<Rect>, origin: spec_fn(int) -> int)
        requires
            self.inv(),
            self.choice(w, h) is Some,
            self.is_rest(self.chosen_index(w, h), rest, origin),
        ensures
            self.place(w, h, rest).inv(),
            w > 0,
            h > 0,
            self.placement(w, h).holds(w, h),
            self.placement(w, h).flipped ==> self.config.allow_flipping,
            self.placement(w, h).spec_rect().fits_in(self.config.bounds()),
            clear_of(self.placed, self.placement(w, h).spec_rect()),
    {
        let (index, flipped) = self.choice(w, h)->0;
        lemma_choose_space_valid(self.spaces, w, h, self.config.allow_flipping);
        let space = self.spaces[index];
        let rect = self.placement(w, h);
        let cut = rect.spec_rect();
        let parts = split_spec(rect.w, rect.h, space)->0;
        let next = self.place(w, h, rest);
        assert(space.fits_in(self.config.bounds()));
        lemma_split_geometry(rect.w, rect.h, space);
        assert(cut == Rect { x: space.x, y: space.y, w: rect.w, h: rect.h });
        assert(space.covers(cut));
        assert forall|k: int| 0 <= k < self.placed.len() implies !(
        #[trigger] self.placed[k]).spec_rect().overlaps(cut) by {
            assert(!self.spaces[index].overlaps(self.placed[k].spec_rect()));
        }
        assert(next.placed.drop_last() == self.placed);
        lemma_push_disjoint(self.placed, rect);
        assert forall|i: int| 0 <= i < next.spaces.len() implies {
            &&& (#[trigger] next.spaces[i]).fits_in(self.config.bounds())
            &&& !next.spaces[i].overlaps(cut)
            &&& i < rest.len() ==> !next.spaces[i].overlaps(space)
            &&& i >= rest.len() ==> space.covers(next.spaces[i])
        } by {
            if i < rest.len() {
                assert(next.spaces[i] == self.spaces[origin(i)]);
                if origin(i) < index {
                    assert(!self.spaces[origin(i)].overlaps(self.spaces[index]));
                } else {
                    assert(!self.spaces[index].overlaps(self.spaces[origin(i)]));
                }
            } else {
                assert(next.spaces[i] == parts[i - rest.len()]);
            }
        }
        assert forall|i: int, j: int| 0 <= i < j < next.spaces.len() implies !(
        #[trigger] next.spaces[i]).overlaps(#[trigger] next.spaces[j]) by {
            if j < rest.len() {
                assert(next.spaces[i] == self.spaces[origin(i)]);
                assert(next.spaces[j] == self.spaces[origin(j)]);
                if origin(i) < origin(j) {
                    assert(!self.spaces[origin(i)].overlaps(self.spaces[origin(j)]));
                } else {
                    assert(!self.spaces[origin(j)].overlaps(self.spaces[origin(i)]));
                }
            } else if i >= rest.len() {
                assert(next.spaces[i] == parts[0]);
                assert(next.spaces[j] == parts[1]);
            }
        }
        assert forall|i: int, k: int|
            0 <= i < next.spaces.len() && 0 <= k < next.placed.len() implies !(
        #[trigger] next.spaces[i]).overlaps((#[trigger] next.placed[k]).spec_rect()) by {
            if k < self.placed.len() {
                assert(next.placed[k] == self.placed[k]);
                if i < rest.len() {
                    assert(next.spaces[i] == self.spaces[origin(i)]);
                } else {
                    assert(!self.spaces[index].overlaps(self.placed[k].spec_rect()));
                }
            }
        }
    }

    /// The laws of an insertion for a list that keeps its order.
    pub proof fn lemma_insert(self, w: u32, h: u32)
        requires
            self.inv(),
        ensures
            self.insert(w, h).0.inv(),
            self.insert(w, h).0.config == self.config,
            match self.insert(w, h).1 {
                Some(rect) => {
                    &&& self.insert(w, h).0.placed == self.placed.push(rect)
                    &&& w > 0
                    &&& h > 0
                    &&& rect.holds(w, h)
                    &&& rect.flipped ==> self.config.allow_flipping
                    &&& rect.spec_rect().fits_in(self.config.bounds())
                    &&& clear_of(self.placed, rect.spec_rect())
                    &&& self.reset(None).insert(w, h).1 is Some
                },
                None => self.insert(w, h).0 == self,
            },
    {
        SplitState::lemma_fresh_admits(self.config, w, h);
        if let Some((index, flipped)) = self.choice(w, h) {
            lemma_choose_space_valid(self.spaces, w, h, self.config.allow_flipping);
            let origin = |j: int|
                if j < index {
                    j
                } else {
                    j + 1
                };
            self.lemma_place(w, h, self.spaces.remove(index), origin);
        }
    }

    /// The laws of an insertion for a list that fills gaps with its last space.
    pub proof fn lemma_insert_swapping(self, w: u32, h: u32)
        requires
            self.inv(),
        ensures
            self.insert_swapping(w, h).0.inv(),
            self.insert_swapping(w, h).0.config == self.config,
            match self.insert_swapping(w, h).1 {
                Some(rect) => {
                    &&& self.insert_swapping(w, h).0.placed == self.placed.push(rect)
                    &&& w > 0
                    &&& h > 0
                    &&& rect.holds(w, h)
                    &&& rect.flipped ==> self.config.allow_flipping
                    &&& rect.spec_rect().fits_in(self.config.bounds())
                    &&& clear_of(self.placed, rect.spec_rect())
                    &&& self.reset(None).insert_swapping(w, h).1 is Some
                },
                None => self.insert_swapping(w, h).0 == self,
            },
    {
        SplitState::lemma_fresh_admits(self.config, w, h);
        if let Some((index, flipped)) = self.choice(w, h) {
            lemma_choose_space_valid(self.spaces, w, h, self.config.allow_flipping);
            let last = self.spaces.len() - 1;
            let origin = |j: int|
                if j == index {
                    last
                } else {
                    j
                };
            self.lemma_place(
                w,
                h,
                self.spaces.update(index, self.spaces.last()).drop_last(),
                origin,
            );
        }
    }

    /// A fresh state meets the invariant.
    pub proof fn lemma_fresh(config: PackerConfig)
        ensures
            SplitState::fresh(config).inv(),
    {
    }

    /// An atlas that holds nothing takes exactly the requests that its
    /// configuration admits.
    pub proof fn lemma_fresh_admits(config: PackerConfig, w: u32, h: u32)
        ensures
            SplitState::fresh(config).choice(w, h) is Some <==> config.admits(w, h),
    {
        let spaces = SplitState::fresh(config).spaces;
        assert(spaces.drop_last() == Seq::<Rect>::empty());
        assert(choose_space(spaces.drop_last(), w, h, config.allow_flipping) is None);
    }
}

/// Looks for the space that a request is cut from: the last space of the
/// list that can hold it, as asked or, where `allow_flipping` is set,
/// flipped. Returns the index of the space, what is left of it, and
/// whether the request is flipped.
pub fn find_space(spaces: &Vec<Rect>, w: u32, h: u32, allow_flipping: bool) -> (found: Option<
    (usize, Splits, bool),
>)
    requires
        forall|i: int|
            0 <= i < spaces.len() ==> (#[trigger] spaces[i]).right_edge() <= u32::MAX
                && spaces[i].bottom_edge() <= u32::MAX,
    ensures
        match found {
            Some((index, splits, flipped)) => {
                &&& choose_space(spaces@, w, h, allow_flipping) == Some((index as int, flipped))
                &&& splits@ == if flipped {
                    split_spec(h, w, spaces[index as int])
                } else {
                    split_spec(w, h, spaces[index as int])
                }
                &&& splits@ is Some
            },
            None => choose_space(spaces@, w, h, allow_flipping) is None,
        },
{
    let mut i = spaces.len();
    while i > 0
        invariant
            i <= spaces.len(),
            forall|j: int|
                0 <= j < spaces.len() ==> (#[trigger] spaces[j]).right_edge() <= u32::MAX
                    && spaces[j].bottom_edge() <= u32::MAX,
            forall|j: int|
                i <= j < spaces.len() ==> orientation(#[trigger] spaces[j], w, h, allow_flipping)
                    is None,
        decreases i,
    {
        i -= 1;
        let candidate_space = spaces[i];
        let normal = insert_and_split(w, h, candidate_space);
        if allow_flipping {
            let flipped = insert_and_split(h, w, candidate_space);
            // If both were successful, prefer the one that generated less
            // remainder spaces.
            if flipped.is_valid() && flipped.better_than(&normal) {
                proof {
                    lemma_choose_space_found(spaces@, w, h, allow_flipping, i as int);
                }
                return Some((i, flipped, true));
            }
        }
        if normal.is_valid() {
            proof {
                lemma_choose_space_found(spaces@, w, h, allow_flipping, i as int);
            }
            return Some((i, normal, false));
        }
    }
    proof {
        lemma_choose_space_none(spaces@, w, h, allow_flipping);
    }
    None
}

/// Packer that keeps a list of free spaces and cuts each request from the
/// space created last among those that can hold it, in the manner of the
/// [lightmap packer](https://blackpawn.com/texts/lightmaps/default.html)
/// with a vector in place of the tree.
///
/// *Performs poorly with unsorted input data*; it is best used to bake
/// spritesheets.
pub struct SplitPacker {
    used_area: Size,
    spaces: Vec<Rect>,
    config: PackerConfig,
    placed: Ghost<Seq<Rectf>>,
}

impl View for SplitPacker {
    type V = SplitState;

    closed spec fn view(&self) -> SplitState {
        SplitState {
            config: self.config,
            spaces: self.spaces@,
            used: self.used_area,
            placed: self.placed@,
        }
    }
}

impl SplitPacker {
    /// A packer for atlases of the given configuration, with nothing placed.
    pub fn new(config: PackerConfig) -> (packer: Self)
        ensures
            packer@ == SplitState::fresh(config),
            packer@.inv(),
    {
        let mut tmp = Self {
            used_area: Size::zero(),
            spaces: Vec::new(),
            config,
            placed: Ghost(Seq::empty()),
        };
        tmp.spaces.push(Rect { x: 0, y: 0, w: config.max_width, h: config.max_height });
        assert(tmp@.spaces == SplitState::fresh(config).spaces);
        tmp
    }

    /// Takes the chosen space off the list, appends what is left of it and
    /// records the placement.
    fn accept_insert(&mut self, index: usize, splits: &Splits, flipped: bool, w: u32, h: u32) -> (r:
        Rectf)
        requires
            old(self)@.inv(),
            old(self)@.choice(w, h) == Some((index as int, flipped)),
            splits@ is Some,
            splits@ == split_spec(
                old(self)@.placement(w, h).w,
                old(self)@.placement(w, h).h,
                old(self)@.spaces[index as int],
            ),
        ensures
            (final(self)@, Some(r)) == old(self)@.insert(w, h),
    {
        proof {
            lemma_choose_space_valid(self@.spaces, w, h, self@.config.allow_flipping);
            self@.lemma_insert(w, h);
        }
        let candidate_space = self.spaces.remove(index);
        let ghost rest = self.spaces@;
        let count = splits.len();
        let mut s: usize = 0;
        while s < count
            invariant
                s <= count,
                count == splits@->0.len(),
                splits@ is Some,
                self.spaces@ == rest + splits@->0.subrange(0, s as int),
                self.config == old(self).config,
                self.used_area == old(self).used_area,
                self.placed == old(self).placed,
            decreases count - s,
        {
            self.spaces.push(splits.get(s));
            s += 1;
        }
        assert(splits@->0.subrange(0, count as int) == splits@->0);
        let r = if flipped {
            Rectf { x: candidate_space.x, y: candidate_space.y, w: h, h: w, flipped }
        } else {
            Rectf { x: candidate_space.x, y: candidate_space.y, w, h, flipped }
        };
        assert(r == old(self)@.placement(w, h));
        self.used_area.expand_with(&r.rect());
        self.placed = Ghost(self.placed@.push(r));
        r
    }
}

impl Packer for SplitPacker {
    open spec fn inv(state: SplitState) -> bool {
        state.inv()
    }

    open spec fn config(state: SplitState) -> PackerConfig {
        state.config
    }

    open spec fn placed(state: SplitState) -> Seq<Rectf> {
        state.placed
    }

    open spec fn spec_insert(state: SplitState, w: u32, h: u32) -> (SplitState, Option<Rectf>) {
        state.insert(w, h)
    }

    open spec fn spec_reset(state: SplitState, resize: Option<Size>) -> SplitState {
        state.reset(resize)
    }

    proof fn lemma_insert(state: SplitState, w: u32, h: u32) {
        state.lemma_insert(w, h);
    }

    proof fn lemma_inv(state: SplitState) {
    }

    proof fn lemma_reset(state: SplitState, other: SplitState, resize: Option<Size>) {
        SplitState::lemma_fresh(state.config.resized(resize));
    }

    fn insert(&mut self, w: u32, h: u32) -> (r: Option<Rectf>) {
        if w == 0 || h == 0 {
            return None;
        }
        proof {
            self@.lemma_insert(w, h);
        }
        match find_space(&self.spaces, w, h, self.config.allow_flipping) {
            Some((index, splits, flipped)) => Some(
                self.accept_insert(index, &splits, flipped, w, h),
            ),
            None => None,
        }
    }

    fn reset(&mut self, resize: Option<Size>) {
        if let Some(size) = resize {
            self.config.max_width = size.w;
            self.config.max_height = size.h;
        }
        self.used_area = Size::zero();
        self.spaces.clear();
        self.spaces.push(
            Rect { x: 0, y: 0, w: self.config.max_width, h: self.config.max_height },
        );
        self.placed = Ghost(Seq::empty());
        proof {
            assert(self@.spaces == SplitState::fresh(self.config).spaces);
            SplitState::lemma_fresh(self.config);
        }
    }

    fn used_area(&self) -> (used: Size) {
        self.used_area
    }
}

} // verus!
