//! A bin with a list of free spaces, and the search for the smallest bin
//! that holds a given sequence of rectangles.

use vstd::prelude::*;
use crate::geometry::{PackerConfig, Rect, Rectf, Size};
use crate::packer::{Packer, RectInput, RectOutput};
use crate::split_packer::{find_space, lemma_choose_space_valid, SplitState};

verus! {

/// A placement as the free-space list names it.
#[allow(non_camel_case_types)]
pub type rect_xywhf = Rectf;

/// The list of free spaces. Taking a space off the list moves the last
/// space into its place.
#[allow(non_camel_case_types)]
pub struct empty_spaces_provider {
    empty_spaces: Vec<Rect>,
}

impl View for empty_spaces_provider {
    type V = Seq<Rect>;

    closed spec fn view(&self) -> Seq<Rect> {
        self.empty_spaces@
    }
}

impl Default for empty_spaces_provider {
    fn default() -> (provider: Self)
        ensures
            provider@ == Seq::<Rect>::empty(),
    {
        Self { empty_spaces: Vec::new() }
    }
}

impl empty_spaces_provider {
    /// Takes the space at `index` off the list; the last space takes its
    /// place.
    pub fn remove(&mut self, index: usize)
        requires
            index < old(self)@.len(),
        ensures
            final(self)@ == old(self)@.update(index as int, old(self)@.last()).drop_last(),
    {
        self.empty_spaces.swap_remove(index);
    }

    /// Appends a space. Returns whether there was room for it, which there
    /// always is.
    pub fn add(&mut self, r: Rect) -> (added: bool)
        ensures
            added,
            final(self)@ == old(self)@.push(r),
    {
        self.empty_spaces.push(r);
        true
    }

    /// Number of spaces on the list.
    pub fn get_count(&self) -> (count: usize)
        ensures
            count == self@.len(),
    {
        self.empty_spaces.len()
    }

    /// Empties the list.
    pub fn reset(&mut self)
        ensures
            final(self)@ == Seq::<Rect>::empty(),
    {
        self.empty_spaces.clear();
    }

    /// The space at `index`.
    pub fn get(&self, index: usize) -> (space: &Rect)
        requires
            index < self@.len(),
        ensures
            *space == self@[index as int],
    {
        &self.empty_spaces[index]
    }
}

/// A bin and the free spaces in it.
#[allow(non_camel_case_types)]
pub struct empty_spaces {
    bin: Size,
    current_aabb: Size,
    spaces: empty_spaces_provider,
    enable_flipping: bool,
    placed: Ghost<Seq<Rectf>>,
}

impl View for empty_spaces {
    type V = SplitState;

    closed spec fn view(&self) -> SplitState {
        SplitState {
            config: PackerConfig {
                max_width: self.bin.w,
                max_height: self.bin.h,
                allow_flipping: self.enable_flipping,
            },
            spaces: self.spaces@,
            used: self.current_aabb,
            placed: self.placed@,
        }
    }
}

impl empty_spaces {
    /// An empty bin of `w` by `h` that flips nothing.
    pub fn new(w: u32, h: u32) -> (bin: Self)
        ensures
            bin@ == SplitState::fresh(
                PackerConfig { max_width: w, max_height: h, allow_flipping: false },
            ),
            bin@.inv(),
    {
        let mut tmp = Self {
            bin: Size { w, h },
            current_aabb: Size { w: 0, h: 0 },
            spaces: empty_spaces_provider::default(),
            enable_flipping: false,
            placed: Ghost(Seq::empty()),
        };
        tmp.spaces.add(Rect { x: 0, y: 0, w: w, h: h });
        assert(tmp@.spaces == SplitState::fresh(tmp@.config).spaces);
        tmp
    }

    /// Allows or forbids that rectangles are placed with their sides
    /// swapped, from the next request on.
    pub fn set_flipping(&mut self, enable: bool)
        requires
            old(self)@.inv(),
        ensures
            final(self)@.inv(),
            final(self)@ == (SplitState {
                config: PackerConfig { allow_flipping: enable, ..old(self)@.config },
                ..old(self)@
            }),
    {
        self.enable_flipping = enable;
    }

    /// Whether rectangles may be placed with their sides swapped.
    pub fn flipping(&self) -> (enabled: bool)
        ensures
            enabled == self@.config.allow_flipping,
    {
        self.enable_flipping
    }

    /// Empties the bin and gives it the size `r`.
    pub fn reset(&mut self, r: &Size)
        ensures
            final(self)@ == old(self)@.reset(Some(*r)),
            final(self)@.inv(),
    {
        self.bin = *r;
        self.current_aabb = Size { w: 0, h: 0 };
        self.spaces.reset();
        self.spaces.add(Rect { x: 0, y: 0, w: r.w, h: r.h });
        self.placed = Ghost(Seq::empty());
        assert(self@.spaces == SplitState::fresh(self@.config).spaces);
    }

    /// Cuts a `w` by `h` rectangle, or its rotation where flipping is
    /// enabled, from the last free space that can hold it.
    pub fn insert(&mut self, w: u32, h: u32) -> (r: Option<rect_xywhf>)
        requires
            old(self)@.inv(),
        ensures
            final(self)@.inv(),
            (final(self)@, r) == old(self)@.insert_swapping(w, h),
    {
        if w == 0 || h == 0 {
            return None;
        }
        proof {
            self@.lemma_insert_swapping(w, h);
            lemma_choose_space_valid(self@.spaces, w, h, self@.config.allow_flipping);
        }
        match find_space(&self.spaces.empty_spaces, w, h, self.enable_flipping) {
            Some((index, splits, flipped)) => {
                let candidate_space = *self.spaces.get(index);
                self.spaces.remove(index);
                let ghost rest = self.spaces@;
                let count = splits.len();
                let mut s: usize = 0;
                while s < count
                    invariant
                        s <= count,
                        count == splits@->0.len(),
                        splits@ is Some,
                        self.spaces@ == rest + splits@->0.subrange(0, s as int),
                        self.bin == old(self).bin,
                        self.enable_flipping == old(self).enable_flipping,
                        self.current_aabb == old(self).current_aabb,
                        self.placed == old(self).placed,
                    decreases count - s,
                {
                    self.spaces.add(splits.get(s));
                    s += 1;
                }
                assert(splits@->0.subrange(0, count as int) == splits@->0);
                let r = if flipped {
                    Rectf { x: candidate_space.x, y: candidate_space.y, w: h, h: w, flipped }
                } else {
                    Rectf { x: candidate_space.x, y: candidate_space.y, w, h, flipped }
                };
                assert(r == old(self)@.placement(w, h));
                self.current_aabb.expand_with(&r.rect());
                self.placed = Ghost(self.placed@.push(r));
                Some(r)
            },
            None => None,
        }
    }

    /// The bounding box of everything placed since the last reset.
    pub fn get_rects_aabb(&self) -> (aabb: Size)
        ensures
            aabb == self@.used,
    {
        Size { w: self.current_aabb.w, h: self.current_aabb.h }
    }

    /// The free spaces of the bin.
    pub fn get_spaces(&self) -> (spaces: &empty_spaces_provider)
        ensures
            spaces@ == self@.spaces,
    {
        &self.spaces
    }
}

impl Packer for empty_spaces {
    open spec fn inv(state: SplitState) -> bool {
        state.inv()
    }

    open spec fn config(state: SplitState) -> PackerConfig {
        state.config
    }

    open spec fn placed(state: SplitState) -> Seq<Rectf> {
        state.placed
    }

    open spec fn spec_insert(state: SplitState, w: u32, h: u32) -> (SplitState, Option<Rectf>) {
        state.insert_swapping(w, h)
    }

    open spec fn spec_reset(state: SplitState, resize: Option<Size>) -> SplitState {
        state.reset(resize)
    }

    proof fn lemma_insert(state: SplitState, w: u32, h: u32) {
        state.lemma_insert_swapping(w, h);
    }

    proof fn lemma_inv(state: SplitState) {
    }

    proof fn lemma_reset(state: SplitState, other: SplitState, resize: Option<Size>) {
        SplitState::lemma_fresh(state.config.resized(resize));
    }

    fn insert(&mut self, w: u32, h: u32) -> (r: Option<Rectf>) {
        empty_spaces::insert(self, w, h)
    }

    fn reset(&mut self, resize: Option<Size>) {
        let size = match resize {
            Some(size) => size,
            None => self.bin,
        };
        empty_spaces::reset(self, &size);
    }

    fn used_area(&self) -> (used: Size) {
        self.get_rects_aabb()
    }
}

/// Which sides of the bin a search varies.
#[allow(non_camel_case_types)]
#[derive(Clone, Copy, PartialEq, Eq, Structural)]
pub enum bin_dimension {
    BOTH,
    WIDTH,
    HEIGHT,
}

/// How a search for a bin ended: with the bin that held every rectangle, or
/// with the area of the rectangles that the last attempt placed before one
/// did not fit.
#[derive(Clone, Copy, PartialEq, Eq, Structural)]
pub enum PackingResult {
    Area(u128),
    Size(Size),
}

/// One attempt to place `ordering`, in order, stopping at the first
/// rectangle that is refused: the state it leaves, whether every rectangle
/// was placed, and the area of those that were.
pub open spec fn attempt<P: Packer, K>(state: P::V, ordering: Seq<RectInput<K>>) -> (
    P::V,
    bool,
    nat,
)
    decreases ordering.len(),
{
    if ordering.len() == 0 {
        (state, true, 0)
    } else {
        let (next, r) = P::spec_insert(state, ordering[0].size.w, ordering[0].size.h);
        if r is Some {
            let (last, all_inserted, area) = attempt::<P, K>(next, ordering.drop_first());
            (last, all_inserted, area + ordering[0].size.spec_area())
        } else {
            (next, false, 0)
        }
    }
}

/// The first candidate of a search: the starting bin with the varied sides
/// halved.
pub open spec fn halved(bin: Size, dim: bin_dimension) -> Size {
    match dim {
        bin_dimension::BOTH => Size { w: bin.w / 2, h: bin.h / 2 },
        bin_dimension::WIDTH => Size { w: bin.w / 2, h: bin.h },
        bin_dimension::HEIGHT => Size { w: bin.w, h: bin.h / 2 },
    }
}

/// The first step of a search: half the varied side of the first
/// candidate, the width where both sides vary.
pub open spec fn first_step(bin: Size, dim: bin_dimension) -> u32 {
    match dim {
        bin_dimension::HEIGHT => bin.h / 2 / 2,
        _ => bin.w / 2 / 2,
    }
}

/// The step that follows `step`: half of it, and never less than one.
pub open spec fn next_step(step: u32) -> u32 {
    if step / 2 >= 1 {
        step / 2
    } else {
        1
    }
}

/// `side` less `step`, and zero where the step is the larger.
pub open spec fn less(side: u32, step: u32) -> u32 {
    if side >= step {
        (side - step) as u32
    } else {
        0
    }
}

/// The candidate that follows a successful attempt: the varied sides
/// shrunk by the step.
pub open spec fn shrunk(candidate: Size, step: u32, dim: bin_dimension) -> Size {
    match dim {
        bin_dimension::BOTH => Size { w: less(candidate.w, step), h: less(candidate.h, step) },
        bin_dimension::WIDTH => Size { w: less(candidate.w, step), h: candidate.h },
        bin_dimension::HEIGHT => Size { w: candidate.w, h: less(candidate.h, step) },
    }
}

/// Width of the candidate that follows a failed attempt.
pub open spec fn grown_w(candidate: Size, step: u32, dim: bin_dimension) -> int {
    match dim {
        bin_dimension::HEIGHT => candidate.w as int,
        _ => candidate.w + step,
    }
}

/// Height of the candidate that follows a failed attempt.
pub open spec fn grown_h(candidate: Size, step: u32, dim: bin_dimension) -> int {
    match dim {
        bin_dimension::WIDTH => candidate.h as int,
        _ => candidate.h + step,
    }
}

/// The candidate that follows a failed attempt is larger than the starting
/// bin: in area where both sides vary, else in the varied side. A side
/// beyond the 32-bit range is larger than any starting bin.
pub open spec fn outgrows(candidate: Size, step: u32, dim: bin_dimension, starting: Size) -> bool {
    let w = grown_w(candidate, step, dim);
    let h = grown_h(candidate, step, dim);
    match dim {
        bin_dimension::BOTH => w > u32::MAX || h > u32::MAX || w * h > starting.spec_area(),
        bin_dimension::WIDTH => w > starting.w,
        bin_dimension::HEIGHT => h > starting.h,
    }
}

/// The search from one candidate on. Each round empties the packer, gives
/// it the candidate's size and attempts the whole ordering. After a
/// success the search ends with the candidate once the step is down to
/// `discard` and no extra try is left, and goes on with a smaller
/// candidate otherwise, an extra try used up where the step is down to
/// `discard`. After a failure it goes on with a larger candidate, and ends
/// with the area placed where that candidate outgrows the starting bin.
/// The step halves from round to round.
#[verifier::opaque]
pub open spec fn search<P: Packer, K>(
    state: P::V,
    ordering: Seq<RectInput<K>>,
    starting: Size,
    dim: bin_dimension,
    discard: u32,
    candidate: Size,
    step: u32,
    tries: u32,
) -> (P::V, PackingResult)
    decreases
            (if step > discard {
                step
            } else {
                0
            }),
            tries,
            0x2_0000_0000 - candidate.w - candidate.h,
            (if step == 0 {
                1int
            } else {
                0int
            }),
    when discard >= 1
{
    let (last, all_inserted, area) = attempt::<P, K>(
        P::spec_reset(state, Some(candidate)),
        ordering,
    );
    if all_inserted {
        if step <= discard && tries == 0 {
            (last, PackingResult::Size(candidate))
        } else {
            search::<P, K>(
                last,
                ordering,
                starting,
                dim,
                discard,
                shrunk(candidate, step, dim),
                next_step(step),
                if step <= discard {
                    (tries - 1) as u32
                } else {
                    tries
                },
            )
        }
    } else if outgrows(candidate, step, dim, starting) {
        (last, PackingResult::Area(area as u128))
    } else {
        search::<P, K>(
            last,
            ordering,
            starting,
            dim,
            discard,
            Size {
                w: grown_w(candidate, step, dim) as u32,
                h: grown_h(candidate, step, dim) as u32,
            },
            next_step(step),
            tries,
        )
    }
}

/// The step at or under which a search stops shrinking: `discard_step`
/// where it is positive, else one.
pub open spec fn discard_of(discard_step: i32) -> u32 {
    if discard_step <= 0 {
        1
    } else {
        discard_step as u32
    }
}

/// The number of extra shrinking attempts of a search: `-discard_step`
/// where that is positive.
pub open spec fn tries_of(discard_step: i32) -> u32 {
    if discard_step <= 0 {
        (-discard_step) as u32
    } else {
        0
    }
}

/// The search over one dimension from the starting bin: the state it
/// leaves the packer in and how it ended.
pub open spec fn search_from<P: Packer, K>(
    state: P::V,
    ordering: Seq<RectInput<K>>,
    starting: Size,
    discard_step: i32,
    dim: bin_dimension,
) -> (P::V, PackingResult) {
    search::<P, K>(
        state,
        ordering,
        starting,
        dim,
        discard_of(discard_step),
        halved(starting, dim),
        first_step(starting, dim),
        tries_of(discard_step),
    )
}

/// The candidate is no larger than the starting bin: in area where both
/// sides vary, else in the varied side, the other side being the same.
pub open spec fn within_start(candidate: Size, starting: Size, dim: bin_dimension) -> bool {
    match dim {
        bin_dimension::BOTH => candidate.spec_area() <= starting.spec_area(),
        bin_dimension::WIDTH => candidate.w <= starting.w && candidate.h == starting.h,
        bin_dimension::HEIGHT => candidate.h <= starting.h && candidate.w == starting.w,
    }
}

/// The bin that the three searches settle on, and the state they leave
/// the packer in: both sides together first, then the width alone from
/// the bin that search found, then the height alone from the bin found so
/// far. A search over one side that fails leaves the bin as it was; a
/// failure of the first search is the result.
#[verifier::opaque]
pub open spec fn best_packing<P: Packer, K>(
    state: P::V,
    ordering: Seq<RectInput<K>>,
    starting: Size,
    discard_step: i32,
) -> (P::V, PackingResult) {
    let (after_both, both) = search_from::<P, K>(
        state,
        ordering,
        starting,
        discard_step,
        bin_dimension::BOTH,
    );
    match both {
        PackingResult::Size(bin) => {
            let (after_width, width) = search_from::<P, K>(
                after_both,
                ordering,
                bin,
                discard_step,
                bin_dimension::WIDTH,
            );
            let narrow = match width {
                PackingResult::Size(better) => better,
                PackingResult::Area(_) => bin,
            };
            let (after_height, height) = search_from::<P, K>(
                after_width,
                ordering,
                narrow,
                discard_step,
                bin_dimension::HEIGHT,
            );
            let low = match height {
                PackingResult::Size(better) => better,
                PackingResult::Area(_) => narrow,
            };
            (after_height, PackingResult::Size(low))
        },
        PackingResult::Area(_) => (after_both, both),
    }
}

/// The order that the best packing keeps, by its index, and the bin kept
/// with it, after the orders have been searched one by one from
/// `max_bin`; with them the state the searches leave the bin in. An order
/// whose search finds a bin is kept when that bin is no larger in area
/// than the bin kept so far. An order whose search fails is kept only
/// while no order is kept yet.
pub open spec fn choose_order<K>(
    state: SplitState,
    orders: Seq<Vec<RectInput<K>>>,
    max_bin: Size,
    discard_step: i32,
) -> (SplitState, Option<int>, Size)
    decreases orders.len(),
{
    if orders.len() == 0 {
        (state, None, max_bin)
    } else {
        let (before, best_order, best_bin) = choose_order(
            state,
            orders.drop_last(),
            max_bin,
            discard_step,
        );
        let (after, result) = best_packing::<empty_spaces, K>(
            before,
            orders.last()@,
            max_bin,
            discard_step,
        );
        match result {
            PackingResult::Area(_) => (
                after,
                if best_order is None {
                    Some(orders.len() - 1)
                } else {
                    best_order
                },
                best_bin,
            ),
            PackingResult::Size(bin) => if bin.spec_area() <= best_bin.spec_area() {
                (after, Some(orders.len() - 1), bin)
            } else {
                (after, best_order, best_bin)
            },
        }
    }
}

/// The state after every rectangle of `order` has been requested in turn,
/// placed or not.
pub open spec fn feed<K>(state: SplitState, order: Seq<RectInput<K>>) -> SplitState
    decreases order.len(),
{
    if order.len() == 0 {
        state
    } else {
        feed(state, order.drop_last()).insert_swapping(
            order.last().size.w,
            order.last().size.h,
        ).0
    }
}

/// What is reported of the rectangle at `index` of `order` when the
/// rectangles before it have been requested: its placement, or nothing
/// where it was refused.
pub open spec fn report<K>(state: SplitState, order: Seq<RectInput<K>>, index: int) -> Option<
    RectOutput<K>,
> {
    match feed(state, order.take(index)).insert_swapping(
        order[index].size.w,
        order[index].size.h,
    ).1 {
        Some(rect) => Some(RectOutput { rect, atlas: 0, key: order[index].key }),
        None => None,
    }
}

/// Places `ordering`, in order, until a rectangle is refused. Returns
/// whether every rectangle was placed and the area of those that were.
fn insert_all<P: Packer, K: Copy>(root: &mut P, ordering: &[RectInput<K>]) -> (result: (
    bool,
    u128,
))
    requires
        P::inv(old(root)@),
    ensures
        P::inv(final(root)@),
        (final(root)@, result.0, result.1 as nat) == attempt::<P, K>(old(root)@, ordering@),
{
    let mut total_inserted_area: u128 = 0;
    let mut i: usize = 0;
    assert(ordering@.subrange(0, ordering@.len() as int) == ordering@);
    while i < ordering.len()
        invariant
            i <= ordering.len(),
            P::inv(root@),
            total_inserted_area <= i * 0xffff_ffff_ffff_ffff,
            attempt::<P, K>(old(root)@, ordering@) == ({
                let (last, all_inserted, area) = attempt::<P, K>(
                    root@,
                    ordering@.subrange(i as int, ordering@.len() as int),
                );
                (last, all_inserted, (area + total_inserted_area) as nat)
            }),
        decreases ordering.len() - i,
    {
        let rect = ordering[i];
        proof {
            let rest = ordering@.subrange(i as int, ordering@.len() as int);
            assert(rest[0] == ordering@[i as int]);
            assert(rest.drop_first() == ordering@.subrange(i + 1, ordering@.len() as int));
        }
        if root.insert(rect.size.w, rect.size.h).is_some() {
            let area = rect.size.area();
            assert((i + 1) * 0xffff_ffff_ffff_ffff == i * 0xffff_ffff_ffff_ffff
                + 0xffff_ffff_ffff_ffff) by (nonlinear_arith);
            assert(i * 0xffff_ffff_ffff_ffff <= 0xffff_ffff_ffff_ffff * 0xffff_ffff_ffff_ffff)
                by (nonlinear_arith)
                requires
                    i <= 0xffff_ffff_ffff_ffff,
            ;
            total_inserted_area += area as u128;
        } else {
            return (false, total_inserted_area);
        }
        i += 1;
    }
    assert(ordering@.subrange(i as int, ordering@.len() as int).len() == 0);
    (true, total_inserted_area)
}

/// Searches, by halving steps over the sides that `tried_dimension` names,
/// for a small bin that holds all of `ordering`, starting from half of
/// `starting_bin`.
///
/// The search ends when an attempt has placed everything and the step is
/// down to `discard_step`; a `discard_step` of zero or less stands for a
/// step of one and `-discard_step` further attempts at smaller bins. It
/// fails, with the area that the last attempt placed, when no bin up to
/// the starting bin holds all of `ordering`.
pub fn best_packing_for_ordering_impl<P: Packer, K: Copy>(
    root: &mut P,
    ordering: &[RectInput<K>],
    starting_bin: Size,
    discard_step: i32,
    tried_dimension: bin_dimension,
) -> (result: PackingResult)
    requires
        P::inv(old(root)@),
    ensures
        P::inv(final(root)@),
        (final(root)@, result) == search_from::<P, K>(
            old(root)@,
            ordering@,
            starting_bin,
            discard_step,
            tried_dimension,
        ),
        result matches PackingResult::Size(bin) ==> {
            &&& within_start(bin, starting_bin, tried_dimension)
            &&& attempt::<P, K>(P::spec_reset(old(root)@, Some(bin)), ordering@).1
        },
{
    let mut candidate_bin = starting_bin;
    let mut tries_before_discarding: u32 = 0;
    let mut discard: u32 = 1;
    if discard_step <= 0 {
        tries_before_discarding = (-(discard_step as i64)) as u32;
    } else {
        discard = discard_step as u32;
    }
    let starting_step;
    if tried_dimension == bin_dimension::BOTH {
        candidate_bin.w = candidate_bin.w / 2;
        candidate_bin.h = candidate_bin.h / 2;
        starting_step = candidate_bin.w / 2;
    } else if tried_dimension == bin_dimension::WIDTH {
        candidate_bin.w = candidate_bin.w / 2;
        starting_step = candidate_bin.w / 2;
    } else {
        candidate_bin.h = candidate_bin.h / 2;
        starting_step = candidate_bin.h / 2;
    }
    let mut step: u32 = starting_step;
    loop
        invariant
            P::inv(old(root)@),
            P::inv(root@),
            discard >= 1,
            search_from::<P, K>(
                old(root)@,
                ordering@,
                starting_bin,
                discard_step,
                tried_dimension,
            ) == search::<P, K>(
                root@,
                ordering@,
                starting_bin,
                tried_dimension,
                discard,
                candidate_bin,
                step,
                tries_before_discarding,
            ),
        decreases
                (if step > discard {
                    step
                } else {
                    0
                }),
                tries_before_discarding,
                0x2_0000_0000 - candidate_bin.w - candidate_bin.h,
                (if step == 0 {
                    1int
                } else {
                    0int
                }),
    {
        proof {
            reveal(search);
        }
        root.reset(Some(candidate_bin));
        let (all_inserted, total_inserted_area) = insert_all(root, ordering);
        if all_inserted {
            // attempt was successful. Try with a smaller bin.
            if step <= discard {
                if tries_before_discarding > 0 {
                    tries_before_discarding -= 1;
                } else {
                    proof {
                        lemma_search_from::<P, K>(
                            old(root)@,
                            ordering@,
                            starting_bin,
                            discard_step,
                            tried_dimension,
                        );
                    }
                    return PackingResult::Size(candidate_bin);
                }
            }
            if tried_dimension == bin_dimension::BOTH {
                candidate_bin.w = candidate_bin.w.saturating_sub(step);
                candidate_bin.h = candidate_bin.h.saturating_sub(step);
            } else if tried_dimension == bin_dimension::WIDTH {
                candidate_bin.w = candidate_bin.w.saturating_sub(step);
            } else {
                candidate_bin.h = candidate_bin.h.saturating_sub(step);
            }
        } else {
            // Attempt ended with failure. Try with a bigger bin.
            if tried_dimension == bin_dimension::BOTH {
                let w = candidate_bin.w as u64 + step as u64;
                let h = candidate_bin.h as u64 + step as u64;
                if w > u32::MAX as u64 || h > u32::MAX as u64 {
                    return PackingResult::Area(total_inserted_area);
                }
                candidate_bin.w = w as u32;
                candidate_bin.h = h as u32;
                if candidate_bin.area() > starting_bin.area() {
                    return PackingResult::Area(total_inserted_area);
                }
            } else if tried_dimension == bin_dimension::WIDTH {
                let w = candidate_bin.w as u64 + step as u64;
                if w > starting_bin.w as u64 {
                    return PackingResult::Area(total_inserted_area);
                }
                candidate_bin.w = w as u32;
            } else {
                let h = candidate_bin.h as u64 + step as u64;
                if h > starting_bin.h as u64 {
                    return PackingResult::Area(total_inserted_area);
                }
                candidate_bin.h = h as u32;
            }
        }
        step = if step / 2 >= 1 {
            step / 2
        } else {
            1
        };
    }
}

/// Searches for a small bin that holds all of `ordering`: over both sides
/// together, then over the width, then over the height.
pub fn best_packing_for_ordering<P: Packer, K: Copy>(
    root: &mut P,
    ordering: &[RectInput<K>],
    starting_bin: &Size,
    discard_step: i32,
) -> (result: PackingResult)
    requires
        P::inv(old(root)@),
    ensures
        P::inv(final(root)@),
        (final(root)@, result) == best_packing::<P, K>(
            old(root)@,
            ordering@,
            *starting_bin,
            discard_step,
        ),
        result matches PackingResult::Size(bin) ==> {
            &&& bin.spec_area() <= starting_bin.spec_area()
            &&& attempt::<P, K>(P::spec_reset(old(root)@, Some(bin)), ordering@).1
        },
{
    proof {
        lemma_best_packing_within_start::<P, K>(
            old(root)@,
            ordering@,
            *starting_bin,
            discard_step,
        );
        lemma_best_packing_fits::<P, K>(old(root)@, ordering@, *starting_bin, discard_step);
    }
    reveal(best_packing);
    match best_packing_for_ordering_impl(
        root,
        ordering,
        *starting_bin,
        discard_step,
        bin_dimension::BOTH,
    ) {
        PackingResult::Size(bin) => {
            let mut best_bin = bin;
            if let PackingResult::Size(even_better) = best_packing_for_ordering_impl(
                root,
                ordering,
                best_bin,
                discard_step,
                bin_dimension::WIDTH,
            ) {
                best_bin = even_better;
            }
            if let PackingResult::Size(even_better) = best_packing_for_ordering_impl(
                root,
                ordering,
                best_bin,
                discard_step,
                bin_dimension::HEIGHT,
            ) {
                best_bin = even_better;
            }
            PackingResult::Size(best_bin)
        },
        failed => failed,
    }
}

/// Finds the best bin among those that the given orders of one set of
/// rectangles lead to, packs the best order into it, and reports every
/// rectangle of that order: a placed one to `handle_successful_insertion`,
/// a refused one to `handle_unsuccessful_insertion`. A handler that
/// returns `false` ends the reporting. Returns the bounding box of what
/// was placed by then.
pub fn find_best_packing_impl<
    K: Copy,
    F: Fn(RectOutput<K>) -> bool,
    G: Fn(&RectInput<K>) -> bool,
>(
    orders: &Vec<Vec<RectInput<K>>>,
    input: PackerConfig,
    discard_step: i32,
    handle_successful_insertion: F,
    handle_unsuccessful_insertion: G,
) -> (aabb: Size)
    requires
        orders.len() > 0,
        forall|frame: RectOutput<K>| call_requires(handle_successful_insertion, (frame,)),
        forall|r: &RectInput<K>| call_requires(handle_unsuccessful_insertion, (r,)),
    ensures
        ({
            let start = SplitState::fresh(
                PackerConfig {
                    max_width: 0,
                    max_height: 0,
                    allow_flipping: input.allow_flipping,
                },
            );
            let (after, best_order, best_bin) = choose_order(
                start,
                orders@,
                input.bounds(),
                discard_step,
            );
            let order = orders[best_order->0]@;
            let bin = after.reset(Some(best_bin));
            &&& best_order is Some
            &&& 0 <= best_order->0 < orders.len()
            &&& exists|n: int|
                {
                    &&& 0 <= n <= order.len()
                    &&& aabb == (#[trigger] feed(bin, order.take(n))).used
                    &&& n < order.len() ==> n > 0 && match report(bin, order, n - 1) {
                        Some(frame) => call_ensures(handle_successful_insertion, (frame,), false),
                        None => call_ensures(
                            handle_unsuccessful_insertion,
                            (&order[n - 1],),
                            false,
                        ),
                    }
                }
        }),
{
    let max_bin = Size { w: input.max_width, h: input.max_height };
    let mut best_order: Option<usize> = None;
    let mut best_bin = max_bin;

    // The root is reused from order to order: every packing attempt
    // resets it first.
    let mut root = empty_spaces::new(0, 0);
    root.set_flipping(input.allow_flipping);
    let ghost start = root@;

    let mut i: usize = 0;
    while i < orders.len()
        invariant
            i <= orders.len(),
            root@.inv(),
            max_bin == input.bounds(),
            choose_order(start, orders@.take(i as int), max_bin, discard_step) == (
                root@,
                match best_order {
                    Some(index) => Some(index as int),
                    None => None,
                },
                best_bin,
            ),
            best_order matches Some(index) ==> index < i,
            i > 0 ==> best_order is Some,
            best_order is None ==> best_bin == max_bin,
            best_bin.spec_area() <= max_bin.spec_area(),
        decreases orders.len() - i,
    {
        proof {
            assert(orders@.take(i + 1).drop_last() == orders@.take(i as int));
            assert(orders@.take(i + 1).last() == orders@[i as int]);
            lemma_best_packing_within_start::<empty_spaces, K>(
                root@,
                orders@[i as int]@,
                max_bin,
                discard_step,
            );
        }
        match best_packing_for_ordering(&mut root, orders[i].as_slice(), &max_bin, discard_step) {
            PackingResult::Area(total_inserted) => {
                // Keep an order that failed only in case all orders fail
                // to fit into the largest allowed bin.
                if best_order.is_none() {
                    best_order = Some(i);
                }
            },
            PackingResult::Size(result_bin) => {
                // Save the order if it performed the best.
                if result_bin.area() <= best_bin.area() {
                    best_order = Some(i);
                    best_bin = result_bin;
                }
            },
        }
        i += 1;
    }
    assert(orders@.take(orders@.len() as int) == orders@);
    let best = best_order.unwrap();
    let order = &orders[best];

    let ghost searched = root@;
    root.reset(&best_bin);
    let ghost bin = root@;
    assert(bin == searched.reset(Some(best_bin)));

    let mut n: usize = 0;
    assert(order@.take(0) == Seq::<RectInput<K>>::empty());
    assert(order@ == orders@[best as int]@);
    while n < order.len()
        invariant
            n <= order.len(),
            root@.inv(),
            root@ == feed(bin, order@.take(n as int)),
            forall|frame: RectOutput<K>| call_requires(handle_successful_insertion, (frame,)),
            forall|r: &RectInput<K>| call_requires(handle_unsuccessful_insertion, (r,)),
        ensures
            n <= order.len(),
            root@ == feed(bin, order@.take(n as int)),
            n < order.len() ==> n > 0 && match report(bin, order@, n - 1) {
                Some(frame) => call_ensures(handle_successful_insertion, (frame,), false),
                None => call_ensures(handle_unsuccessful_insertion, (&order@[n - 1],), false),
            },
        decreases order.len() - n,
    {
        let r = &order[n];
        proof {
            assert(order@.take(n + 1).drop_last() == order@.take(n as int));
        }
        n += 1;
        if let Some(rect) = root.insert(r.size.w, r.size.h) {
            if !handle_successful_insertion(RectOutput { rect, atlas: 0, key: r.key }) {
                break ;
            }
        } else {
            if !handle_unsuccessful_insertion(r) {
                break ;
            }
        }
    }
    proof {
        let (after, chosen, chosen_bin) = choose_order(
            start,
            orders@,
            input.bounds(),
            discard_step,
        );
        assert(chosen == Some(best as int));
        assert(chosen_bin == best_bin);
        assert(bin == after.reset(Some(best_bin)));
        assert(root@.used == feed(bin, order@.take(n as int)).used);
    }
    root.get_rects_aabb()
}

/// An attempt keeps the invariant and the configuration of the packer.
pub proof fn lemma_attempt<P: Packer, K>(state: P::V, ordering: Seq<RectInput<K>>)
    requires
        P::inv(state),
    ensures
        P::inv(attempt::<P, K>(state, ordering).0),
        P::config(attempt::<P, K>(state, ordering).0) == P::config(state),
    decreases ordering.len(),
{
    if ordering.len() > 0 {
        P::lemma_insert(state, ordering[0].size.w, ordering[0].size.h);
        let (next, r) = P::spec_insert(state, ordering[0].size.w, ordering[0].size.h);
        if r is Some {
            lemma_attempt::<P, K>(next, ordering.drop_first());
        }
    }
}

/// A search that starts from a candidate no larger than the starting bin
/// ends, where it finds a bin, with one no larger than the starting bin.
pub proof fn lemma_search_within_start<P: Packer, K>(
    state: P::V,
    ordering: Seq<RectInput<K>>,
    starting: Size,
    dim: bin_dimension,
    discard: u32,
    candidate: Size,
    step: u32,
    tries: u32,
)
    requires
        discard >= 1,
        within_start(candidate, starting, dim),
    ensures
        search::<P, K>(state, ordering, starting, dim, discard, candidate, step, tries).1 matches PackingResult::Size(
            bin,
        ) ==> within_start(bin, starting, dim),
    decreases
            (if step > discard {
                step
            } else {
                0
            }),
            tries,
            0x2_0000_0000 - candidate.w - candidate.h,
            (if step == 0 {
                1int
            } else {
                0int
            }),
{
    reveal(search);
    let (last, all_inserted, area) = attempt::<P, K>(
        P::spec_reset(state, Some(candidate)),
        ordering,
    );
    if all_inserted {
        if !(step <= discard && tries == 0) {
            let smaller = shrunk(candidate, step, dim);
            assert(smaller.w * smaller.h <= candidate.w * candidate.h) by (nonlinear_arith)
                requires
                    0 <= smaller.w <= candidate.w,
                    0 <= smaller.h <= candidate.h,
            ;
            lemma_search_within_start::<P, K>(
                last,
                ordering,
                starting,
                dim,
                discard,
                smaller,
                next_step(step),
                if step <= discard {
                    (tries - 1) as u32
                } else {
                    tries
                },
            );
        }
    } else if !outgrows(candidate, step, dim, starting) {
        lemma_search_within_start::<P, K>(
            last,
            ordering,
            starting,
            dim,
            discard,
            Size {
                w: grown_w(candidate, step, dim) as u32,
                h: grown_h(candidate, step, dim) as u32,
            },
            next_step(step),
            tries,
        );
    }
}

/// A bin that a search finds holds all of the ordering: an attempt on the
/// packer, emptied and given the size of that bin, places everything, and
/// the search leaves the packer as that attempt leaves it. A search changes
/// the bounds of the packer and nothing else of its configuration.
pub proof fn lemma_search_fits<P: Packer, K>(
    state: P::V,
    ordering: Seq<RectInput<K>>,
    starting: Size,
    dim: bin_dimension,
    discard: u32,
    candidate: Size,
    step: u32,
    tries: u32,
)
    requires
        P::inv(state),
        discard >= 1,
    ensures
        P::inv(search::<P, K>(state, ordering, starting, dim, discard, candidate, step, tries).0),
        P::config(
            search::<P, K>(state, ordering, starting, dim, discard, candidate, step, tries).0,
        ).allow_flipping == P::config(state).allow_flipping,
        search::<P, K>(state, ordering, starting, dim, discard, candidate, step, tries).1 matches PackingResult::Size(
            bin,
        ) ==> {
            &&& attempt::<P, K>(P::spec_reset(state, Some(bin)), ordering).1
            &&& attempt::<P, K>(P::spec_reset(state, Some(bin)), ordering).0 == search::<P, K>(
                state,
                ordering,
                starting,
                dim,
                discard,
                candidate,
                step,
                tries,
            ).0
        },
    decreases
            (if step > discard {
                step
            } else {
                0
            }),
            tries,
            0x2_0000_0000 - candidate.w - candidate.h,
            (if step == 0 {
                1int
            } else {
                0int
            }),
{
    reveal(search);
    let emptied = P::spec_reset(state, Some(candidate));
    P::lemma_reset(state, state, Some(candidate));
    lemma_attempt::<P, K>(emptied, ordering);
    let (last, all_inserted, area) = attempt::<P, K>(emptied, ordering);
    let next = if all_inserted {
        shrunk(candidate, step, dim)
    } else {
        Size {
            w: grown_w(candidate, step, dim) as u32,
            h: grown_h(candidate, step, dim) as u32,
        }
    };
    let left = if all_inserted && step <= discard {
        (tries - 1) as u32
    } else {
        tries
    };
    let goes_on = if all_inserted {
        !(step <= discard && tries == 0)
    } else {
        !outgrows(candidate, step, dim, starting)
    };
    if goes_on {
        lemma_search_fits::<P, K>(
            last,
            ordering,
            starting,
            dim,
            discard,
            next,
            next_step(step),
            left,
        );
        if let PackingResult::Size(bin) = search::<P, K>(
            last,
            ordering,
            starting,
            dim,
            discard,
            next,
            next_step(step),
            left,
        ).1 {
            P::lemma_reset(last, state, Some(bin));
        }
    }
}

/// A bin that the search over one dimension finds is no larger than the
/// starting bin, and holds all of the ordering.
pub proof fn lemma_search_from<P: Packer, K>(
    state: P::V,
    ordering: Seq<RectInput<K>>,
    starting: Size,
    discard_step: i32,
    dim: bin_dimension,
)
    requires
        P::inv(state),
    ensures
        search_from::<P, K>(state, ordering, starting, discard_step, dim).1 matches PackingResult::Size(
            bin,
        ) ==> {
            &&& within_start(bin, starting, dim)
            &&& attempt::<P, K>(P::spec_reset(state, Some(bin)), ordering).1
        },
{
    let first = halved(starting, dim);
    assert(first.w * first.h <= starting.w * starting.h) by (nonlinear_arith)
        requires
            0 <= first.w <= starting.w,
            0 <= first.h <= starting.h,
    ;
    lemma_search_within_start::<P, K>(
        state,
        ordering,
        starting,
        dim,
        discard_of(discard_step),
        first,
        first_step(starting, dim),
        tries_of(discard_step),
    );
    lemma_search_fits::<P, K>(
        state,
        ordering,
        starting,
        dim,
        discard_of(discard_step),
        first,
        first_step(starting, dim),
        tries_of(discard_step),
    );
}

/// The bin that the three searches find is no larger in area than the
/// starting bin.
pub proof fn lemma_best_packing_within_start<P: Packer, K>(
    state: P::V,
    ordering: Seq<RectInput<K>>,
    starting: Size,
    discard_step: i32,
)
    ensures
        best_packing::<P, K>(state, ordering, starting, discard_step).1 matches PackingResult::Size(
            bin,
        ) ==> bin.spec_area() <= starting.spec_area(),
{
    reveal(best_packing);
    let discard = discard_of(discard_step);
    let tries = tries_of(discard_step);
    let both_dim = bin_dimension::BOTH;
    let first = halved(starting, both_dim);
    assert(first.w * first.h <= starting.w * starting.h) by (nonlinear_arith)
        requires
            0 <= first.w <= starting.w,
            0 <= first.h <= starting.h,
    ;
    lemma_search_within_start::<P, K>(
        state,
        ordering,
        starting,
        both_dim,
        discard,
        first,
        first_step(starting, both_dim),
        tries,
    );
    let (after_both, both) = search_from::<P, K>(state, ordering, starting, discard_step, both_dim);
    if let PackingResult::Size(bin) = both {
        let width_dim = bin_dimension::WIDTH;
        lemma_search_within_start::<P, K>(
            after_both,
            ordering,
            bin,
            width_dim,
            discard,
            halved(bin, width_dim),
            first_step(bin, width_dim),
            tries,
        );
        let (after_width, width) = search_from::<P, K>(
            after_both,
            ordering,
            bin,
            discard_step,
            width_dim,
        );
        let narrow = match width {
            PackingResult::Size(better) => better,
            PackingResult::Area(_) => bin,
        };
        assert(narrow.w * narrow.h <= bin.w * bin.h) by (nonlinear_arith)
            requires
                0 <= narrow.w <= bin.w,
                0 <= narrow.h == bin.h,
        ;
        let height_dim = bin_dimension::HEIGHT;
        lemma_search_within_start::<P, K>(
            after_width,
            ordering,
            narrow,
            height_dim,
            discard,
            halved(narrow, height_dim),
            first_step(narrow, height_dim),
            tries,
        );
        let (after_height, height) = search_from::<P, K>(
            after_width,
            ordering,
            narrow,
            discard_step,
            height_dim,
        );
        let low = match height {
            PackingResult::Size(better) => better,
            PackingResult::Area(_) => narrow,
        };
        assert(low.w * low.h <= narrow.w * narrow.h) by (nonlinear_arith)
            requires
                0 <= low.w == narrow.w,
                0 <= low.h <= narrow.h,
        ;
    }
}

/// The bin that the three searches find holds all of the ordering, and
/// the searches leave the configuration of the packer as it was but for
/// its bounds.
pub proof fn lemma_best_packing_fits<P: Packer, K>(
    state: P::V,
    ordering: Seq<RectInput<K>>,
    starting: Size,
    discard_step: i32,
)
    requires
        P::inv(state),
    ensures
        P::inv(best_packing::<P, K>(state, ordering, starting, discard_step).0),
        P::config(
            best_packing::<P, K>(state, ordering, starting, discard_step).0,
        ).allow_flipping == P::config(state).allow_flipping,
        best_packing::<P, K>(state, ordering, starting, discard_step).1 matches PackingResult::Size(
            bin,
        ) ==> attempt::<P, K>(P::spec_reset(state, Some(bin)), ordering).1,
{
    reveal(best_packing);
    let discard = discard_of(discard_step);
    let tries = tries_of(discard_step);
    let both_dim = bin_dimension::BOTH;
    lemma_search_fits::<P, K>(
        state,
        ordering,
        starting,
        both_dim,
        discard,
        halved(starting, both_dim),
        first_step(starting, both_dim),
        tries,
    );
    let (after_both, both) = search_from::<P, K>(state, ordering, starting, discard_step, both_dim);
    if let PackingResult::Size(bin) = both {
        let width_dim = bin_dimension::WIDTH;
        lemma_search_fits::<P, K>(
            after_both,
            ordering,
            bin,
            width_dim,
            discard,
            halved(bin, width_dim),
            first_step(bin, width_dim),
            tries,
        );
        let (after_width, width) = search_from::<P, K>(
            after_both,
            ordering,
            bin,
            discard_step,
            width_dim,
        );
        let narrow = match width {
            PackingResult::Size(better) => better,
            PackingResult::Area(_) => bin,
        };
        P::lemma_reset(after_both, state, Some(narrow));
        let height_dim = bin_dimension::HEIGHT;
        lemma_search_fits::<P, K>(
            after_width,
            ordering,
            narrow,
            height_dim,
            discard,
            halved(narrow, height_dim),
            first_step(narrow, height_dim),
            tries,
        );
        let (after_height, height) = search_from::<P, K>(
            after_width,
            ordering,
            narrow,
            discard_step,
            height_dim,
        );
        let low = match height {
            PackingResult::Size(better) => better,
            PackingResult::Area(_) => narrow,
        };
        P::lemma_reset(after_width, state, Some(low));
    }
}

} // verus!
