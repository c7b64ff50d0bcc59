//! The contract that every packing strategy meets.
//!
//! A packer is described by a mathematical state, its view. The state holds
//! the configuration, the placements made since the last reset, and whatever
//! the strategy keeps to find room for the next request. `insert` and `reset`
//! are functions on that state; the laws below say what every strategy
//! guarantees about them.

use vstd::prelude::*;
use crate::geometry::{PackerConfig, Rect, Rectf, Size};

verus! {

/// A rectangle to place, with the key by which its owner knows it.
#[derive(Clone, Copy, Debug)]
pub struct RectInput<K> {
    pub size: Size,
    pub key: K,
}

/// A placed rectangle: where it went, in which atlas, and the key of the
/// request it answers.
#[derive(Clone, Copy, Debug)]
pub struct RectOutput<K> {
    pub rect: Rectf,
    pub atlas: usize,
    pub key: K,
}

/// The bounding box, anchored at the origin, of a sequence of placements.
pub open spec fn bounding_box(placed: Seq<Rectf>) -> Size
    decreases placed.len(),
{
    if placed.len() == 0 {
        Size { w: 0, h: 0 }
    } else {
        bounding_box(placed.drop_last()).expanded(placed.last().spec_rect())
    }
}

/// No placement in `placed` shares a pixel with `rect`.
pub open spec fn clear_of(placed: Seq<Rectf>, rect: Rect) -> bool {
    forall|i: int| 0 <= i < placed.len() ==> !(#[trigger] placed[i]).spec_rect().overlaps(rect)
}

/// No two placements in `placed` share a pixel.
pub open spec fn pairwise_disjoint(placed: Seq<Rectf>) -> bool {
    forall|i: int, j: int|
        0 <= i < j < placed.len() ==> !(#[trigger] placed[i]).spec_rect().overlaps(
            (#[trigger] placed[j]).spec_rect(),
        )
}

/// Every placement in `placed` is non-empty and lies inside `bounds`.
pub open spec fn all_inside(placed: Seq<Rectf>, bounds: Size) -> bool {
    forall|i: int|
        0 <= i < placed.len() ==> {
            &&& (#[trigger] placed[i]).w > 0
            &&& placed[i].h > 0
            &&& placed[i].spec_rect().fits_in(bounds)
        }
}

/// A placement that is clear of a sequence of placements of which no two
/// overlap can join them, and still no two overlap.
pub proof fn lemma_push_disjoint(placed: Seq<Rectf>, rect: Rectf)
    requires
        pairwise_disjoint(placed),
        clear_of(placed, rect.spec_rect()),
    ensures
        pairwise_disjoint(placed.push(rect)),
{
    let joined = placed.push(rect);
    assert forall|i: int, j: int| 0 <= i < j < joined.len() implies !(
    #[trigger] joined[i]).spec_rect().overlaps((#[trigger] joined[j]).spec_rect()) by {
        assert(joined[i] == placed[i]);
        if j < placed.len() {
            assert(joined[j] == placed[j]);
        }
    }
}

/// The three operations of a packing strategy, and the laws that every
/// strategy keeps.
pub trait Packer: View + Sized {
    /// What holds of every state that `new`, `insert` and `reset` produce.
    spec fn inv(state: Self::V) -> bool;

    /// The configuration the state was made with or last resized to.
    spec fn config(state: Self::V) -> PackerConfig;

    /// The placements made since the last reset, oldest first.
    spec fn placed(state: Self::V) -> Seq<Rectf>;

    /// The state after a request for `w` by `h`, and the answer to it.
    spec fn spec_insert(state: Self::V, w: u32, h: u32) -> (Self::V, Option<Rectf>);

    /// The state after a reset.
    spec fn spec_reset(state: Self::V, resize: Option<Size>) -> Self::V;

    /// An accepted request is placed as asked or flipped, inside the atlas
    /// and clear of everything placed before, and an empty atlas would
    /// accept it too; a refused one places nothing and changes the answer
    /// to no request that follows it. Zero-sized requests are refused.
    proof fn lemma_insert(state: Self::V, w: u32, h: u32)
        requires
            Self::inv(state),
        ensures
            ({
                let (next, r) = Self::spec_insert(state, w, h);
                &&& Self::inv(next)
                &&& Self::config(next) == Self::config(state)
                &&& match r {
                    Some(rect) => {
                        &&& Self::placed(next) == Self::placed(state).push(rect)
                        &&& w > 0
                        &&& h > 0
                        &&& rect.holds(w, h)
                        &&& rect.flipped ==> Self::config(state).allow_flipping
                        &&& rect.spec_rect().fits_in(Self::config(state).bounds())
                        &&& clear_of(Self::placed(state), rect.spec_rect())
                        &&& Self::spec_insert(Self::spec_reset(state, None), w, h).1 is Some
                    },
                    None => {
                        &&& Self::placed(next) == Self::placed(state)
                        &&& forall|a: u32, b: u32|
                            (#[trigger] Self::spec_insert(next, a, b)).1 == Self::spec_insert(
                                state,
                                a,
                                b,
                            ).1
                    },
                }
            }),
    ;

    /// In every state no two placements overlap, and each has an area and
    /// lies inside the atlas.
    proof fn lemma_inv(state: Self::V)
        requires
            Self::inv(state),
        ensures
            pairwise_disjoint(Self::placed(state)),
            all_inside(Self::placed(state), Self::config(state).bounds()),
    ;

    /// A reset forgets every placement, keeps or replaces the bounds, and
    /// yields a state that depends on the configuration it leaves alone.
    proof fn lemma_reset(state: Self::V, other: Self::V, resize: Option<Size>)
        requires
            Self::inv(state),
            Self::inv(other),
            Self::config(state).resized(resize) == Self::config(other).resized(resize),
        ensures
            Self::inv(Self::spec_reset(state, resize)),
            Self::config(Self::spec_reset(state, resize)) == Self::config(state).resized(resize),
            Self::placed(Self::spec_reset(state, resize)) == Seq::<Rectf>::empty(),
            Self::spec_reset(state, resize) == Self::spec_reset(other, resize),
    ;

    /// Attempts to place a new rectangle of the given size, or its rotation
    /// where the strategy and the configuration allow it.
    fn insert(&mut self, w: u32, h: u32) -> (r: Option<Rectf>)
        requires
            Self::inv(old(self)@),
        ensures
            Self::inv(final(self)@),
            (final(self)@, r) == Self::spec_insert(old(self)@, w, h),
    ;

    /// Clears all placed state; with a size, also replaces the atlas bounds.
    fn reset(&mut self, resize: Option<Size>)
        requires
            Self::inv(old(self)@),
        ensures
            Self::inv(final(self)@),
            final(self)@ == Self::spec_reset(old(self)@, resize),
    ;

    /// The bounding box of everything placed since the last reset.
    fn used_area(&self) -> (used: Size)
        requires
            Self::inv(self@),
        ensures
            used == bounding_box(Self::placed(self@)),
    ;
}

/// The state after the requests have been made in turn, and the answers
/// to them.
pub open spec fn replay<P: Packer>(state: P::V, requests: Seq<Size>) -> (
    P::V,
    Seq<Option<Rectf>>,
)
    decreases requests.len(),
{
    if requests.len() == 0 {
        (state, Seq::empty())
    } else {
        let (before, answers) = replay::<P>(state, requests.drop_last());
        let (after, answer) = P::spec_insert(before, requests.last().w, requests.last().h);
        (after, answers.push(answer))
    }
}

/// Requests change neither the configuration nor the invariant, and every
/// request gets an answer.
pub proof fn lemma_replay<P: Packer>(state: P::V, requests: Seq<Size>)
    requires
        P::inv(state),
    ensures
        P::inv(replay::<P>(state, requests).0),
        P::config(replay::<P>(state, requests).0) == P::config(state),
        replay::<P>(state, requests).1.len() == requests.len(),
    decreases requests.len(),
{
    if requests.len() > 0 {
        lemma_replay::<P>(state, requests.drop_last());
        let before = replay::<P>(state, requests.drop_last()).0;
        P::lemma_insert(before, requests.last().w, requests.last().h);
    }
}

/// A reset without a new size, followed by the requests made since the
/// reset before it, in the same order, gives the same answers and leads
/// to the same state.
pub proof fn lemma_reset_replays<P: Packer>(state: P::V, requests: Seq<Size>)
    requires
        P::inv(state),
    ensures
        replay::<P>(
            P::spec_reset(replay::<P>(P::spec_reset(state, None), requests).0, None),
            requests,
        ) == replay::<P>(P::spec_reset(state, None), requests),
{
    let emptied = P::spec_reset(state, None);
    P::lemma_reset(state, state, None);
    lemma_replay::<P>(emptied, requests);
    let filled = replay::<P>(emptied, requests).0;
    P::lemma_reset(filled, state, None);
}

} // verus!
