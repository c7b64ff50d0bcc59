//! The multi-heuristic driver: packs one set of rectangles in several
//! orders, opening a new atlas whenever the current one is full, and
//! keeps the order that uses the least area.

use vstd::prelude::*;
use crate::geometry::{PackerConfig, Size};
use crate::packer::{bounding_box, clear_of, Packer, RectInput, RectOutput};
use crate::sort::{
    lemma_sort_keeps_items, lemma_sort_len, lemma_sort_permutes, sort_inputs, sort_spec,
    RECT_SORT_FUNCTIONS,
};

verus! {

/// One trial: `items` are requested in order from a packer in the given
/// state that fills atlas number `atlas`; `fresh` says that this atlas
/// holds nothing yet. A refused item closes the atlas and is requested
/// again from the next one, emptied first; an item that an empty atlas
/// refuses fails the trial. The result is the state the packer is left
/// in and, for a trial that places everything, the placements in the
/// order of `items` with the area used: the sum, over the atlases, of the
/// areas of the bounding boxes of their placements.
pub open spec fn trial<P: Packer, K>(
    state: P::V,
    fresh: bool,
    atlas: nat,
    items: Seq<RectInput<K>>,
) -> (P::V, Option<(Seq<RectOutput<K>>, nat)>)
    decreases items.len(),
        (if fresh {
            0int
        } else {
            1int
        }),
{
    if items.len() == 0 {
        (state, Some((Seq::empty(), bounding_box(P::placed(state)).spec_area())))
    } else {
        let (next, r) = P::spec_insert(state, items[0].size.w, items[0].size.h);
        match r {
            Some(rect) => {
                let (last, rest) = trial::<P, K>(next, false, atlas, items.drop_first());
                (
                    last,
                    match rest {
                        Some((placements, area)) => Some(
                            (
                                seq![RectOutput { rect, atlas: atlas as usize, key: items[0].key }]
                                    + placements,
                                area,
                            ),
                        ),
                        None => None,
                    },
                )
            },
            None => if fresh {
                (next, None)
            } else {
                let (last, rest) = trial::<P, K>(
                    P::spec_reset(next, None),
                    true,
                    atlas + 1,
                    items,
                );
                (
                    last,
                    match rest {
                        Some((placements, area)) => Some(
                            (placements, area + bounding_box(P::placed(next)).spec_area()),
                        ),
                        None => None,
                    },
                )
            },
        }
    }
}

/// The first `rounds` trials of the driver, each on the input sorted
/// anew, from where the trial before left it, in the next order of
/// [`RECT_SORT_FUNCTIONS`], with the packer emptied first. The result
/// is the state of the packer, the input as last sorted, and the best
/// trial so far: its placements and the area it used. A later trial
/// replaces the best one only where it uses strictly less area. The
/// trials end with the first one that fails, and then none is best.
pub open spec fn trials<P: Packer, K>(state: P::V, inputs: Seq<RectInput<K>>, rounds: nat) -> (
    P::V,
    Seq<RectInput<K>>,
    Option<(Seq<RectOutput<K>>, nat)>,
)
    decreases rounds,
{
    if rounds == 0 {
        (state, inputs, Some((Seq::empty(), 0)))
    } else {
        let (before, unsorted, best) = trials::<P, K>(state, inputs, (rounds - 1) as nat);
        if best is None {
            (before, unsorted, None)
        } else {
            let sorted = sort_spec(unsorted, RECT_SORT_FUNCTIONS[rounds - 1]);
            let (after, current) = trial::<P, K>(P::spec_reset(before, None), true, 0, sorted);
            (
                after,
                sorted,
                match (current, best) {
                    (Some((placements, area)), Some((kept, least))) => if rounds == 1 || area
                        < least {
                        current
                    } else {
                        best
                    },
                    _ => None,
                },
            )
        }
    }
}

/// An empty atlas of the packer's configuration takes a rectangle of this
/// size.
pub open spec fn placeable<P: Packer>(state: P::V, size: Size) -> bool {
    P::spec_insert(P::spec_reset(state, None), size.w, size.h).1 is Some
}

/// An empty atlas of the packer's configuration takes each of the items.
pub open spec fn all_placeable<P: Packer, K>(state: P::V, items: Seq<RectInput<K>>) -> bool {
    forall|i: int| 0 <= i < items.len() ==> placeable::<P>(state, (#[trigger] items[i]).size)
}

/// The placements answer the items of `order` one by one: each carries
/// the key of its item and holds a rectangle of the size asked for, as
/// asked or, where flipping is allowed, flipped, inside the atlas. The
/// atlas numbers never fall from one placement to the next, and no two
/// placements in one atlas overlap.
pub open spec fn well_packed<K>(
    placements: Seq<RectOutput<K>>,
    order: Seq<RectInput<K>>,
    config: PackerConfig,
) -> bool {
    &&& placements.len() == order.len()
    &&& forall|k: int|
        0 <= k < placements.len() ==> {
            &&& (#[trigger] placements[k]).key == order[k].key
            &&& placements[k].rect.holds(order[k].size.w, order[k].size.h)
            &&& placements[k].rect.flipped ==> config.allow_flipping
            &&& placements[k].rect.w > 0
            &&& placements[k].rect.h > 0
            &&& placements[k].rect.spec_rect().fits_in(config.bounds())
        }
    &&& forall|i: int, j: int|
        0 <= i < j < placements.len() ==> (#[trigger] placements[i]).atlas <= (
        #[trigger] placements[j]).atlas
    &&& forall|i: int, j: int|
        0 <= i < j < placements.len() && (#[trigger] placements[i]).atlas == (
        #[trigger] placements[j]).atlas ==> !placements[i].rect.spec_rect().overlaps(
            placements[j].rect.spec_rect(),
        )
}

/// Runs one trial on `inputs` as they stand, with `current` for the
/// placements. Returns the area used, or `None` for a trial that failed.
fn run_trial<P: Packer, K: Copy>(
    inputs: &Vec<RectInput<K>>,
    packer: &mut P,
    current: &mut Vec<RectOutput<K>>,
) -> (used: Option<u128>)
    requires
        P::inv(old(packer)@),
    ensures
        P::inv(final(packer)@),
        final(packer)@ == trial::<P, K>(P::spec_reset(old(packer)@, None), true, 0, inputs@).0,
        match trial::<P, K>(P::spec_reset(old(packer)@, None), true, 0, inputs@).1 {
            Some((placements, area)) => area <= u128::MAX && used == Some(area as u128)
                && final(current)@ == placements,
            None => used is None,
        },
{
    current.clear();
    packer.reset(None);
    let ghost start = packer@;
    // use as many atlas as needed
    let mut atlas: usize = 0;
    let mut fresh = true;
    let mut current_area: u128 = 0;
    let mut i: usize = 0;
    assert(inputs@.skip(0) == inputs@);
    while i < inputs.len()
        invariant
            i <= inputs.len(),
            P::inv(packer@),
            start == P::spec_reset(old(packer)@, None),
            atlas <= i,
            !fresh ==> atlas < i,
            current_area <= atlas * 0xffff_ffff_ffff_ffff,
            trial::<P, K>(start, true, 0, inputs@).0 == trial::<P, K>(
                packer@,
                fresh,
                atlas as nat,
                inputs@.skip(i as int),
            ).0,
            trial::<P, K>(start, true, 0, inputs@).1 == (match trial::<P, K>(
                packer@,
                fresh,
                atlas as nat,
                inputs@.skip(i as int),
            ).1 {
                Some((placements, area)) => Some(
                    (current@ + placements, (area + current_area) as nat),
                ),
                None => None,
            }),
        decreases inputs.len() - i,
            (if fresh {
                0int
            } else {
                1int
            }),
    {
        let input = &inputs[i];
        proof {
            assert(inputs@.skip(i as int)[0] == inputs@[i as int]);
            assert(inputs@.skip(i as int).drop_first() == inputs@.skip(i + 1));
        }
        if let Some(rect) = packer.insert(input.size.w, input.size.h) {
            let ghost rest = trial::<P, K>(packer@, false, atlas as nat, inputs@.skip(i + 1)).1;
            proof {
                let placed = RectOutput { rect, atlas, key: input.key };
                if let Some((placements, area)) = rest {
                    assert(current@ + (seq![placed] + placements) == current@.push(placed)
                        + placements);
                }
            }
            current.push(RectOutput { rect, atlas, key: input.key });
            fresh = false;
            i += 1;
        } else {
            if fresh {
                return None;
            }
            // use another atlas
            let area = packer.used_area().area();
            assert((atlas + 1) * 0xffff_ffff_ffff_ffff == atlas * 0xffff_ffff_ffff_ffff
                + 0xffff_ffff_ffff_ffff) by (nonlinear_arith);
            assert(atlas * 0xffff_ffff_ffff_ffff <= 0xffff_ffff_ffff_ffff * 0xffff_ffff_ffff_ffff)
                by (nonlinear_arith)
                requires
                    atlas <= 0xffff_ffff_ffff_ffff,
            ;
            current_area += area as u128;
            atlas += 1;
            packer.reset(None);
            fresh = true;
        }
    }
    let area = packer.used_area().area();
    assert(atlas * 0xffff_ffff_ffff_ffff <= 0xffff_ffff_ffff_ffff * 0xffff_ffff_ffff_ffff)
        by (nonlinear_arith)
        requires
            atlas <= 0xffff_ffff_ffff_ffff,
    ;
    assert(inputs@.skip(i as int).len() == 0);
    assert(current@ + Seq::<RectOutput<K>>::empty() == current@);
    current_area += area as u128;
    Some(current_area)
}

/// Sorts the input by each of the orders of [`RECT_SORT_FUNCTIONS`] in
/// turn and packs it in that order, into as many atlases as it takes, to
/// find the order that uses the least area. Returns the placements of the
/// best order, sorted by atlas, or `None` where the input holds a
/// rectangle that not even an empty atlas takes; the search ends with the
/// first order in which that shows.
pub fn try_pack<P: Packer, K: Copy>(inputs: &mut Vec<RectInput<K>>, packer: P) -> (output: Option<
    Vec<RectOutput<K>>,
>)
    requires
        P::inv(packer@),
    ensures
        final(inputs)@ == trials::<P, K>(packer@, old(inputs)@, 6).1,
        match trials::<P, K>(packer@, old(inputs)@, 6).2 {
            Some((placements, area)) => output matches Some(placed) && placed@ == placements,
            None => output is None,
        },
        output is Some <==> all_placeable::<P, K>(packer@, old(inputs)@),
        final(inputs)@.to_multiset() == old(inputs)@.to_multiset(),
        output matches Some(placed) ==> placed@.len() == old(inputs)@.len(),
        output matches Some(placed) ==> exists|order: Seq<RectInput<K>>|
            order.to_multiset() == old(inputs)@.to_multiset() && #[trigger] well_packed(
                placed@,
                order,
                P::config(packer@),
            ),
{
    assert(inputs@.len() == inputs.len());
    let mut strategy = packer;
    let mut output: Vec<RectOutput<K>> = Vec::new();
    let mut output_area: u128 = 0;
    let mut current: Vec<RectOutput<K>> = Vec::new();
    let mut round: usize = 0;
    while round < 6
        invariant
            round <= 6,
            P::inv(packer@),
            P::inv(strategy@),
            old(inputs)@.len() <= usize::MAX,
            trials::<P, K>(packer@, old(inputs)@, round as nat) == (
                strategy@,
                inputs@,
                Some((output@, output_area as nat)),
            ),
        decreases 6 - round,
    {
        sort_inputs(inputs, RECT_SORT_FUNCTIONS[round]);
        match run_trial(inputs, &mut strategy, &mut current) {
            Some(current_area) => {
                if round == 0 || current_area < output_area {
                    output_area = current_area;
                    core::mem::swap(&mut current, &mut output);
                }
            },
            None => {
                proof {
                    lemma_trials_fail_for_good::<P, K>(
                        packer@,
                        old(inputs)@,
                        (round + 1) as nat,
                        6,
                    );
                    lemma_trials_best::<P, K>(packer@, old(inputs)@, 6);
                    lemma_trials_well_packed::<P, K>(packer@, old(inputs)@, 6);
                }
                return None;
            },
        }
        round += 1;
    }
    proof {
        lemma_trials_best::<P, K>(packer@, old(inputs)@, 6);
        lemma_trials_well_packed::<P, K>(packer@, old(inputs)@, 6);
    }
    Some(output)
}

/// Sorts the input data using the heuristics defined in
/// [`RECT_SORT_FUNCTIONS`] to find the best possible packing; the results
/// might end up inside multiple atlases.
///
/// The output is sorted by atlas.
///
/// Every rectangle of the input must be one that an empty atlas takes;
/// [`try_pack`] is there for input of which that is not known.
pub fn pack<P: Packer, K: Copy>(inputs: &mut Vec<RectInput<K>>, packer: P) -> (output: Vec<
    RectOutput<K>,
>)
    requires
        P::inv(packer@),
        all_placeable::<P, K>(packer@, old(inputs)@),
    ensures
        final(inputs)@ == trials::<P, K>(packer@, old(inputs)@, 6).1,
        trials::<P, K>(packer@, old(inputs)@, 6).2 matches Some((placements, area))
            && output@ == placements,
        final(inputs)@.to_multiset() == old(inputs)@.to_multiset(),
        output@.len() == old(inputs)@.len(),
        exists|order: Seq<RectInput<K>>|
            order.to_multiset() == old(inputs)@.to_multiset() && #[trigger] well_packed(
                output@,
                order,
                P::config(packer@),
            ),
{
    proof {
        lemma_trials_succeed::<P, K>(packer@, old(inputs)@, 6);
    }
    try_pack(inputs, packer).unwrap()
}

/// A trial places everything when an empty atlas takes each of the items.
pub proof fn lemma_trial_succeeds<P: Packer, K>(
    state: P::V,
    fresh: bool,
    atlas: nat,
    items: Seq<RectInput<K>>,
)
    requires
        P::inv(state),
        fresh ==> P::spec_reset(state, None) == state,
        all_placeable::<P, K>(state, items),
    ensures
        trial::<P, K>(state, fresh, atlas, items).1 is Some,
        P::inv(trial::<P, K>(state, fresh, atlas, items).0),
        P::config(trial::<P, K>(state, fresh, atlas, items).0) == P::config(state),
    decreases items.len(),
        (if fresh {
            0int
        } else {
            1int
        }),
{
    if items.len() > 0 {
        let (next, r) = P::spec_insert(state, items[0].size.w, items[0].size.h);
        P::lemma_insert(state, items[0].size.w, items[0].size.h);
        P::lemma_reset(next, state, None);
        if r is Some {
            let rest = items.drop_first();
            assert forall|i: int| 0 <= i < rest.len() implies placeable::<P>(
                next,
                (#[trigger] rest[i]).size,
            ) by {
                assert(rest[i] == items[i + 1]);
            }
            lemma_trial_succeeds::<P, K>(next, false, atlas, rest);
        } else {
            assert(placeable::<P>(state, items[0].size));
            let emptied = P::spec_reset(next, None);
            P::lemma_reset(emptied, next, None);
            lemma_trial_succeeds::<P, K>(emptied, true, atlas + 1, items);
        }
    }
}

/// The trials of the driver all place everything, and so one of them is
/// best, when an empty atlas takes each of the inputs.
pub proof fn lemma_trials_succeed<P: Packer, K>(
    state: P::V,
    inputs: Seq<RectInput<K>>,
    rounds: nat,
)
    requires
        P::inv(state),
        all_placeable::<P, K>(state, inputs),
        rounds <= 6,
    ensures
        trials::<P, K>(state, inputs, rounds).2 is Some,
        P::inv(trials::<P, K>(state, inputs, rounds).0),
        P::config(trials::<P, K>(state, inputs, rounds).0) == P::config(state),
        all_placeable::<P, K>(state, trials::<P, K>(state, inputs, rounds).1),
    decreases rounds,
{
    if rounds > 0 {
        lemma_trials_succeed::<P, K>(state, inputs, (rounds - 1) as nat);
        let (before, unsorted, best) = trials::<P, K>(state, inputs, (rounds - 1) as nat);
        let sorted = sort_spec(unsorted, RECT_SORT_FUNCTIONS[rounds - 1]);
        lemma_sort_keeps_items(unsorted, RECT_SORT_FUNCTIONS[rounds - 1]);
        let emptied = P::spec_reset(before, None);
        P::lemma_reset(before, state, None);
        P::lemma_reset(emptied, before, None);
        assert forall|i: int| 0 <= i < sorted.len() implies placeable::<P>(
            state,
            (#[trigger] sorted[i]).size,
        ) by {
            assert(unsorted.contains(sorted[i]));
            let j = choose|j: int| 0 <= j < unsorted.len() && unsorted[j] == sorted[i];
            assert(placeable::<P>(state, unsorted[j].size));
        }
        assert(all_placeable::<P, K>(emptied, sorted));
        lemma_trial_succeeds::<P, K>(emptied, true, 0, sorted);
    }
}

/// A trial places everything only when an empty atlas takes each of the
/// items.
pub proof fn lemma_trial_needs_placeable<P: Packer, K>(
    state: P::V,
    fresh: bool,
    atlas: nat,
    items: Seq<RectInput<K>>,
)
    requires
        P::inv(state),
        trial::<P, K>(state, fresh, atlas, items).1 is Some,
    ensures
        all_placeable::<P, K>(state, items),
    decreases items.len(),
        (if fresh {
            0int
        } else {
            1int
        }),
{
    if items.len() > 0 {
        let (next, r) = P::spec_insert(state, items[0].size.w, items[0].size.h);
        P::lemma_insert(state, items[0].size.w, items[0].size.h);
        P::lemma_reset(next, state, None);
        if r is Some {
            let rest = items.drop_first();
            lemma_trial_needs_placeable::<P, K>(next, false, atlas, rest);
            assert forall|i: int| 0 <= i < items.len() implies placeable::<P>(
                state,
                (#[trigger] items[i]).size,
            ) by {
                if i > 0 {
                    assert(rest[i - 1] == items[i]);
                    assert(placeable::<P>(next, rest[i - 1].size));
                }
            }
        } else {
            let emptied = P::spec_reset(next, None);
            P::lemma_reset(emptied, next, None);
            lemma_trial_needs_placeable::<P, K>(emptied, true, atlas + 1, items);
            assert forall|i: int| 0 <= i < items.len() implies placeable::<P>(
                state,
                (#[trigger] items[i]).size,
            ) by {
                assert(placeable::<P>(emptied, items[i].size));
            }
        }
    }
}

/// One of the trials is best exactly when an empty atlas takes each of
/// the inputs.
pub proof fn lemma_trials_best<P: Packer, K>(state: P::V, inputs: Seq<RectInput<K>>, rounds: nat)
    requires
        P::inv(state),
        1 <= rounds <= 6,
        inputs.len() <= usize::MAX,
    ensures
        trials::<P, K>(state, inputs, rounds).2 is Some <==> all_placeable::<P, K>(state, inputs),
    decreases rounds,
{
    if all_placeable::<P, K>(state, inputs) {
        lemma_trials_succeed::<P, K>(state, inputs, rounds);
    }
    if trials::<P, K>(state, inputs, rounds).2 is Some {
        if rounds > 1 {
            assert(trials::<P, K>(state, inputs, (rounds - 1) as nat).2 is Some);
            lemma_trials_best::<P, K>(state, inputs, (rounds - 1) as nat);
        } else {
            let by = RECT_SORT_FUNCTIONS[0];
            assert(trials::<P, K>(state, inputs, 0) == (
                state,
                inputs,
                Some((Seq::<RectOutput<K>>::empty(), 0nat)),
            ));
            let sorted = sort_spec(inputs, by);
            let emptied = P::spec_reset(state, None);
            P::lemma_reset(state, state, None);
            P::lemma_reset(emptied, state, None);
            lemma_trial_needs_placeable::<P, K>(emptied, true, 0, sorted);
            lemma_sort_keeps_items(inputs, by);
            assert forall|i: int| 0 <= i < inputs.len() implies placeable::<P>(
                state,
                (#[trigger] inputs[i]).size,
            ) by {
                assert(sorted.contains(inputs[i]));
                let j = choose|j: int| 0 <= j < sorted.len() && sorted[j] == inputs[i];
                assert(placeable::<P>(emptied, sorted[j].size));
            }
        }
    }
}

/// Once a trial has failed, the trials that follow change nothing.
proof fn lemma_trials_fail_for_good<P: Packer, K>(
    state: P::V,
    inputs: Seq<RectInput<K>>,
    failed: nat,
    rounds: nat,
)
    requires
        failed <= rounds,
        trials::<P, K>(state, inputs, failed).2 is None,
    ensures
        trials::<P, K>(state, inputs, rounds) == trials::<P, K>(state, inputs, failed),
    decreases rounds,
{
    if failed < rounds {
        lemma_trials_fail_for_good::<P, K>(state, inputs, failed, (rounds - 1) as nat);
    }
}

/// The placements of a trial are well packed. They start in the atlas
/// that the trial starts in or, where that one is not empty, in the next,
/// and those in the atlas that the trial starts in are clear of what
/// that atlas holds already.
pub proof fn lemma_trial_well_packed<P: Packer, K>(
    state: P::V,
    fresh: bool,
    atlas: nat,
    items: Seq<RectInput<K>>,
)
    requires
        P::inv(state),
        atlas + items.len() + (if fresh {
            0int
        } else {
            1int
        }) <= usize::MAX + 1,
    ensures
        P::inv(trial::<P, K>(state, fresh, atlas, items).0),
        P::config(trial::<P, K>(state, fresh, atlas, items).0) == P::config(state),
        trial::<P, K>(state, fresh, atlas, items).1 matches Some((placements, area)) ==> {
            &&& well_packed(placements, items, P::config(state))
            &&& forall|k: int|
                0 <= k < placements.len() ==> {
                    &&& (#[trigger] placements[k]).atlas >= atlas
                    &&& placements[k].atlas == atlas ==> clear_of(
                        P::placed(state),
                        placements[k].rect.spec_rect(),
                    )
                }
            &&& fresh && placements.len() > 0 ==> placements[0].atlas == atlas
        },
    decreases items.len(),
        (if fresh {
            0int
        } else {
            1int
        }),
{
    if items.len() > 0 {
        let config = P::config(state);
        let (next, r) = P::spec_insert(state, items[0].size.w, items[0].size.h);
        P::lemma_insert(state, items[0].size.w, items[0].size.h);
        match r {
            Some(rect) => {
                let rest = items.drop_first();
                lemma_trial_well_packed::<P, K>(next, false, atlas, rest);
                if let Some((others, area)) = trial::<P, K>(next, false, atlas, rest).1 {
                    let first = RectOutput { rect, atlas: atlas as usize, key: items[0].key };
                    let placements = seq![first] + others;
                    assert(trial::<P, K>(state, fresh, atlas, items).1 == Some(
                        (placements, area),
                    ));
                    assert forall|k: int| 0 <= k < placements.len() implies {
                        &&& (#[trigger] placements[k]).key == items[k].key
                        &&& placements[k].rect.holds(items[k].size.w, items[k].size.h)
                        &&& placements[k].rect.flipped ==> config.allow_flipping
                        &&& placements[k].rect.w > 0
                        &&& placements[k].rect.h > 0
                        &&& placements[k].rect.spec_rect().fits_in(config.bounds())
                        &&& placements[k].atlas >= atlas
                        &&& placements[k].atlas == atlas ==> clear_of(
                            P::placed(state),
                            placements[k].rect.spec_rect(),
                        )
                    } by {
                        if k > 0 {
                            assert(placements[k] == others[k - 1]);
                            assert(rest[k - 1] == items[k]);
                            if others[k - 1].atlas == atlas {
                                let there = others[k - 1].rect.spec_rect();
                                assert forall|m: int| 0 <= m < P::placed(state).len() implies !(
                                #[trigger] P::placed(state)[m]).spec_rect().overlaps(there) by {
                                    assert(P::placed(next)[m] == P::placed(state)[m]);
                                }
                            }
                        }
                    }
                    assert forall|i: int, j: int| 0 <= i < j < placements.len() implies (
                    #[trigger] placements[i]).atlas <= (#[trigger] placements[j]).atlas && (
                    placements[i].atlas == placements[j].atlas
                        ==> !placements[i].rect.spec_rect().overlaps(
                        placements[j].rect.spec_rect(),
                    )) by {
                        assert(placements[j] == others[j - 1]);
                        if i > 0 {
                            assert(placements[i] == others[i - 1]);
                        } else if others[j - 1].atlas == atlas {
                            let last = P::placed(state).len() as int;
                            assert(P::placed(next)[last] == rect);
                        }
                    }
                }
            },
            None => {
                if !fresh {
                    let emptied = P::spec_reset(next, None);
                    P::lemma_reset(next, next, None);
                    lemma_trial_well_packed::<P, K>(emptied, true, atlas + 1, items);
                }
            },
        }
    }
}

/// The placements that the best of the trials leaves are well packed for
/// some arrangement of the inputs, and the inputs come back rearranged.
pub proof fn lemma_trials_well_packed<P: Packer, K>(
    state: P::V,
    inputs: Seq<RectInput<K>>,
    rounds: nat,
)
    requires
        P::inv(state),
        rounds <= 6,
        inputs.len() <= usize::MAX,
    ensures
        P::inv(trials::<P, K>(state, inputs, rounds).0),
        P::config(trials::<P, K>(state, inputs, rounds).0) == P::config(state),
        trials::<P, K>(state, inputs, rounds).1.to_multiset() == inputs.to_multiset(),
        trials::<P, K>(state, inputs, rounds).1.len() == inputs.len(),
        rounds >= 1 ==> (trials::<P, K>(state, inputs, rounds).2 matches Some(
            (placements, area),
        ) ==> placements.len() == inputs.len() && exists|order: Seq<RectInput<K>>|
            order.to_multiset() == inputs.to_multiset() && #[trigger] well_packed(
                placements,
                order,
                P::config(state),
            )),
    decreases rounds,
{
    if rounds > 0 {
        lemma_trials_well_packed::<P, K>(state, inputs, (rounds - 1) as nat);
        let (before, unsorted, best) = trials::<P, K>(state, inputs, (rounds - 1) as nat);
        if best is Some {
            let by = RECT_SORT_FUNCTIONS[rounds - 1];
            let sorted = sort_spec(unsorted, by);
            lemma_sort_permutes(unsorted, by);
            lemma_sort_len(unsorted, by);
            let emptied = P::spec_reset(before, None);
            P::lemma_reset(before, before, None);
            lemma_trial_well_packed::<P, K>(emptied, true, 0, sorted);
            let (after, current) = trial::<P, K>(emptied, true, 0, sorted);
            if let Some((placements, area)) = trials::<P, K>(state, inputs, rounds).2 {
                if current == Some((placements, area)) {
                    assert(well_packed(placements, sorted, P::config(state)));
                }
            }
        }
    }
}

} // verus!
