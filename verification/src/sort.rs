//! The orders in which the driver feeds its input to a packer, and the
//! sort that puts the input in one of them.

use vstd::prelude::*;
use crate::geometry::Size;
use crate::packer::RectInput;

verus! {

/// A way to order sizes, largest first by the measure it names.
#[derive(Clone, Copy, Debug, PartialEq, Eq, Structural)]
pub enum RectSort {
    /// By area.
    Area,
    /// By perimeter.
    Perimeter,
    /// By the longer side.
    LongerSide,
    /// By width.
    Width,
    /// By height.
    Height,
    /// By area weighted with the ratio of the longer to the shorter side,
    /// which puts thin rectangles ahead of compact ones of the same area.
    Pathological,
}

/// The orders that the driver tries, in the order it tries them.
pub const RECT_SORT_FUNCTIONS: [RectSort; 6] = [
    RectSort::Area,
    RectSort::Perimeter,
    RectSort::LongerSide,
    RectSort::Width,
    RectSort::Height,
    RectSort::Pathological,
];

impl RectSort {
    /// `a` comes strictly before `b`: its measure is the larger one.
    ///
    /// The weighted area of a size is `max_side / min_side * area`; two of
    /// them are compared as fractions, by cross-multiplication, so a size
    /// without an area comes neither before nor after any other.
    pub open spec fn spec_precedes(self, a: Size, b: Size) -> bool {
        match self {
            RectSort::Area => a.spec_area() > b.spec_area(),
            RectSort::Perimeter => a.spec_perimeter() > b.spec_perimeter(),
            RectSort::LongerSide => a.spec_max_side() > b.spec_max_side(),
            RectSort::Width => a.w > b.w,
            RectSort::Height => a.h > b.h,
            RectSort::Pathological => a.spec_max_side() * a.spec_area() * b.spec_min_side()
                > b.spec_max_side() * b.spec_area() * a.spec_min_side(),
        }
    }

    /// Whether `a` comes strictly before `b` in this order.
    #[verifier::when_used_as_spec(spec_precedes)]
    pub fn precedes(self, a: Size, b: Size) -> (before: bool)
        ensures
            before == self.spec_precedes(a, b),
    {
        match self {
            RectSort::Area => a.area() > b.area(),
            RectSort::Perimeter => a.perimeter() > b.perimeter(),
            RectSort::LongerSide => a.max_side() > b.max_side(),
            RectSort::Width => a.w > b.w,
            RectSort::Height => a.h > b.h,
            RectSort::Pathological => weighted(a, b.min_side()) > weighted(b, a.min_side()),
        }
    }
}

/// The longer side of `size` times its area times `factor`.
fn weighted(size: Size, factor: u32) -> (product: u128)
    ensures
        product == size.spec_max_side() * size.spec_area() * factor,
{
    let side = size.max_side();
    let area = size.area();
    assert(size.w * size.h <= 0xffff_ffff * 0xffff_ffff) by (nonlinear_arith)
        requires
            0 <= size.w <= 0xffff_ffff,
            0 <= size.h <= 0xffff_ffff,
    ;
    assert(side * area <= 0xffff_ffff * (0xffff_ffff * 0xffff_ffff)) by (nonlinear_arith)
        requires
            0 <= side <= 0xffff_ffff,
            0 <= area <= 0xffff_ffff * 0xffff_ffff,
    ;
    assert(side * area * factor <= 0xffff_ffff * (0xffff_ffff * 0xffff_ffff) * 0xffff_ffff)
        by (nonlinear_arith)
        requires
            0 <= side * area <= 0xffff_ffff * (0xffff_ffff * 0xffff_ffff),
            0 <= factor <= 0xffff_ffff,
    ;
    side as u128 * area as u128 * factor as u128
}

/// Where `x` goes into a sorted sequence: behind every item that it does
/// not come strictly before, so behind its equals.
pub open spec fn insert_point<K>(sorted: Seq<RectInput<K>>, x: RectInput<K>, by: RectSort) -> int
    decreases sorted.len(),
{
    if sorted.len() == 0 {
        0
    } else if by.spec_precedes(x.size, sorted.last().size) {
        insert_point(sorted.drop_last(), x, by)
    } else {
        sorted.len() as int
    }
}

/// The items in the given order, largest first, equals in the order they
/// had before.
pub open spec fn sort_spec<K>(items: Seq<RectInput<K>>, by: RectSort) -> Seq<RectInput<K>>
    decreases items.len(),
{
    if items.len() == 0 {
        items
    } else {
        let sorted = sort_spec(items.drop_last(), by);
        sorted.insert(insert_point(sorted, items.last(), by), items.last())
    }
}

/// The insert point lies in the sequence or at its end, every item from
/// there on comes strictly after `x`, and the item before it does not.
pub proof fn lemma_insert_point<K>(sorted: Seq<RectInput<K>>, x: RectInput<K>, by: RectSort)
    ensures
        0 <= insert_point(sorted, x, by) <= sorted.len(),
        forall|j: int|
            insert_point(sorted, x, by) <= j < sorted.len() ==> by.spec_precedes(
                x.size,
                (#[trigger] sorted[j]).size,
            ),
        insert_point(sorted, x, by) > 0 ==> !by.spec_precedes(
            x.size,
            sorted[insert_point(sorted, x, by) - 1].size,
        ),
    decreases sorted.len(),
{
    if sorted.len() > 0 && by.spec_precedes(x.size, sorted.last().size) {
        lemma_insert_point(sorted.drop_last(), x, by);
        assert forall|j: int| insert_point(sorted, x, by) <= j < sorted.len() implies by.spec_precedes(
            x.size,
            (#[trigger] sorted[j]).size,
        ) by {
            if j < sorted.len() - 1 {
                assert(sorted.drop_last()[j] == sorted[j]);
            }
        }
    }
}

/// Sorting keeps the length.
pub proof fn lemma_sort_len<K>(items: Seq<RectInput<K>>, by: RectSort)
    ensures
        sort_spec(items, by).len() == items.len(),
    decreases items.len(),
{
    if items.len() > 0 {
        lemma_sort_len(items.drop_last(), by);
        lemma_insert_point(sort_spec(items.drop_last(), by), items.last(), by);
    }
}

/// Sorting rearranges: the sorted sequence holds the same items, each as
/// often as before.
pub proof fn lemma_sort_permutes<K>(items: Seq<RectInput<K>>, by: RectSort)
    ensures
        sort_spec(items, by).to_multiset() == items.to_multiset(),
    decreases items.len(),
{
    broadcast use vstd::seq_lib::group_to_multiset_ensures;

    if items.len() > 0 {
        let rest = items.drop_last();
        let sorted = sort_spec(rest, by);
        let x = items.last();
        let p = insert_point(sorted, x, by);
        lemma_sort_permutes(rest, by);
        lemma_insert_point(sorted, x, by);
        let merged = sorted.insert(p, x);
        assert(merged.remove(p) == sorted);
        assert(merged[p] == x);
        assert(merged.to_multiset().remove(x) == sorted.to_multiset());
        assert(merged.contains(x));
        assert(merged.to_multiset() == sorted.to_multiset().insert(x));
        assert(rest.push(x) == items);
    }
}

/// Every item of the sorted sequence is an item of the unsorted one, and
/// the other way round.
pub proof fn lemma_sort_keeps_items<K>(items: Seq<RectInput<K>>, by: RectSort)
    ensures
        forall|j: int|
            0 <= j < sort_spec(items, by).len() ==> items.contains(
                #[trigger] sort_spec(items, by)[j],
            ),
        forall|j: int|
            0 <= j < items.len() ==> sort_spec(items, by).contains(#[trigger] items[j]),
{
    broadcast use vstd::seq_lib::group_to_multiset_ensures;

    lemma_sort_permutes(items, by);
    let sorted = sort_spec(items, by);
    assert forall|j: int| 0 <= j < sorted.len() implies items.contains(#[trigger] sorted[j]) by {
        assert(sorted.contains(sorted[j]));
        assert(sorted.to_multiset().count(sorted[j]) > 0);
    }
    assert forall|j: int| 0 <= j < items.len() implies sorted.contains(#[trigger] items[j]) by {
        assert(items.contains(items[j]));
        assert(items.to_multiset().count(items[j]) > 0);
    }
}

/// The order can tell these sizes apart: every order but the one by
/// weighted area can tell any sizes apart, and that one those with an area.
pub open spec fn comparable(by: RectSort, size: Size) -> bool {
    by == RectSort::Pathological ==> size.w > 0 && size.h > 0
}

/// Of two sizes neither comes strictly before the other, or one does and
/// the other does not.
pub proof fn lemma_precedes_asymmetric(by: RectSort, a: Size, b: Size)
    ensures
        by.spec_precedes(a, b) ==> !by.spec_precedes(b, a),
{
}

/// A size that does not come before a second, which does not come before
/// a third, does not come before the third.
pub proof fn lemma_precedes_transitive(by: RectSort, a: Size, b: Size, c: Size)
    requires
        comparable(by, a),
        comparable(by, b),
        comparable(by, c),
        !by.spec_precedes(a, b),
        !by.spec_precedes(b, c),
    ensures
        !by.spec_precedes(a, c),
{
    if by == RectSort::Pathological {
        let wa = a.spec_max_side() * a.spec_area();
        let wb = b.spec_max_side() * b.spec_area();
        let wc = c.spec_max_side() * c.spec_area();
        let ma = a.spec_min_side() as int;
        let mb = b.spec_min_side() as int;
        let mc = c.spec_min_side() as int;
        assert(wa * mc <= wc * ma) by (nonlinear_arith)
            requires
                wa * mb <= wb * ma,
                wb * mc <= wc * mb,
                ma > 0,
                mb > 0,
                mc > 0,
                wa >= 0,
                wb >= 0,
                wc >= 0,
        {
            assert((wa * mb) * mc <= (wb * ma) * mc);
            assert((wb * mc) * ma <= (wc * mb) * ma);
            assert((wa * mc) * mb <= (wc * ma) * mb);
        }
    }
}

/// The sorted sequence is in order: no item comes strictly before an item
/// that stands ahead of it.
pub proof fn lemma_sort_sorted<K>(items: Seq<RectInput<K>>, by: RectSort)
    requires
        forall|i: int| 0 <= i < items.len() ==> comparable(by, (#[trigger] items[i]).size),
    ensures
        forall|i: int, j: int|
            0 <= i < j < sort_spec(items, by).len() ==> !by.spec_precedes(
                (#[trigger] sort_spec(items, by)[j]).size,
                (#[trigger] sort_spec(items, by)[i]).size,
            ),
    decreases items.len(),
{
    if items.len() > 0 {
        let rest = items.drop_last();
        let sorted = sort_spec(rest, by);
        let x = items.last();
        let p = insert_point(sorted, x, by);
        let merged = sort_spec(items, by);
        assert forall|i: int| 0 <= i < rest.len() implies comparable(
            by,
            (#[trigger] rest[i]).size,
        ) by {
            assert(rest[i] == items[i]);
        }
        lemma_sort_sorted(rest, by);
        lemma_sort_keeps_items(rest, by);
        lemma_insert_point(sorted, x, by);
        assert forall|i: int, j: int| 0 <= i < j < merged.len() implies !by.spec_precedes(
            (#[trigger] merged[j]).size,
            (#[trigger] merged[i]).size,
        ) by {
            if j == p {
                assert(merged[i] == sorted[i]);
                assert(rest.contains(sorted[i]));
                assert(rest.contains(sorted[p - 1]));
                if i < p - 1 {
                    lemma_precedes_transitive(by, x.size, sorted[p - 1].size, sorted[i].size);
                }
            } else if i == p {
                assert(merged[j] == sorted[j - 1]);
                lemma_precedes_asymmetric(by, x.size, sorted[j - 1].size);
            } else {
                let from = if i < p {
                    i
                } else {
                    i - 1
                };
                let to = if j < p {
                    j
                } else {
                    j - 1
                };
                assert(merged[i] == sorted[from]);
                assert(merged[j] == sorted[to]);
            }
        }
    }
}

/// Sorts `inputs` in the given order, largest first. Equal items keep the
/// order they had.
pub fn sort_inputs<K: Copy>(inputs: &mut Vec<RectInput<K>>, by: RectSort)
    ensures
        final(inputs)@ == sort_spec(old(inputs)@, by),
{
    let mut i: usize = 0;
    assert(old(inputs)@.take(0) == Seq::<RectInput<K>>::empty());
    assert(old(inputs)@.skip(0) == old(inputs)@);
    while i < inputs.len()
        invariant
            i <= inputs.len(),
            inputs.len() == old(inputs).len(),
            inputs@ == sort_spec(old(inputs)@.take(i as int), by) + old(inputs)@.skip(i as int),
        decreases inputs.len() - i,
    {
        let ghost sorted = sort_spec(old(inputs)@.take(i as int), by);
        proof {
            lemma_sort_len(old(inputs)@.take(i as int), by);
            assert(old(inputs)@.take(i + 1).drop_last() == old(inputs)@.take(i as int));
        }
        let x = inputs[i];
        let mut p: usize = i;
        assert(sorted.take(i as int) == sorted);
        assert(inputs@.take(i as int) == sorted);
        while p > 0 && by.precedes(x.size, inputs[p - 1].size)
            invariant
                p <= i < inputs.len(),
                sorted.len() == i,
                inputs@.take(i as int) == sorted,
                insert_point(sorted, x, by) == insert_point(sorted.take(p as int), x, by),
            decreases p,
        {
            proof {
                assert(sorted.take(p as int).drop_last() == sorted.take(p - 1));
            }
            p -= 1;
        }
        proof {
            if p > 0 {
                assert(sorted.take(p as int).last() == inputs@[p - 1]);
            }
            assert(insert_point(sorted, x, by) == p);
        }
        inputs.remove(i);
        inputs.insert(p, x);
        proof {
            assert(inputs@ == sorted.insert(p as int, x) + old(inputs)@.skip(i + 1));
        }
        i += 1;
    }
    assert(old(inputs)@.take(i as int) == old(inputs)@);
}

} // verus!
