use rect_packer::rectpack2d_packer::{
    best_packing_for_ordering, best_packing_for_ordering_impl, bin_dimension, empty_spaces,
    empty_spaces_provider, find_best_packing_impl, rect_xywhf, PackingResult,
};
use rect_packer::{Packer, PackerConfig, Rect, RectInput, RectOutput, Rectf, Size, SplitPacker};
use std::cell::RefCell;

fn inputs(sizes: &[(u32, u32)]) -> Vec<RectInput<usize>> {
    sizes
        .iter()
        .enumerate()
        .map(|(key, s)| RectInput { size: Size { w: s.0, h: s.1 }, key })
        .collect()
}

fn spaces_of(bin: &empty_spaces) -> Vec<Rect> {
    let provider = bin.get_spaces();
    (0..provider.get_count()).map(|i| *provider.get(i)).collect()
}

#[test]
fn provider_fills_a_gap_with_the_last_space() {
    let mut provider = empty_spaces_provider::default();
    assert_eq!(provider.get_count(), 0);
    assert!(provider.add(Rect::new(0, 0, 1, 1)));
    assert!(provider.add(Rect::new(1, 0, 1, 1)));
    assert!(provider.add(Rect::new(2, 0, 1, 1)));
    assert!(provider.add(Rect::new(3, 0, 1, 1)));
    assert_eq!(provider.get_count(), 4);
    provider.remove(1);
    assert_eq!(provider.get_count(), 3);
    assert_eq!(*provider.get(0), Rect::new(0, 0, 1, 1));
    assert_eq!(*provider.get(1), Rect::new(3, 0, 1, 1));
    assert_eq!(*provider.get(2), Rect::new(2, 0, 1, 1));
    provider.remove(2);
    assert_eq!(provider.get_count(), 2);
    assert_eq!(*provider.get(1), Rect::new(3, 0, 1, 1));
    provider.reset();
    assert_eq!(provider.get_count(), 0);
}

#[test]
fn empty_spaces_starts_with_the_whole_bin() {
    let bin = empty_spaces::new(30, 40);
    assert!(!bin.flipping());
    assert_eq!(spaces_of(&bin), vec![Rect::new(0, 0, 30, 40)]);
    assert_eq!(bin.get_rects_aabb(), Size { w: 0, h: 0 });
}

#[test]
fn empty_spaces_second_large_rectangle_does_not_fit() {
    let mut bin = empty_spaces::new(100, 100);
    assert_eq!(bin.insert(60, 60), Some(Rectf { x: 0, y: 0, w: 60, h: 60, flipped: false }));
    assert_eq!(spaces_of(&bin), vec![Rect::new(0, 60, 100, 40), Rect::new(60, 0, 40, 60)]);
    assert_eq!(bin.insert(60, 60), None);
    assert_eq!(spaces_of(&bin), vec![Rect::new(0, 60, 100, 40), Rect::new(60, 0, 40, 60)]);
    assert_eq!(bin.get_rects_aabb(), Size { w: 60, h: 60 });
}

#[test]
fn empty_spaces_keeps_the_size_asked_for() {
    let mut bin = empty_spaces::new(100, 100);
    let placed: rect_xywhf = bin.insert(30, 70).unwrap();
    assert_eq!(placed, Rectf { x: 0, y: 0, w: 30, h: 70, flipped: false });
}

#[test]
fn empty_spaces_moves_the_last_space_into_the_gap() {
    let mut bin = empty_spaces::new(100, 100);
    bin.insert(60, 60);
    assert_eq!(bin.insert(10, 10), Some(Rectf { x: 60, y: 0, w: 10, h: 10, flipped: false }));
    assert_eq!(
        spaces_of(&bin),
        vec![Rect::new(0, 60, 100, 40), Rect::new(60, 10, 40, 50), Rect::new(70, 0, 30, 10)]
    );
    assert_eq!(bin.insert(100, 40), Some(Rectf { x: 0, y: 60, w: 100, h: 40, flipped: false }));
    assert_eq!(spaces_of(&bin), vec![Rect::new(70, 0, 30, 10), Rect::new(60, 10, 40, 50)]);
    assert_eq!(bin.insert(30, 10), Some(Rectf { x: 60, y: 10, w: 30, h: 10, flipped: false }));

    // a list that keeps its order takes the space created last
    let mut packer = SplitPacker::new(
        PackerConfig { max_width: 100, max_height: 100, allow_flipping: false },
    );
    packer.insert(60, 60);
    packer.insert(10, 10);
    packer.insert(100, 40);
    assert_eq!(packer.insert(30, 10), Some(Rectf { x: 70, y: 0, w: 30, h: 10, flipped: false }));
}

#[test]
fn empty_spaces_flips_when_enabled() {
    let mut bin = empty_spaces::new(10, 4);
    assert_eq!(bin.insert(4, 10), None);
    bin.set_flipping(true);
    assert!(bin.flipping());
    assert_eq!(bin.insert(4, 10), Some(Rectf { x: 0, y: 0, w: 10, h: 4, flipped: true }));
}

#[test]
fn empty_spaces_reset_gives_a_new_bin() {
    let mut bin = empty_spaces::new(10, 10);
    bin.insert(10, 10);
    bin.reset(&Size { w: 20, h: 5 });
    assert_eq!(spaces_of(&bin), vec![Rect::new(0, 0, 20, 5)]);
    assert_eq!(bin.get_rects_aabb(), Size { w: 0, h: 0 });
    assert_eq!(bin.insert(20, 5), Some(Rectf { x: 0, y: 0, w: 20, h: 5, flipped: false }));
}

#[test]
fn empty_spaces_as_a_packer() {
    let mut bin = empty_spaces::new(10, 10);
    let placed = Packer::insert(&mut bin, 4, 4);
    assert_eq!(placed, Some(Rectf { x: 0, y: 0, w: 4, h: 4, flipped: false }));
    assert_eq!(Packer::used_area(&bin), Size { w: 4, h: 4 });
    Packer::reset(&mut bin, None);
    assert_eq!(spaces_of(&bin), vec![Rect::new(0, 0, 10, 10)]);
    Packer::reset(&mut bin, Some(Size { w: 3, h: 7 }));
    assert_eq!(spaces_of(&bin), vec![Rect::new(0, 0, 3, 7)]);
}

#[test]
fn search_over_both_sides_of_three_squares() {
    let order = inputs(&[(50, 50), (50, 50), (50, 50)]);
    let mut root = empty_spaces::new(0, 0);
    let result = best_packing_for_ordering_impl(
        &mut root,
        &order,
        Size { w: 200, h: 200 },
        0,
        bin_dimension::BOTH,
    );
    assert!(result == PackingResult::Size(Size { w: 100, h: 100 }));
    // the root holds the packing that succeeded
    assert_eq!(root.get_rects_aabb(), Size { w: 100, h: 100 });
}

#[test]
fn bin_for_three_squares_is_small_enough() {
    let order = inputs(&[(50, 50), (50, 50), (50, 50)]);
    let mut root = empty_spaces::new(0, 0);
    let result = best_packing_for_ordering(&mut root, &order, &Size { w: 200, h: 200 }, 0);
    match result {
        PackingResult::Size(bin) => {
            assert!(bin.area() >= 7500);
            assert!(bin.area() <= 15000);
            assert!(bin.area() <= 200 * 200);
            assert_eq!(bin, Size { w: 100, h: 100 });
        },
        PackingResult::Area(_) => panic!("a bin of 200 by 200 holds three squares of 50"),
    }
}

#[test]
fn search_fails_with_the_area_placed() {
    let mut root = empty_spaces::new(0, 0);
    let order = inputs(&[(300, 300)]);
    let result = best_packing_for_ordering(&mut root, &order, &Size { w: 200, h: 200 }, 0);
    assert!(result == PackingResult::Area(0));
    let order = inputs(&[(100, 100), (300, 300)]);
    let result = best_packing_for_ordering(&mut root, &order, &Size { w: 200, h: 200 }, 0);
    assert!(result == PackingResult::Area(10000));
}

#[test]
fn search_over_the_width_alone() {
    let order = inputs(&[(10, 10), (10, 10)]);
    let mut root = empty_spaces::new(0, 0);
    let result = best_packing_for_ordering_impl(
        &mut root,
        &order,
        Size { w: 64, h: 20 },
        1,
        bin_dimension::WIDTH,
    );
    // 32 fits, 16 fits, 8 does not, 12 fits, 10 fits, 9 does not, 10 fits
    assert!(result == PackingResult::Size(Size { w: 10, h: 20 }));
}

#[test]
fn search_over_the_height_alone() {
    let order = inputs(&[(10, 10), (10, 10)]);
    let mut root = empty_spaces::new(0, 0);
    let result = best_packing_for_ordering_impl(
        &mut root,
        &order,
        Size { w: 20, h: 64 },
        1,
        bin_dimension::HEIGHT,
    );
    assert!(result == PackingResult::Size(Size { w: 20, h: 10 }));
}

#[test]
fn search_stops_early_with_a_larger_discard_step() {
    let order = inputs(&[(10, 10), (10, 10)]);
    let mut root = empty_spaces::new(0, 0);
    let result = best_packing_for_ordering_impl(
        &mut root,
        &order,
        Size { w: 64, h: 20 },
        8,
        bin_dimension::WIDTH,
    );
    // 32 fits with a step of 16, 16 fits with a step of 8
    assert!(result == PackingResult::Size(Size { w: 16, h: 20 }));
}

#[test]
fn search_makes_extra_attempts_for_a_negative_discard_step() {
    let order = inputs(&[(1, 1)]);
    let mut root = empty_spaces::new(0, 0);
    let result = best_packing_for_ordering_impl(
        &mut root,
        &order,
        Size { w: 8, h: 8 },
        -2,
        bin_dimension::WIDTH,
    );
    assert!(result == PackingResult::Size(Size { w: 1, h: 8 }));
}

#[test]
fn search_never_shrinks_below_nothing() {
    let order = inputs(&[]);
    let mut root = empty_spaces::new(0, 0);
    let result = best_packing_for_ordering_impl(
        &mut root,
        &order,
        Size { w: 8, h: 8 },
        -5,
        bin_dimension::WIDTH,
    );
    assert!(result == PackingResult::Size(Size { w: 0, h: 8 }));
    let result = best_packing_for_ordering_impl(
        &mut root,
        &order,
        Size { w: 8, h: 2 },
        1,
        bin_dimension::BOTH,
    );
    assert!(result == PackingResult::Size(Size { w: 2, h: 0 }));
    let result = best_packing_for_ordering_impl(
        &mut root,
        &order,
        Size { w: 8, h: 8 },
        i32::MIN,
        bin_dimension::HEIGHT,
    );
    assert!(result == PackingResult::Size(Size { w: 8, h: 0 }));
}

#[test]
fn search_works_with_any_packer() {
    let order = inputs(&[(50, 50), (50, 50), (50, 50)]);
    let mut root = SplitPacker::new(PackerConfig::default());
    let result = best_packing_for_ordering(&mut root, &order, &Size { w: 200, h: 200 }, 0);
    match result {
        PackingResult::Size(bin) => assert!(bin.area() >= 7500 && bin.area() <= 15000),
        PackingResult::Area(_) => panic!("a bin of 200 by 200 holds three squares of 50"),
    }
}

#[test]
fn best_packing_reports_every_rectangle() {
    let orders = vec![inputs(&[(50, 50), (50, 50), (50, 50)])];
    let config = PackerConfig { max_width: 200, max_height: 200, allow_flipping: false };
    let placed: RefCell<Vec<RectOutput<usize>>> = RefCell::new(Vec::new());
    let refused: RefCell<Vec<usize>> = RefCell::new(Vec::new());
    let aabb = find_best_packing_impl(
        &orders,
        config,
        0,
        |frame| {
            placed.borrow_mut().push(frame);
            true
        },
        |input: &RectInput<usize>| {
            refused.borrow_mut().push(input.key);
            true
        },
    );
    assert_eq!(aabb, Size { w: 100, h: 100 });
    assert!(refused.borrow().is_empty());
    let placed = placed.into_inner();
    assert_eq!(placed.len(), 3);
    assert_eq!(placed[0].rect, Rectf { x: 0, y: 0, w: 50, h: 50, flipped: false });
    assert_eq!(placed[1].rect, Rectf { x: 50, y: 0, w: 50, h: 50, flipped: false });
    assert_eq!(placed[2].rect, Rectf { x: 0, y: 50, w: 50, h: 50, flipped: false });
    assert_eq!(placed.iter().map(|p| p.key).collect::<Vec<_>>(), vec![0, 1, 2]);
    assert!(placed.iter().all(|p| p.atlas == 0));
}

#[test]
fn best_packing_stops_when_a_handler_says_so() {
    let orders = vec![inputs(&[(50, 50), (50, 50), (50, 50)])];
    let config = PackerConfig { max_width: 200, max_height: 200, allow_flipping: false };
    let seen: RefCell<usize> = RefCell::new(0);
    let aabb = find_best_packing_impl(
        &orders,
        config,
        0,
        |_| {
            *seen.borrow_mut() += 1;
            *seen.borrow() < 2
        },
        |_: &RectInput<usize>| true,
    );
    assert_eq!(*seen.borrow(), 2);
    assert_eq!(aabb, Size { w: 100, h: 50 });
}

#[test]
fn best_packing_keeps_the_order_with_the_smaller_bin() {
    // tall first needs a bin of 30 by 30, wide first one of 30 by 20
    let tall_first = inputs(&[(10, 30), (20, 10), (20, 10)]);
    let same = inputs(&[(10, 30), (20, 10), (20, 10)]);
    let orders = vec![tall_first, same];
    let config = PackerConfig { max_width: 64, max_height: 64, allow_flipping: false };
    let placed: RefCell<Vec<RectOutput<usize>>> = RefCell::new(Vec::new());
    let aabb = find_best_packing_impl(
        &orders,
        config,
        1,
        |frame| {
            placed.borrow_mut().push(frame);
            true
        },
        |_: &RectInput<usize>| true,
    );
    let placed = placed.into_inner();
    assert_eq!(placed.len(), 3);
    assert!(aabb.w <= 64 && aabb.h <= 64);
    for (i, a) in placed.iter().enumerate() {
        for b in placed.iter().skip(i + 1) {
            let (a, b) = (a.rect, b.rect);
            assert!(a.x + a.w <= b.x || b.x + b.w <= a.x || a.y + a.h <= b.y || b.y + b.h <= a.y);
        }
    }
}

#[test]
fn best_packing_reports_what_does_not_fit() {
    let orders = vec![inputs(&[(10, 10), (300, 300), (20, 20)])];
    let config = PackerConfig { max_width: 200, max_height: 200, allow_flipping: true };
    let placed: RefCell<Vec<usize>> = RefCell::new(Vec::new());
    let refused: RefCell<Vec<usize>> = RefCell::new(Vec::new());
    let aabb = find_best_packing_impl(
        &orders,
        config,
        0,
        |frame| {
            placed.borrow_mut().push(frame.key);
            true
        },
        |input: &RectInput<usize>| {
            refused.borrow_mut().push(input.key);
            true
        },
    );
    assert_eq!(*placed.borrow(), vec![0, 2]);
    assert_eq!(*refused.borrow(), vec![1]);
    assert!(aabb.w >= 20 && aabb.h >= 20);
}
