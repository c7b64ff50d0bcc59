use rect_packer::sort::sort_inputs;
use rect_packer::{
    pack, try_pack, PackerConfig, RectInput, RectOutput, RectSort, Rectf, Size, SkylinePacker,
    SplitPacker, StripPacker, RECT_SORT_FUNCTIONS,
};

fn inputs(sizes: &[(u32, u32)]) -> Vec<RectInput<char>> {
    sizes
        .iter()
        .zip("ABCDEFGHIJKLMNOPQRSTUVWXYZ".chars())
        .map(|(s, key)| RectInput { size: Size { w: s.0, h: s.1 }, key })
        .collect()
}

fn keys(items: &[RectInput<char>]) -> String {
    items.iter().map(|i| i.key).collect()
}

fn sorted_keys(sizes: &[(u32, u32)], by: RectSort) -> String {
    let mut items = inputs(sizes);
    sort_inputs(&mut items, by);
    keys(&items)
}

const SIZES: [(u32, u32); 4] = [(10, 10), (20, 2), (5, 30), (10, 10)];

#[test]
fn six_orders_in_their_order() {
    assert_eq!(
        RECT_SORT_FUNCTIONS,
        [
            RectSort::Area,
            RectSort::Perimeter,
            RectSort::LongerSide,
            RectSort::Width,
            RectSort::Height,
            RectSort::Pathological,
        ]
    );
}

#[test]
fn sort_by_area_keeps_equals_in_order() {
    assert_eq!(sorted_keys(&SIZES, RectSort::Area), "CADB");
}

#[test]
fn sort_by_perimeter() {
    assert_eq!(sorted_keys(&SIZES, RectSort::Perimeter), "CBAD");
}

#[test]
fn sort_by_longer_side() {
    assert_eq!(sorted_keys(&SIZES, RectSort::LongerSide), "CBAD");
}

#[test]
fn sort_by_width() {
    assert_eq!(sorted_keys(&SIZES, RectSort::Width), "BADC");
}

#[test]
fn sort_by_height() {
    assert_eq!(sorted_keys(&SIZES, RectSort::Height), "CADB");
}

#[test]
fn sort_by_weighted_area() {
    // 1 * 100, 10 * 40, 6 * 150, 1 * 100
    assert_eq!(sorted_keys(&SIZES, RectSort::Pathological), "CBAD");
}

#[test]
fn weighted_area_is_compared_exactly() {
    let big = Size { w: u32::MAX, h: u32::MAX - 1 };
    let bigger = Size { w: u32::MAX, h: u32::MAX };
    assert!(RectSort::Area.precedes(bigger, big));
    // the thinner of the two has the larger weighted area here
    let thin = Size { w: 3, h: 1 };
    let square = Size { w: 2, h: 2 };
    assert!(RectSort::Pathological.precedes(thin, square));
    assert!(!RectSort::Pathological.precedes(square, thin));
    assert!(!RectSort::Pathological.precedes(thin, thin));
    // a size without an area comes neither before nor after
    let flat = Size { w: 7, h: 0 };
    assert!(!RectSort::Pathological.precedes(flat, thin));
    assert!(!RectSort::Pathological.precedes(thin, flat));
}

#[test]
fn sort_of_nothing_and_of_one() {
    let mut none: Vec<RectInput<char>> = Vec::new();
    sort_inputs(&mut none, RectSort::Area);
    assert!(none.is_empty());
    assert_eq!(sorted_keys(&[(1, 2)], RectSort::Width), "A");
}

#[test]
fn sort_of_a_rising_sequence_reverses_it() {
    let sizes: Vec<(u32, u32)> = (1..=20).map(|i| (i, 1)).collect();
    assert_eq!(sorted_keys(&sizes, RectSort::Width), "TSRQPONMLKJIHGFEDCBA");
}

fn strip(w: u32, h: u32) -> StripPacker {
    StripPacker::new(PackerConfig { max_width: w, max_height: h, allow_flipping: false })
}

#[test]
fn pack_opens_a_second_atlas() {
    let mut items = inputs(&[(6, 5), (6, 5), (6, 5)]);
    let output = pack(&mut items, strip(10, 10));
    assert_eq!(output.len(), 3);
    assert_eq!(output[0].rect, Rectf { x: 0, y: 0, w: 6, h: 5, flipped: false });
    assert_eq!(output[1].rect, Rectf { x: 0, y: 5, w: 6, h: 5, flipped: false });
    assert_eq!(output[2].rect, Rectf { x: 0, y: 0, w: 6, h: 5, flipped: false });
    assert_eq!(output.iter().map(|o| o.atlas).collect::<Vec<_>>(), vec![0, 0, 1]);
    assert_eq!(output.iter().map(|o| o.key).collect::<String>(), "ABC");
    assert_eq!(keys(&items), "ABC");
}

#[test]
fn pack_retries_the_refused_rectangle_in_the_new_atlas() {
    let mut items = inputs(&[(10, 6), (10, 5), (10, 4)]);
    let output = pack(&mut items, strip(10, 10));
    // every order is 6, 5, 4: the 5 opens the second atlas and the 4 joins it
    assert_eq!(output.iter().map(|o| o.key).collect::<String>(), "ABC");
    assert_eq!(output.iter().map(|o| o.atlas).collect::<Vec<_>>(), vec![0, 1, 1]);
    assert_eq!(output[1].rect, Rectf { x: 0, y: 0, w: 10, h: 5, flipped: false });
    assert_eq!(output[2].rect, Rectf { x: 0, y: 5, w: 10, h: 4, flipped: false });
}

#[test]
fn pack_keeps_the_order_that_uses_the_least_area() {
    // In a strip of 10 by 10:
    //   by area and by height the order is B (4x9), A (6x2), C (9x1): A joins the row
    //   of B and C starts a row at 9, which uses 10x10 = 100;
    //   by perimeter, by the longer side and by weighted area it is B, C, A: C starts
    //   a row at 9 and A opens a second atlas, which uses 9x10 + 6x2 = 102;
    //   by width it is C, A, B, which uses 10x10 = 100 again.
    // The first order is kept.
    let mut items = inputs(&[(6, 2), (4, 9), (9, 1)]);
    let output = pack(&mut items, strip(10, 10));
    assert_eq!(output.iter().map(|o| o.key).collect::<String>(), "BAC");
    assert_eq!(output.iter().map(|o| o.atlas).collect::<Vec<_>>(), vec![0, 0, 0]);
    assert_eq!(output[0].rect, Rectf { x: 0, y: 0, w: 4, h: 9, flipped: false });
    assert_eq!(output[1].rect, Rectf { x: 4, y: 0, w: 6, h: 2, flipped: false });
    assert_eq!(output[2].rect, Rectf { x: 0, y: 9, w: 9, h: 1, flipped: false });
}

#[test]
fn pack_replaces_the_best_order_only_for_less_area() {
    // In a strip of 12 by 10:
    //   by area, by perimeter and by height the order is A (5x5), B (6x4), C (7x1):
    //   A at (0,0), B at (5,0), C in the next row at (0,5), which uses 11x6 = 66;
    //   by the longer side, by width and by weighted area it is C, B, A: C at (0,0),
    //   B in the next row at (0,1), A at (6,1), which uses 11x6 = 66 as well.
    // An order that uses as much does not replace the first.
    let mut items = inputs(&[(5, 5), (6, 4), (7, 1)]);
    let output = pack(&mut items, strip(12, 10));
    assert_eq!(output.iter().map(|o| o.key).collect::<String>(), "ABC");
    assert_eq!(output[2].rect, Rectf { x: 0, y: 5, w: 7, h: 1, flipped: false });
}

#[test]
fn pack_takes_a_later_order_that_uses_less_area() {
    // In a strip of 10 by 10:
    //   by area and by perimeter the order is B (4x9), C (10x1), A (3x3): C starts a
    //   row at 9 and A opens a second atlas, which uses 10x10 + 3x3 = 109;
    //   by the longer side it is C, B, A: C at (0,0), B in the next row at (0,1),
    //   A beside it at (4,1), which uses 10x10 = 100.
    // No later order uses less than that.
    let mut items = inputs(&[(3, 3), (4, 9), (10, 1)]);
    let output = pack(&mut items, strip(10, 10));
    assert_eq!(output.iter().map(|o| o.key).collect::<String>(), "CBA");
    assert_eq!(output.iter().map(|o| o.atlas).collect::<Vec<_>>(), vec![0, 0, 0]);
    assert_eq!(output[0].rect, Rectf { x: 0, y: 0, w: 10, h: 1, flipped: false });
    assert_eq!(output[1].rect, Rectf { x: 0, y: 1, w: 4, h: 9, flipped: false });
    assert_eq!(output[2].rect, Rectf { x: 4, y: 1, w: 3, h: 3, flipped: false });
}

#[test]
fn pack_leaves_the_input_in_the_last_order() {
    let mut items = inputs(&SIZES);
    let output = pack(&mut items, SkylinePacker::new(PackerConfig::default()));
    assert_eq!(output.len(), 4);
    // sorted by area, perimeter, longer side, width, height and weighted area in turn
    assert_eq!(keys(&items), "CBAD");
}

#[test]
fn pack_of_nothing_is_nothing() {
    let mut items: Vec<RectInput<char>> = Vec::new();
    let output = pack(&mut items, SplitPacker::new(PackerConfig::default()));
    assert!(output.is_empty());
}

#[test]
fn try_pack_fails_for_what_no_atlas_takes() {
    let mut items = inputs(&[(5, 5), (11, 1), (3, 3)]);
    assert!(try_pack(&mut items, strip(10, 10)).is_none());
    let mut items = inputs(&[(5, 5), (0, 1)]);
    let config = PackerConfig { max_width: 10, max_height: 10, allow_flipping: true };
    assert!(try_pack(&mut items, SplitPacker::new(config)).is_none());
    assert!(try_pack(&mut items, SkylinePacker::new(config)).is_none());
    let mut items = inputs(&[(11, 11)]);
    assert!(try_pack(&mut items, SkylinePacker::new(config)).is_none());
}

#[test]
fn try_pack_succeeds_where_flipping_helps() {
    let config = PackerConfig { max_width: 10, max_height: 4, allow_flipping: true };
    let mut items = inputs(&[(4, 10)]);
    let output = try_pack(&mut items, SkylinePacker::new(config)).unwrap();
    assert_eq!(output[0].rect, Rectf { x: 0, y: 0, w: 10, h: 4, flipped: true });
    let output = try_pack(&mut items, SplitPacker::new(config)).unwrap();
    assert_eq!(output[0].rect, Rectf { x: 0, y: 0, w: 10, h: 4, flipped: true });
    assert!(try_pack(&mut items, StripPacker::new(config)).is_none());
}

fn check_well_packed(
    output: &[RectOutput<char>],
    unsorted: &[RectInput<char>],
    config: PackerConfig,
) {
    assert_eq!(output.len(), unsorted.len());
    let mut seen: Vec<char> = output.iter().map(|o| o.key).collect();
    let mut expected: Vec<char> = unsorted.iter().map(|i| i.key).collect();
    seen.sort();
    expected.sort();
    assert_eq!(seen, expected);
    assert_eq!(output[0].atlas, 0);
    for pair in output.windows(2) {
        assert!(pair[1].atlas == pair[0].atlas || pair[1].atlas == pair[0].atlas + 1);
    }
    for o in output {
        let asked = unsorted.iter().find(|i| i.key == o.key).unwrap().size;
        if o.rect.flipped {
            assert!(config.allow_flipping);
            assert_eq!((o.rect.w, o.rect.h), (asked.h, asked.w));
        } else {
            assert_eq!((o.rect.w, o.rect.h), (asked.w, asked.h));
        }
        assert!(o.rect.x + o.rect.w <= config.max_width);
        assert!(o.rect.y + o.rect.h <= config.max_height);
    }
    for (i, a) in output.iter().enumerate() {
        for b in output.iter().skip(i + 1) {
            if a.atlas == b.atlas {
                let (a, b) = (a.rect, b.rect);
                assert!(
                    a.x + a.w <= b.x || b.x + b.w <= a.x || a.y + a.h <= b.y || b.y + b.h <= a.y
                );
            }
        }
    }
}

const MANY: [(u32, u32); 20] = [
    (30, 20), (80, 10), (20, 30), (50, 50), (10, 70), (25, 25), (5, 5), (40, 3), (3, 40),
    (17, 19), (60, 8), (8, 60), (33, 33), (12, 12), (64, 64), (1, 1), (99, 2), (2, 99),
    (45, 45), (70, 70),
];

#[test]
fn pack_with_the_skyline_packer_is_well_packed() {
    let config = PackerConfig { max_width: 100, max_height: 100, allow_flipping: true };
    let unsorted = inputs(&MANY);
    let mut items = unsorted.clone();
    let output = pack(&mut items, SkylinePacker::new(config));
    check_well_packed(&output, &unsorted, config);
    assert!(output.last().unwrap().atlas >= 1);
}

#[test]
fn pack_with_the_split_packer_is_well_packed() {
    let config = PackerConfig { max_width: 100, max_height: 100, allow_flipping: true };
    let unsorted = inputs(&MANY);
    let mut items = unsorted.clone();
    let output = pack(&mut items, SplitPacker::new(config));
    check_well_packed(&output, &unsorted, config);
    let config = PackerConfig { max_width: 100, max_height: 100, allow_flipping: false };
    let mut items = unsorted.clone();
    let output = pack(&mut items, SplitPacker::new(config));
    check_well_packed(&output, &unsorted, config);
}

#[test]
fn pack_with_the_strip_packer_is_well_packed() {
    let config = PackerConfig { max_width: 100, max_height: 100, allow_flipping: false };
    let unsorted = inputs(&MANY);
    let mut items = unsorted.clone();
    let output = pack(&mut items, StripPacker::new(config));
    check_well_packed(&output, &unsorted, config);
}

#[test]
fn pack_does_not_depend_on_what_the_packer_held() {
    let config = PackerConfig { max_width: 100, max_height: 100, allow_flipping: true };
    let unsorted = inputs(&MANY);
    let mut items = unsorted.clone();
    let first = pack(&mut items, SkylinePacker::new(config));
    let mut used = SkylinePacker::new(config);
    rect_packer::Packer::insert(&mut used, 90, 90);
    let mut items = unsorted.clone();
    let second = pack(&mut items, used);
    let rects = |o: &Vec<RectOutput<char>>| -> Vec<(Rectf, usize, char)> {
        o.iter().map(|o| (o.rect, o.atlas, o.key)).collect()
    };
    assert_eq!(rects(&first), rects(&second));
}
