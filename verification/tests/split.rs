use rect_packer::split_packer::{find_space, insert_and_split, Splits};
use rect_packer::{Packer, PackerConfig, Rect, Rectf, Size, SplitPacker};

fn parts(s: &Splits) -> Vec<Rect> {
    assert!(s.is_valid());
    (0..s.len()).map(|i| s.get(i)).collect()
}

#[test]
fn split_that_does_not_fit_fails() {
    let space = Rect::new(0, 0, 30, 40);
    assert!(!insert_and_split(31, 40, space).is_valid());
    assert!(!insert_and_split(30, 41, space).is_valid());
}

#[test]
fn split_exact_fit_leaves_nothing() {
    let s = insert_and_split(30, 40, Rect::new(5, 6, 30, 40));
    assert_eq!(parts(&s), vec![]);
}

#[test]
fn split_with_one_matching_side_leaves_one_strip() {
    let s = insert_and_split(20, 40, Rect::new(5, 6, 30, 40));
    assert_eq!(parts(&s), vec![Rect::new(25, 6, 10, 40)]);
    let s = insert_and_split(30, 15, Rect::new(5, 6, 30, 40));
    assert_eq!(parts(&s), vec![Rect::new(5, 21, 30, 25)]);
}

#[test]
fn split_with_more_width_left_keeps_the_full_height_on_the_right() {
    let s = insert_and_split(10, 30, Rect::new(0, 0, 100, 40));
    assert_eq!(parts(&s), vec![Rect::new(10, 0, 90, 40), Rect::new(0, 30, 10, 10)]);
}

#[test]
fn split_with_more_height_left_keeps_the_full_width_below() {
    let s = insert_and_split(30, 10, Rect::new(0, 0, 40, 100));
    assert_eq!(parts(&s), vec![Rect::new(0, 10, 40, 90), Rect::new(30, 0, 10, 10)]);
}

#[test]
fn split_with_as_much_left_either_way_keeps_the_full_width_below() {
    let s = insert_and_split(60, 60, Rect::new(0, 0, 100, 100));
    assert_eq!(parts(&s), vec![Rect::new(0, 60, 100, 40), Rect::new(60, 0, 40, 60)]);
}

#[test]
fn splits_with_fewer_spaces_are_better() {
    let failed = Splits::failed();
    let none = Splits::none();
    let one = Splits::one(Rect::new(0, 0, 1, 1));
    let two = Splits::two(Rect::new(0, 0, 1, 1), Rect::new(1, 0, 1, 1));
    assert!(!failed.is_valid());
    assert!(none.is_valid() && one.is_valid() && two.is_valid());
    assert!(none.better_than(&one));
    assert!(one.better_than(&two));
    assert!(two.better_than(&failed));
    assert!(!one.better_than(&one));
    assert!(!two.better_than(&one));
    assert!(!failed.better_than(&two));
    assert!(!failed.better_than(&failed));
    assert_eq!(one.len(), 1);
    assert_eq!(two.get(1), Rect::new(1, 0, 1, 1));
}

#[test]
fn find_space_takes_the_last_space_that_fits() {
    let spaces = vec![Rect::new(0, 0, 10, 10), Rect::new(10, 0, 10, 10), Rect::new(20, 0, 5, 5)];
    let (index, splits, flipped) = find_space(&spaces, 6, 6, false).unwrap();
    assert_eq!(index, 1);
    assert!(!flipped);
    assert_eq!(parts(&splits), vec![Rect::new(10, 6, 10, 4), Rect::new(16, 0, 4, 6)]);
    assert!(find_space(&spaces, 11, 1, true).is_none());
}

#[test]
fn find_space_flips_only_for_fewer_spaces() {
    let spaces = vec![Rect::new(0, 0, 4, 8)];
    // as asked it does not fit, flipped it fits exactly
    let (_, splits, flipped) = find_space(&spaces, 8, 4, true).unwrap();
    assert!(flipped);
    assert_eq!(splits.len(), 0);
    assert!(find_space(&spaces, 8, 4, false).is_none());
    // both ways leave two spaces: as asked wins
    let spaces = vec![Rect::new(0, 0, 10, 10)];
    let (_, _, flipped) = find_space(&spaces, 2, 3, true).unwrap();
    assert!(!flipped);
    // as asked leaves two spaces, flipped leaves one
    let spaces = vec![Rect::new(0, 0, 10, 3)];
    let (_, splits, flipped) = find_space(&spaces, 3, 2, true).unwrap();
    assert!(flipped);
    assert_eq!(parts(&splits), vec![Rect::new(2, 0, 8, 3)]);
}

#[test]
fn split_packer_second_large_rectangle_does_not_fit() {
    let mut p = SplitPacker::new(
        PackerConfig { max_width: 100, max_height: 100, allow_flipping: false },
    );
    assert_eq!(p.insert(60, 60), Some(Rectf { x: 0, y: 0, w: 60, h: 60, flipped: false }));
    assert_eq!(p.insert(60, 60), None);
    assert_eq!(p.used_area(), Size { w: 60, h: 60 });
}

#[test]
fn split_packer_covers_the_whole_atlas() {
    let mut p = SplitPacker::new(
        PackerConfig { max_width: 30, max_height: 70, allow_flipping: false },
    );
    assert_eq!(p.insert(30, 70), Some(Rectf { x: 0, y: 0, w: 30, h: 70, flipped: false }));
    assert_eq!(p.insert(1, 1), None);
}

#[test]
fn split_packer_tries_the_newest_space_first() {
    let mut p = SplitPacker::new(
        PackerConfig { max_width: 100, max_height: 100, allow_flipping: false },
    );
    // leaves (0,60,100,40) and then (60,0,40,60)
    assert_eq!(p.insert(60, 60), Some(Rectf { x: 0, y: 0, w: 60, h: 60, flipped: false }));
    // fits both: the newer one is taken
    assert_eq!(p.insert(10, 10), Some(Rectf { x: 60, y: 0, w: 10, h: 10, flipped: false }));
    // the newest is now (70,0,30,10), then (60,10,40,50), then (0,60,100,40)
    assert_eq!(p.insert(35, 20), Some(Rectf { x: 60, y: 10, w: 35, h: 20, flipped: false }));
    assert_eq!(p.insert(100, 40), Some(Rectf { x: 0, y: 60, w: 100, h: 40, flipped: false }));
    assert_eq!(p.used_area(), Size { w: 100, h: 100 });
}

#[test]
fn split_packer_flips_where_only_that_fits() {
    let mut p = SplitPacker::new(
        PackerConfig { max_width: 10, max_height: 4, allow_flipping: true },
    );
    assert_eq!(p.insert(4, 10), Some(Rectf { x: 0, y: 0, w: 10, h: 4, flipped: true }));
    let mut q = SplitPacker::new(
        PackerConfig { max_width: 10, max_height: 4, allow_flipping: false },
    );
    assert_eq!(q.insert(4, 10), None);
}

#[test]
fn split_packer_refuses_zero_sized_requests() {
    let mut p = SplitPacker::new(PackerConfig::default());
    assert_eq!(p.insert(0, 1), None);
    assert_eq!(p.insert(1, 0), None);
    assert_eq!(p.used_area(), Size { w: 0, h: 0 });
}

#[test]
fn split_packer_reset_clears_and_resizes() {
    let mut p = SplitPacker::new(
        PackerConfig { max_width: 100, max_height: 100, allow_flipping: false },
    );
    p.insert(60, 60);
    p.reset(None);
    assert_eq!(p.used_area(), Size { w: 0, h: 0 });
    assert_eq!(p.insert(100, 100), Some(Rectf { x: 0, y: 0, w: 100, h: 100, flipped: false }));
    p.reset(Some(Size { w: 10, h: 20 }));
    assert_eq!(p.insert(11, 20), None);
    assert_eq!(p.insert(10, 20), Some(Rectf { x: 0, y: 0, w: 10, h: 20, flipped: false }));
}

#[test]
fn split_packer_reset_replays_the_same_placements() {
    let requests = [(30u32, 20u32), (80, 10), (20, 30), (200, 1), (50, 50), (10, 70), (25, 25)];
    let mut p = SplitPacker::new(
        PackerConfig { max_width: 100, max_height: 100, allow_flipping: true },
    );
    let first: Vec<Option<Rectf>> = requests.iter().map(|r| p.insert(r.0, r.1)).collect();
    p.reset(None);
    let second: Vec<Option<Rectf>> = requests.iter().map(|r| p.insert(r.0, r.1)).collect();
    assert_eq!(first, second);
    assert!(first.iter().any(|r| r.is_some()));
}
