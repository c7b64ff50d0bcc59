use rect_packer::{PackerConfig, Rect, Rectf, Size};

#[test]
fn default_config_is_1024_square_with_flipping() {
    let config = PackerConfig::default();
    assert_eq!(config.max_width, 1024);
    assert_eq!(config.max_height, 1024);
    assert!(config.allow_flipping);
}

#[test]
fn rect_new_keeps_its_arguments() {
    let r = Rect::new(1, 2, 3, 4);
    assert_eq!(r, Rect { x: 1, y: 2, w: 3, h: 4 });
}

#[test]
fn rect_area_is_widened() {
    let r = Rect::new(0, 0, u32::MAX, u32::MAX);
    assert_eq!(r.area(), 18446744065119617025u64);
    assert_eq!(Rect::new(5, 6, 7, 3).area(), 21);
}

#[test]
fn rect_size_drops_the_position() {
    assert_eq!(Rect::new(9, 8, 7, 6).size(), Size { w: 7, h: 6 });
}

#[test]
fn rect_edges_are_inclusive() {
    let r = Rect::new(10, 20, 5, 7);
    assert_eq!(r.left(), 10);
    assert_eq!(r.top(), 20);
    assert_eq!(r.right(), 14);
    assert_eq!(r.bottom(), 26);
}

#[test]
fn rect_edges_reach_the_end_of_the_range() {
    let r = Rect::new(u32::MAX - 1, u32::MAX - 2, 2, 3);
    assert_eq!(r.right(), u32::MAX);
    assert_eq!(r.bottom(), u32::MAX);
}

#[test]
fn rect_contains_on_all_four_edges() {
    let outer = Rect::new(10, 10, 20, 20);
    assert!(outer.contains(&Rect::new(10, 10, 20, 20)));
    assert!(outer.contains(&Rect::new(15, 12, 5, 18)));
    assert!(!outer.contains(&Rect::new(9, 10, 5, 5)));
    assert!(!outer.contains(&Rect::new(10, 9, 5, 5)));
    assert!(!outer.contains(&Rect::new(26, 10, 5, 5)));
    assert!(!outer.contains(&Rect::new(10, 26, 5, 5)));
}

#[test]
fn rect_contains_does_not_wrap_around() {
    let outer = Rect::new(0, 0, u32::MAX, u32::MAX);
    assert!(!outer.contains(&Rect::new(u32::MAX, 0, 1, 1)));
    assert!(outer.contains(&Rect::new(u32::MAX - 1, u32::MAX - 1, 1, 1)));
}

#[test]
fn rectf_from_rect_and_back() {
    let r = Rectf::from_rect(Rect::new(1, 2, 3, 4), true);
    assert_eq!(r, Rectf { x: 1, y: 2, w: 3, h: 4, flipped: true });
    assert_eq!(r.rect(), Rect::new(1, 2, 3, 4));
}

#[test]
fn size_zero_and_new() {
    assert_eq!(Size::zero(), Size { w: 0, h: 0 });
    assert_eq!(Size::new(3, 4), Size { w: 3, h: 4 });
}

#[test]
fn size_flip_swaps_in_place() {
    let mut s = Size::new(3, 4);
    assert_eq!(*s.flip(), Size { w: 4, h: 3 });
    assert_eq!(s, Size { w: 4, h: 3 });
}

#[test]
fn size_sides() {
    assert_eq!(Size::new(3, 9).max_side(), 9);
    assert_eq!(Size::new(3, 9).min_side(), 3);
    assert_eq!(Size::new(9, 3).max_side(), 9);
    assert_eq!(Size::new(9, 3).min_side(), 3);
    assert_eq!(Size::new(5, 5).max_side(), 5);
    assert_eq!(Size::new(5, 5).min_side(), 5);
}

#[test]
fn size_area_and_perimeter_are_widened() {
    let s = Size::new(u32::MAX, u32::MAX);
    assert_eq!(s.area(), 18446744065119617025u64);
    assert_eq!(s.perimeter(), 17179869180u64);
    assert_eq!(Size::new(3, 4).area(), 12);
    assert_eq!(Size::new(3, 4).perimeter(), 14);
}

#[test]
fn size_expand_with_grows_only() {
    let mut s = Size::new(10, 10);
    s.expand_with(&Rect::new(2, 2, 3, 20));
    assert_eq!(s, Size { w: 10, h: 22 });
    s.expand_with(&Rect::new(8, 0, 5, 1));
    assert_eq!(s, Size { w: 13, h: 22 });
    s.expand_with(&Rect::new(0, 0, 1, 1));
    assert_eq!(s, Size { w: 13, h: 22 });
}
