use rect_packer::{Packer, PackerConfig, Rectf, Size, StripPacker};

fn strip(w: u32, h: u32) -> StripPacker {
    StripPacker::new(PackerConfig { max_width: w, max_height: h, allow_flipping: false })
}

#[test]
fn strip_wraps_to_a_new_row_and_overflows() {
    let mut p = strip(50, 10);
    assert_eq!(p.insert(20, 5), Some(Rectf { x: 0, y: 0, w: 20, h: 5, flipped: false }));
    assert_eq!(p.insert(20, 5), Some(Rectf { x: 20, y: 0, w: 20, h: 5, flipped: false }));
    assert_eq!(p.insert(20, 5), Some(Rectf { x: 0, y: 5, w: 20, h: 5, flipped: false }));
    assert!(!p.overflowed());
    assert_eq!(p.insert(40, 5), None);
    assert!(p.overflowed());
    let ratio = if p.overflowed() {
        1.0
    } else {
        p.filled_height() as f32 / p.config().max_height as f32
    };
    assert_eq!(ratio, 1.0);
}

#[test]
fn strip_refusal_moves_nothing() {
    let mut p = strip(50, 10);
    p.insert(20, 5);
    p.insert(20, 5);
    p.insert(20, 5);
    assert_eq!(p.cursor(), [20, 5]);
    assert_eq!(p.insert(40, 5), None);
    assert_eq!(p.cursor(), [20, 5]);
    assert_eq!(p.filled_height(), 10);
    assert_eq!(p.used_area(), Size { w: 40, h: 10 });
    assert_eq!(p.insert(30, 5), Some(Rectf { x: 20, y: 5, w: 30, h: 5, flipped: false }));
}

#[test]
fn strip_refuses_what_is_wider_than_the_atlas_without_overflow() {
    let mut p = strip(50, 10);
    assert_eq!(p.insert(51, 1), None);
    assert!(!p.overflowed());
    assert_eq!(p.cursor(), [0, 0]);
}

#[test]
fn strip_refuses_zero_sized_requests() {
    let mut p = strip(50, 10);
    assert_eq!(p.insert(0, 5), None);
    assert_eq!(p.insert(5, 0), None);
    assert_eq!(p.insert(0, 0), None);
    assert!(!p.overflowed());
}

#[test]
fn strip_with_an_empty_atlas_accepts_nothing() {
    let mut p = strip(0, 10);
    assert_eq!(p.insert(1, 1), None);
    let mut q = strip(10, 0);
    assert_eq!(q.insert(1, 1), None);
    assert!(q.overflowed());
}

#[test]
fn strip_never_flips() {
    let mut p = StripPacker::new(
        PackerConfig { max_width: 10, max_height: 2, allow_flipping: true },
    );
    assert_eq!(p.insert(2, 10), None);
    assert_eq!(p.insert(10, 2), Some(Rectf { x: 0, y: 0, w: 10, h: 2, flipped: false }));
}

#[test]
fn strip_row_height_is_that_of_the_tallest() {
    let mut p = strip(10, 20);
    assert_eq!(p.insert(4, 3), Some(Rectf { x: 0, y: 0, w: 4, h: 3, flipped: false }));
    assert_eq!(p.insert(4, 7), Some(Rectf { x: 4, y: 0, w: 4, h: 7, flipped: false }));
    assert_eq!(p.filled_height(), 7);
    assert_eq!(p.insert(4, 2), Some(Rectf { x: 0, y: 7, w: 4, h: 2, flipped: false }));
    assert_eq!(p.filled_height(), 9);
    assert_eq!(p.used_area(), Size { w: 8, h: 9 });
}

#[test]
fn strip_reset_clears_and_resizes() {
    let mut p = strip(50, 10);
    p.insert(20, 5);
    p.insert(40, 10);
    assert!(p.overflowed());
    p.reset(None);
    assert!(!p.overflowed());
    assert_eq!(p.cursor(), [0, 0]);
    assert_eq!(p.used_area(), Size { w: 0, h: 0 });
    assert_eq!(p.config().max_width, 50);
    p.reset(Some(Size { w: 30, h: 40 }));
    assert_eq!(p.config().max_width, 30);
    assert_eq!(p.config().max_height, 40);
    assert_eq!(p.insert(30, 40), Some(Rectf { x: 0, y: 0, w: 30, h: 40, flipped: false }));
}

#[test]
fn strip_reset_replays_the_same_placements() {
    let requests = [(20u32, 5u32), (20, 5), (60, 1), (20, 5), (40, 5), (10, 5)];
    let mut p = strip(50, 10);
    let first: Vec<Option<Rectf>> = requests.iter().map(|r| p.insert(r.0, r.1)).collect();
    p.reset(None);
    let second: Vec<Option<Rectf>> = requests.iter().map(|r| p.insert(r.0, r.1)).collect();
    assert_eq!(first, second);
}

#[test]
fn strip_clone_goes_on_from_the_same_state() {
    let mut p = strip(50, 10);
    p.insert(20, 5);
    let mut q = p.clone();
    assert_eq!(p.insert(20, 5), q.insert(20, 5));
    assert_eq!(p.cursor(), q.cursor());
    assert_eq!(q.used_area(), Size { w: 40, h: 5 });
}
