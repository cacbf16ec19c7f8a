use war_analyzer::overlay::{anchored_position, swap_red_and_blue, Anchor};

#[test]
fn anchors_the_badge_inside_the_frame() {
    assert_eq!(anchored_position(32, 32, 12, 12, 2, Anchor::TopLeft), (2, 2));
    assert_eq!(anchored_position(32, 32, 12, 12, 2, Anchor::TopRight), (18, 2));
    assert_eq!(anchored_position(32, 32, 12, 12, 2, Anchor::BottomLeft), (2, 18));
    assert_eq!(anchored_position(32, 32, 12, 12, 2, Anchor::BottomRight), (18, 18));
    assert_eq!(anchored_position(32, 32, 12, 12, 2, Anchor::Center), (10, 10));
}

#[test]
fn shrinks_the_margin_where_the_frame_is_small() {
    assert_eq!(anchored_position(16, 16, 15, 10, 4, Anchor::TopLeft), (1, 4));
    assert_eq!(anchored_position(16, 16, 15, 10, 4, Anchor::BottomRight), (0, 2));
    assert_eq!(anchored_position(8, 8, 20, 20, 1, Anchor::BottomRight), (0, 0));
    assert_eq!(anchored_position(8, 8, 20, 20, 1, Anchor::Center), (0, 0));
}

#[test]
fn swaps_red_and_blue_of_whole_pixels() {
    assert_eq!(swap_red_and_blue(&[1, 2, 3, 4, 5, 6, 7, 8, 9]), vec![3, 2, 1, 4, 7, 6, 5, 8]);
    assert_eq!(swap_red_and_blue(&[]), Vec::<u8>::new());
}
