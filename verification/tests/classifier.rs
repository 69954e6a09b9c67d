use scan_sheet::boolean_matrix::BooleanMatrix;
use scan_sheet::image::Color;
use scan_sheet::target::{Target, TargetKind};
use scan_sheet::target_mesh::TargetMesh;
use scan_sheet::util::squareness;

#[test]
fn squareness_puts_the_longer_side_first() {
    assert_eq!(squareness(3, 9), (9, 3));
    assert_eq!(squareness(9, 3), (9, 3));
    assert_eq!(squareness(4, 4), (4, 4));
}

#[test]
fn a_ring_is_an_aligner() {
    // a box of 10 by 10 in an image of 100 by 100, filled to 40 of 100
    assert_eq!(TargetKind::classify(0, 9, 0, 9, 40, 100, 100), Some(TargetKind::Aligner));
}

#[test]
fn fullness_of_exactly_two_tenths_is_no_aligner() {
    assert_eq!(TargetKind::classify(0, 9, 0, 9, 20, 100, 100), Some(TargetKind::Debug));
    assert_eq!(TargetKind::classify(0, 9, 0, 9, 21, 100, 100), Some(TargetKind::Aligner));
}

#[test]
fn fullness_of_exactly_six_tenths_is_no_aligner() {
    assert_eq!(TargetKind::classify(0, 9, 0, 9, 60, 100, 100), Some(TargetKind::Debug));
    assert_eq!(TargetKind::classify(0, 9, 0, 9, 59, 100, 100), Some(TargetKind::Aligner));
}

#[test]
fn a_box_twice_as_long_as_wide_is_no_aligner() {
    assert_eq!(TargetKind::classify(0, 19, 0, 9, 80, 100, 100), Some(TargetKind::Debug));
    assert_eq!(TargetKind::classify(0, 18, 0, 9, 76, 100, 100), Some(TargetKind::Aligner));
}

#[test]
fn a_single_pixel_is_kept_in_a_small_image_only() {
    // squareness 1, fullness 1, area 1
    assert_eq!(TargetKind::classify(5, 5, 7, 7, 1, 100, 100), Some(TargetKind::Debug));
    assert_eq!(TargetKind::classify(5, 5, 7, 7, 1, 101, 100), None);
    assert_eq!(TargetKind::classify(0, 0, 0, 0, 1, 1, 1), Some(TargetKind::Debug));
}

#[test]
fn fullness_below_a_tenth_is_noise() {
    assert_eq!(TargetKind::classify(0, 9, 0, 9, 9, 100, 100), None);
    assert_eq!(TargetKind::classify(0, 9, 0, 9, 10, 100, 100), Some(TargetKind::Debug));
}

#[test]
fn a_box_more_than_five_times_as_long_as_wide_is_noise() {
    assert_eq!(TargetKind::classify(0, 24, 0, 4, 125, 100, 100), Some(TargetKind::Debug));
    assert_eq!(TargetKind::classify(0, 25, 0, 4, 130, 100, 100), None);
    assert_eq!(TargetKind::classify(0, 4, 0, 25, 130, 100, 100), None);
}

#[test]
fn bars_lie_flat_or_stand() {
    // 15 by 5 pixels of a 500 by 500 image: three ten-thousandths of it
    assert_eq!(TargetKind::classify(100, 114, 200, 204, 75, 500, 500), Some(TargetKind::HorizontalBar));
    assert_eq!(TargetKind::classify(100, 104, 200, 214, 75, 500, 500), Some(TargetKind::VerticalBar));
}

#[test]
fn the_area_of_a_bar_has_strict_bounds() {
    // one ten-thousandth of 500 by 500 is 25 pixels, five are 125
    assert_eq!(TargetKind::classify(0, 9, 0, 2, 30, 500, 500), Some(TargetKind::HorizontalBar));
    assert_eq!(TargetKind::classify(0, 24, 0, 4, 125, 500, 500), Some(TargetKind::Debug));
    assert_eq!(TargetKind::classify(0, 30, 0, 3, 124, 500, 500), None);
    assert_eq!(TargetKind::classify(0, 30, 0, 3, 124, 500, 501), None);
    // a box of 25 pixels is not more than one ten-thousandth
    assert_eq!(TargetKind::classify(0, 4, 0, 4, 25, 500, 500), Some(TargetKind::Debug));
    // 62 by 2 is too long; 20 by 6 = 120 pixels is a bar
    assert_eq!(TargetKind::classify(0, 19, 0, 5, 120, 500, 500), Some(TargetKind::HorizontalBar));
    // 21 by 6 = 126 pixels is more than five ten-thousandths
    assert_eq!(TargetKind::classify(0, 20, 0, 5, 126, 500, 500), Some(TargetKind::Debug));
}

#[test]
fn what_looks_like_a_ring_and_a_bar_is_dropped() {
    assert_eq!(TargetKind::classify(0, 8, 0, 5, 25, 500, 500), None);
    // filled to more than six tenths it is a bar only
    assert_eq!(TargetKind::classify(0, 8, 0, 5, 40, 500, 500), Some(TargetKind::HorizontalBar));
}

#[test]
fn the_same_blob_is_always_classified_the_same() {
    for _ in 0..3 {
        assert_eq!(TargetKind::classify(3, 17, 4, 8, 70, 500, 500), Some(TargetKind::HorizontalBar));
    }
}

#[test]
fn a_target_keeps_its_measurements() {
    let target = Target::new(10, 24, 20, 24, 75, 17, 22, 500, 500).unwrap();
    assert_eq!(target.kind, TargetKind::HorizontalBar);
    assert_eq!((target.left, target.right, target.top, target.bottom), (10, 24, 20, 24));
    assert_eq!((target.mean_x, target.mean_y, target.pixels_filled), (17, 22, 75));
    assert_eq!((target.image_base, target.image_height), (500, 500));
    assert!(target.is_bar());
    assert!(!target.is_aligner());
    assert_eq!(target.get_color(), Color::cyan());
    assert_eq!(Target::new(0, 9, 0, 9, 9, 4, 4, 100, 100), None);
}

#[test]
fn the_center_of_a_target_is_the_middle_of_its_box() {
    let target = Target::new(10, 24, 20, 24, 75, 17, 22, 500, 500).unwrap();
    // (10 + 24) / 2 / 500 of 7000 units, (20 + 24) / 2 / 500 of 7000 units
    assert_eq!(target.center_position(), (238, 308));
    let odd = Target::new(0, 2, 0, 0, 3, 1, 0, 3, 3).unwrap();
    // (0 + 2) / 2 / 3 of 7000 is 2333 and a third; (0 + 0) / 2 / 3 is 0
    assert_eq!(odd.center_position(), (2333, 0));
}

#[test]
fn kinds_have_their_colors() {
    assert_eq!(TargetKind::HorizontalBar.get_color(), Color::cyan());
    assert_eq!(TargetKind::VerticalBar.get_color(), Color::blue());
    assert_eq!(TargetKind::Aligner.get_color(), Color::red());
    assert_eq!(TargetKind::Debug.get_color(), Color::green());
}

#[test]
fn a_mesh_holds_what_the_classifier_keeps() {
    // 100 by 100: a ring-like blob of 10 by 10 with 40 pixels, and one pixel of noise-free debris
    let mut mask = BooleanMatrix::all_false(100, 100);
    for y in 10..20 {
        for x in 10..14 {
            mask.set(x, y);
        }
    }
    for x in 14..20 {
        mask.set(x, 10);
    }
    mask.set(50, 50);
    let mesh = TargetMesh::from_matrix(&mask);
    assert_eq!(mesh.targets.len(), 2);
    assert_eq!(mesh.targets[0].kind, TargetKind::Aligner);
    assert_eq!(mesh.targets[0].pixels_filled, 46);
    assert_eq!(mesh.targets[1].kind, TargetKind::Debug);
    for t in mesh.targets.iter() {
        assert!(t.left <= t.mean_x && t.mean_x <= t.right && t.right < t.image_base);
        assert!(t.top <= t.mean_y && t.mean_y <= t.bottom && t.bottom < t.image_height);
        assert!(0 < t.pixels_filled && t.pixels_filled <= t.image_base * t.image_height);
    }
    assert_eq!(mesh.get_bar_centers(), vec![]);
}

#[test]
fn noise_leaves_no_gap_in_a_mesh() {
    // 200 by 100 = 20000 pixels: a single pixel is less than a ten-thousandth
    let mut mask = BooleanMatrix::all_false(200, 100);
    mask.set(3, 3);
    for y in 20..30 {
        for x in 20..24 {
            mask.set(x, y);
        }
    }
    let mesh = TargetMesh::from_matrix(&mask);
    assert_eq!(mesh.targets.len(), 1);
    assert_eq!((mesh.targets[0].left, mesh.targets[0].top), (20, 20));
}
