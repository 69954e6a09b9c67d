use scan_sheet::blob::{neighbors, Blob};
use scan_sheet::boolean_matrix::BooleanMatrix;
use scan_sheet::components::extract_blobs;
use scan_sheet::flood_fill::flood_fill;
use scan_sheet::image::{Color, Image};

fn mask_from_rows(rows: &[&str]) -> BooleanMatrix {
    let height = rows.len();
    let width = if height == 0 { 0 } else { rows[0].len() };
    let mut mask = BooleanMatrix::all_false(width, height);
    for (y, row) in rows.iter().enumerate() {
        for (x, c) in row.chars().enumerate() {
            if c == '#' {
                mask.set(x, y);
            }
        }
    }
    mask
}

fn count_set(mask: &BooleanMatrix) -> usize {
    let (w, h) = mask.base_height();
    let mut n = 0;
    for y in 0..h {
        for x in 0..w {
            if mask.is_set(x, y) {
                n += 1;
            }
        }
    }
    n
}

#[test]
fn a_new_mask_has_nothing_set() {
    let mask = BooleanMatrix::all_false(4, 3);
    assert_eq!(mask.base_height(), (4, 3));
    assert_eq!(count_set(&mask), 0);
}

#[test]
fn setting_a_pixel_sets_that_pixel_only() {
    let mut mask = BooleanMatrix::all_false(4, 3);
    mask.set(3, 0);
    mask.set(0, 1);
    mask.set(3, 0);
    for y in 0..3 {
        for x in 0..4 {
            assert_eq!(mask.is_set(x, y), (x, y) == (3, 0) || (x, y) == (0, 1));
        }
    }
}

#[test]
fn thresholding_keeps_the_pixels_with_every_channel_below() {
    let image = Image::from_fn(3, 1, |x, _| match x {
        0 => Color::from_rgb(109, 109, 109),
        1 => Color::from_rgb(109, 110, 109),
        _ => Color::from_rgb(207, 226, 243),
    });
    let mask = BooleanMatrix::from_image(&image, 110);
    assert_eq!(mask.base_height(), (3, 1));
    assert!(mask.is_set(0, 0));
    assert!(!mask.is_set(1, 0));
    assert!(!mask.is_set(2, 0));
}

#[test]
fn a_mask_is_shown_black_on_white() {
    let mask = mask_from_rows(&["#.", ".#"]);
    let image = mask.as_image();
    assert_eq!(image.base(), 2);
    assert_eq!(image.height(), 2);
    assert_eq!(image.get_color(0, 0), Color::from_rgb(0, 0, 0));
    assert_eq!(image.get_color(1, 0), Color::from_rgb(255, 255, 255));
    assert_eq!(image.get_color(0, 1), Color::from_rgb(255, 255, 255));
    assert_eq!(image.get_color(1, 1), Color::from_rgb(0, 0, 0));
}

#[test]
fn neighbors_are_left_above_right_below() {
    assert_eq!(neighbors(1, 1, 3, 3), vec![(0, 1), (1, 0), (2, 1), (1, 2)]);
    assert_eq!(neighbors(0, 0, 3, 3), vec![(1, 0), (0, 1)]);
    assert_eq!(neighbors(2, 2, 3, 3), vec![(1, 2), (2, 1)]);
    assert_eq!(neighbors(0, 0, 1, 1), vec![]);
    assert_eq!(neighbors(0, 1, 1, 3), vec![(0, 0), (0, 2)]);
}

#[test]
fn flood_fill_measures_one_region() {
    let mask = mask_from_rows(&[
        ".....",
        ".##..",
        ".#...",
        ".#..#",
    ]);
    let mut seen = BooleanMatrix::all_false(5, 4);
    let blob = flood_fill(1, 1, &mask, &mut seen);
    // pixels (1,1) (2,1) (1,2) (1,3): sum x = 5, sum y = 7
    assert_eq!(
        blob,
        Blob { left: 1, right: 2, top: 1, bottom: 3, pixels_filled: 4, mean_x: 1, mean_y: 1 }
    );
    assert_eq!(count_set(&seen), 4);
    assert!(seen.is_set(1, 1) && seen.is_set(2, 1) && seen.is_set(1, 2) && seen.is_set(1, 3));
    assert!(!seen.is_set(4, 3));
}

#[test]
fn flood_fill_does_not_pass_what_was_seen() {
    let mask = mask_from_rows(&["#####"]);
    let mut seen = BooleanMatrix::all_false(5, 1);
    seen.set(2, 0);
    let blob = flood_fill(0, 0, &mask, &mut seen);
    assert_eq!(
        blob,
        Blob { left: 0, right: 1, top: 0, bottom: 0, pixels_filled: 2, mean_x: 0, mean_y: 0 }
    );
    assert!(seen.is_set(0, 0) && seen.is_set(1, 0) && seen.is_set(2, 0));
    assert!(!seen.is_set(3, 0) && !seen.is_set(4, 0));
}

#[test]
fn flood_fill_goes_around_corners() {
    let mask = mask_from_rows(&[
        "#####",
        "....#",
        "###.#",
        "#...#",
        "#####",
    ]);
    let mut seen = BooleanMatrix::all_false(5, 5);
    let blob = flood_fill(0, 2, &mask, &mut seen);
    assert_eq!(blob.pixels_filled, 17);
    assert_eq!((blob.left, blob.right, blob.top, blob.bottom), (0, 4, 0, 4));
    // sum x = 10 + 4 + (0+1+2+4) + (0+4) + 10 = 35, sum y = 0 + 1 + 8 + 6 + 20 = 35
    assert_eq!((blob.mean_x, blob.mean_y), (2, 2));
    assert_eq!(count_set(&seen), 17);
}

#[test]
fn every_region_is_found_once() {
    let mask = mask_from_rows(&[
        "#..#.",
        ".#...",
        "..###",
        "#...#",
    ]);
    let blobs = extract_blobs(&mask);
    assert_eq!(
        blobs,
        vec![
            Blob { left: 0, right: 0, top: 0, bottom: 0, pixels_filled: 1, mean_x: 0, mean_y: 0 },
            Blob { left: 3, right: 3, top: 0, bottom: 0, pixels_filled: 1, mean_x: 3, mean_y: 0 },
            Blob { left: 1, right: 1, top: 1, bottom: 1, pixels_filled: 1, mean_x: 1, mean_y: 1 },
            Blob { left: 2, right: 4, top: 2, bottom: 3, pixels_filled: 4, mean_x: 3, mean_y: 2 },
            Blob { left: 0, right: 0, top: 3, bottom: 3, pixels_filled: 1, mean_x: 0, mean_y: 3 },
        ]
    );
    let total: usize = blobs.iter().map(|b| b.pixels_filled).sum();
    assert_eq!(total, count_set(&mask));
}

#[test]
fn pixels_that_touch_at_a_corner_are_two_regions() {
    let mask = mask_from_rows(&["#.", ".#"]);
    assert_eq!(extract_blobs(&mask).len(), 2);
    let joined = mask_from_rows(&["##", ".#"]);
    assert_eq!(extract_blobs(&joined).len(), 1);
}

#[test]
fn an_empty_mask_has_no_region() {
    assert_eq!(extract_blobs(&BooleanMatrix::all_false(7, 3)), vec![]);
    assert_eq!(extract_blobs(&BooleanMatrix::all_false(0, 0)), vec![]);
}

#[test]
fn a_full_mask_is_one_region() {
    let mask = mask_from_rows(&["####", "####", "####"]);
    assert_eq!(
        extract_blobs(&mask),
        vec![Blob { left: 0, right: 3, top: 0, bottom: 2, pixels_filled: 12, mean_x: 1, mean_y: 1 }]
    );
}

#[test]
fn a_region_that_opens_to_the_left_below_is_met_at_its_first_pixel() {
    let mask = mask_from_rows(&[
        "...#",
        "####",
        "#...",
    ]);
    let blobs = extract_blobs(&mask);
    assert_eq!(blobs.len(), 1);
    assert_eq!(blobs[0].pixels_filled, 6);
    assert_eq!((blobs[0].left, blobs[0].right, blobs[0].top, blobs[0].bottom), (0, 3, 0, 2));
}
