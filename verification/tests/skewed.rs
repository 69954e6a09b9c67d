use rulinalg::matrix::Matrix;
use rulinalg::vector::Vector;
use scan_sheet::bars_found::{aligner_centers, destination_centers, BarsFound, CANONICAL_SIDE};
use scan_sheet::decode::{LayoutResult, LayoutResultOption};
use scan_sheet::image::{Color, Image};
use scan_sheet::perspective_transform::perspective_system;
use scan_sheet::scan_sheet_elements::Shape;
use scan_sheet::scan_sheet_layout::{
    Bar, HighLevelField, HighLevelKind, HighLevelPageDescription, LayoutEntry, PageLayout,
};

/// The matrix of the map that takes the points `src` to the points `dst`,
/// row by row.
fn solve(src: &Vec<(usize, usize)>, dst: &Vec<(u128, u128)>) -> Vec<f64> {
    let (rows, right) = perspective_system(src, dst);
    let a = Matrix::new(8, 8, rows.iter().flatten().map(|&v| v as f64).collect::<Vec<f64>>());
    let b = Vector::new(right.iter().map(|&v| v as f64).collect::<Vec<f64>>());
    let mut m = a.solve(b).unwrap().into_vec();
    m.push(1.0);
    m
}

fn inverse(m: &Vec<f64>) -> Vec<f64> {
    Matrix::new(3, 3, m.clone()).inverse().unwrap().into_vec()
}

fn project(m: &Vec<f64>, x: f64, y: f64) -> (f64, f64) {
    let w = m[6] * x + m[7] * y + m[8];
    ((m[0] * x + m[1] * y + m[2]) / w, (m[3] * x + m[4] * y + m[5]) / w)
}

fn checkbox_and_number() -> PageLayout {
    let description = HighLevelPageDescription {
        document_title: String::from("sheet"),
        fields: vec![
            HighLevelField { kind: HighLevelKind::Boolean, descriptor: String::from("a") },
            HighLevelField { kind: HighLevelKind::SevenSegmentDisplay(2), descriptor: String::from("n") },
        ],
    };
    description.layout()
}

/// The colour of the sheet at a point, in sheet units.
fn sheet_color(layout: &PageLayout, filled: &[Bar], u: f64, v: f64) -> Color {
    let mut color = Color::from_rgb(255, 255, 255);
    if u < 0.0 || v < 0.0 || u >= 7000.0 || v >= 7000.0 {
        return Color::from_rgb(200, 200, 200);
    }
    for element in layout.to_elements().elements.iter() {
        match element.shape() {
            Shape::Ring { cx, cy, outer, inner, fill, hole } => {
                let d = (u - cx as f64) * (u - cx as f64) + (v - cy as f64) * (v - cy as f64);
                if d <= (inner * inner) as f64 {
                    color = hole;
                } else if d <= (outer * outer) as f64 {
                    color = fill;
                }
            }
            Shape::Rectangle { x, y, width, height, fill } => {
                if u >= x as f64 && u < (x + width) as f64 && v >= y as f64 && v < (y + height) as f64 {
                    color = fill;
                }
            }
            Shape::Text { .. } => {}
        }
    }
    for bar in filled.iter() {
        let (width, height) = if bar.is_horizontal { (210, 70) } else { (70, 210) };
        if u >= bar.x as f64
            && u < (bar.x + width) as f64
            && v >= bar.y as f64
            && v < (bar.y + height) as f64
        {
            color = Color::from_rgb(30, 30, 70);
        }
    }
    color
}

#[test]
fn the_map_takes_the_points_there_and_back() {
    let src = vec![(103, 77), (612, 95), (640, 530), (85, 560)];
    let dst = destination_centers();
    let forward = solve(&src, &dst);
    let back = inverse(&forward);
    for i in 0..4 {
        let (x, y) = project(&forward, src[i].0 as f64, src[i].1 as f64);
        assert!((x - dst[i].0 as f64).abs() < 1e-6);
        assert!((y - dst[i].1 as f64).abs() < 1e-6);
        let (x, y) = project(&back, dst[i].0 as f64, dst[i].1 as f64);
        assert!((x - src[i].0 as f64).abs() < 1e-6);
        assert!((y - src[i].1 as f64).abs() < 1e-6);
    }
}

#[test]
fn a_skewed_picture_is_straightened_and_read() {
    let layout = checkbox_and_number();
    let checkbox = match &layout.fields()[0] {
        LayoutEntry::Boolean(bar) => *bar,
        _ => panic!("the first field is a checkbox"),
    };
    let right_digit = match &layout.fields()[1] {
        LayoutEntry::SevenSegmentDisplay(display) => display.digits[1].bars.clone(),
        _ => panic!("the second field is a number"),
    };
    // a 5: a, c, d, f, g
    let filled = vec![checkbox, right_digit[0], right_digit[2], right_digit[3], right_digit[5], right_digit[6]];

    // the sheet as a camera sees it that stands askew before it
    let corners = vec![(0, 0), (7000, 0), (7000, 7000), (0, 7000)];
    let seen_at = vec![(60, 40), (730, 90), (760, 640), (30, 600)];
    let to_sheet = inverse(&solve(&corners, &seen_at));
    let items: Vec<Color> = (0..700 * 800)
        .map(|i| {
            let (u, v) = project(&to_sheet, (i % 800) as f64 + 0.5, (i / 800) as f64 + 0.5);
            sheet_color(&layout, &filled, u, v)
        })
        .collect();
    let skewed = Image::from_fn(800, 700, |x, y| items[y * 800 + x]);

    let rings = aligner_centers(&skewed).unwrap();
    let nominal = [(850.0, 850.0), (6150.0, 850.0), (6150.0, 6150.0), (850.0, 6150.0)];
    for k in 0..4 {
        // the rings are found near where the camera sees their centres
        let (u, v) = project(&to_sheet, rings[k].0 as f64 + 0.5, rings[k].1 as f64 + 0.5);
        assert!((u - nominal[k].0).abs() < 70.0 && (v - nominal[k].1).abs() < 70.0);
    }

    let mut forward = solve(&rings, &destination_centers());
    let scale = CANONICAL_SIDE as f64 / 7000.0;
    for k in 0..6 {
        forward[k] *= scale;
    }
    let back = inverse(&forward);
    let straightened = skewed.perspective_transform(CANONICAL_SIDE, CANONICAL_SIDE, |x, y| {
        let (from_x, from_y) = project(&back, x as f64, y as f64);
        if from_x >= 0.0 && from_y >= 0.0 {
            Some((from_x as usize, from_y as usize))
        } else {
            None
        }
    });

    let found_again = aligner_centers(&straightened).unwrap();
    let expected = [(60, 60), (439, 60), (439, 439), (60, 439)];
    for k in 0..4 {
        assert!(found_again[k].0.abs_diff(expected[k].0) <= 2);
        assert!(found_again[k].1.abs_diff(expected[k].1) <= 2);
    }

    let found = BarsFound::from_image(&straightened);
    assert_eq!(found.bars.len(), 6);
    assert_eq!(
        layout.interpret_targets(&found),
        Ok(LayoutResult { result: vec![LayoutResultOption::Boolean(true), LayoutResultOption::Number(5)] })
    );
}
