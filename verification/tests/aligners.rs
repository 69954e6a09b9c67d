use scan_sheet::aligner_sort::{remove_max_by, AlignerCountError, Corner};
use scan_sheet::target::{Target, TargetKind};
use scan_sheet::target_mesh::TargetMesh;

fn ring(x: usize, y: usize, pixels_filled: usize) -> Target {
    // a box of 21 by 21 pixels around (x, y) in an image of 1000 by 500
    Target {
        kind: TargetKind::Aligner,
        left: x - 10,
        right: x + 10,
        top: y - 10,
        bottom: y + 10,
        pixels_filled,
        mean_x: x,
        mean_y: y,
        image_base: 1000,
        image_height: 500,
    }
}

fn debris(x: usize, y: usize, pixels_filled: usize) -> Target {
    Target { kind: TargetKind::Debug, ..ring(x, y, pixels_filled) }
}

#[test]
fn fewer_than_four_aligners_is_an_error() {
    let mesh = TargetMesh { targets: vec![ring(100, 100, 180), ring(900, 100, 180), ring(900, 400, 180)] };
    assert_eq!(mesh.get_aligner_centers(), Err(AlignerCountError));
    let none = TargetMesh { targets: vec![] };
    assert_eq!(none.get_aligner_centers(), Err(AlignerCountError));
    let others = TargetMesh {
        targets: vec![
            ring(100, 100, 180),
            ring(900, 100, 180),
            ring(900, 400, 180),
            debris(100, 400, 180),
        ],
    };
    assert_eq!(others.get_aligner_centers(), Err(AlignerCountError));
}

#[test]
fn four_aligners_are_put_in_corner_order() {
    let mesh = TargetMesh {
        targets: vec![ring(900, 400, 180), ring(100, 400, 180), ring(900, 100, 180), ring(100, 100, 180)],
    };
    assert_eq!(
        mesh.get_aligner_centers(),
        Ok(vec![(100, 100), (900, 100), (900, 400), (100, 400)])
    );
}

#[test]
fn the_four_largest_aligners_are_taken() {
    let mesh = TargetMesh {
        targets: vec![
            ring(500, 250, 150),
            ring(900, 400, 180),
            debris(20, 20, 400),
            ring(100, 400, 181),
            ring(900, 100, 200),
            ring(100, 100, 151),
            ring(300, 300, 100),
        ],
    };
    assert_eq!(
        mesh.get_aligner_centers(),
        Ok(vec![(100, 100), (900, 100), (900, 400), (100, 400)])
    );
}

#[test]
fn of_two_aligners_of_one_size_the_first_is_taken() {
    let mesh = TargetMesh {
        targets: vec![
            ring(100, 100, 150),
            ring(900, 100, 150),
            ring(900, 400, 150),
            ring(100, 400, 150),
            ring(500, 250, 150),
        ],
    };
    assert_eq!(
        mesh.get_aligner_centers(),
        Ok(vec![(100, 100), (900, 100), (900, 400), (100, 400)])
    );
}

#[test]
fn corners_are_told_by_fractions_of_the_image() {
    // in an image of 1000 by 500, (400, 100) is 0.4 + 0.2 and (100, 200) is 0.1 + 0.4
    let mesh = TargetMesh {
        targets: vec![ring(400, 100, 150), ring(100, 200, 150), ring(900, 300, 150), ring(600, 400, 150)],
    };
    assert_eq!(
        mesh.get_aligner_centers(),
        Ok(vec![(100, 200), (900, 300), (600, 400), (400, 100)])
    );
}

#[test]
fn a_corner_takes_only_what_is_left() {
    // the first point is the top left and would also be the top right
    let mesh = TargetMesh {
        targets: vec![ring(500, 20, 150), ring(500, 200, 150), ring(510, 300, 150), ring(490, 400, 150)],
    };
    let centers = mesh.get_aligner_centers().unwrap();
    assert_eq!(centers[0], (500, 20));
    // x / w - y / h: 0.5 - 0.4 = 0.1, 0.51 - 0.6 = -0.09, 0.49 - 0.8 = -0.31
    assert_eq!(centers[1], (500, 200));
    assert_eq!(centers[2], (490, 400));
    assert_eq!(centers[3], (510, 300));
}

#[test]
fn remove_max_by_takes_the_first_that_none_beats() {
    let mut points = vec![(5, 5), (1, 1), (9, 1), (1, 1), (9, 9)];
    assert_eq!(remove_max_by(&mut points, Corner::TopLeft, 10, 10), (1, 1));
    assert_eq!(points, vec![(5, 5), (9, 1), (1, 1), (9, 9)]);
    assert_eq!(remove_max_by(&mut points, Corner::TopRight, 10, 10), (9, 1));
    assert_eq!(points, vec![(5, 5), (1, 1), (9, 9)]);
    assert_eq!(remove_max_by(&mut points, Corner::BottomRight, 10, 10), (9, 9));
    assert_eq!(remove_max_by(&mut points, Corner::BottomLeft, 10, 10), (5, 5));
    assert_eq!(points, vec![(1, 1)]);
    assert_eq!(remove_max_by(&mut points, Corner::BottomLeft, 10, 10), (1, 1));
    assert_eq!(points, vec![]);
}
