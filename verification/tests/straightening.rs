use scan_sheet::image::{Color, Image};
use scan_sheet::perspective_transform::perspective_system;

#[test]
fn each_pair_of_points_gives_two_equations() {
    let src = vec![(3, 5), (7, 11), (13, 17), (19, 23)];
    let dst = vec![(850, 850), (6150, 850), (6150, 6150), (850, 6150)];
    let (a, b) = perspective_system(&src, &dst);
    assert_eq!(
        a,
        vec![
            vec![3, 5, 1, 0, 0, 0, -3 * 850, -5 * 850],
            vec![7, 11, 1, 0, 0, 0, -7 * 6150, -11 * 6150],
            vec![13, 17, 1, 0, 0, 0, -13 * 6150, -17 * 6150],
            vec![19, 23, 1, 0, 0, 0, -19 * 850, -23 * 850],
            vec![0, 0, 0, 3, 5, 1, -3 * 850, -5 * 850],
            vec![0, 0, 0, 7, 11, 1, -7 * 850, -11 * 850],
            vec![0, 0, 0, 13, 17, 1, -13 * 6150, -17 * 6150],
            vec![0, 0, 0, 19, 23, 1, -19 * 6150, -23 * 6150],
        ]
    );
    assert_eq!(b, vec![850, 6150, 6150, 850, 850, 850, 6150, 6150]);
}

#[test]
fn the_equations_hold_the_largest_points() {
    let far = i64::MAX as u128;
    let src = vec![(usize::MAX, 0), (0, usize::MAX), (1, 1), (2, 2)];
    let dst = vec![(far, far), (far, 0), (1, far), (0, 0)];
    let (a, b) = perspective_system(&src, &dst);
    assert_eq!(a[0][6], -(usize::MAX as i128) * i64::MAX as i128);
    assert_eq!(a[0][7], 0);
    assert_eq!(a[5][7], 0);
    assert_eq!(a[4][6], -(usize::MAX as i128) * i64::MAX as i128);
    assert_eq!(b[2], 1);
    assert_eq!(b[6], far as i128);
}

#[test]
fn a_solution_takes_each_point_to_its_place() {
    // twice as large and moved by (10, 20): X = 2x + 10, Y = 2y + 20, W = 1
    let src = vec![(0, 0), (5, 0), (5, 7), (0, 7)];
    let dst = vec![(10, 20), (20, 20), (20, 34), (10, 34)];
    let (a, b) = perspective_system(&src, &dst);
    let c: [i128; 8] = [2, 0, 10, 0, 2, 20, 0, 0];
    for r in 0..8 {
        let left: i128 = (0..8).map(|k| a[r][k] * c[k]).sum();
        assert_eq!(left, b[r]);
    }
}

#[test]
fn a_picture_is_shown_through_a_map() {
    let old = Image::from_fn(3, 2, |x, y| Color::from_rgb(x as u8, y as u8, 9));
    // turned around, with a margin of one pixel on the right
    let new = old.perspective_transform(4, 2, |x, y| if x < 3 { Some((2 - x, 1 - y)) } else { None });
    assert_eq!((new.base(), new.height()), (4, 2));
    for y in 0..2 {
        for x in 0..3 {
            assert_eq!(new.get_color(x, y), Color::from_rgb(2 - x as u8, 1 - y as u8, 9));
        }
        assert_eq!(new.get_color(3, y), Color::magenta());
    }
}

#[test]
fn what_lies_outside_is_magenta() {
    let old = Image::from_fn(3, 2, |_, _| Color::from_rgb(1, 2, 3));
    let new = old.perspective_transform(2, 2, |x, y| Some((x + 2, y + 1)));
    assert_eq!(new.get_color(0, 0), Color::from_rgb(1, 2, 3));
    assert_eq!(new.get_color(1, 0), Color::magenta());
    assert_eq!(new.get_color(0, 1), Color::magenta());
    assert_eq!(new.get_color(1, 1), Color::magenta());
    let far = old.perspective_transform(1, 1, |_, _| Some((usize::MAX, usize::MAX)));
    assert_eq!(far.get_color(0, 0), Color::magenta());
    let none = old.perspective_transform(0, 0, |_, _| None);
    assert_eq!((none.base(), none.height()), (0, 0));
}
