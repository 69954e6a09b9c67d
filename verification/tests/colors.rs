use scan_sheet::image::{Color, ColorType, Image, ImageFormatError};

#[test]
fn named_colors_have_their_channels() {
    assert_eq!(Color::red(), Color::from_rgb(0xff, 0, 0));
    assert_eq!(Color::green(), Color::from_rgb(0, 0xff, 0));
    assert_eq!(Color::blue(), Color::from_rgb(0, 0, 0xff));
    assert_eq!(Color::magenta(), Color::from_rgb(0xff, 0, 0xff));
    assert_eq!(Color::yellow(), Color::from_rgb(0xff, 0xff, 0));
    assert_eq!(Color::cyan(), Color::from_rgb(0, 0xff, 0xff));
}

#[test]
fn dark_means_every_channel_strictly_below() {
    assert!(Color::from_rgb(109, 109, 109).is_darker_than(110));
    assert!(!Color::from_rgb(110, 0, 0).is_darker_than(110));
    assert!(!Color::from_rgb(0, 110, 0).is_darker_than(110));
    assert!(!Color::from_rgb(0, 0, 110).is_darker_than(110));
    assert!(!Color::from_rgb(0, 0, 0).is_darker_than(0));
}

#[test]
fn raw_bytes_are_read_three_to_a_pixel() {
    let image = Image::from_raw(vec![1, 2, 3, 4, 5, 6, 7, 8, 9, 10, 11, 12], 2, 2);
    assert_eq!(image.get_color(0, 0), Color::from_rgb(1, 2, 3));
    assert_eq!(image.get_color(1, 0), Color::from_rgb(4, 5, 6));
    assert_eq!(image.get_color(0, 1), Color::from_rgb(7, 8, 9));
    assert_eq!(image.get_color(1, 1), Color::from_rgb(10, 11, 12));
    assert_eq!(image.get_color_checked(2, 0), None);
    assert_eq!(image.get_color_checked(0, 2), None);
    assert_eq!(image.get_color_checked(1, 1), Some(Color::from_rgb(10, 11, 12)));
}

#[test]
fn set_color_changes_one_pixel() {
    let mut image = Image::from_raw(vec![0; 18], 3, 2);
    image.set_color(2, 1, Color::from_rgb(9, 8, 7));
    for y in 0..2 {
        for x in 0..3 {
            let expected = if x == 2 && y == 1 { Color::from_rgb(9, 8, 7) } else { Color::from_rgb(0, 0, 0) };
            assert_eq!(image.get_color(x, y), expected);
        }
    }
    assert_eq!(image.base(), 3);
    assert_eq!(image.height(), 2);
}

#[test]
fn from_fn_asks_for_every_pixel_row_by_row() {
    let image = Image::from_fn(3, 2, |x, y| Color::from_rgb(x as u8, y as u8, (10 * y + x) as u8));
    assert_eq!(image.base(), 3);
    assert_eq!(image.height(), 2);
    for y in 0..2 {
        for x in 0..3 {
            assert_eq!(image.get_color(x, y), Color::from_rgb(x as u8, y as u8, (10 * y + x) as u8));
        }
    }
    let raw = Image::from_raw(vec![0, 0, 0, 1, 0, 1, 2, 0, 2, 0, 1, 10, 1, 1, 11, 2, 1, 12], 3, 2);
    for y in 0..2 {
        for x in 0..3 {
            assert_eq!(image.get_color(x, y), raw.get_color(x, y));
        }
    }
}

#[test]
fn an_image_without_pixels_can_be_made() {
    let image = Image::from_fn(0, 5, |_, _| Color::red());
    assert_eq!(image.base(), 0);
    assert_eq!(image.get_color_checked(0, 0), None);
}

#[test]
fn only_eight_bit_rgb_is_taken_over() {
    let bytes = vec![1, 2, 3, 4, 5, 6];
    let image = Image::from_decoded(bytes.clone(), 2, 1, ColorType::Rgb, 8).unwrap();
    assert_eq!((image.base(), image.height()), (2, 1));
    assert_eq!(image.get_color(1, 0), Color::from_rgb(4, 5, 6));
    assert_eq!(image.data(), &bytes);
    for color_type in [ColorType::Grayscale, ColorType::Indexed, ColorType::GrayscaleAlpha, ColorType::Rgba] {
        assert_eq!(Image::from_decoded(bytes.clone(), 2, 1, color_type, 8).err(), Some(ImageFormatError));
    }
    for bit_depth in [1, 2, 4, 16, 0] {
        assert_eq!(
            Image::from_decoded(bytes.clone(), 2, 1, ColorType::Rgb, bit_depth).err(),
            Some(ImageFormatError)
        );
    }
    assert_eq!(Image::from_decoded(bytes.clone(), 1, 1, ColorType::Rgb, 8).err(), Some(ImageFormatError));
    assert_eq!(Image::from_decoded(bytes.clone(), 2, 2, ColorType::Rgb, 8).err(), Some(ImageFormatError));
    assert_eq!(Image::from_decoded(bytes.clone(), 0, 1, ColorType::Rgb, 8).err(), Some(ImageFormatError));
    assert_eq!(Image::from_decoded(vec![1, 2, 3, 4, 5], 5, 1, ColorType::Rgb, 8).err(), Some(ImageFormatError));
    assert!(Image::from_decoded(vec![], 0, 7, ColorType::Rgb, 8).is_ok());
    assert!(Image::from_decoded(vec![], usize::MAX, 0, ColorType::Rgb, 8).is_ok());
    assert_eq!(
        Image::from_decoded(bytes, usize::MAX, usize::MAX, ColorType::Rgb, 8).err(),
        Some(ImageFormatError)
    );
}
