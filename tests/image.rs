use genial::color::{black, blue, red, white};
use genial::{rgb, ColorFormat, Image, Pixel, RGB};

fn pattern(width: usize, height: usize) -> Image {
    let mut img = Image::new(width, height, ColorFormat::RGB);
    for y in 0..height as i32 {
        for x in 0..width as i32 {
            img.set_pixel(x, y, rgb(x as u8 * 10, y as u8 * 20, (x + y) as u8));
        }
    }
    img
}

#[test]
fn new_image_is_zero_filled() {
    let img = Image::new(4, 3, ColorFormat::RGB);
    assert_eq!(img.dimensions(), (4, 3));
    assert_eq!(img.as_bytes().len(), 36);
    assert!(img.as_bytes().iter().all(|&b| b == 0));
    let gray = Image::new(5, 2, ColorFormat::YA);
    assert_eq!(gray.as_bytes().len(), 20);
    assert_eq!(gray.format(), ColorFormat::YA);
}

#[test]
fn channel_counts() {
    assert_eq!(ColorFormat::Y.channels(), 1);
    assert_eq!(ColorFormat::YA.channels(), 2);
    assert_eq!(ColorFormat::AY.channels(), 2);
    assert_eq!(ColorFormat::RGB.channels(), 3);
    assert_eq!(ColorFormat::BGR.channels(), 3);
    assert_eq!(ColorFormat::RGBA.channels(), 4);
    assert_eq!(ColorFormat::ARGB.channels(), 4);
    assert_eq!(ColorFormat::BGRA.channels(), 4);
    assert_eq!(ColorFormat::ABGR.channels(), 4);
}

#[test]
fn rgb_pixel_bytes() {
    let c = rgb(1, 2, 3);
    assert_eq!(c.as_slice(), &[1, 2, 3]);
    assert_eq!(c.format(), ColorFormat::RGB);
    assert_eq!(RGB::from_rgb(1, 2, 3), c);
    assert_eq!(white(), rgb(255, 255, 255));
    assert_eq!(genial::color::maroon(), rgb(218, 0, 0));
}

#[test]
fn set_then_get_pixel() {
    let mut img = Image::new(4, 3, ColorFormat::RGB);
    img.set_pixel(1, 2, red());
    let p: RGB = img.get_pixel(1, 2);
    assert_eq!(p, red());
    let q: RGB = img.get_pixel(2, 1);
    assert_eq!(q, black());
}

#[test]
fn y_axis_points_up() {
    let mut img = Image::new(4, 3, ColorFormat::RGB);
    // (1, 2) is on the top row, stored first.
    img.set_pixel(1, 2, rgb(9, 8, 7));
    assert_eq!(&img.as_bytes()[3..6], &[9, 8, 7]);
    // (0, 0) is on the bottom row, stored last.
    img.set_pixel(0, 0, rgb(1, 2, 3));
    assert_eq!(&img.as_bytes()[24..27], &[1, 2, 3]);
}

#[test]
fn out_of_bounds_write_and_read() {
    let mut img = pattern(4, 3);
    let before = img.as_bytes().to_vec();
    img.set_pixel(4, 0, white());
    img.set_pixel(0, 3, white());
    img.set_pixel(-1, 0, white());
    img.set_pixel(0, -1, white());
    img.set_pixel(i32::MAX, i32::MIN, white());
    assert_eq!(img.as_bytes(), &before[..]);
    let p: RGB = img.get_pixel(4, 0);
    assert_eq!(p, black());
    let q: RGB = img.get_pixel(-3, 1);
    assert_eq!(q, black());
}

#[test]
fn other_layout_is_left_alone() {
    let mut img = Image::new(2, 2, ColorFormat::RGBA);
    img.set_pixel(0, 0, blue());
    assert!(img.as_bytes().iter().all(|&b| b == 0));
    let data = vec![7u8; 16];
    let img = Image::from_decoded(2, 2, ColorFormat::RGBA, data).unwrap();
    let p: RGB = img.get_pixel(0, 0);
    assert_eq!(p, black());
}

#[test]
fn from_decoded_checks_size() {
    let img = Image::from_decoded(2, 3, ColorFormat::RGB, (0..18).collect()).unwrap();
    assert_eq!(img.dimensions(), (2, 3));
    let p: RGB = img.get_pixel(0, 2);
    assert_eq!(p, rgb(0, 1, 2));
    let p: RGB = img.get_pixel(1, 0);
    assert_eq!(p, rgb(15, 16, 17));
    assert!(Image::from_decoded(2, 3, ColorFormat::RGB, vec![0; 17]).is_none());
    assert!(Image::from_decoded(2, 3, ColorFormat::RGB, vec![0; 19]).is_none());
    assert!(Image::from_decoded(0, 3, ColorFormat::Y, vec![]).is_some());
    assert!(Image::from_decoded(usize::MAX, 3, ColorFormat::Y, vec![]).is_none());
}

#[test]
fn codec_round_trip_keeps_pixels() {
    let img = pattern(5, 4);
    let mut encoded: Vec<u8> = Vec::new();
    imagefmt::bmp::write(
        &mut encoded,
        5,
        4,
        imagefmt::ColFmt::RGB,
        img.as_bytes(),
        imagefmt::ColType::Color,
        None,
    )
    .unwrap();
    let decoded =
        imagefmt::read_from(&mut std::io::Cursor::new(encoded), imagefmt::ColFmt::RGB).unwrap();
    let back = Image::from_decoded(decoded.w, decoded.h, ColorFormat::RGB, decoded.buf).unwrap();
    assert_eq!(back.dimensions(), (5, 4));
    assert_eq!(back.as_bytes(), img.as_bytes());
    for y in 0..4 {
        for x in 0..5 {
            let a: RGB = img.get_pixel(x, y);
            let b: RGB = back.get_pixel(x, y);
            assert_eq!(a, b);
        }
    }
}
