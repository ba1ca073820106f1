use genial::ops::ImageOps;
use genial::{rgb, ColorFormat, Image, RGB};

fn pattern(width: usize, height: usize) -> Image {
    let mut img = Image::new(width, height, ColorFormat::RGB);
    for y in 0..height as i32 {
        for x in 0..width as i32 {
            img.set_pixel(x, y, rgb(x as u8 * 10, y as u8 * 20, (x * 3 + y) as u8));
        }
    }
    img
}

#[test]
fn flip_vertical_mirrors_rows() {
    let mut img = pattern(4, 3);
    let orig = img.clone();
    img.flip_vertical();
    assert_eq!(img.dimensions(), (4, 3));
    for y in 0..3 {
        for x in 0..4 {
            let a: RGB = img.get_pixel(x, y);
            let b: RGB = orig.get_pixel(x, 2 - y);
            assert_eq!(a, b);
        }
    }
    // the middle row of an odd height stays where it is
    for x in 0..4 {
        let a: RGB = img.get_pixel(x, 1);
        let b: RGB = orig.get_pixel(x, 1);
        assert_eq!(a, b);
    }
}

#[test]
fn flip_horizontal_mirrors_columns() {
    let mut img = pattern(5, 2);
    let orig = img.clone();
    img.flip_horizontal();
    for y in 0..2 {
        for x in 0..5 {
            let a: RGB = img.get_pixel(x, y);
            let b: RGB = orig.get_pixel(4 - x, y);
            assert_eq!(a, b);
        }
    }
}

#[test]
fn flip_vertical_twice_is_identity() {
    let mut img = pattern(3, 5);
    let orig = img.as_bytes().to_vec();
    img.flip_vertical().flip_vertical();
    assert_eq!(img.as_bytes(), &orig[..]);
    let mut img = pattern(6, 4);
    let orig = img.as_bytes().to_vec();
    img.flip_horizontal().flip_horizontal();
    assert_eq!(img.as_bytes(), &orig[..]);
}

#[test]
fn flips_commute() {
    let mut a = pattern(5, 3);
    let mut b = a.clone();
    a.flip_vertical().flip_horizontal();
    b.flip_horizontal().flip_vertical();
    assert_eq!(a.as_bytes(), b.as_bytes());
    let p: RGB = a.get_pixel(0, 0);
    assert_eq!(p, rgb(40, 40, 14));
}

#[test]
fn flips_work_on_any_layout() {
    let data: Vec<u8> = (0..8).collect();
    let mut img = Image::from_decoded(2, 2, ColorFormat::YA, data).unwrap();
    img.flip_vertical();
    assert_eq!(img.as_bytes(), &[4, 5, 6, 7, 0, 1, 2, 3]);
    img.flip_horizontal();
    assert_eq!(img.as_bytes(), &[6, 7, 4, 5, 2, 3, 0, 1]);
}

#[test]
fn flips_of_empty_image() {
    let mut img = Image::new(0, 3, ColorFormat::RGB);
    img.flip_vertical().flip_horizontal();
    assert_eq!(img.dimensions(), (0, 3));
    assert!(img.as_bytes().is_empty());
}
