use genial::color::{black, cyan, white};
use genial::draw::{draw_circle, draw_filled_circle, draw_line, Draw};
use genial::{rgb, ColorFormat, Image, RGB};

fn lit(img: &Image) -> Vec<(i32, i32)> {
    let (w, h) = img.dimensions();
    let mut out = Vec::new();
    for y in 0..h as i32 {
        for x in 0..w as i32 {
            let p: RGB = img.get_pixel(x, y);
            if p != black() {
                out.push((x, y));
            }
        }
    }
    out
}

fn sorted(mut v: Vec<(i32, i32)>) -> Vec<(i32, i32)> {
    v.sort();
    v
}

#[test]
fn diagonal_line_excludes_its_end() {
    let mut img = Image::new(5, 5, ColorFormat::RGB);
    draw_line(&mut img, (0, 0), (3, 3), white());
    assert_eq!(lit(&img), vec![(0, 0), (1, 1), (2, 2)]);
    let p: RGB = img.get_pixel(3, 3);
    assert_eq!(p, black());
}

#[test]
fn line_sets_one_pixel_per_major_step() {
    let mut img = Image::new(8, 8, ColorFormat::RGB);
    draw_line(&mut img, (0, 0), (5, 2), white());
    assert_eq!(lit(&img).len(), 5);
    let mut img = Image::new(8, 8, ColorFormat::RGB);
    draw_line(&mut img, (1, 0), (3, 6), white());
    assert_eq!(lit(&img).len(), 6);
    let mut img = Image::new(8, 8, ColorFormat::RGB);
    draw_line(&mut img, (4, 4), (4, 4), white());
    assert!(lit(&img).is_empty());
}

#[test]
fn shallow_line_exact_pixels() {
    let mut img = Image::new(4, 4, ColorFormat::RGB);
    draw_line(&mut img, (0, 0), (3, 1), white());
    assert_eq!(sorted(lit(&img)), vec![(0, 0), (1, 0), (2, 1)]);
}

#[test]
fn steep_reversed_line_walks_up_from_lower_end() {
    // the walk starts at the end with the lower major-axis coordinate
    let mut img = Image::new(4, 6, ColorFormat::RGB);
    draw_line(&mut img, (1, 4), (0, 0), white());
    assert_eq!(sorted(lit(&img)), vec![(0, 0), (0, 1), (0, 2), (1, 3)]);
}

#[test]
fn circle_of_radius_one_is_a_plus() {
    let mut img = Image::new(5, 5, ColorFormat::RGB);
    draw_circle(&mut img, (2, 2), 1, white());
    assert_eq!(sorted(lit(&img)), vec![(1, 2), (2, 1), (2, 3), (3, 2)]);
    let mut img = Image::new(5, 5, ColorFormat::RGB);
    draw_circle(&mut img, (2, 2), 0, white());
    assert_eq!(lit(&img), vec![(2, 2)]);
}

#[test]
fn circle_outline_is_octant_symmetric() {
    for r in 0..8 {
        let mut img = Image::new(21, 21, ColorFormat::RGB);
        draw_circle(&mut img, (10, 10), r, white());
        let pts = lit(&img);
        assert!(!pts.is_empty());
        for &(x, y) in &pts {
            let (a, b) = (x - 10, y - 10);
            for (p, q) in [(a, b), (b, a), (-b, a), (-a, b), (-a, -b), (-b, -a), (b, -a), (a, -b)] {
                assert!(pts.contains(&(10 + p, 10 + q)), "r={} point {:?}", r, (x, y));
            }
            assert!(a.abs() <= r && b.abs() <= r);
        }
    }
}

#[test]
fn filled_circle_of_radius_one() {
    let mut img = Image::new(5, 5, ColorFormat::RGB);
    draw_filled_circle(&mut img, (2, 2), 1, white());
    assert_eq!(sorted(lit(&img)), vec![(1, 2), (2, 1), (2, 2), (2, 3), (3, 2)]);
}

#[test]
fn outline_hugs_the_filled_disk() {
    for r in 1..9 {
        let c = 12;
        let mut outline = Image::new(25, 25, ColorFormat::RGB);
        draw_circle(&mut outline, (c, c), r, white());
        let mut interior = Vec::new();
        for ty in -r..r {
            for tx in -r..r {
                if tx * tx + ty * ty <= r * r {
                    interior.push((c + tx, c + ty));
                }
            }
        }
        let mut filled = Image::new(25, 25, ColorFormat::RGB);
        draw_filled_circle(&mut filled, (c, c), r, white());
        let filled_pts = lit(&filled);
        for &(x, y) in &lit(&outline) {
            assert!(filled_pts.contains(&(x, y)));
            let near = (-1..=1).any(|dx| (-1..=1).any(|dy| interior.contains(&(x + dx, y + dy))));
            assert!(near, "r={} point {:?}", r, (x, y));
        }
    }
}

#[test]
fn builders_draw_what_they_hold() {
    let mut img = Image::new(6, 6, ColorFormat::RGB);
    img.line().from(0, 0).to(3, 0).with_color(rgb(1, 2, 3)).draw();
    assert_eq!(lit(&img), vec![(0, 0), (1, 0), (2, 0)]);
    let p: RGB = img.get_pixel(1, 0);
    assert_eq!(p, rgb(1, 2, 3));

    let mut a = Image::new(9, 9, ColorFormat::RGB);
    a.circle().origin(4, 4).radius(2).filled(true).with_color(cyan()).draw();
    let mut b = Image::new(9, 9, ColorFormat::RGB);
    draw_filled_circle(&mut b, (4, 4), 2, cyan());
    assert_eq!(a.as_bytes(), b.as_bytes());

    let mut c = Image::new(9, 9, ColorFormat::RGB);
    c.circle().origin(4, 4).radius(2).with_color(cyan()).draw();
    let mut d = Image::new(9, 9, ColorFormat::RGB);
    draw_circle(&mut d, (4, 4), 2, cyan());
    assert_eq!(c.as_bytes(), d.as_bytes());
}

#[test]
fn builder_defaults() {
    let mut img = Image::new(3, 3, ColorFormat::RGB);
    {
        let b = img.line();
        assert_eq!((b.from, b.to, b.color), ((0, 0), (0, 0), black()));
    }
    let b = img.circle();
    assert!(!b.filled);
    assert_eq!((b.origin, b.radius, b.color), ((0, 0), 0, black()));
}

#[test]
fn draw_calls_chain_on_the_image() {
    let mut img = Image::new(10, 10, ColorFormat::RGB);
    img.line()
        .from(0, 0)
        .to(9, 9)
        .with_color(white())
        .draw()
        .circle()
        .origin(5, 5)
        .radius(3)
        .with_color(cyan())
        .draw();
    let mut expect = Image::new(10, 10, ColorFormat::RGB);
    draw_line(&mut expect, (0, 0), (9, 9), white());
    draw_circle(&mut expect, (5, 5), 3, cyan());
    assert_eq!(img.as_bytes(), expect.as_bytes());
}
