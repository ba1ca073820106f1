//! Integer rasterizers for lines and circles, and builders that configure
//! and run them.
use vstd::prelude::*;
use crate::{rgb, ColorFormat, Image, ImageView, RGB};
use vstd::arithmetic::div_mod::lemma_fundamental_div_mod_converse;

verus! {

pub open spec fn abs(a: int) -> int {
    if a < 0 {
        -a
    } else {
        a
    }
}

/// The image after writing a pixel with bytes `px` in layout `fmt` at each
/// point of `pts`, in order.
pub open spec fn paint(v: ImageView, pts: Seq<(int, int)>, fmt: ColorFormat, px: Seq<u8>) -> ImageView
    decreases pts.len(),
{
    if pts.len() == 0 {
        v
    } else {
        let p = pts.last();
        paint(v, pts.drop_last(), fmt, px).write(p.0, p.1, fmt, px)
    }
}

proof fn lemma_paint_push(v: ImageView, pts: Seq<(int, int)>, p: (int, int), fmt: ColorFormat, px: Seq<u8>)
    ensures
        paint(v, pts.push(p), fmt, px) == paint(v, pts, fmt, px).write(p.0, p.1, fmt, px),
{
    assert(pts.push(p).drop_last() =~= pts);
}

/// Painting keeps the size and the layout of the image.
proof fn lemma_paint_wf(v: ImageView, pts: Seq<(int, int)>, fmt: ColorFormat, px: Seq<u8>)
    requires
        v.wf(),
    ensures
        paint(v, pts, fmt, px).wf(),
        paint(v, pts, fmt, px).width == v.width,
        paint(v, pts, fmt, px).height == v.height,
        paint(v, pts, fmt, px).format == v.format,
    decreases pts.len(),
{
    if pts.len() > 0 {
        lemma_paint_wf(v, pts.drop_last(), fmt, px);
    }
}

/// Whether the line runs along `y` rather than along `x`.
pub open spec fn line_steep(xs: int, ys: int, xe: int, ye: int) -> bool {
    abs(xs - xe) < abs(ys - ye)
}

/// The line's endpoints with the axes swapped when it is steep, so that its
/// first coordinate is its major axis: `(a0, b0, a1, b1)`.
pub open spec fn line_frame(xs: int, ys: int, xe: int, ye: int) -> (int, int, int, int) {
    let t = if line_steep(xs, ys, xe, ye) {
        (ys, xs, ye, xe)
    } else {
        (xs, ys, xe, ye)
    };
    if t.0 > t.2 {
        (t.2, t.3, t.0, t.1)
    } else {
        t
    }
}

/// The points that the line from `(xs, ys)` to `(xe, ye)` sets, in order:
/// one for each major-axis position from the lower end up to, not
/// including, the upper end; the minor coordinate is the nearest one to the
/// exact line, rounding ties toward the start.
pub open spec fn line_points(xs: int, ys: int, xe: int, ye: int) -> Seq<(int, int)> {
    let f = line_frame(xs, ys, xe, ye);
    let (a0, b0, a1, b1) = (f.0, f.1, f.2, f.3);
    let da = a1 - a0;
    let step: int = if b1 > b0 {
        1
    } else {
        -1
    };
    Seq::new(
        da as nat,
        |k: int|
            {
                let b = b0 + step * ((2 * k * abs(b1 - b0) + da - 1) / (2 * da));
                if line_steep(xs, ys, xe, ye) {
                    (b, a0 + k)
                } else {
                    (a0 + k, b)
                }
            },
    )
}

/// Whether the line is walked from its start: the start's major-axis
/// coordinate is not above the end's.
pub open spec fn line_ascends(xs: int, ys: int, xe: int, ye: int) -> bool {
    if line_steep(xs, ys, xe, ye) {
        ys <= ye
    } else {
        xs <= xe
    }
}

/// A line sets `max(|dx|, |dy|)` points, no two the same; walked from its
/// start, it sets the start (when it sets any) and never the end point.
pub proof fn lemma_line_count(xs: int, ys: int, xe: int, ye: int)
    ensures
        line_points(xs, ys, xe, ye).len() == if abs(xe - xs) > abs(ye - ys) {
            abs(xe - xs)
        } else {
            abs(ye - ys)
        },
        forall|i: int, j: int|
            0 <= i < j < line_points(xs, ys, xe, ye).len() ==> line_points(xs, ys, xe, ye)[i]
                != line_points(xs, ys, xe, ye)[j],
        line_ascends(xs, ys, xe, ye) ==> !line_points(xs, ys, xe, ye).contains((xe, ye)),
        line_ascends(xs, ys, xe, ye) && line_points(xs, ys, xe, ye).len() > 0
            ==> line_points(xs, ys, xe, ye)[0] == (xs, ys),
{
    let pts = line_points(xs, ys, xe, ye);
    let steep = line_steep(xs, ys, xe, ye);
    assert forall|i: int, j: int| 0 <= i < j < pts.len() implies pts[i] != pts[j] by {
        if steep {
            assert(pts[i].1 != pts[j].1);
        } else {
            assert(pts[i].0 != pts[j].0);
        }
    }
    if line_ascends(xs, ys, xe, ye) {
        if pts.contains((xe, ye)) {
            let k = choose|k: int| 0 <= k < pts.len() && pts[k] == (xe, ye);
            assert(pts[k] == (xe, ye));
        }
        if pts.len() > 0 {
            let f = line_frame(xs, ys, xe, ye);
            let da = f.2 - f.0;
            assert((2 * 0 * abs(f.3 - f.1) + da - 1) / (2 * da) == 0) by (nonlinear_arith)
                requires
                    da > 0,
            ;
        }
    }
}

/// Draws the line from `from` to `to`, endpoint `to` (the upper end along
/// the major axis) excluded.
pub fn draw_line(image: &mut Image, from: (i32, i32), to: (i32, i32), color: RGB)
    requires
        old(image)@.wf(),
    ensures
        final(image)@ == paint(
            old(image)@,
            line_points(from.0 as int, from.1 as int, to.0 as int, to.1 as int),
            ColorFormat::RGB,
            color@,
        ),
{
    let (xs, ys) = (from.0 as i64, from.1 as i64);
    let (xe, ye) = (to.0 as i64, to.1 as i64);
    let adx = if xs > xe {
        xs - xe
    } else {
        xe - xs
    };
    let ady = if ys > ye {
        ys - ye
    } else {
        ye - ys
    };
    let steep = adx < ady;
    let (mut a0, mut b0, mut a1, mut b1) = if steep {
        (ys, xs, ye, xe)
    } else {
        (xs, ys, xe, ye)
    };
    if a0 > a1 {
        let (ta, tb) = (a0, b0);
        a0 = a1;
        b0 = b1;
        a1 = ta;
        b1 = tb;
    }
    let ghost pts = line_points(xs as int, ys as int, xe as int, ye as int);
    let ghost v0 = image@;
    assert(line_frame(xs as int, ys as int, xe as int, ye as int) == (
    a0 as int,
    b0 as int,
    a1 as int,
    b1 as int,
    ));
    let da = a1 - a0;
    let adb = if b1 > b0 {
        b1 - b0
    } else {
        b0 - b1
    };
    assert(adb <= da);
    let derror = adb * 2;
    let mut error: i64 = 0;
    let mut b = b0;
    let mut a = a0;
    let ghost mut m: int = 0;
    let ghost mut written: Seq<(int, int)> = Seq::empty();
    assert(2 * (a - a0) * adb - 2 * da * m == 0) by (nonlinear_arith)
        requires
            a == a0,
            m == 0,
    ;
    while a < a1
        invariant
            a0 <= a <= a1,
            da == a1 - a0,
            adb == abs(b1 - b0),
            adb <= da,
            derror == 2 * adb,
            -da < error <= da || da == 0,
            error == 2 * (a - a0) * adb - 2 * da * m,
            0 <= m <= a - a0,
            b == if b1 > b0 {
                b0 + m
            } else {
                b0 - m
            },
            -0x1_0000_0000 <= a0 <= a1 <= 0x1_0000_0000,
            -0x1_0000_0000 <= b0 <= 0x1_0000_0000,
            -0x1_0000_0000 <= b1 <= 0x1_0000_0000,
            steep == line_steep(xs as int, ys as int, xe as int, ye as int),
            pts == line_points(xs as int, ys as int, xe as int, ye as int),
            line_frame(xs as int, ys as int, xe as int, ye as int) == (
            a0 as int,
            b0 as int,
            a1 as int,
            b1 as int,
            ),
            pts.len() == da,
            written == pts.take(a - a0),
            v0.wf(),
            image@ == paint(v0, written, ColorFormat::RGB, color@),
        decreases a1 - a,
    {
        let ghost k = a - a0;
        let ghost m0 = m;
        proof {
            assert(2 * (k + 1) * adb == 2 * k * adb + 2 * adb) by (nonlinear_arith);
            assert(2 * da * (m + 1) == 2 * da * m + 2 * da) by (nonlinear_arith);
            let n = 2 * k * adb + da - 1;
            let r = error + da - 1;
            assert(n == 2 * da * m + r) by (nonlinear_arith)
                requires
                    error == 2 * k * adb - 2 * da * m,
                    n == 2 * k * adb + da - 1,
                    r == error + da - 1,
            ;
            assert(2 * da * m == m * (2 * da)) by (nonlinear_arith);
            lemma_fundamental_div_mod_converse(n, 2 * da, m, r);
            assert(pts[k] == if steep {
                (b as int, a as int)
            } else {
                (a as int, b as int)
            });
            lemma_paint_wf(v0, written, ColorFormat::RGB, color@);
            lemma_paint_push(v0, written, pts[k], ColorFormat::RGB, color@);
            assert(pts.take(k + 1) =~= written.push(pts[k]));
        }
        if steep {
            image.write_at(b, a, &color);
        } else {
            image.write_at(a, b, &color);
        }
        proof {
            written = written.push(pts[k]);
        }
        error = error + derror;
        if error > da {
            if b1 > b0 {
                b = b + 1;
            } else {
                b = b - 1;
            }
            error = error - da * 2;
            proof {
                m = m + 1;
            }
        }
        a = a + 1;
    }
    assert(written =~= pts);
}


/// The `k`-th of the eight images of offset `(a, b)` about the center
/// `(cx, cy)` under the symmetries of the square, `k` in `0..8`.
pub open spec fn octant_image(cx: int, cy: int, a: int, b: int, k: int) -> (int, int) {
    if k == 0 {
        (cx + a, cy + b)
    } else if k == 1 {
        (cx + b, cy + a)
    } else if k == 2 {
        (cx - b, cy + a)
    } else if k == 3 {
        (cx - a, cy + b)
    } else if k == 4 {
        (cx - a, cy - b)
    } else if k == 5 {
        (cx - b, cy - a)
    } else if k == 6 {
        (cx + b, cy - a)
    } else {
        (cx + a, cy - b)
    }
}

/// The eight points set for one step of the outline, in order.
pub open spec fn octant_points(cx: int, cy: int, a: int, b: int) -> Seq<(int, int)> {
    Seq::new(8, |k: int| octant_image(cx, cy, a, b, k))
}

/// One step of the outline's decision procedure on `(x, y, err)`.
pub open spec fn circle_step(x: int, y: int, err: int) -> (int, int, int) {
    let y1 = y + 1;
    let e1 = if err <= 0 {
        err + 2 * y1 + 1
    } else {
        err
    };
    if e1 > 0 {
        (x - 1, y1, e1 - (2 * (x - 1) + 1))
    } else {
        (x, y1, e1)
    }
}

/// The points that the outline sets from state `(x, y, err)` on, in order:
/// the eight images of `(x, y)` for each state while `x >= y`.
pub open spec fn circle_trace(cx: int, cy: int, x: int, y: int, err: int) -> Seq<(int, int)>
    decreases x - y + 2,
{
    if x < y {
        Seq::empty()
    } else {
        let n = circle_step(x, y, err);
        octant_points(cx, cy, x, y) + circle_trace(cx, cy, n.0, n.1, n.2)
    }
}

/// The points that the outline of radius `r` about `(cx, cy)` sets, in order.
pub open spec fn circle_points(cx: int, cy: int, r: int) -> Seq<(int, int)> {
    circle_trace(cx, cy, r, 0, 0)
}

fn octant_point(cx: i64, cy: i64, a: i64, b: i64, k: usize) -> (p: (i64, i64))
    requires
        -0x1_0000_0000 <= cx <= 0x1_0000_0000,
        -0x1_0000_0000 <= cy <= 0x1_0000_0000,
        -0x1_0000_0000 <= a <= 0x1_0000_0000,
        -0x1_0000_0000 <= b <= 0x1_0000_0000,
        k < 8,
    ensures
        (p.0 as int, p.1 as int) == octant_image(cx as int, cy as int, a as int, b as int, k as int),
{
    match k {
        0 => (cx + a, cy + b),
        1 => (cx + b, cy + a),
        2 => (cx - b, cy + a),
        3 => (cx - a, cy + b),
        4 => (cx - a, cy - b),
        5 => (cx - b, cy - a),
        6 => (cx + b, cy - a),
        _ => (cx + a, cy - b),
    }
}

/// Draws the outline of the circle of radius `r` about `center`: for each
/// step of the midpoint procedure, the eight symmetric points, duplicates
/// included. A negative radius draws nothing.
pub fn draw_circle(image: &mut Image, center: (i32, i32), r: i32, color: RGB)
    requires
        old(image)@.wf(),
    ensures
        final(image)@ == paint(
            old(image)@,
            circle_points(center.0 as int, center.1 as int, r as int),
            ColorFormat::RGB,
            color@,
        ),
{
    let ghost v0 = image@;
    let ghost all = circle_points(center.0 as int, center.1 as int, r as int);
    let cx = center.0 as i64;
    let cy = center.1 as i64;
    let r = r as i64;
    if r < 0 {
        assert(all =~= Seq::<(int, int)>::empty());
        return ;
    }
    let mut x: i64 = r;
    let mut y: i64 = 0;
    let mut err: i64 = 0;
    let ghost mut written: Seq<(int, int)> = Seq::empty();
    assert(all =~= written + circle_trace(cx as int, cy as int, x as int, y as int, err as int));
    while x >= y
        invariant
            0 <= r <= 0x7fff_ffff,
            -0x8000_0000 <= cx <= 0x7fff_ffff,
            -0x8000_0000 <= cy <= 0x7fff_ffff,
            -1 <= x <= r,
            0 <= y <= x + 2,
            -2 * r - 1 <= err <= 2 * r + 4,
            y == 0 ==> err == 0,
            all == written + circle_trace(cx as int, cy as int, x as int, y as int, err as int),
            v0.wf(),
            image@ == paint(v0, written, ColorFormat::RGB, color@),
        decreases x - y + 2,
    {
        let ghost before = written;
        let ghost oct = octant_points(cx as int, cy as int, x as int, y as int);
        let mut k: usize = 0;
        while k < 8
            invariant
                k <= 8,
                0 <= y <= x <= r <= 0x7fff_ffff,
                -0x8000_0000 <= cx <= 0x7fff_ffff,
                -0x8000_0000 <= cy <= 0x7fff_ffff,
                oct == octant_points(cx as int, cy as int, x as int, y as int),
                written == before + oct.take(k as int),
                v0.wf(),
                image@ == paint(v0, written, ColorFormat::RGB, color@),
            decreases 8 - k,
        {
            let p = octant_point(cx, cy, x, y, k);
            proof {
                lemma_paint_wf(v0, written, ColorFormat::RGB, color@);
                lemma_paint_push(v0, written, oct[k as int], ColorFormat::RGB, color@);
                assert(before + oct.take(k + 1) =~= (before + oct.take(k as int)).push(oct[k as int]));
            }
            image.write_at(p.0, p.1, &color);
            proof {
                written = written.push(oct[k as int]);
            }
            k = k + 1;
        }
        let ghost n = circle_step(x as int, y as int, err as int);
        proof {
            assert(oct.take(8) =~= oct);
            assert(all =~= written + circle_trace(cx as int, cy as int, n.0, n.1, n.2));
        }
        y = y + 1;
        if err <= 0 {
            err = err + 2 * y + 1;
        }
        if err > 0 {
            x = x - 1;
            err = err - (2 * x + 1);
        }
    }
    assert(written =~= all);
}


/// Point `p` mirrored about `(cx, cy)` by the `k`-th symmetry of the square.
pub open spec fn mirror(cx: int, cy: int, p: (int, int), k: int) -> (int, int) {
    octant_image(cx, cy, p.0 - cx, p.1 - cy, k)
}

proof fn lemma_octant_contains(cx: int, cy: int, a: int, b: int, p: int, q: int)
    requires
        ((p == a || p == -a) && (q == b || q == -b)) || ((p == b || p == -b) && (q == a || q
            == -a)),
    ensures
        octant_points(cx, cy, a, b).contains((cx + p, cy + q)),
{
    let o = octant_points(cx, cy, a, b);
    let t = (cx + p, cy + q);
    if p == a && q == b {
        assert(o[0] == t);
    } else if p == -a && q == b {
        assert(o[3] == t);
    } else if p == -a && q == -b {
        assert(o[4] == t);
    } else if p == a && q == -b {
        assert(o[7] == t);
    } else if p == b && q == a {
        assert(o[1] == t);
    } else if p == -b && q == a {
        assert(o[2] == t);
    } else if p == -b && q == -a {
        assert(o[5] == t);
    } else {
        assert(o[6] == t);
    }
}

proof fn lemma_octant_closed(cx: int, cy: int, a: int, b: int, j: int, k: int)
    requires
        0 <= j < 8,
        0 <= k < 8,
    ensures
        octant_points(cx, cy, a, b).contains(mirror(cx, cy, octant_image(cx, cy, a, b, j), k)),
{
    let m = mirror(cx, cy, octant_image(cx, cy, a, b, j), k);
    lemma_octant_contains(cx, cy, a, b, m.0 - cx, m.1 - cy);
}

proof fn lemma_trace_symmetric(cx: int, cy: int, x: int, y: int, err: int)
    ensures
        forall|p: (int, int), k: int|
            circle_trace(cx, cy, x, y, err).contains(p) && 0 <= k < 8 ==> #[trigger] circle_trace(
                cx,
                cy,
                x,
                y,
                err,
            ).contains(#[trigger] mirror(cx, cy, p, k)),
    decreases x - y + 2,
{
    if x >= y {
        let n = circle_step(x, y, err);
        let o = octant_points(cx, cy, x, y);
        let rest = circle_trace(cx, cy, n.0, n.1, n.2);
        let t = circle_trace(cx, cy, x, y, err);
        assert(t == o + rest);
        lemma_trace_symmetric(cx, cy, n.0, n.1, n.2);
        assert forall|p: (int, int), k: int| t.contains(p) && 0 <= k < 8 implies t.contains(
            mirror(cx, cy, p, k),
        ) by {
            let i = choose|i: int| 0 <= i < t.len() && t[i] == p;
            if i < 8 {
                assert(o[i] == p);
                lemma_octant_closed(cx, cy, x, y, i, k);
                let i2 = choose|i2: int| 0 <= i2 < o.len() && o[i2] == mirror(cx, cy, p, k);
                assert(t[i2] == o[i2]);
            } else {
                assert(rest[i - 8] == p);
                assert(rest.contains(p));
                assert(rest.contains(mirror(cx, cy, p, k)));
                let i2 = choose|i2: int| 0 <= i2 < rest.len() && rest[i2] == mirror(cx, cy, p, k);
                assert(t[i2 + 8] == rest[i2]);
            }
        }
    }
}

/// Octant symmetry: with every point that the outline sets, it sets the
/// seven other images of that point under the symmetries of the square
/// about the center.
pub proof fn lemma_circle_symmetric(cx: int, cy: int, r: int)
    ensures
        forall|p: (int, int), k: int|
            circle_points(cx, cy, r).contains(p) && 0 <= k < 8 ==> #[trigger] circle_points(
                cx,
                cy,
                r,
            ).contains(#[trigger] mirror(cx, cy, p, k)),
{
    lemma_trace_symmetric(cx, cy, r, 0, 0);
}

proof fn lemma_trace_bounded(cx: int, cy: int, x: int, y: int, err: int, r: int)
    requires
        x <= r,
        0 <= y,
    ensures
        forall|i: int|
            0 <= i < circle_trace(cx, cy, x, y, err).len() ==> abs(
                #[trigger] circle_trace(cx, cy, x, y, err)[i].0 - cx,
            ) <= r && abs(circle_trace(cx, cy, x, y, err)[i].1 - cy) <= r,
    decreases x - y + 2,
{
    if x >= y {
        let n = circle_step(x, y, err);
        let o = octant_points(cx, cy, x, y);
        let rest = circle_trace(cx, cy, n.0, n.1, n.2);
        let t = circle_trace(cx, cy, x, y, err);
        assert(t == o + rest);
        lemma_trace_bounded(cx, cy, n.0, n.1, n.2, r);
        assert forall|i: int| 0 <= i < t.len() implies abs(#[trigger] t[i].0 - cx) <= r && abs(
            t[i].1 - cy,
        ) <= r by {
            if i >= 8 {
                assert(t[i] == rest[i - 8]);
            }
        }
    }
}

/// Every point that the outline of radius `r` sets lies within `r` of the
/// center along each axis: inside the square that the filled circle scans
/// or on its edge.
pub proof fn lemma_circle_within_radius(cx: int, cy: int, r: int)
    ensures
        forall|i: int|
            0 <= i < circle_points(cx, cy, r).len() ==> abs(
                #[trigger] circle_points(cx, cy, r)[i].0 - cx,
            ) <= r && abs(circle_points(cx, cy, r)[i].1 - cy) <= r,
{
    lemma_trace_bounded(cx, cy, r, 0, 0, r);
}


/// Painting `a` and then `b` is painting `a + b`.
proof fn lemma_paint_append(
    v: ImageView,
    a: Seq<(int, int)>,
    b: Seq<(int, int)>,
    fmt: ColorFormat,
    px: Seq<u8>,
)
    ensures
        paint(v, a + b, fmt, px) == paint(paint(v, a, fmt, px), b, fmt, px),
    decreases b.len(),
{
    if b.len() == 0 {
        assert(a + b =~= a);
    } else {
        lemma_paint_append(v, a, b.drop_last(), fmt, px);
        assert((a + b).drop_last() =~= a + b.drop_last());
    }
}

/// The `i`-th point that the fill considers: the square `[-r, r) x [-r, r)`
/// about the center, row by row from its lowest row, left to right.
pub open spec fn fill_candidate(cx: int, cy: int, r: int, i: int) -> (int, int) {
    (cx + i % (2 * r) - r, cy + i / (2 * r) - r)
}

/// Whether `p` lies within distance `r` of the center.
pub open spec fn in_disk(cx: int, cy: int, r: int, p: (int, int)) -> bool {
    (p.0 - cx) * (p.0 - cx) + (p.1 - cy) * (p.1 - cy) <= r * r
}

/// The points among the first `n` candidates that lie within the disk, in
/// order.
pub open spec fn fill_scan(cx: int, cy: int, r: int, n: nat) -> Seq<(int, int)>
    decreases n,
{
    if n == 0 {
        Seq::empty()
    } else {
        let p = fill_candidate(cx, cy, r, n - 1);
        if in_disk(cx, cy, r, p) {
            fill_scan(cx, cy, r, (n - 1) as nat).push(p)
        } else {
            fill_scan(cx, cy, r, (n - 1) as nat)
        }
    }
}

/// The points that the filled circle sets, in order: the disk's points of
/// the square scan, then the outline.
pub open spec fn filled_circle_points(cx: int, cy: int, r: int) -> Seq<(int, int)> {
    fill_scan(cx, cy, r, (4 * r * r) as nat) + circle_points(cx, cy, r)
}

/// Draws the disk of radius `r` about `center`, then its outline on top.
pub fn draw_filled_circle(image: &mut Image, center: (i32, i32), r: i32, color: RGB)
    requires
        old(image)@.wf(),
        r >= 0,
    ensures
        final(image)@ == paint(
            old(image)@,
            filled_circle_points(center.0 as int, center.1 as int, r as int),
            ColorFormat::RGB,
            color@,
        ),
{
    let ghost v0 = image@;
    let ghost gcx = center.0 as int;
    let ghost gcy = center.1 as int;
    let cx = center.0 as i64;
    let cy = center.1 as i64;
    let ri = r as i64;
    let ru = r as u64;
    assert(ru * ru <= 0x3fff_ffff_0000_0001) by (nonlinear_arith)
        requires
            ru <= 0x7fff_ffff,
    ;
    let r2: i64 = ri * ri;
    let rr: u64 = 2 * ru;
    let area: u64 = 4 * (ru * ru);
    assert(area == 4 * r as int * r as int) by (nonlinear_arith)
        requires
            area == 4 * (ru * ru),
            ru == r,
    ;
    let mut i: u64 = 0;
    let ghost mut written: Seq<(int, int)> = Seq::empty();
    while i < area
        invariant
            0 <= r <= 0x7fff_ffff,
            ri == r,
            ru == r,
            r2 == r * r,
            rr == 2 * r,
            area == 4 * r * r,
            cx == gcx,
            cy == gcy,
            -0x8000_0000 <= cx <= 0x7fff_ffff,
            -0x8000_0000 <= cy <= 0x7fff_ffff,
            i <= area,
            written == fill_scan(gcx, gcy, r as int, i as nat),
            v0.wf(),
            image@ == paint(v0, written, ColorFormat::RGB, color@),
        decreases area - i,
    {
        assert(rr > 0) by (nonlinear_arith)
            requires
                area == 4 * r * r,
                i < area,
                rr == 2 * r,
        ;
        assert(i / rr < rr) by (nonlinear_arith)
            requires
                i < area,
                area == 4 * r * r,
                rr == 2 * r,
                rr > 0,
        ;
        let tx: i64 = (i % rr) as i64 - ri;
        let ty: i64 = (i / rr) as i64 - ri;
        assert(tx * tx + ty * ty <= 2 * (r * r)) by (nonlinear_arith)
            requires
                -r <= tx < r,
                -r <= ty < r,
        ;
        assert(r * r <= 0x3fff_ffff_0000_0001) by (nonlinear_arith)
            requires
                0 <= r <= 0x7fff_ffff,
        ;
        assert(0 <= tx * tx && 0 <= ty * ty) by (nonlinear_arith);
        let ghost p = fill_candidate(gcx, gcy, r as int, i as int);
        assert(p == (cx + tx, cy + ty));
        if tx * tx + ty * ty <= r2 {
            proof {
                lemma_paint_wf(v0, written, ColorFormat::RGB, color@);
                lemma_paint_push(v0, written, p, ColorFormat::RGB, color@);
            }
            image.write_at(cx + tx, cy + ty, &color);
            proof {
                written = written.push(p);
            }
        }
        i = i + 1;
    }
    proof {
        lemma_paint_wf(v0, written, ColorFormat::RGB, color@);
        lemma_paint_append(
            v0,
            written,
            circle_points(gcx, gcy, r as int),
            ColorFormat::RGB,
            color@,
        );
    }
    draw_circle(image, center, r, color);
}


/// A line to draw on `image`: its two endpoints and its color, set one at a
/// time, then drawn.
pub struct LineBuilder<'a> {
    pub image: &'a mut Image,
    pub from: (i32, i32),
    pub to: (i32, i32),
    pub color: RGB,
}

impl<'a> LineBuilder<'a> {
    /// The image as it is when the builder is made, before drawing.
    pub open spec fn canvas(&self) -> ImageView {
        (*self.image)@
    }

    /// The points that drawing this line sets.
    pub open spec fn points(&self) -> Seq<(int, int)> {
        line_points(self.from.0 as int, self.from.1 as int, self.to.0 as int, self.to.1 as int)
    }

    pub fn from(self, x: i32, y: i32) -> (b: Self)
        ensures
            b.from == (x, y),
            b.to == self.to,
            b.color == self.color,
            b.canvas() == self.canvas(),
            (*final(b.image))@ == (*final(self.image))@,
    {
        LineBuilder { from: (x, y), ..self }
    }

    pub fn to(self, x: i32, y: i32) -> (b: Self)
        ensures
            b.from == self.from,
            b.to == (x, y),
            b.color == self.color,
            b.canvas() == self.canvas(),
            (*final(b.image))@ == (*final(self.image))@,
    {
        LineBuilder { to: (x, y), ..self }
    }

    pub fn with_color(self, color: RGB) -> (b: Self)
        ensures
            b.from == self.from,
            b.to == self.to,
            b.color == color,
            b.canvas() == self.canvas(),
            (*final(b.image))@ == (*final(self.image))@,
    {
        LineBuilder { color, ..self }
    }

    /// Draws the line and hands the image back.
    pub fn draw(self) -> (r: &'a mut Image)
        requires
            self.canvas().wf(),
        ensures
            r@ == paint(self.canvas(), self.points(), ColorFormat::RGB, self.color@),
            final(r)@ == (*final(self.image))@,
    {
        let image = self.image;
        draw_line(image, self.from, self.to, self.color);
        image
    }
}

/// A circle to draw on `image`: center, radius, whether it is filled, and
/// color, set one at a time, then drawn.
pub struct CircleBuilder<'a> {
    pub image: &'a mut Image,
    pub filled: bool,
    pub origin: (i32, i32),
    pub radius: i32,
    pub color: RGB,
}

impl<'a> CircleBuilder<'a> {
    /// The image as it is when the builder is made, before drawing.
    pub open spec fn canvas(&self) -> ImageView {
        (*self.image)@
    }

    /// The points that drawing this circle sets.
    pub open spec fn points(&self) -> Seq<(int, int)> {
        if self.filled {
            filled_circle_points(self.origin.0 as int, self.origin.1 as int, self.radius as int)
        } else {
            circle_points(self.origin.0 as int, self.origin.1 as int, self.radius as int)
        }
    }

    pub fn origin(self, x: i32, y: i32) -> (b: Self)
        ensures
            b.origin == (x, y),
            b.filled == self.filled,
            b.radius == self.radius,
            b.color == self.color,
            b.canvas() == self.canvas(),
            (*final(b.image))@ == (*final(self.image))@,
    {
        CircleBuilder { origin: (x, y), ..self }
    }

    pub fn filled(self, filled: bool) -> (b: Self)
        ensures
            b.origin == self.origin,
            b.filled == filled,
            b.radius == self.radius,
            b.color == self.color,
            b.canvas() == self.canvas(),
            (*final(b.image))@ == (*final(self.image))@,
    {
        CircleBuilder { filled, ..self }
    }

    pub fn radius(self, radius: i32) -> (b: Self)
        ensures
            b.origin == self.origin,
            b.filled == self.filled,
            b.radius == radius,
            b.color == self.color,
            b.canvas() == self.canvas(),
            (*final(b.image))@ == (*final(self.image))@,
    {
        CircleBuilder { radius, ..self }
    }

    pub fn with_color(self, color: RGB) -> (b: Self)
        ensures
            b.origin == self.origin,
            b.filled == self.filled,
            b.radius == self.radius,
            b.color == color,
            b.canvas() == self.canvas(),
            (*final(b.image))@ == (*final(self.image))@,
    {
        CircleBuilder { color, ..self }
    }

    /// Draws the circle, filled or as an outline, and hands the image back.
    pub fn draw(self) -> (r: &'a mut Image)
        requires
            self.canvas().wf(),
            self.filled ==> self.radius >= 0,
        ensures
            r@ == paint(self.canvas(), self.points(), ColorFormat::RGB, self.color@),
            final(r)@ == (*final(self.image))@,
    {
        let image = self.image;
        if self.filled {
            draw_filled_circle(image, self.origin, self.radius, self.color);
        } else {
            draw_circle(image, self.origin, self.radius, self.color);
        }
        image
    }
}

/// Starting a shape to draw on an image.
pub trait Draw: View<V = ImageView> + Sized {
    /// A black line from `(0, 0)` to `(0, 0)` on this image.
    fn line(&mut self) -> (b: LineBuilder)
        ensures
            b.from == (0i32, 0i32),
            b.to == (0i32, 0i32),
            b.color@ == seq![0u8, 0u8, 0u8],
            b.canvas() == old(self)@,
            (*final(b.image))@ == final(self)@,
    ;

    /// A black outline of radius 0 about `(0, 0)` on this image.
    fn circle(&mut self) -> (b: CircleBuilder)
        ensures
            !b.filled,
            b.origin == (0i32, 0i32),
            b.radius == 0,
            b.color@ == seq![0u8, 0u8, 0u8],
            b.canvas() == old(self)@,
            (*final(b.image))@ == final(self)@,
    ;
}

impl Draw for Image {
    fn line(&mut self) -> (b: LineBuilder) {
        LineBuilder { image: self, from: (0, 0), to: (0, 0), color: rgb(0, 0, 0) }
    }

    fn circle(&mut self) -> (b: CircleBuilder) {
        CircleBuilder { image: self, filled: false, origin: (0, 0), radius: 0, color: rgb(0, 0, 0) }
    }
}

} // verus!
