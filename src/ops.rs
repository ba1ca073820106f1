//! Mirror transforms of an image.
use vstd::prelude::*;
use crate::{Image, ImageView};
use vstd::arithmetic::div_mod::{
    lemma_fundamental_div_mod,
    lemma_fundamental_div_mod_converse,
    lemma_div_pos_is_pos,
    lemma_mod_bound,
};

verus! {

/// Where byte `i` of a buffer of `h` rows of `stride` bytes comes from when
/// the rows are put in reverse order.
pub open spec fn vflip_index(stride: int, h: int, i: int) -> int {
    (h - 1 - i / stride) * stride + i % stride
}

/// Where byte `i` of a buffer of rows of `w` pixels of `ch` bytes comes from
/// when each row is put in reverse pixel order.
pub open spec fn hflip_index(w: int, ch: int, i: int) -> int {
    let stride = w * ch;
    let q = i % stride;
    (i / stride) * stride + (w - 1 - q / ch) * ch + q % ch
}

impl ImageView {
    pub open spec fn stride(self) -> int {
        (self.width * self.format.channel_count()) as int
    }

    /// The image upside down: row `y` becomes row `height - 1 - y`.
    pub open spec fn vflipped(self) -> ImageView {
        ImageView {
            data: Seq::new(
                self.data.len(),
                |i: int| self.data[vflip_index(self.stride(), self.height as int, i)],
            ),
            ..self
        }
    }

    /// The image mirrored: column `x` becomes column `width - 1 - x`.
    pub open spec fn hflipped(self) -> ImageView {
        ImageView {
            data: Seq::new(
                self.data.len(),
                |i: int|
                    self.data[hflip_index(
                        self.width as int,
                        self.format.channel_count() as int,
                        i,
                    )],
            ),
            ..self
        }
    }
}

/// Byte `i` lies in row `i / stride` at column byte `i % stride`, inside the
/// buffer.
proof fn lemma_split(stride: int, h: int, i: int)
    requires
        stride > 0,
        0 <= i < h * stride,
    ensures
        0 <= i / stride < h,
        0 <= i % stride < stride,
        i == (i / stride) * stride + i % stride,
{
    lemma_fundamental_div_mod(i, stride);
    lemma_mod_bound(i, stride);
    lemma_div_pos_is_pos(i, stride);
    if i / stride >= h {
        assert((i / stride) * stride >= h * stride) by (nonlinear_arith)
            requires
                i / stride >= h,
                stride > 0,
        ;
    }
    assert(i == stride * (i / stride) + i % stride);
    assert(stride * (i / stride) == (i / stride) * stride) by (nonlinear_arith);
}

/// Row `r` and column byte `q` come back from `r * stride + q`.
proof fn lemma_join(stride: int, r: int, q: int)
    requires
        stride > 0,
        0 <= q < stride,
    ensures
        (r * stride + q) / stride == r,
        (r * stride + q) % stride == q,
{
    lemma_fundamental_div_mod_converse(r * stride + q, stride, r, q);
}

proof fn lemma_vflip_index(stride: int, h: int, i: int)
    requires
        stride > 0,
        0 <= i < h * stride,
    ensures
        0 <= vflip_index(stride, h, i) < h * stride,
        vflip_index(stride, h, i) / stride == h - 1 - i / stride,
        vflip_index(stride, h, i) % stride == i % stride,
        vflip_index(stride, h, vflip_index(stride, h, i)) == i,
{
    lemma_split(stride, h, i);
    let r = i / stride;
    let q = i % stride;
    lemma_join(stride, h - 1 - r, q);
    assert(0 <= (h - 1 - r) * stride) by (nonlinear_arith)
        requires
            0 <= h - 1 - r,
            stride > 0,
    ;
    assert((h - 1 - r) * stride + q < h * stride) by (nonlinear_arith)
        requires
            q < stride,
            0 <= r,
            stride > 0,
    ;
}

proof fn lemma_hflip_index(w: int, ch: int, h: int, i: int)
    requires
        w > 0,
        ch > 0,
        0 <= i < h * (w * ch),
    ensures
        0 <= hflip_index(w, ch, i) < h * (w * ch),
        hflip_index(w, ch, i) / (w * ch) == i / (w * ch),
        hflip_index(w, ch, i) % (w * ch) == (w - 1 - (i % (w * ch)) / ch) * ch + (i % (w * ch)) % ch,
        hflip_index(w, ch, hflip_index(w, ch, i)) == i,
{
    let stride = w * ch;
    assert(stride > 0) by (nonlinear_arith)
        requires
            w > 0,
            ch > 0,
            stride == w * ch,
    ;
    lemma_split(stride, h, i);
    let r = i / stride;
    let q = i % stride;
    lemma_split(ch, w, q);
    let px = q / ch;
    let c = q % ch;
    let q2 = (w - 1 - px) * ch + c;
    assert(0 <= (w - 1 - px) * ch) by (nonlinear_arith)
        requires
            0 <= w - 1 - px,
            ch > 0,
    ;
    assert((w - 1 - px) * ch + c < w * ch) by (nonlinear_arith)
        requires
            c < ch,
            0 <= px,
            ch > 0,
    ;
    lemma_join(stride, r, q2);
    lemma_join(ch, w - 1 - px, c);
    assert(0 <= r * stride) by (nonlinear_arith)
        requires
            0 <= r,
            stride > 0,
    ;
    assert(r * stride + q2 < h * stride) by (nonlinear_arith)
        requires
            q2 < stride,
            0 <= r < h,
            stride > 0,
    ;
}

/// Putting the rows of an image in reverse order twice gives back the image.
pub proof fn lemma_vflip_involution(v: ImageView)
    requires
        v.wf(),
    ensures
        v.vflipped().vflipped() == v,
{
    let ch = v.format.channel_count() as int;
    let s = v.stride();
    let h = v.height as int;
    if s > 0 {
        assert(v.data.len() == h * s) by (nonlinear_arith)
            requires
                v.data.len() == v.width * v.height * ch,
                s == v.width * ch,
                h == v.height,
        ;
        assert forall|i: int| 0 <= i < v.data.len() implies #[trigger] v.vflipped().vflipped().data[i]
            == v.data[i] by {
            lemma_vflip_index(s, h, i);
        }
    } else {
        assert(v.data.len() == 0) by (nonlinear_arith)
            requires
                v.data.len() == v.width * v.height * ch,
                s == v.width * ch,
                s <= 0,
                ch > 0,
        ;
    }
    assert(v.vflipped().vflipped().data =~= v.data);
}

/// Mirroring an image left to right twice gives back the image.
pub proof fn lemma_hflip_involution(v: ImageView)
    requires
        v.wf(),
    ensures
        v.hflipped().hflipped() == v,
{
    let ch = v.format.channel_count() as int;
    let w = v.width as int;
    let h = v.height as int;
    if w > 0 {
        assert(v.data.len() == h * (w * ch)) by (nonlinear_arith)
            requires
                v.data.len() == v.width * v.height * ch,
                w == v.width,
                h == v.height,
        ;
        assert forall|i: int| 0 <= i < v.data.len() implies #[trigger] v.hflipped().hflipped().data[i]
            == v.data[i] by {
            lemma_hflip_index(w, ch, h, i);
        }
    } else {
        assert(v.data.len() == 0) by (nonlinear_arith)
            requires
                v.data.len() == v.width * v.height * ch,
                w == v.width,
                w <= 0,
        ;
    }
    assert(v.hflipped().hflipped().data =~= v.data);
}

/// Flipping upside down and mirroring left to right give the same image in
/// either order.
pub proof fn lemma_flips_commute(v: ImageView)
    requires
        v.wf(),
    ensures
        v.vflipped().hflipped() == v.hflipped().vflipped(),
{
    let ch = v.format.channel_count() as int;
    let w = v.width as int;
    let h = v.height as int;
    let s = v.stride();
    if w > 0 {
        assert(s > 0) by (nonlinear_arith)
            requires
                w > 0,
                ch > 0,
                s == w * ch,
        ;
        assert(v.data.len() == h * s) by (nonlinear_arith)
            requires
                v.data.len() == v.width * v.height * ch,
                s == v.width * ch,
                h == v.height,
        ;
        assert forall|i: int| 0 <= i < v.data.len() implies #[trigger] v.vflipped().hflipped().data[i]
            == v.hflipped().vflipped().data[i] by {
            lemma_split(s, h, i);
            lemma_hflip_index(w, ch, h, i);
            lemma_vflip_index(s, h, i);
            let j = vflip_index(s, h, i);
            lemma_hflip_index(w, ch, h, j);
            let k = hflip_index(w, ch, i);
            lemma_vflip_index(s, h, k);
            lemma_split(s, h, hflip_index(w, ch, j));
            lemma_split(s, h, vflip_index(s, h, k));
        }
    } else {
        assert(v.data.len() == 0) by (nonlinear_arith)
            requires
                v.data.len() == v.width * v.height * ch,
                w == v.width,
                w <= 0,
        ;
    }
    assert(v.vflipped().hflipped().data =~= v.hflipped().vflipped().data);
}


/// Per pixel, `vflipped` gives pixel `(x, y)` the bytes of pixel
/// `(x, height - 1 - y)`, and `hflipped` those of `(width - 1 - x, y)`.
pub proof fn lemma_flipped_pixels(v: ImageView, x: int, y: int, c: int)
    requires
        v.wf(),
        v.in_bounds(x, y),
        0 <= c < v.format.channel_count(),
    ensures
        v.vflipped().data[v.offset(x, y) + c] == v.data[v.offset(x, v.height - 1 - y) + c],
        v.hflipped().data[v.offset(x, y) + c] == v.data[v.offset(v.width - 1 - x, y) + c],
{
    let ch = v.format.channel_count() as int;
    let w = v.width as int;
    let h = v.height as int;
    let s = v.stride();
    let row = h - 1 - y;
    crate::lemma_offset_in_range(v, x, y);
    assert(v.offset(x, y) + c == row * s + (x * ch + c)) by (nonlinear_arith)
        requires
            v.offset(x, y) == (row * w + x) * ch,
            s == w * ch,
    ;
    assert(0 <= x * ch + c < s) by (nonlinear_arith)
        requires
            0 <= x < w,
            0 <= c < ch,
            s == w * ch,
    ;
    lemma_join(s, row, x * ch + c);
    lemma_join(ch, x, c);
    assert(v.offset(x, v.height - 1 - y) + c == y * s + (x * ch + c)) by (nonlinear_arith)
        requires
            v.offset(x, v.height - 1 - y) == (y * w + x) * ch,
            s == w * ch,
    ;
    assert(v.offset(w - 1 - x, y) + c == row * s + ((w - 1 - x) * ch + c)) by (nonlinear_arith)
        requires
            v.offset(w - 1 - x, y) == (row * w + (w - 1 - x)) * ch,
            s == w * ch,
    ;
}

/// Whole-image mirror transforms. Each keeps the size and the layout, and
/// hands the image back for chaining.
pub trait ImageOps: View<V = ImageView> + Sized {
    /// Puts the rows in reverse order: pixel `(x, y)` takes the value that
    /// pixel `(x, height - 1 - y)` had.
    fn flip_vertical(&mut self) -> (r: &mut Image)
        requires
            old(self)@.wf(),
        ensures
            r@ == old(self)@.vflipped(),
            final(self)@ == final(r)@,
    ;

    /// Puts each row in reverse pixel order: pixel `(x, y)` takes the value
    /// that pixel `(width - 1 - x, y)` had.
    fn flip_horizontal(&mut self) -> (r: &mut Image)
        requires
            old(self)@.wf(),
        ensures
            r@ == old(self)@.hflipped(),
            final(self)@ == final(r)@,
    ;
}

impl ImageOps for Image {
    fn flip_vertical(&mut self) -> (r: &mut Image) {
        self.reverse_rows();
        self
    }

    fn flip_horizontal(&mut self) -> (r: &mut Image) {
        self.reverse_columns();
        self
    }
}

impl Image {
    fn reverse_rows(&mut self)
        requires
            old(self)@.wf(),
        ensures
            final(self)@ == old(self)@.vflipped(),
    {
        let ghost v = self@;
        let n = self.data.len();
        if n == 0 {
            assert(self@.vflipped().data =~= self@.data);
            return ;
        }
        let ch = self.format.channels();
        let w = self.width;
        let h = self.height;
        assert(w > 0 && h > 0) by {
            if w == 0 || h == 0 {
                assert(w * h * ch == 0) by (nonlinear_arith)
                    requires
                        w == 0 || h == 0,
                ;
            }
        }
        assert(w * ch <= n && n == h * (w * ch)) by (nonlinear_arith)
            requires
                n == w * h * ch,
                h >= 1,
                ch >= 1,
        ;
        let stride = w * ch;
        let mut out: Vec<u8> = Vec::with_capacity(n);
        let mut i: usize = 0;
        while i < n
            invariant
                v == self@,
                v.wf(),
                n == v.data.len(),
                stride == v.stride(),
                stride > 0,
                h == v.height,
                n == h * stride,
                i <= n,
                out@.len() == i,
                forall|j: int| 0 <= j < i ==> #[trigger] out@[j] == v.data[vflip_index(stride as int, h as int, j)],
            decreases n - i,
        {
            proof {
                lemma_split(stride as int, h as int, i as int);
                lemma_vflip_index(stride as int, h as int, i as int);
            }
            let row = i / stride;
            let q = i % stride;
            let src = (h - 1 - row) * stride + q;
            out.push(self.data[src]);
            i = i + 1;
        }
        self.data = out;
        assert(self@.data =~= v.vflipped().data);
    }

    fn reverse_columns(&mut self)
        requires
            old(self)@.wf(),
        ensures
            final(self)@ == old(self)@.hflipped(),
    {
        let ghost v = self@;
        let n = self.data.len();
        if n == 0 {
            assert(self@.hflipped().data =~= self@.data);
            return ;
        }
        let ch = self.format.channels();
        let w = self.width;
        let h = self.height;
        assert(w > 0 && h > 0) by {
            if w == 0 || h == 0 {
                assert(w * h * ch == 0) by (nonlinear_arith)
                    requires
                        w == 0 || h == 0,
                ;
            }
        }
        assert(w * ch <= n && n == h * (w * ch)) by (nonlinear_arith)
            requires
                n == w * h * ch,
                h >= 1,
                ch >= 1,
        ;
        let stride = w * ch;
        let mut out: Vec<u8> = Vec::with_capacity(n);
        let mut i: usize = 0;
        while i < n
            invariant
                v == self@,
                v.wf(),
                n == v.data.len(),
                stride == w * ch,
                w == v.width,
                w > 0,
                ch == v.format.channel_count(),
                ch > 0,
                h == v.height,
                n == h * (w * ch),
                i <= n,
                out@.len() == i,
                forall|j: int| 0 <= j < i ==> #[trigger] out@[j] == v.data[hflip_index(w as int, ch as int, j)],
            decreases n - i,
        {
            proof {
                lemma_split(stride as int, h as int, i as int);
                lemma_split(ch as int, w as int, (i % stride) as int);
                lemma_hflip_index(w as int, ch as int, h as int, i as int);
            }
            let row = i / stride;
            let q = i % stride;
            let src = row * stride + (w - 1 - q / ch) * ch + q % ch;
            out.push(self.data[src]);
            i = i + 1;
        }
        self.data = out;
        assert(self@.data =~= v.hflipped().data);
    }
}

} // verus!
