//! A small raster image library: an in-memory pixel buffer, bounds-checked
//! pixel access with an upward y axis, flips, and integer line and circle
//! rasterizers.
use vstd::prelude::*;

pub mod color;
pub mod draw;
pub mod ops;

verus! {

/// A pixel layout: which channels a pixel has, and in which order.
#[derive(Clone, Copy, Debug, PartialEq, Eq, Structural)]
pub enum ColorFormat {
    Y,
    YA,
    AY,
    RGB,
    RGBA,
    ARGB,
    BGR,
    BGRA,
    ABGR,
}

impl ColorFormat {
    /// Number of bytes that one pixel of this layout takes.
    pub open spec fn channel_count(self) -> nat {
        match self {
            ColorFormat::Y => 1,
            ColorFormat::YA | ColorFormat::AY => 2,
            ColorFormat::RGB | ColorFormat::BGR => 3,
            _ => 4,
        }
    }

    pub fn channels(&self) -> (n: usize)
        ensures
            n == self.channel_count(),
            1 <= n <= 4,
    {
        match *self {
            ColorFormat::Y => 1,
            ColorFormat::YA | ColorFormat::AY => 2,
            ColorFormat::RGB | ColorFormat::BGR => 3,
            ColorFormat::ABGR | ColorFormat::ARGB | ColorFormat::BGRA | ColorFormat::RGBA => 4,
        }
    }
}

/// A typed color value that knows its layout and its bytes.
pub trait Pixel: Sized {
    /// The layout this value is encoded in.
    spec fn pixel_format(&self) -> ColorFormat;

    /// The bytes of this value, one per channel.
    spec fn pixel_bytes(&self) -> Seq<u8>;

    /// The value that `from_rgb(r, g, b)` builds.
    spec fn rgb_spec(r: u8, g: u8, b: u8) -> Self;

    fn from_rgb(r: u8, g: u8, b: u8) -> (p: Self)
        ensures
            p == Self::rgb_spec(r, g, b),
    ;

    fn format(&self) -> (f: ColorFormat)
        ensures
            f == self.pixel_format(),
    ;

    fn as_slice(&self) -> (s: &[u8])
        ensures
            s@ == self.pixel_bytes(),
            s@.len() == self.pixel_format().channel_count(),
    ;
}

/// A color with a red, a green and a blue byte.
#[derive(Clone, Copy, Debug, PartialEq, Eq)]
pub struct RGB {
    data: [u8; 3],
}

impl View for RGB {
    type V = Seq<u8>;

    closed spec fn view(&self) -> Seq<u8> {
        self.data@
    }
}

/// The color with the given red, green and blue bytes.
pub fn rgb(r: u8, g: u8, b: u8) -> (c: RGB)
    ensures
        c@ == seq![r, g, b],
{
    let c = RGB { data: [r, g, b] };
    assert(c@ =~= seq![r, g, b]);
    c
}

impl Pixel for RGB {
    open spec fn pixel_format(&self) -> ColorFormat {
        ColorFormat::RGB
    }

    open spec fn pixel_bytes(&self) -> Seq<u8> {
        self@
    }

    closed spec fn rgb_spec(r: u8, g: u8, b: u8) -> Self {
        RGB { data: [r, g, b] }
    }

    fn from_rgb(r: u8, g: u8, b: u8) -> (p: Self) {
        RGB { data: [r, g, b] }
    }

    fn format(&self) -> (f: ColorFormat) {
        ColorFormat::RGB
    }

    fn as_slice(&self) -> (s: &[u8]) {
        self.data.as_slice()
    }
}

/// `RGB::rgb_spec(r, g, b)` holds the bytes `r`, `g`, `b`.
pub broadcast proof fn lemma_rgb_spec_bytes(r: u8, g: u8, b: u8)
    ensures
        #[trigger] <RGB as Pixel>::rgb_spec(r, g, b)@ == seq![r, g, b],
{
    assert(<RGB as Pixel>::rgb_spec(r, g, b)@ =~= seq![r, g, b]);
}


/// What an image is: its size, its layout, and its bytes, top row first.
pub struct ImageView {
    pub width: nat,
    pub height: nat,
    pub format: ColorFormat,
    pub data: Seq<u8>,
}

impl ImageView {
    /// The buffer holds exactly `width * height` pixels of the layout.
    pub open spec fn wf(self) -> bool {
        self.data.len() == self.width * self.height * self.format.channel_count()
    }

    pub open spec fn in_bounds(self, x: int, y: int) -> bool {
        0 <= x < self.width && 0 <= y < self.height
    }

    /// Offset of the first byte of pixel `(x, y)`; `y` grows upward, rows
    /// are stored top row first.
    pub open spec fn offset(self, x: int, y: int) -> int {
        ((self.height - y - 1) * self.width + x) * self.format.channel_count()
    }

    /// The image after writing the bytes `px` of a pixel in layout `fmt` at
    /// `(x, y)`: nothing changes off the image or when the layouts differ.
    pub open spec fn write(self, x: int, y: int, fmt: ColorFormat, px: Seq<u8>) -> ImageView {
        if self.in_bounds(x, y) && fmt == self.format {
            let off = self.offset(x, y);
            let ch = self.format.channel_count() as int;
            ImageView {
                data: Seq::new(
                    self.data.len(),
                    |i: int|
                        if off <= i < off + ch {
                            px[i - off]
                        } else {
                            self.data[i]
                        },
                ),
                ..self
            }
        } else {
            self
        }
    }

    /// The red, green and blue bytes read at `(x, y)`: zero off the image
    /// and for a layout other than `RGB`.
    pub open spec fn rgb_at(self, x: int, y: int) -> (u8, u8, u8) {
        if self.in_bounds(x, y) && self.format == ColorFormat::RGB {
            let off = self.offset(x, y);
            (self.data[off], self.data[off + 1], self.data[off + 2])
        } else {
            (0, 0, 0)
        }
    }
}

/// The pixel offset lies inside a well-formed buffer.
pub proof fn lemma_offset_in_range(v: ImageView, x: int, y: int)
    requires
        v.wf(),
        v.in_bounds(x, y),
    ensures
        0 <= v.offset(x, y),
        v.offset(x, y) + v.format.channel_count() <= v.data.len(),
{
    let ch = v.format.channel_count() as int;
    let row = v.height - y - 1;
    assert(0 <= row < v.height);
    assert(0 <= row * v.width) by (nonlinear_arith)
        requires
            0 <= row,
            0 <= v.width,
    ;
    assert(row * v.width + x + 1 <= v.height * v.width) by (nonlinear_arith)
        requires
            0 <= row < v.height,
            0 <= x < v.width,
    ;
    assert((row * v.width + x) * ch + ch <= (v.height * v.width) * ch) by (nonlinear_arith)
        requires
            row * v.width + x + 1 <= v.height * v.width,
            0 <= ch,
    ;
    assert(0 <= (row * v.width + x) * ch) by (nonlinear_arith)
        requires
            0 <= row * v.width + x,
            0 <= ch,
    ;
    assert(v.width * v.height * ch == (v.height * v.width) * ch) by (nonlinear_arith);
}

/// A write just past the right edge changes nothing, and a read there gives
/// the zero color.
pub proof fn lemma_past_right_edge(v: ImageView, fmt: ColorFormat, px: Seq<u8>)
    ensures
        v.write(v.width as int, 0, fmt, px) == v,
        v.rgb_at(v.width as int, 0) == (0u8, 0u8, 0u8),
{
}

/// A raster image: a flat byte buffer with a width, a height and a layout.
#[derive(Clone)]
pub struct Image {
    data: Vec<u8>,
    width: usize,
    height: usize,
    format: ColorFormat,
}

impl View for Image {
    type V = ImageView;

    closed spec fn view(&self) -> ImageView {
        ImageView {
            width: self.width as nat,
            height: self.height as nat,
            format: self.format,
            data: self.data@,
        }
    }
}

impl Image {
    /// A zero-filled image of the given size.
    pub fn new(width: usize, height: usize, format: ColorFormat) -> (img: Self)
        requires
            width * height * format.channel_count() <= usize::MAX,
        ensures
            img@.wf(),
            img@.width == width,
            img@.height == height,
            img@.format == format,
            forall|i: int| 0 <= i < img@.data.len() ==> img@.data[i] == 0,
    {
        let ch = format.channels();
        assert(width * height <= width * height * ch) by (nonlinear_arith)
            requires
                1 <= ch,
        ;
        let len = width * height * ch;
        let mut data: Vec<u8> = Vec::with_capacity(len);
        let mut i: usize = 0;
        while i < len
            invariant
                i <= len,
                data@.len() == i,
                forall|j: int| 0 <= j < i ==> data@[j] == 0,
            decreases len - i,
        {
            data.push(0);
            i = i + 1;
        }
        Image { data, width, height, format }
    }

    /// An image over bytes decoded elsewhere; `None` when their number is not
    /// `width * height` pixels of the layout.
    pub fn from_decoded(width: usize, height: usize, format: ColorFormat, data: Vec<u8>) -> (r:
        Option<Self>)
        ensures
            r is Some <==> data@.len() == width * height * format.channel_count(),
            r matches Some(img) ==> img@ == (ImageView {
                width: width as nat,
                height: height as nat,
                format,
                data: data@,
            }),
    {
        let ch = format.channels();
        let n = data.len();
        let wh = match width.checked_mul(height) {
            Some(wh) => wh,
            None => {
                assert(width * height * ch >= width * height) by (nonlinear_arith)
                    requires
                        ch >= 1,
                ;
                return None;
            },
        };
        match wh.checked_mul(ch) {
            Some(len) if len == n => Some(Image { data, width, height, format }),
            _ => None,
        }
    }

    /// Writes `color` at `(x, y)`. A write off the image, or of a color in
    /// another layout than the image's, changes nothing.
    pub fn set_pixel<P: Pixel>(&mut self, x: i32, y: i32, color: P)
        requires
            old(self)@.wf(),
        ensures
            final(self)@ == old(self)@.write(
                x as int,
                y as int,
                color.pixel_format(),
                color.pixel_bytes(),
            ),
    {
        self.write_at(x as i64, y as i64, &color)
    }

    /// `set_pixel` for coordinates of any `i64` value.
    pub(crate) fn write_at<P: Pixel>(&mut self, x: i64, y: i64, color: &P)
        requires
            old(self)@.wf(),
        ensures
            final(self)@ == old(self)@.write(
                x as int,
                y as int,
                color.pixel_format(),
                color.pixel_bytes(),
            ),
    {
        if x < 0 || y < 0 || x as u64 >= self.width as u64 || y as u64 >= self.height as u64 {
            return ;
        }
        if color.format() != self.format {
            return ;
        }
        let ghost v = self@;
        let xu = x as usize;
        let yu = y as usize;
        let ch = self.format.channels();
        let bytes = color.as_slice();
        proof {
            lemma_offset_in_range(v, x as int, y as int);
            let row = v.height - y - 1;
            assert(row * v.width + xu <= (row * v.width + xu) * ch) by (nonlinear_arith)
                requires
                    ch >= 1,
                    row * v.width + xu >= 0,
            ;
            assert(row * v.width <= row * v.width + xu);
        }
        let n = self.data.len();
        assert(xu == x && yu == y);
        let row = self.height - yu - 1;
        let base = row * self.width + xu;
        let off = base * ch;
        let ghost old_data = self.data@;
        let mut c: usize = 0;
        while c < ch
            invariant
                v == old(self)@,
                v.wf(),
                off == v.offset(x as int, y as int),
                off + ch <= v.data.len(),
                n == v.data.len(),
                ch == v.format.channel_count(),
                bytes@.len() == ch,
                bytes@ == color.pixel_bytes(),
                self.width == v.width,
                self.height == v.height,
                self.format == v.format,
                c <= ch,
                self.data@.len() == v.data.len(),
                forall|i: int|
                    0 <= i < v.data.len() ==> #[trigger] self.data@[i] == if off <= i < off + c {
                        bytes@[i - off]
                    } else {
                        v.data[i]
                    },
            decreases ch - c,
        {
            self.data.set(off + c, bytes[c]);
            c = c + 1;
        }
        assert(self@.data =~= v.write(x as int, y as int, color.pixel_format(), color.pixel_bytes()).data);
    }

    /// The color at `(x, y)`, built from its red, green and blue bytes; the
    /// zero color off the image and for a layout other than `RGB`.
    pub fn get_pixel<P: Pixel>(&self, x: i32, y: i32) -> (p: P)
        requires
            self@.wf(),
        ensures
            p == P::rgb_spec(self@.rgb_at(x as int, y as int).0, self@.rgb_at(x as int, y as int).1,
                self@.rgb_at(x as int, y as int).2),
    {
        if x < 0 || y < 0 || x as u64 >= self.width as u64 || y as u64 >= self.height as u64 {
            return P::from_rgb(0, 0, 0);
        }
        match self.format {
            ColorFormat::RGB => {
                let ghost v = self@;
                let xu = x as usize;
                let yu = y as usize;
                proof {
                    lemma_offset_in_range(v, x as int, y as int);
                    let row = v.height - y - 1;
                    assert(row * v.width + xu <= (row * v.width + xu) * 3) by (nonlinear_arith)
                        requires
                            row * v.width + xu >= 0,
                    ;
                    assert(row * v.width <= row * v.width + xu);
                }
                let n = self.data.len();
                assert(xu == x && yu == y);
                let row = self.height - yu - 1;
                let base = row * self.width + xu;
                let off = base * 3;
                P::from_rgb(self.data[off], self.data[off + 1], self.data[off + 2])
            },
            _ => P::from_rgb(0, 0, 0),
        }
    }

    /// The raw bytes, top row first.
    pub fn as_bytes(&self) -> (b: &[u8])
        ensures
            b@ == self@.data,
    {
        self.data.as_slice()
    }

    pub fn format(&self) -> (f: ColorFormat)
        ensures
            f == self@.format,
    {
        self.format
    }

    pub fn dimensions(&self) -> (r: (usize, usize))
        ensures
            r.0 == self@.width,
            r.1 == self@.height,
    {
        (self.width, self.height)
    }
}

} // verus!
