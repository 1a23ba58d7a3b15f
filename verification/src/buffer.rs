//! Rectangular buffers of pixels or character cells.

use vstd::prelude::*;

use crate::geom::{IVec2, Rect, ivec2, spec_ivec2};

verus! {

/// Trait for buffer cells, can be pixels or character cells. The blank cell
/// is always transparent.
pub trait Pixel: Copy + Sized {
    type Color;

    /// The blank cell that new buffers are filled with.
    spec fn spec_blank() -> Self;

    /// Whether the cell shows nothing.
    spec fn spec_transparent(&self) -> bool;

    fn blank() -> (r: Self)
        ensures
            r == Self::spec_blank(),
            r.spec_transparent(),
    ;

    fn is_transparent(&self) -> (r: bool)
        ensures
            r == self.spec_transparent(),
    ;

    /// Whether two cells are the same.
    fn same(&self, other: &Self) -> (r: bool)
        ensures
            r == (*self == *other),
    ;

    fn colorize(&self, col: Self::Color) -> Self;

    fn invert(&mut self);
}

/// A color with an alpha channel.
#[derive(Clone, Copy, Debug, PartialEq, Eq, Structural)]
pub struct Rgba {
    pub r: u8,
    pub g: u8,
    pub b: u8,
    pub a: u8,
}

impl Pixel for Rgba {
    type Color = Rgba;

    open spec fn spec_blank() -> Self {
        Rgba { r: 0, g: 0, b: 0, a: 0 }
    }

    open spec fn spec_transparent(&self) -> bool {
        self.a == 0
    }

    fn blank() -> (r: Self) {
        Rgba { r: 0, g: 0, b: 0, a: 0 }
    }

    fn is_transparent(&self) -> (r: bool) {
        self.a == 0x00
    }

    fn same(&self, other: &Self) -> (r: bool) {
        self.r == other.r && self.g == other.g && self.b == other.b && self.a == other.a
    }

    /// Coloring a pixel replaces it with the color.
    fn colorize(&self, col: Self::Color) -> (r: Self)
        ensures
            r == col,
    {
        col
    }

    /// Inverting a pixel inverts its color channels and keeps its alpha.
    fn invert(&mut self)
        ensures
            *final(self) == (Rgba {
                r: (0xff - old(self).r) as u8,
                g: (0xff - old(self).g) as u8,
                b: (0xff - old(self).b) as u8,
                a: old(self).a,
            }),
    {
        self.r = 0xff - self.r;
        self.g = 0xff - self.g;
        self.b = 0xff - self.b;
    }
}

/// A character cell of a text terminal, with 256-color palette indices.
#[derive(Clone, Copy, Debug, PartialEq, Eq, Structural)]
pub struct CharCell {
    pub c: u16,
    pub foreground: u8,
    pub background: u8,
}

impl Pixel for CharCell {
    type Color = (u8, u8);

    open spec fn spec_blank() -> Self {
        CharCell { c: 0, foreground: 0, background: 0 }
    }

    open spec fn spec_transparent(&self) -> bool {
        self.c == 0
    }

    fn blank() -> (r: Self) {
        CharCell { c: 0, foreground: 0, background: 0 }
    }

    fn is_transparent(&self) -> (r: bool) {
        self.c == 0
    }

    fn same(&self, other: &Self) -> (r: bool) {
        self.c == other.c && self.foreground == other.foreground && self.background
            == other.background
    }

    /// Coloring a cell keeps its character and sets its colors.
    fn colorize(&self, col: Self::Color) -> (r: Self)
        ensures
            r == (CharCell { c: self.c, foreground: col.0, background: col.1 }),
    {
        CharCell { c: self.c, foreground: col.0, background: col.1 }
    }

    /// Inverting a cell swaps its colors.
    fn invert(&mut self)
        ensures
            *final(self) == (CharCell {
                c: old(self).c,
                foreground: old(self).background,
                background: old(self).foreground,
            }),
    {
        let f = self.foreground;
        self.foreground = self.background;
        self.background = f;
    }
}

/// The cell position of the index `i` in a row-major grid `w` wide.
pub open spec fn grid_pos(w: int, i: int) -> (int, int) {
    (i % w, i / w)
}

/// A rectangular buffer of cells, stored row by row.
pub struct Buffer<P> {
    width: u32,
    height: u32,
    data: Vec<P>,
}

impl<P: Pixel> Buffer<P> {
    pub closed spec fn spec_width(&self) -> nat {
        self.width as nat
    }

    pub closed spec fn spec_height(&self) -> nat {
        self.height as nat
    }

    /// The cells, row by row.
    pub closed spec fn cells(&self) -> Seq<P> {
        self.data@
    }

    /// There is one cell for each position.
    pub closed spec fn wf(&self) -> bool {
        self.data@.len() == self.width * self.height
    }

    /// A blank buffer.
    pub fn new(width: u32, height: u32) -> (r: Self)
        requires
            width * height <= u32::MAX,
        ensures
            r.wf(),
            r.spec_width() == width,
            r.spec_height() == height,
            r.cells() == Seq::new((width * height) as nat, |i: int| P::spec_blank()),
    {
        let n = (width * height) as usize;
        let mut data: Vec<P> = Vec::new();
        let mut i: usize = 0;
        while i < n
            invariant
                i <= n,
                data@ == Seq::new(i as nat, |k: int| P::spec_blank()),
            decreases n - i,
        {
            data.push(P::blank());
            i += 1;
        }
        Buffer { width, height, data }
    }

    /// A buffer whose cell at `(x, y)` is `f(x, y)`.
    pub fn from_fn<F: Fn(i32, i32) -> P>(width: u32, height: u32, f: F) -> (r: Self)
        requires
            width * height <= u32::MAX,
            width <= i32::MAX,
            height <= i32::MAX,
            forall|x: i32, y: i32| 0 <= x < width && 0 <= y < height ==> #[trigger] f.requires((x, y)),
        ensures
            r.wf(),
            r.spec_width() == width,
            r.spec_height() == height,
            r.cells().len() == width * height,
            forall|i: int|
                0 <= i < width * height ==> f.ensures(
                    (grid_pos(width as int, i).0 as i32, grid_pos(width as int, i).1 as i32),
                    #[trigger] r.cells()[i],
                ),
    {
        let n = (width * height) as usize;
        let mut data: Vec<P> = Vec::new();
        let mut i: usize = 0;
        while i < n
            invariant
                n == width * height,
                width * height <= u32::MAX,
                width <= i32::MAX,
                height <= i32::MAX,
                forall|x: i32, y: i32| 0 <= x < width && 0 <= y < height ==> #[trigger] f.requires((x, y)),
                i <= n,
                data@.len() == i,
                forall|k: int|
                    0 <= k < i ==> f.ensures(
                        (grid_pos(width as int, k).0 as i32, grid_pos(width as int, k).1 as i32),
                        #[trigger] data@[k],
                    ),
            decreases n - i,
        {
            let w = width as usize;
            assert(w > 0) by (nonlinear_arith)
                requires
                    i < n,
                    n == width * height,
                    w == width,
            ;
            let xu = i % w;
            let yu = i / w;
            assert(yu < height) by (nonlinear_arith)
                requires
                    i < width * height,
                    w == width,
                    w > 0,
                    yu == i / w,
            ;
            let x = xu as i32;
            let y = yu as i32;
            let p = f(x, y);
            data.push(p);
            proof {
                assert(data@[i as int] == p);
            }
            i += 1;
        }
        Buffer { width, height, data }
    }

    /// The cells, row by row.
    pub fn data(&self) -> (r: &[P])
        ensures
            r@ == self.cells(),
    {
        self.data.as_slice()
    }

    /// The cells, row by row, for writing.
    pub fn data_mut(&mut self) -> (r: &mut [P])
        ensures
            r@ == old(self).cells(),
            final(self).cells() == final(r)@,
            final(self).spec_width() == old(self).spec_width(),
            final(self).spec_height() == old(self).spec_height(),
    {
        self.data.as_mut_slice()
    }

    /// Replace every cell equal to `key` with the blank cell.
    pub fn set_key_to_transparent(&mut self, key: P)
        requires
            old(self).wf(),
        ensures
            final(self).wf(),
            final(self).spec_width() == old(self).spec_width(),
            final(self).spec_height() == old(self).spec_height(),
            final(self).cells() == old(self).cells().map_values(
                |p: P|
                    if p == key {
                        P::spec_blank()
                    } else {
                        p
                    },
            ),
    {
        let ghost before = self.data@;
        let n = self.data.len();
        let mut i: usize = 0;
        while i < n
            invariant
                n == before.len(),
                self.data@.len() == n,
                i <= n,
                self.width == old(self).width,
                self.height == old(self).height,
                before == old(self).data@,
                forall|k: int|
                    0 <= k < n ==> #[trigger] self.data@[k] == if k < i {
                        if before[k] == key {
                            P::spec_blank()
                        } else {
                            before[k]
                        }
                    } else {
                        before[k]
                    },
            decreases n - i,
        {
            if self.data[i].same(&key) {
                self.data.set(i, P::blank());
            }
            i += 1;
        }
        assert(self.data@ == before.map_values(
            |p: P|
                if p == key {
                    P::spec_blank()
                } else {
                    p
                },
        ));
    }

    /// Size of the buffer.
    pub fn dim(&self) -> (r: IVec2)
        ensures
            r == spec_ivec2((self.spec_width() as i32) as int, (self.spec_height() as i32) as int),
    {
        ivec2(self.width as i32, self.height as i32)
    }

    pub fn width(&self) -> (r: i32)
        ensures
            r == self.spec_width() as i32,
    {
        self.width as i32
    }

    pub fn height(&self) -> (r: i32)
        ensures
            r == self.spec_height() as i32,
    {
        self.height as i32
    }

    /// The rectangle of cell positions, from the origin.
    pub fn area(&self) -> (r: Rect)
        ensures
            r.min == spec_ivec2(0, 0),
            r.max == spec_ivec2((self.spec_width() as i32) as int, (self.spec_height() as i32) as int),
    {
        Rect { min: ivec2(0, 0), max: self.dim() }
    }

}

/// Red, green and blue bytes of the pixels in turn; alpha is dropped.
pub open spec fn rgb_bytes(s: Seq<Rgba>) -> Seq<u8>
    decreases s.len(),
{
    if s.len() == 0 {
        Seq::empty()
    } else {
        rgb_bytes(s.drop_last()) + seq![s.last().r, s.last().g, s.last().b]
    }
}

proof fn lemma_rgb_bytes_len(s: Seq<Rgba>)
    ensures
        rgb_bytes(s).len() == 3 * s.len(),
    decreases s.len(),
{
    if s.len() > 0 {
        lemma_rgb_bytes_len(s.drop_last());
    }
}

/// The screenshot bytes hold each pixel's red, green and blue, in that
/// order, at three bytes per pixel: pixel `i` starts at byte `3 * i`.
pub proof fn lemma_rgb_bytes_layout(s: Seq<Rgba>)
    ensures
        rgb_bytes(s).len() == 3 * s.len(),
        forall|i: int|
            0 <= i < s.len() ==> rgb_bytes(s)[3 * i] == (#[trigger] s[i]).r && rgb_bytes(s)[3 * i + 1]
                == s[i].g && rgb_bytes(s)[3 * i + 2] == s[i].b,
    decreases s.len(),
{
    lemma_rgb_bytes_len(s);
    if s.len() > 0 {
        let p = s.drop_last();
        lemma_rgb_bytes_layout(p);
        lemma_rgb_bytes_len(p);
        assert forall|i: int| 0 <= i < s.len() implies rgb_bytes(s)[3 * i] == (#[trigger] s[i]).r
            && rgb_bytes(s)[3 * i + 1] == s[i].g && rgb_bytes(s)[3 * i + 2] == s[i].b by {
            if i < p.len() {
                assert(s[i] == p[i]);
            }
        }
    }
}

/// The PNG file that `image`'s PNG encoder, with its default compression
/// and filter, writes for an 8-bit RGB image of the given size whose
/// pixels are `raw`, three bytes each, row by row.
pub uninterp spec fn png_rgb8(raw: Seq<u8>, width: u32, height: u32) -> Seq<u8>;

/// Calls `ImageEncoder::write_image` of `image::codecs::png::PngEncoder`,
/// writing into a byte vector, with the color type `Rgb8`. The encoder
/// asserts that the buffer holds three bytes for each pixel and fails on a
/// zero width or height, which `requires` rules out; writing into a vector
/// does not fail otherwise. The bytes written are named by `png_rgb8`.
#[verifier::external_body]
fn encode_png_rgb8(raw: &Vec<u8>, width: u32, height: u32) -> (r: Vec<u8>)
    requires
        width > 0,
        height > 0,
        raw@.len() == 3 * width * height,
    ensures
        r@ == png_rgb8(raw@, width, height),
{
    let mut out: Vec<u8> = Vec::new();
    image::ImageEncoder::write_image(
        image::codecs::png::PngEncoder::new(&mut out),
        raw.as_slice(),
        width,
        height,
        image::ExtendedColorType::Rgb8,
    ).unwrap();
    out
}

impl Buffer<Rgba> {
    /// A PNG screenshot of the buffer: its pixels as 8-bit RGB, row by row.
    pub fn to_png(&self) -> (r: Vec<u8>)
        requires
            self.wf(),
            self.spec_width() > 0,
            self.spec_height() > 0,
        ensures
            r@ == png_rgb8(
                rgb_bytes(self.cells()),
                self.spec_width() as u32,
                self.spec_height() as u32,
            ),
    {
        let n = self.data.len();
        let mut raw: Vec<u8> = Vec::new();
        let mut i: usize = 0;
        while i < n
            invariant
                n == self.data@.len(),
                i <= n,
                raw@ == rgb_bytes(self.data@.take(i as int)),
            decreases n - i,
        {
            let p = self.data[i];
            raw.push(p.r);
            raw.push(p.g);
            raw.push(p.b);
            assert(self.data@.take(i + 1).drop_last() == self.data@.take(i as int));
            assert(raw@ == rgb_bytes(self.data@.take(i + 1)));
            i += 1;
        }
        assert(self.data@.take(n as int) == self.data@);
        proof {
            lemma_rgb_bytes_len(self.data@);
            let w = self.width as int;
            let h = self.height as int;
            assert(3 * (w * h) == 3 * w * h) by (nonlinear_arith);
        }
        encode_png_rgb8(&raw, self.width, self.height)
    }
}

/// Something that gives a cell for each position.
pub trait Field<P> {
    /// The cell at position `(x, y)`.
    spec fn field_at(&self, x: i32, y: i32) -> P;

    fn get(&self, pos: [i32; 2]) -> (r: P)
        ensures
            r == self.field_at(pos[0], pos[1]),
    ;
}

/// Cell of a buffer at a position: the stored cell inside the buffer, blank
/// outside.
pub open spec fn buffer_at<P: Pixel>(b: Buffer<P>, x: i32, y: i32) -> P {
    let w = b.spec_width() as int;
    let h = b.spec_height() as int;
    if 0 <= x < w && 0 <= y < h && y * w + x < b.cells().len() {
        b.cells()[y * w + x]
    } else {
        P::spec_blank()
    }
}

impl<P: Pixel> Buffer<P> {
    /// The cell at a position, blank outside the buffer.
    fn cell_at(&self, pos: [i32; 2]) -> (r: P)
        ensures
            r == buffer_at(*self, pos[0], pos[1]),
    {
        let x = pos[0];
        let y = pos[1];
        if 0 <= x && (x as u32) < self.width && 0 <= y && (y as u32) < self.height {
            let xi = x as u64;
            let yi = y as u64;
            let w = self.width as u64;
            let h = self.height as u64;
            assert(yi * w + xi < w * h && w * h <= u32::MAX * u32::MAX) by (nonlinear_arith)
                requires
                    xi < w,
                    yi < h,
                    w <= u32::MAX,
                    h <= u32::MAX,
            ;
            let idx = yi * w + xi;
            if idx < self.data.len() as u64 {
                return self.data[idx as usize];
            }
        }
        P::blank()
    }
}

impl<P: Pixel> Field<P> for Buffer<P> {
    open spec fn field_at(&self, x: i32, y: i32) -> P {
        buffer_at(*self, x, y)
    }

    /// The cell at a position, blank outside the buffer.
    fn get(&self, pos: [i32; 2]) -> (r: P) {
        self.cell_at(pos)
    }
}

impl<'a, P: Pixel> Field<P> for &'a Buffer<P> {
    open spec fn field_at(&self, x: i32, y: i32) -> P {
        buffer_at(**self, x, y)
    }

    /// The cell at a position, blank outside the buffer.
    fn get(&self, pos: [i32; 2]) -> (r: P) {
        (**self).cell_at(pos)
    }
}

} // verus!
