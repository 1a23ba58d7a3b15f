//! Rectangular views into fields of cells, and fonts made of such views.

use vstd::prelude::*;

use std::marker::PhantomData;

use crate::buffer::{Field, Pixel};
use crate::geom::{IVec2, Rect, in_i32, ivec2, spec_ivec2};
use crate::text::chars_of;

verus! {

/// A rectangular window into a field of cells.
pub struct Image<P, F> {
    field: F,
    bounds: Rect,
    phantom: PhantomData<P>,
}

impl<P, F> Image<P, F> {
    /// The field the image looks into.
    pub closed spec fn spec_field(&self) -> F {
        self.field
    }

    /// The window on the field.
    pub closed spec fn spec_bounds(&self) -> Rect {
        self.bounds
    }
}

/// The window's width and height fit the `i32` range.
pub open spec fn dims_fit(b: Rect) -> bool {
    in_i32(b.spec_width()) && in_i32(b.spec_height())
}

/// Cell at `(x, y)` of an image, counted from the window's corner.
pub open spec fn image_at<P, F: Field<P>>(img: Image<P, F>, x: int, y: int) -> P {
    img.spec_field().field_at(
        (x + img.spec_bounds().min.x) as i32,
        (y + img.spec_bounds().min.y) as i32,
    )
}

/// Column `x` of the image holds only transparent cells.
pub open spec fn column_clear<P: Pixel, F: Field<P>>(img: Image<P, F>, x: int) -> bool {
    forall|y: int| 0 <= y < img.spec_bounds().spec_height() ==> (#[trigger] image_at(img, x, y)).spec_transparent()
}

/// Every cell of the window lies at a position in the `i32` range.
pub open spec fn window_fits(b: Rect) -> bool {
    &&& dims_fit(b)
    &&& b.min.x <= b.max.x
    &&& b.min.y <= b.max.y
}

impl<P: Pixel, F: Field<P>> Image<P, F> {
    pub fn new(field: F, bounds: Rect) -> (r: Self)
        ensures
            r.spec_field() == field,
            r.spec_bounds() == bounds,
    {
        Image { field, bounds, phantom: PhantomData }
    }

    /// The cell at a position counted from the window's corner.
    pub fn get(&self, pos: [i32; 2]) -> (r: P)
        requires
            in_i32(pos[0] + self.spec_bounds().min.x),
            in_i32(pos[1] + self.spec_bounds().min.y),
        ensures
            r == image_at(*self, pos[0] as int, pos[1] as int),
    {
        let x = pos[0] + self.bounds.min.x;
        let y = pos[1] + self.bounds.min.y;
        self.field.get([x, y])
    }

    /// Width and height of the window.
    pub fn dim(&self) -> (r: IVec2)
        requires
            dims_fit(self.spec_bounds()),
        ensures
            r == spec_ivec2(self.spec_bounds().spec_width(), self.spec_bounds().spec_height()),
    {
        ivec2(self.bounds.width(), self.bounds.height())
    }

    pub fn width(&self) -> (r: i32)
        requires
            dims_fit(self.spec_bounds()),
        ensures
            r == self.spec_bounds().spec_width(),
    {
        self.bounds.width()
    }

    pub fn height(&self) -> (r: i32)
        requires
            dims_fit(self.spec_bounds()),
        ensures
            r == self.spec_bounds().spec_height(),
    {
        self.bounds.height()
    }

    /// The window's rectangle moved to the origin.
    pub fn area(&self) -> (r: Rect)
        requires
            dims_fit(self.spec_bounds()),
        ensures
            r.min == spec_ivec2(0, 0),
            r.max == spec_ivec2(self.spec_bounds().spec_width(), self.spec_bounds().spec_height()),
    {
        Rect::sized(self.dim())
    }

    /// The cells of column `x`, top to bottom.
    pub fn column(&self, x: i32) -> (r: Vec<P>)
        requires
            window_fits(self.spec_bounds()),
            in_i32(x + self.spec_bounds().min.x),
        ensures
            r@.len() == self.spec_bounds().spec_height(),
            forall|y: int| 0 <= y < r@.len() ==> #[trigger] r@[y] == image_at(*self, x as int, y),
    {
        let h = self.height();
        let mut out: Vec<P> = Vec::new();
        let mut y: i32 = 0;
        while y < h
            invariant
                window_fits(self.spec_bounds()),
                in_i32(x + self.spec_bounds().min.x),
                h == self.spec_bounds().spec_height(),
                0 <= y <= h,
                out@.len() == y,
                forall|k: int| 0 <= k < y ==> #[trigger] out@[k] == image_at(*self, x as int, k),
            decreases h - y,
        {
            out.push(self.get([x, y]));
            y += 1;
        }
        out
    }

    /// The cells of row `y`, left to right.
    pub fn row(&self, y: i32) -> (r: Vec<P>)
        requires
            window_fits(self.spec_bounds()),
            in_i32(y + self.spec_bounds().min.y),
        ensures
            r@.len() == self.spec_bounds().spec_width(),
            forall|x: int| 0 <= x < r@.len() ==> #[trigger] r@[x] == image_at(*self, x, y as int),
    {
        let w = self.width();
        let mut out: Vec<P> = Vec::new();
        let mut x: i32 = 0;
        while x < w
            invariant
                window_fits(self.spec_bounds()),
                in_i32(y + self.spec_bounds().min.y),
                w == self.spec_bounds().spec_width(),
                0 <= x <= w,
                out@.len() == x,
                forall|k: int| 0 <= k < x ==> #[trigger] out@[k] == image_at(*self, k, y as int),
            decreases w - x,
        {
            out.push(self.get([x, y]));
            x += 1;
        }
        out
    }

    /// Move the window to `rect`, given relative to its current corner.
    pub fn set_area(&mut self, rect: Rect)
        requires
            rect.min.can_add(old(self).spec_bounds().min),
            rect.max.can_add(old(self).spec_bounds().min),
        ensures
            final(self).spec_field() == old(self).spec_field(),
            final(self).spec_bounds().min == rect.min.plus(old(self).spec_bounds().min),
            final(self).spec_bounds().max == rect.max.plus(old(self).spec_bounds().min),
    {
        self.bounds = rect.offset(self.bounds.min);
    }

    /// Whether column `x` holds only transparent cells.
    fn is_column_clear(&self, x: i32) -> (r: bool)
        requires
            window_fits(self.spec_bounds()),
            0 <= x < self.spec_bounds().spec_width(),
        ensures
            r == column_clear(*self, x as int),
    {
        let col = self.column(x);
        let n = col.len();
        let mut i: usize = 0;
        while i < n
            invariant
                n == col@.len(),
                n == self.spec_bounds().spec_height(),
                i <= n,
                forall|k: int| 0 <= k < col@.len() ==> #[trigger] col@[k] == image_at(*self, x as int, k),
                forall|k: int| 0 <= k < i ==> (#[trigger] image_at(*self, x as int, k)).spec_transparent(),
            decreases n - i,
        {
            if !col[i].is_transparent() {
                assert(col@[i as int] == image_at(*self, x as int, i as int));
                return false;
            }
            assert(col@[i as int] == image_at(*self, x as int, i as int));
            i += 1;
        }
        true
    }

    /// Narrow the window from the right past the columns that hold only
    /// transparent cells.
    pub fn trim_right(&mut self)
        requires
            window_fits(old(self).spec_bounds()),
        ensures
            final(self).spec_field() == old(self).spec_field(),
            final(self).spec_bounds().min == old(self).spec_bounds().min,
            final(self).spec_bounds().max.y == old(self).spec_bounds().max.y,
            old(self).spec_bounds().min.x <= final(self).spec_bounds().max.x <= old(self).spec_bounds().max.x,
            forall|x: int|
                final(self).spec_bounds().spec_width() <= x < old(self).spec_bounds().spec_width()
                    ==> column_clear(*old(self), x),
            final(self).spec_bounds().spec_width() > 0 ==> !column_clear(
                *old(self),
                final(self).spec_bounds().spec_width() - 1,
            ),
    {
        let w0 = self.width();
        let mut w = w0;
        while w > 0 && self.is_column_clear(w - 1)
            invariant
                window_fits(self.spec_bounds()),
                w0 == self.spec_bounds().spec_width(),
                0 <= w <= w0,
                forall|x: int| w <= x < w0 ==> column_clear(*self, x),
            decreases w,
        {
            w -= 1;
        }
        let h = self.height();
        self.set_area(Rect::sized(ivec2(w, h)));
    }
}

/// Cell stand-in for a printable character missing from a font.
pub const MISSING: char = '?';

/// Control characters: the Unicode general category `Cc`.
pub open spec fn spec_is_control(c: char) -> bool {
    (c as u32) <= 0x1f || (0x7f <= (c as u32) && (c as u32) <= 0x9f)
}

/// Whether a character is a control character, as `char::is_control`
/// tells.
pub fn is_control(c: char) -> (r: bool)
    ensures
        r == spec_is_control(c),
{
    let n = c as u32;
    n <= 0x1f || (0x7f <= n && n <= 0x9f)
}

/// Glyph index of a character in a font of `len` glyphs starting at the
/// space character: none for control characters, the `MISSING` glyph for
/// printable characters past the end of the font.
pub open spec fn glyph_index(c: char, len: int) -> Option<int> {
    if spec_is_control(c) || (c as u32) < 32 {
        None
    } else if (c as u32) - 32 >= len {
        Some(('?' as u32) - 32)
    } else {
        Some((c as u32) - 32)
    }
}

/// Glyphs run from the space character on, one per character code: the
/// space has the first glyph, each printable character within the font the
/// glyph one past that of the character before it, a printable character
/// past the font's end the glyph of `?`, and control characters none.
pub proof fn lemma_glyph_lookup(c: char, len: int)
    requires
        len > 31,
    ensures
        glyph_index(' ', len) == Some(0int),
        glyph_index(c, len) is None <==> spec_is_control(c),
        !spec_is_control(c) && (c as u32) - 32 < len ==> glyph_index(c, len) == Some(
            (c as u32) - (' ' as u32),
        ),
        !spec_is_control(c) && (c as u32) - 32 >= len ==> glyph_index(c, len) == glyph_index(
            '?',
            len,
        ),
{
}

/// A font: glyph images for the characters from the space on.
pub struct Font<P, F>(pub Vec<Image<P, F>>);

/// Width of text set in a font, glyph by glyph.
pub open spec fn text_width<P, F>(glyphs: Seq<Image<P, F>>, s: Seq<char>) -> int
    decreases s.len(),
{
    if s.len() == 0 {
        0
    } else {
        text_width(glyphs, s.drop_last()) + match glyph_index(s.last(), glyphs.len() as int) {
            Some(i) => glyphs[i].spec_bounds().spec_width(),
            None => 0,
        }
    }
}

/// A single character is as wide as its glyph's image; a character with no
/// glyph takes no width.
pub proof fn lemma_char_width<P, F>(glyphs: Seq<Image<P, F>>, c: char)
    ensures
        glyph_index(c, glyphs.len() as int) matches Some(i) ==> text_width(glyphs, seq![c])
            == glyphs[i].spec_bounds().spec_width(),
        glyph_index(c, glyphs.len() as int) is None ==> text_width(glyphs, seq![c]) == 0,
{
    assert(seq![c].drop_last() =~= Seq::<char>::empty());
    assert(text_width(glyphs, Seq::<char>::empty()) == 0);
    assert(text_width(glyphs, seq![c].drop_last()) == 0);
    assert(seq![c].last() == c);
}

/// The width of two texts set one after the other is the sum of their
/// widths.
pub proof fn lemma_width_concat<P, F>(glyphs: Seq<Image<P, F>>, s: Seq<char>, t: Seq<char>)
    ensures
        text_width(glyphs, s + t) == text_width(glyphs, s) + text_width(glyphs, t),
    decreases t.len(),
{
    if t.len() == 0 {
        assert(s + t =~= s);
    } else {
        lemma_width_concat(glyphs, s, t.drop_last());
        assert((s + t).drop_last() =~= s + t.drop_last());
        assert((s + t).last() == t.last());
    }
}

/// The width of a text is the sum of the widths of its characters' glyphs:
/// appending a character adds exactly its glyph's width.
pub proof fn lemma_width_push<P, F>(glyphs: Seq<Image<P, F>>, s: Seq<char>, c: char)
    ensures
        glyph_index(c, glyphs.len() as int) matches Some(i) ==> text_width(glyphs, s.push(c))
            == text_width(glyphs, s) + glyphs[i].spec_bounds().spec_width(),
{
    lemma_width_concat(glyphs, s, seq![c]);
    lemma_char_width(glyphs, c);
    assert(s + seq![c] =~= s.push(c));
}

/// Every glyph that the text uses is in the font, with a width in the
/// `i32` range, and every partial sum of the text's width is in that range.
pub open spec fn text_fits<P, F>(glyphs: Seq<Image<P, F>>, s: Seq<char>) -> bool {
    &&& forall|k: int|
        0 <= k < s.len() ==> (glyph_index(#[trigger] s[k], glyphs.len() as int) matches Some(i) ==> i
            < glyphs.len() && dims_fit(glyphs[i].spec_bounds()))
    &&& forall|k: int| 0 <= k <= s.len() ==> in_i32(#[trigger] text_width(glyphs, s.take(k)))
}

impl<P: Pixel, F: Field<P>> Font<P, F> {
    /// A font of the given glyphs, which cover at least the characters from
    /// the space to `'Z'` and are all of one height.
    pub fn new(glyphs: Vec<Image<P, F>>) -> (r: Self)
        requires
            glyphs@.len() > ('Z' as u32) - (' ' as u32),
            forall|i: int|
                0 <= i < glyphs@.len() ==> (#[trigger] glyphs@[i]).spec_bounds().spec_height()
                    == glyphs@[0].spec_bounds().spec_height(),
        ensures
            r.0@ == glyphs@,
    {
        Font(glyphs)
    }

    /// Glyph index for a printable character; printable characters the
    /// font does not cover get the `MISSING` glyph.
    pub fn idx(&self, c: char) -> (r: Option<usize>)
        ensures
            r matches Some(i) ==> glyph_index(c, self.0@.len() as int) == Some(i as int),
            r is None ==> glyph_index(c, self.0@.len() as int) is None,
    {
        let n = c as u32;
        if is_control(c) || n < 32 {
            return None;
        }
        let k = (n - 32) as usize;
        if k >= self.0.len() {
            Some(((MISSING as u32) - 32) as usize)
        } else {
            Some(k)
        }
    }

    /// Height of the glyphs.
    pub fn height(&self) -> (r: i32)
        requires
            self.0@.len() > 0,
            dims_fit(self.0@[0].spec_bounds()),
        ensures
            r == self.0@[0].spec_bounds().spec_height(),
    {
        self.0[0].height()
    }

    /// Width of a text set in the font; control characters take no room.
    pub fn width(&self, s: &str) -> (r: i32)
        requires
            text_fits(self.0@, s@),
        ensures
            r == text_width(self.0@, s@),
    {
        let cs = chars_of(s);
        let n = cs.len();
        let mut total: i32 = 0;
        let mut k: usize = 0;
        assert(s@.take(0) =~= Seq::<char>::empty());
        while k < n
            invariant
                cs@ == s@,
                n == cs@.len(),
                k <= n,
                text_fits(self.0@, s@),
                total == text_width(self.0@, s@.take(k as int)),
            decreases n - k,
        {
            let c = cs[k];
            assert(s@.take(k + 1).drop_last() == s@.take(k as int));
            assert(s@.take(k + 1).last() == c);
            assert(in_i32(text_width(self.0@, s@.take(k + 1))));
            match self.idx(c) {
                Some(i) => {
                    assert(s@[k as int] == c);
                    let gw = self.0[i].width();
                    total = total + gw;
                },
                None => {},
            }
            k += 1;
        }
        assert(s@.take(n as int) == s@);
        total
    }
}

/// Trim a glyph's window up to its right margin; a glyph with nothing in it
/// keeps half its width.
pub fn trim<P: Pixel, F: Field<P>>(ch: &mut Image<P, F>)
    requires
        window_fits(old(ch).spec_bounds()),
    ensures
        final(ch).spec_field() == old(ch).spec_field(),
        final(ch).spec_bounds().min == old(ch).spec_bounds().min,
        final(ch).spec_bounds().max.y == old(ch).spec_bounds().max.y,
        ({
            let w0 = old(ch).spec_bounds().spec_width();
            let w = final(ch).spec_bounds().spec_width();
            &&& (forall|x: int| 0 <= x < w0 ==> column_clear(*old(ch), x)) ==> w == w0 / 2
            &&& (exists|x: int| 0 <= x < w0 && !column_clear(*old(ch), x)) ==> {
                &&& 0 < w <= w0
                &&& !column_clear(*old(ch), w - 1)
                &&& forall|x: int| w <= x < w0 ==> column_clear(*old(ch), x)
            }
        }),
{
    let fallback = ch.width() / 2;
    ch.trim_right();
    if ch.width() == 0 {
        let h = ch.height();
        ch.set_area(Rect::sized(ivec2(fallback, h)));
    }
}

} // verus!
