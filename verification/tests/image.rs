use magog::buffer::{Buffer, CharCell, Field, Pixel};
use magog::geom::{ivec2, Rect};
use magog::image::{is_control, trim, Font, Image, MISSING};

fn cell(c: u16) -> CharCell {
    CharCell { c, foreground: 7, background: 0 }
}

/// A 6x2 sheet: columns 0..3 hold letters, 3..6 are blank.
fn sheet() -> Buffer<CharCell> {
    Buffer::from_fn(6, 2, |x, y| if x < 3 { cell((b'a' as i32 + y * 3 + x) as u16) } else { CharCell::blank() })
}

#[test]
fn image_reads_through_its_window() {
    let b = sheet();
    let img = Image::new(&b, Rect::new(ivec2(1, 0), ivec2(5, 2)));
    assert_eq!(img.get([0, 0]).c, b'b' as u16);
    assert_eq!(img.get([1, 1]).c, b'f' as u16);
    assert_eq!(img.get([3, 0]), CharCell::blank());
    assert_eq!(img.dim(), ivec2(4, 2));
    assert_eq!((img.width(), img.height()), (4, 2));
    assert_eq!(img.area(), Rect::new(ivec2(0, 0), ivec2(4, 2)));
    let col: Vec<u16> = img.column(1).iter().map(|c| c.c).collect();
    assert_eq!(col, vec![b'c' as u16, b'f' as u16]);
    let row: Vec<u16> = img.row(0).iter().map(|c| c.c).collect();
    assert_eq!(row, vec![b'b' as u16, b'c' as u16, 0, 0]);
    // Outside the buffer the field is blank.
    assert_eq!(img.get([10, 10]), CharCell::blank());
    assert_eq!(b.get([5, 0]), CharCell::blank());
}

#[test]
fn set_area_is_relative_to_the_window() {
    let b = sheet();
    let mut img = Image::new(&b, Rect::new(ivec2(1, 0), ivec2(5, 2)));
    img.set_area(Rect::new(ivec2(1, 1), ivec2(2, 2)));
    assert_eq!(img.get([0, 0]).c, b'f' as u16);
    assert_eq!(img.dim(), ivec2(1, 1));
}

#[test]
fn trim_right_drops_blank_columns() {
    let b = sheet();
    let mut img = Image::new(&b, Rect::new(ivec2(0, 0), ivec2(6, 2)));
    img.trim_right();
    assert_eq!(img.width(), 3);
    assert_eq!(img.height(), 2);
    // A window with nothing in it shrinks to nothing.
    let mut blank = Image::new(&b, Rect::new(ivec2(3, 0), ivec2(6, 2)));
    blank.trim_right();
    assert_eq!(blank.width(), 0);
}

#[test]
fn trim_keeps_half_width_for_empty_glyphs() {
    let b = sheet();
    let mut g = Image::new(&b, Rect::new(ivec2(2, 0), ivec2(6, 2)));
    trim(&mut g);
    assert_eq!(g.width(), 1);
    let mut space = Image::new(&b, Rect::new(ivec2(3, 0), ivec2(6, 2)));
    trim(&mut space);
    assert_eq!(space.width(), 1);
    assert_eq!(space.height(), 2);
}

fn text_font(b: &Buffer<CharCell>) -> Font<CharCell, &Buffer<CharCell>> {
    let glyphs = (0..96).map(|x| Image::new(b, Rect::new(ivec2(x, 0), ivec2(x + 1, 1)))).collect();
    Font::new(glyphs)
}

#[test]
fn font_indexes_printable_characters() {
    let b: Buffer<CharCell> = Buffer::from_fn(96, 1, |x, _| cell((x + 32) as u16));
    let f = text_font(&b);
    assert_eq!(f.idx(' '), Some(0));
    assert_eq!(f.idx('A'), Some(33));
    assert_eq!(f.idx('\n'), None);
    assert_eq!(f.idx('\u{85}'), None);
    // Past the end of the font the missing-glyph stands in.
    assert_eq!(f.idx('é'), Some(MISSING as usize - 32));
    assert_eq!(f.height(), 1);
    assert_eq!(f.width("Hi!\n"), 3);
    assert!(is_control('\u{7f}'));
    assert!(!is_control('a'));
}
