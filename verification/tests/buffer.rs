use magog::buffer::{Buffer, CharCell, Field, Pixel, Rgba};

const CYAN: Rgba = Rgba { r: 0, g: 0xff, b: 0xff, a: 0xff };
const RED: Rgba = Rgba { r: 0xff, g: 0, b: 0, a: 0xff };

#[test]
fn new_buffer_is_blank() {
    let b: Buffer<Rgba> = Buffer::new(3, 2);
    assert_eq!(b.width(), 3);
    assert_eq!(b.height(), 2);
    assert_eq!(b.data().len(), 6);
    assert!(b.data().iter().all(|p| p.is_transparent()));
}

#[test]
fn from_fn_fills_rows() {
    let b = Buffer::from_fn(3, 2, |x, y| CharCell { c: (y * 10 + x) as u16, foreground: 1, background: 0 });
    let cs: Vec<u16> = b.data().iter().map(|c| c.c).collect();
    assert_eq!(cs, vec![0, 1, 2, 10, 11, 12]);
    assert_eq!(b.get([2, 1]).c, 12);
    assert_eq!(b.get([3, 1]), CharCell::blank());
    assert_eq!(b.get([-1, 0]), CharCell::blank());
}

#[test]
fn key_color_becomes_transparent() {
    let mut b = Buffer::from_fn(2, 2, |x, _| if x == 0 { CYAN } else { RED });
    b.set_key_to_transparent(CYAN);
    assert_eq!(b.data(), &[Rgba::blank(), RED, Rgba::blank(), RED]);
}

#[test]
fn data_mut_writes_through() {
    let mut b: Buffer<Rgba> = Buffer::new(2, 1);
    b.data_mut()[1] = RED;
    assert_eq!(b.get([1, 0]), RED);
}

#[test]
fn pixel_operations() {
    let mut p = Rgba { r: 10, g: 20, b: 30, a: 40 };
    p.invert();
    assert_eq!(p, Rgba { r: 245, g: 235, b: 225, a: 40 });
    assert_eq!(p.colorize(RED), RED);
    let mut c = CharCell { c: 65, foreground: 7, background: 0 };
    c.invert();
    assert_eq!(c, CharCell { c: 65, foreground: 0, background: 7 });
    assert_eq!(c.colorize((3, 4)), CharCell { c: 65, foreground: 3, background: 4 });
    assert!(!c.is_transparent());
}

#[test]
fn png_screenshot_holds_the_pixels() {
    let b = Buffer::from_fn(2, 3, |x, y| Rgba { r: (x * 100) as u8, g: (y * 50) as u8, b: 7, a: 0x10 });
    let png = b.to_png();
    assert_eq!(&png[..8], &[137u8, 80, 78, 71, 13, 10, 26, 10]);
    let img = image::load_from_memory(&png).unwrap().to_rgb8();
    assert_eq!((img.width(), img.height()), (2, 3));
    for y in 0..3u32 {
        for x in 0..2u32 {
            assert_eq!(img.get_pixel(x, y).0, [(x * 100) as u8, (y * 50) as u8, 7]);
        }
    }
}
