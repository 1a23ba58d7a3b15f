//! Compact text encoding of point sets as braille bitmaps, one patch per
//! sector slice.
//!
//! Each braille character holds a 2x4 block of points; a patch is a grid of
//! such characters, one line per row, anchored at its key location.

use vstd::prelude::*;

use crate::geom::{IVec2, IVec3, ivec2, ivec3, spec_ivec2, spec_ivec3};
use crate::location::{SECTOR_HEIGHT, SECTOR_WIDTH, spec_sector};
use crate::patch::cursor;
use crate::patch_text::from_points_inclusive;
use crate::text::{is_whitespace, spec_is_whitespace};

verus! {

/// Position of bit `p` of a braille character within its 2x4 block.
pub open spec fn braille_off(p: int) -> (int, int) {
    if p == 0 {
        (0, 0)
    } else if p == 1 {
        (0, 1)
    } else if p == 2 {
        (0, 2)
    } else if p == 3 {
        (1, 0)
    } else if p == 4 {
        (1, 1)
    } else if p == 5 {
        (1, 2)
    } else if p == 6 {
        (0, 3)
    } else {
        (1, 3)
    }
}

fn braille_offset(p: u32) -> (r: IVec2)
    requires
        p < 8,
    ensures
        r.x == braille_off(p as int).0,
        r.y == braille_off(p as int).1,
{
    if p == 0 {
        ivec2(0, 0)
    } else if p == 1 {
        ivec2(0, 1)
    } else if p == 2 {
        ivec2(0, 2)
    } else if p == 3 {
        ivec2(1, 0)
    } else if p == 4 {
        ivec2(1, 1)
    } else if p == 5 {
        ivec2(1, 2)
    } else if p == 6 {
        ivec2(0, 3)
    } else {
        ivec2(1, 3)
    }
}

/// Whether bit `p` of a bitmask is set.
pub open spec fn bit_set(b: u32, p: int) -> bool {
    (b & (1u32 << (p as u32))) != 0
}

/// Bit pattern of a braille character; any other character reads as a
/// full block.
pub open spec fn char_bits(c: char) -> u32 {
    let n = c as u32;
    if 0x2800 <= n && n < 0x2900 {
        (n - 0x2800) as u32
    } else {
        0xff
    }
}

/// Points of the first `k` bits of a character whose block starts at
/// `base`.
pub open spec fn char_points(base: IVec3, c: char, k: int) -> Seq<IVec3>
    decreases k,
{
    if k <= 0 {
        Seq::empty()
    } else {
        let prev = char_points(base, c, k - 1);
        if bit_set(char_bits(c), k - 1) {
            prev.push(
                spec_ivec3(
                    base.x + braille_off(k - 1).0,
                    base.y + braille_off(k - 1).1,
                    base.z as int,
                ),
            )
        } else {
            prev
        }
    }
}

/// Origin of the block of the character at text grid position `(x, y)`.
pub open spec fn block_base(key: IVec3, xy: (int, int)) -> IVec3 {
    spec_ivec3(key.x + 2 * xy.0, key.y + 4 * xy.1, key.z as int)
}

/// Points encoded by the first `n` characters of a patch text.
pub open spec fn text_points(key: IVec3, text: Seq<char>, n: int) -> Seq<IVec3>
    decreases n,
{
    if n <= 0 {
        Seq::empty()
    } else {
        let prev = text_points(key, text, n - 1);
        if spec_is_whitespace(text[n - 1]) {
            prev
        } else {
            prev + char_points(block_base(key, cursor(text, n - 1)), text[n - 1], 8)
        }
    }
}

/// Points encoded by a sequence of patches, in order.
pub open spec fn atlas_points(e: Seq<(IVec3, Seq<char>)>) -> Seq<IVec3>
    decreases e.len(),
{
    if e.len() == 0 {
        Seq::empty()
    } else {
        atlas_points(e.drop_last()) + text_points(e.last().0, e.last().1, e.last().1.len() as int)
    }
}

/// Patch keys far enough inside the `i32` range that the points of a
/// patch text of up to 4095 characters, at most two cells per character
/// across and four down, are `i32` coordinates.
pub open spec fn small_loc(l: IVec3) -> bool {
    -0x7FFF_B000 <= l.x <= 0x7FFF_B000 && -0x7FFF_B000 <= l.y <= 0x7FFF_B000
}

/// A set of points encoded as braille patches keyed by location.
pub struct BitAtlas {
    entries: Vec<(IVec3, Vec<char>)>,
}

/// Patches as keys and character sequences.
pub open spec fn entries_view(e: Seq<(IVec3, Vec<char>)>) -> Seq<(IVec3, Seq<char>)> {
    e.map_values(|x: (IVec3, Vec<char>)| (x.0, x.1@))
}

impl BitAtlas {
    pub closed spec fn patches(&self) -> Seq<(IVec3, Seq<char>)> {
        entries_view(self.entries@)
    }

    /// Patches small enough to decode without overflow: keys well inside the
    /// `i32` range and texts of fewer than 4096 characters (an encoded sector
    /// slice takes at most 250).
    pub open spec fn decodable(&self) -> bool {
        forall|i: int|
            0 <= i < self.patches().len() ==> small_loc((#[trigger] self.patches()[i]).0)
                && self.patches()[i].1.len() < 0x0000_1000
    }

    /// Iterate the points of the atlas.
    pub fn points(&self) -> (r: Vec<IVec3>)
        requires
            self.decodable(),
        ensures
            r@ == atlas_points(self.patches()),
    {
        let mut out: Vec<IVec3> = Vec::new();
        let n = self.entries.len();
        let mut i: usize = 0;
        while i < n
            invariant
                n == self.patches().len(),
                i <= n,
                self.decodable(),
                out@ == atlas_points(self.patches().take(i as int)),
            decreases n - i,
        {
            let key = self.entries[i].0;
            let text = &self.entries[i].1;
            assert(self.patches()[i as int] == (key, text@));
            assert(self.patches().take(i + 1).drop_last() == self.patches().take(i as int));
            let ghost before = out@;
            let m = text.len();
            let mut j: usize = 0;
            let mut x: i32 = 0;
            let mut y: i32 = 0;
            while j < m
                invariant
                    m == text@.len(),
                    m < 0x0000_1000,
                    small_loc(key),
                    j <= m,
                    (x as int, y as int) == cursor(text@, j as int),
                    out@ == before + text_points(key, text@, j as int),
                decreases m - j,
            {
                proof {
                    crate::patch::lemma_cursor_bound(text@, j as int);
                }
                let c = text[j];
                if !is_whitespace(c) {
                    let n = c as u32;
                    let bits: u32 = if 0x2800 <= n && n < 0x2900 {
                        n - 0x2800
                    } else {
                        0xff
                    };
                    let bx = key.x + 2 * x;
                    let by = key.y + 4 * y;
                    let ghost base = block_base(key, cursor(text@, j as int));
                    let ghost mid = out@;
                    let mut p: u32 = 0;
                    while p < 8
                        invariant
                            p <= 8,
                            bits == char_bits(c),
                            base == spec_ivec3(bx as int, by as int, key.z as int),
                            -0x7FFF_B000 <= bx <= 0x7FFF_FF00,
                            -0x7FFF_B000 <= by <= 0x7FFF_FF00,
                            out@ == mid + char_points(base, c, p as int),
                        decreases 8 - p,
                    {
                        if bits & (1u32 << p) != 0 {
                            let o = braille_offset(p);
                            out.push(ivec3(bx + o.x, by + o.y, key.z));
                        }
                        p += 1;
                    }
                }
                if c == '\n' {
                    x = 0;
                    y = y + 1;
                } else {
                    x = x + 1;
                }
                j += 1;
            }
            i += 1;
        }
        assert(self.patches().take(n as int) == self.patches());
        out
    }
}


/// Point of bit `p` of the block at grid position `(u, v)` of a patch.
pub open spec fn cell_pt(key: IVec3, u: int, v: int, p: int) -> IVec3 {
    spec_ivec3(key.x + 2 * u + braille_off(p).0, key.y + 4 * v + braille_off(p).1, key.z as int)
}

/// Relative bin point of bit `p` of the block at grid position `(u, v)`.
pub open spec fn bin_pt(bmin: IVec2, u: int, v: int, p: int) -> IVec2 {
    spec_ivec2(bmin.x + 2 * u + braille_off(p).0, bmin.y + 4 * v + braille_off(p).1)
}

/// The block bits of the cells before `(u, v)` in row-major order cover the
/// point `q`.
pub open spec fn in_done(
    key: IVec3,
    bmin: IVec2,
    bin: Seq<IVec2>,
    pw: int,
    u: int,
    v: int,
    q: IVec3,
) -> bool {
    exists|u2: int, v2: int, p: int|
        0 <= u2 < pw && 0 <= v2 && (v2 < v || (v2 == v && u2 < u)) && 0 <= p < 8 && q
            == #[trigger] cell_pt(key, u2, v2, p) && bin.contains(bin_pt(bmin, u2, v2, p))
}

proof fn lemma_char_points(base: IVec3, c: char, k: int, q: IVec3)
    requires
        0 <= k <= 8,
    ensures
        char_points(base, c, k).contains(q) <==> exists|p: int|
            0 <= p < k && bit_set(char_bits(c), p) && q == spec_ivec3(
                base.x + braille_off(p).0,
                base.y + braille_off(p).1,
                base.z as int,
            ),
    decreases k,
{
    if k > 0 {
        lemma_char_points(base, c, k - 1, q);
        let prev = char_points(base, c, k - 1);
        let pt = spec_ivec3(
            base.x + braille_off(k - 1).0,
            base.y + braille_off(k - 1).1,
            base.z as int,
        );
        if bit_set(char_bits(c), k - 1) {
            assert(prev.push(pt).contains(q) <==> (prev.contains(q) || q == pt)) by {
                if prev.push(pt).contains(q) {
                    let i = choose|i: int| 0 <= i < prev.push(pt).len() && prev.push(pt)[i] == q;
                    if i < prev.len() {
                        assert(prev[i] == q);
                    }
                }
                if prev.contains(q) {
                    let i = choose|i: int| 0 <= i < prev.len() && prev[i] == q;
                    assert(prev.push(pt)[i] == q);
                }
                if q == pt {
                    assert(prev.push(pt)[prev.len() as int] == q);
                }
            }
        }
    }
}

proof fn lemma_pack_bits(b: Seq<bool>, bits: u32, p: u32)
    requires
        b.len() == 8,
        p < 8,
        bits == ((if b[0] {
            1u32
        } else {
            0u32
        }) | (if b[1] {
            2u32
        } else {
            0u32
        }) | (if b[2] {
            4u32
        } else {
            0u32
        }) | (if b[3] {
            8u32
        } else {
            0u32
        }) | (if b[4] {
            16u32
        } else {
            0u32
        }) | (if b[5] {
            32u32
        } else {
            0u32
        }) | (if b[6] {
            64u32
        } else {
            0u32
        }) | (if b[7] {
            128u32
        } else {
            0u32
        })),
    ensures
        bits < 256,
        bit_set(bits, p as int) == b[p as int],
{
    let b0 = b[0];
    let b1 = b[1];
    let b2 = b[2];
    let b3 = b[3];
    let b4 = b[4];
    let b5 = b[5];
    let b6 = b[6];
    let b7 = b[7];
    let bp = b[p as int];
    assert(bp == (if p == 0 {
        b0
    } else if p == 1 {
        b1
    } else if p == 2 {
        b2
    } else if p == 3 {
        b3
    } else if p == 4 {
        b4
    } else if p == 5 {
        b5
    } else if p == 6 {
        b6
    } else {
        b7
    }));
    assert(bits < 256 && ((bits & (1u32 << p)) != 0) == (if p == 0 {
        b0
    } else if p == 1 {
        b1
    } else if p == 2 {
        b2
    } else if p == 3 {
        b3
    } else if p == 4 {
        b4
    } else if p == 5 {
        b5
    } else if p == 6 {
        b6
    } else {
        b7
    })) by (bit_vector)
        requires
            p < 8,
            bits == ((if b0 {
                1u32
            } else {
                0u32
            }) | (if b1 {
                2u32
            } else {
                0u32
            }) | (if b2 {
                4u32
            } else {
                0u32
            }) | (if b3 {
                8u32
            } else {
                0u32
            }) | (if b4 {
                16u32
            } else {
                0u32
            }) | (if b5 {
                32u32
            } else {
                0u32
            }) | (if b6 {
                64u32
            } else {
                0u32
            }) | (if b7 {
                128u32
            } else {
                0u32
            })),
    ;
}

/// Calls `char::from_u32`; trusted to give the character with the given
/// scalar value whenever that value is a Unicode scalar value.
#[verifier::external_body]
fn char_from_u32(n: u32) -> (r: Option<char>)
    ensures
        r matches Some(c) ==> c as u32 == n,
        (n < 0xd800 || (0xe000 <= n && n <= 0x10ffff)) ==> r is Some,
{
    char::from_u32(n)
}

fn bin_contains(bin: &Vec<IVec2>, q: IVec2) -> (r: bool)
    ensures
        r == bin@.contains(q),
{
    let n = bin.len();
    let mut i: usize = 0;
    while i < n
        invariant
            n == bin@.len(),
            i <= n,
            forall|j: int| 0 <= j < i ==> bin@[j] != q,
        decreases n - i,
    {
        if bin[i].x == q.x && bin[i].y == q.y {
            assert(bin@[i as int] == q);
            return true;
        }
        i += 1;
    }
    false
}

/// The point `q` is one of the points of the bin, placed at its slice.
#[verifier::opaque]
pub open spec fn in_bin(slice: IVec3, bin: Seq<IVec2>, q: IVec3) -> bool {
    q.z == slice.z && exists|k: int|
        0 <= k < bin.len() && slice.x + (#[trigger] bin[k]).x == q.x && slice.y + bin[k].y == q.y
}

/// The points of a bin, placed at its slice.
pub open spec fn bin_set(slice: IVec3, bin: Seq<IVec2>) -> Set<IVec3> {
    Set::new(|q: IVec3| in_bin(slice, bin, q))
}

/// The points that lie in the sector slice `s`.
pub open spec fn slice_set(points: Seq<IVec3>, s: IVec3) -> Set<IVec3> {
    Set::new(|q: IVec3| points.contains(q) && spec_sector(q) == s)
}

/// The points that lie in any of the given sector slices.
pub open spec fn slices_set(points: Seq<IVec3>, done: Seq<IVec3>) -> Set<IVec3> {
    Set::new(|q: IVec3| points.contains(q) && done.contains(spec_sector(q)))
}

/// A sector slice whose whole area has small coordinates.
pub open spec fn slice_in_range(s: IVec3) -> bool {
    small_loc(s) && s.x + SECTOR_WIDTH <= 0x7FFF_B000 && s.y + SECTOR_HEIGHT <= 0x7FFF_B000
}

/// Points of a bin within one sector: relative to the sector origin.
pub open spec fn bin_ok(bin: Seq<IVec2>) -> bool {
    bin.len() > 0 && forall|i: int|
        0 <= i < bin.len() ==> 0 <= (#[trigger] bin[i]).x < SECTOR_WIDTH && 0 <= bin[i].y
            < SECTOR_HEIGHT
}

/// Encode the points of one sector slice as a braille patch keyed at the
/// corner of their bounding box.
#[verifier::rlimit(40)]
fn encode_bin(slice: IVec3, bin: &Vec<IVec2>) -> (r: (IVec3, Vec<char>))
    requires
        bin_ok(bin@),
        slice_in_range(slice),
    ensures
        small_loc(r.0),
        r.1@.len() < 0x0000_1000,
        text_points(r.0, r.1@, r.1@.len() as int).to_set() == bin_set(slice, bin@),
{
    proof {
        crate::patch_text::lemma_points_in_bounds(bin@);
        crate::patch_text::lemma_points_bounds_within(
            bin@,
            spec_ivec2(0, 0),
            spec_ivec2(SECTOR_WIDTH as int, SECTOR_HEIGHT as int),
        );
    }
    let bounds = from_points_inclusive(bin);
    let bmin = bounds.min;
    let w = bounds.max.x - bounds.min.x;
    let h = bounds.max.y - bounds.min.y;
    let pixel_w = (w + 1) / 2;
    let pixel_h = (h + 3) / 4;
    assert(1 <= pixel_w <= 25 && 1 <= pixel_h <= 11);
    let key = ivec3(slice.x + bmin.x, slice.y + bmin.y, slice.z);
    let mut text: Vec<char> = Vec::new();
    let mut v: i32 = 0;
    while v < pixel_h
        invariant
            bin_ok(bin@),
            slice_in_range(slice),
            key == spec_ivec3(slice.x + bmin.x, slice.y + bmin.y, slice.z as int),
            0 <= bmin.x < SECTOR_WIDTH,
            0 <= bmin.y < SECTOR_HEIGHT,
            1 <= pixel_w <= 25,
            1 <= pixel_h <= 11,
            0 <= v <= pixel_h,
            text@.len() == v * (pixel_w + 1),
            cursor(text@, text@.len() as int) == (0int, v as int),
            forall|q: IVec3|
                text_points(key, text@, text@.len() as int).contains(q) <==> in_done(
                    key,
                    bmin,
                    bin@,
                    pixel_w as int,
                    0,
                    v as int,
                    q,
                ),
        decreases pixel_h - v,
    {
        let mut u: i32 = 0;
        while u < pixel_w
            invariant
                bin_ok(bin@),
                slice_in_range(slice),
                key == spec_ivec3(slice.x + bmin.x, slice.y + bmin.y, slice.z as int),
                0 <= bmin.x < SECTOR_WIDTH,
                0 <= bmin.y < SECTOR_HEIGHT,
                1 <= pixel_w <= 25,
                1 <= pixel_h <= 11,
                0 <= v < pixel_h,
                0 <= u <= pixel_w,
                text@.len() == v * (pixel_w + 1) + u,
                cursor(text@, text@.len() as int) == (u as int, v as int),
                forall|q: IVec3|
                    text_points(key, text@, text@.len() as int).contains(q) <==> in_done(
                        key,
                        bmin,
                        bin@,
                        pixel_w as int,
                        u as int,
                        v as int,
                        q,
                    ),
            decreases pixel_w - u,
        {
            let ox = bmin.x + u * 2;
            let oy = bmin.y + v * 4;
            let b0 = bin_contains(bin, ivec2(ox, oy));
            let b1 = bin_contains(bin, ivec2(ox, oy + 1));
            let b2 = bin_contains(bin, ivec2(ox, oy + 2));
            let b3 = bin_contains(bin, ivec2(ox + 1, oy));
            let b4 = bin_contains(bin, ivec2(ox + 1, oy + 1));
            let b5 = bin_contains(bin, ivec2(ox + 1, oy + 2));
            let b6 = bin_contains(bin, ivec2(ox, oy + 3));
            let b7 = bin_contains(bin, ivec2(ox + 1, oy + 3));
            let bits: u32 = (if b0 {
                1u32
            } else {
                0u32
            }) | (if b1 {
                2u32
            } else {
                0u32
            }) | (if b2 {
                4u32
            } else {
                0u32
            }) | (if b3 {
                8u32
            } else {
                0u32
            }) | (if b4 {
                16u32
            } else {
                0u32
            }) | (if b5 {
                32u32
            } else {
                0u32
            }) | (if b6 {
                64u32
            } else {
                0u32
            }) | (if b7 {
                128u32
            } else {
                0u32
            });
            let ghost bs = seq![b0, b1, b2, b3, b4, b5, b6, b7];
            proof {
                lemma_pack_bits(bs, bits, 0);
                assert forall|p: int| 0 <= p < 8 implies bit_set(bits, p) == bin@.contains(
                    #[trigger] bin_pt(bmin, u as int, v as int, p),
                ) by {
                    lemma_pack_bits(bs, bits, p as u32);
                }
            }
            let c = match char_from_u32(0x2800 + bits) {
                Some(c) => c,
                None => ' ',
            };
            let ghost old_text = text@;
            text.push(c);
            proof {
                assert(char_bits(c) == bits);
                assert(!spec_is_whitespace(c));
                assert(text@.drop_last() == old_text);
                assert forall|k: int| 0 <= k < old_text.len() implies cursor(text@, k) == cursor(
                    old_text,
                    k,
                ) by {
                    lemma_cursor_prefix(text@, old_text, k);
                }
                lemma_cursor_prefix(text@, old_text, old_text.len() as int);
                lemma_text_points_prefix(key, text@, old_text, old_text.len() as int);
                let base = block_base(key, (u as int, v as int));
                assert forall|q: IVec3|
                    text_points(key, text@, text@.len() as int).contains(q) <==> in_done(
                        key,
                        bmin,
                        bin@,
                        pixel_w as int,
                        u + 1,
                        v as int,
                        q,
                    ) by {
                    let tp = text_points(key, old_text, old_text.len() as int);
                    let cp = char_points(base, c, 8);
                    lemma_char_points(base, c, 8, q);
                    assert((tp + cp).contains(q) <==> (tp.contains(q) || cp.contains(q))) by {
                        if (tp + cp).contains(q) {
                            let i = choose|i: int| 0 <= i < (tp + cp).len() && (tp + cp)[i] == q;
                            if i < tp.len() {
                                assert(tp[i] == q);
                            } else {
                                assert(cp[i - tp.len()] == q);
                            }
                        }
                        if tp.contains(q) {
                            let i = choose|i: int| 0 <= i < tp.len() && tp[i] == q;
                            assert((tp + cp)[i] == q);
                        }
                        if cp.contains(q) {
                            let i = choose|i: int| 0 <= i < cp.len() && cp[i] == q;
                            assert((tp + cp)[tp.len() + i] == q);
                        }
                    }
                    if in_done(key, bmin, bin@, pixel_w as int, u + 1, v as int, q) {
                        let (u2, v2, p) = choose|u2: int, v2: int, p: int|
                            0 <= u2 < pixel_w && 0 <= v2 && (v2 < v || (v2 == v && u2 < u + 1))
                                && 0 <= p < 8 && q == #[trigger] cell_pt(key, u2, v2, p)
                                && bin@.contains(bin_pt(bmin, u2, v2, p));
                        if !(v2 == v && u2 == u) {
                            assert(in_done(key, bmin, bin@, pixel_w as int, u as int, v as int, q));
                        } else {
                            assert(bit_set(bits, p));
                            assert(cp.contains(q));
                        }
                    }
                    if cp.contains(q) {
                        let p = choose|p: int|
                            0 <= p < 8 && bit_set(char_bits(c), p) && q == spec_ivec3(
                                base.x + braille_off(p).0,
                                base.y + braille_off(p).1,
                                base.z as int,
                            );
                        assert(q == cell_pt(key, u as int, v as int, p));
                        assert(bin@.contains(bin_pt(bmin, u as int, v as int, p)));
                    }
                    if in_done(key, bmin, bin@, pixel_w as int, u as int, v as int, q) {
                        let (u2, v2, p) = choose|u2: int, v2: int, p: int|
                            0 <= u2 < pixel_w && 0 <= v2 && (v2 < v || (v2 == v && u2 < u)) && 0
                                <= p < 8 && q == #[trigger] cell_pt(key, u2, v2, p)
                                && bin@.contains(bin_pt(bmin, u2, v2, p));
                        assert(q == cell_pt(key, u2, v2, p));
                    }
                }
            }
            u += 1;
        }
        let ghost old_text = text@;
        text.push('\n');
        proof {
            assert((v + 1) * (pixel_w + 1) == v * (pixel_w + 1) + pixel_w + 1) by (nonlinear_arith);
            assert(text@.drop_last() == old_text);
            lemma_cursor_prefix(text@, old_text, old_text.len() as int);
            lemma_text_points_prefix(key, text@, old_text, old_text.len() as int);
            assert(spec_is_whitespace('\n'));
            assert forall|q: IVec3|
                in_done(key, bmin, bin@, pixel_w as int, pixel_w as int, v as int, q) <==> in_done(
                    key,
                    bmin,
                    bin@,
                    pixel_w as int,
                    0,
                    v + 1,
                    q,
                ) by {
                if in_done(key, bmin, bin@, pixel_w as int, 0, v + 1, q) {
                    let (u2, v2, p) = choose|u2: int, v2: int, p: int|
                        0 <= u2 < pixel_w && 0 <= v2 && (v2 < v + 1 || (v2 == v + 1 && u2 < 0))
                            && 0 <= p < 8 && q == #[trigger] cell_pt(key, u2, v2, p)
                            && bin@.contains(bin_pt(bmin, u2, v2, p));
                    assert(q == cell_pt(key, u2, v2, p));
                }
                if in_done(key, bmin, bin@, pixel_w as int, pixel_w as int, v as int, q) {
                    let (u2, v2, p) = choose|u2: int, v2: int, p: int|
                        0 <= u2 < pixel_w && 0 <= v2 && (v2 < v || (v2 == v && u2 < pixel_w))
                            && 0 <= p < 8 && q == #[trigger] cell_pt(key, u2, v2, p)
                            && bin@.contains(bin_pt(bmin, u2, v2, p));
                    assert(q == cell_pt(key, u2, v2, p));
                }
            }
        }
        v += 1;
    }
    proof {
        reveal(in_bin);
        assert((pixel_h as int) * (pixel_w + 1) <= 11 * 26) by (nonlinear_arith)
            requires
                1 <= pixel_w <= 25,
                1 <= pixel_h <= 11,
        ;
        assert forall|q: IVec3|
            in_done(key, bmin, bin@, pixel_w as int, 0, pixel_h as int, q) <==> in_bin(
                slice,
                bin@,
                q,
            ) by {
            if in_bin(slice, bin@, q) {
                let k = choose|k: int|
                    0 <= k < bin@.len() && slice.x + (#[trigger] bin@[k]).x == q.x && slice.y
                        + bin@[k].y == q.y;
                let r = bin@[k];
                assert(bounds.spec_contains(bin@[k]));
                let dx = r.x - bmin.x;
                let dy = r.y - bmin.y;
                let u2 = dx / 2;
                let v2 = dy / 4;
                let ox = dx % 2;
                let oy = dy % 4;
                let p = if ox == 0 {
                    if oy == 3 {
                        6
                    } else {
                        oy
                    }
                } else {
                    if oy == 3 {
                        7
                    } else {
                        3 + oy
                    }
                };
                assert(braille_off(p) == (ox, oy));
                assert(2 * u2 + ox == dx && 4 * v2 + oy == dy);
                assert(bin_pt(bmin, u2, v2, p) == r);
                assert(r.x == q.x - slice.x && r.y == q.y - slice.y);
                assert(key.x + 2 * u2 + ox == q.x);
                assert(key.y + 4 * v2 + oy == q.y);
                assert(q == cell_pt(key, u2, v2, p));
            }
            if in_done(key, bmin, bin@, pixel_w as int, 0, pixel_h as int, q) {
                let (u2, v2, p) = choose|u2: int, v2: int, p: int|
                    0 <= u2 < pixel_w && 0 <= v2 && (v2 < pixel_h || (v2 == pixel_h && u2 < 0))
                        && 0 <= p < 8 && q == #[trigger] cell_pt(key, u2, v2, p)
                        && bin@.contains(bin_pt(bmin, u2, v2, p));
                let b = bin_pt(bmin, u2, v2, p);
                let k = choose|k: int| 0 <= k < bin@.len() && bin@[k] == b;
                assert(slice.x + bin@[k].x == q.x && slice.y + bin@[k].y == q.y);
            }
        }
        assert(text_points(key, text@, text@.len() as int).to_set() =~= bin_set(slice, bin@));
    }
    (key, text)
}

/// The cursor of a prefix does not depend on what follows.
pub proof fn lemma_cursor_prefix(s: Seq<char>, t: Seq<char>, k: int)
    requires
        t.len() <= s.len(),
        forall|i: int| 0 <= i < t.len() ==> s[i] == t[i],
        0 <= k <= t.len(),
    ensures
        cursor(s, k) == cursor(t, k),
    decreases k,
{
    if k > 0 {
        lemma_cursor_prefix(s, t, k - 1);
    }
}

/// Decoding a prefix does not depend on what follows.
proof fn lemma_text_points_prefix(key: IVec3, s: Seq<char>, t: Seq<char>, k: int)
    requires
        t.len() <= s.len(),
        forall|i: int| 0 <= i < t.len() ==> s[i] == t[i],
        0 <= k <= t.len(),
    ensures
        text_points(key, s, k) == text_points(key, t, k),
    decreases k,
{
    if k > 0 {
        lemma_text_points_prefix(key, s, t, k - 1);
        lemma_cursor_prefix(s, t, k - 1);
    }
}

/// A location whose sector slice can be encoded: at least a sector's width
/// and a few thousand cells inside the `i32` range, so that the patch key
/// and every point the patch text decodes to are `i32` coordinates.
pub open spec fn encodable(l: IVec3) -> bool {
    -0x7FFF_A000 <= l.x <= 0x7FFF_A000 && -0x7FFF_A000 <= l.y <= 0x7FFF_A000
}

/// Position of a location relative to the origin of its sector slice.
pub open spec fn rel_pos(l: IVec3, s: IVec3) -> IVec2 {
    spec_ivec2(l.x - s.x, l.y - s.y)
}

/// A point lies in the sequence `a + b` exactly when it lies in `a` or in `b`.
pub proof fn lemma_concat_contains<A>(a: Seq<A>, b: Seq<A>, q: A)
    ensures
        (a + b).contains(q) <==> (a.contains(q) || b.contains(q)),
{
    if (a + b).contains(q) {
        let i = choose|i: int| 0 <= i < (a + b).len() && (a + b)[i] == q;
        if i < a.len() {
            assert(a[i] == q);
        } else {
            assert(b[i - a.len()] == q);
        }
    }
    if a.contains(q) {
        let i = choose|i: int| 0 <= i < a.len() && a[i] == q;
        assert((a + b)[i] == q);
    }
    if b.contains(q) {
        let i = choose|i: int| 0 <= i < b.len() && b[i] == q;
        assert((a + b)[a.len() + i] == q);
    }
}

pub(crate) fn find_slice(slices: &Vec<IVec3>, s: IVec3) -> (r: bool)
    ensures
        r == slices@.contains(s),
{
    let n = slices.len();
    let mut i: usize = 0;
    while i < n
        invariant
            n == slices@.len(),
            i <= n,
            forall|j: int| 0 <= j < i ==> slices@[j] != s,
        decreases n - i,
    {
        if slices[i] == s {
            assert(slices@[i as int] == s);
            return true;
        }
        i += 1;
    }
    false
}

/// Some point among the first `i` lies in slice `s` at relative position `b`.
pub open spec fn seen_at(points: Seq<IVec3>, i: int, s: IVec3, b: IVec2) -> bool {
    exists|k: int| 0 <= k < i && spec_sector(#[trigger] points[k]) == s && b == rel_pos(points[k], s)
}

/// Some point among the first `i` lies in slice `s`.
pub open spec fn seen_slice(points: Seq<IVec3>, i: int, s: IVec3) -> bool {
    exists|k: int| 0 <= k < i && spec_sector(#[trigger] points[k]) == s
}

/// Relative positions are inside the sector and the point comes back from
/// its slice and relative position.
pub proof fn lemma_rel_pos(l: IVec3)
    requires
        encodable(l),
    ensures
        slice_in_range(spec_sector(l)),
        0 <= rel_pos(l, spec_sector(l)).x < SECTOR_WIDTH,
        0 <= rel_pos(l, spec_sector(l)).y < SECTOR_HEIGHT,
        spec_sector(l).z == l.z,
        spec_sector(l).x + rel_pos(l, spec_sector(l)).x == l.x,
        spec_sector(l).y + rel_pos(l, spec_sector(l)).y == l.y,
{
}

/// Positions, relative to the slice, of the points that lie in the sector
/// slice `s`.
fn collect_bin(points: &Vec<IVec3>, s: IVec3) -> (bin: Vec<IVec2>)
    requires
        forall|i: int| 0 <= i < points@.len() ==> encodable(#[trigger] points@[i]),
        seen_slice(points@, points@.len() as int, s),
    ensures
        bin_ok(bin@),
        bin_set(s, bin@) == slice_set(points@, s),
{
    let n = points.len();
    let mut bin: Vec<IVec2> = Vec::new();
    let mut i: usize = 0;
    while i < n
        invariant
            n == points@.len(),
            i <= n,
            forall|k: int| 0 <= k < points@.len() ==> encodable(#[trigger] points@[k]),
            forall|j: int| 0 <= j < bin@.len() ==> seen_at(points@, i as int, s, #[trigger] bin@[j]),
            forall|k: int|
                0 <= k < i && spec_sector(#[trigger] points@[k]) == s ==> bin@.contains(
                    rel_pos(points@[k], s),
                ),
        decreases n - i,
    {
        let p = points[i];
        let ps = p.sector_snap_2d();
        let ghost old_bin = bin@;
        if ps == s {
            bin.push(ivec2(p.x - s.x, p.y - s.y));
            proof {
                assert(bin@[old_bin.len() as int] == rel_pos(points@[i as int], s));
            }
        }
        proof {
            assert forall|k: int|
                0 <= k < i + 1 && spec_sector(#[trigger] points@[k]) == s implies bin@.contains(
                rel_pos(points@[k], s),
            ) by {
                if k < i {
                    let j = choose|j: int|
                        0 <= j < old_bin.len() && old_bin[j] == rel_pos(points@[k], s);
                    assert(bin@[j] == old_bin[j]);
                } else {
                    assert(bin@[old_bin.len() as int] == rel_pos(points@[k], s));
                }
            }
            assert forall|j: int| 0 <= j < bin@.len() implies seen_at(
                points@,
                i + 1,
                s,
                #[trigger] bin@[j],
            ) by {
                if j < old_bin.len() {
                    assert(bin@[j] == old_bin[j]);
                    assert(seen_at(points@, i as int, s, old_bin[j]));
                } else {
                    assert(spec_sector(points@[i as int]) == s);
                }
            }
        }
        i += 1;
    }
    proof {
        lemma_bin_complete(points@, s, bin@);
    }
    bin
}

proof fn lemma_bin_complete(points: Seq<IVec3>, s: IVec3, bin: Seq<IVec2>)
    requires
        forall|k: int| 0 <= k < points.len() ==> encodable(#[trigger] points[k]),
        seen_slice(points, points.len() as int, s),
        forall|j: int| 0 <= j < bin.len() ==> seen_at(points, points.len() as int, s, #[trigger] bin[j]),
        forall|k: int|
            0 <= k < points.len() && spec_sector(#[trigger] points[k]) == s ==> bin.contains(
                rel_pos(points[k], s),
            ),
    ensures
        bin_ok(bin),
        bin_set(s, bin) == slice_set(points, s),
{
    reveal(in_bin);
    let k0 = choose|k: int| 0 <= k < points.len() && spec_sector(#[trigger] points[k]) == s;
    assert(bin.contains(rel_pos(points[k0], s)));
    assert forall|j: int| 0 <= j < bin.len() implies 0 <= (#[trigger] bin[j]).x < SECTOR_WIDTH && 0
        <= bin[j].y < SECTOR_HEIGHT by {
        assert(seen_at(points, points.len() as int, s, bin[j]));
        let k = choose|k: int|
            0 <= k < points.len() && spec_sector(#[trigger] points[k]) == s && bin[j] == rel_pos(
                points[k],
                s,
            );
        lemma_rel_pos(points[k]);
    }
    assert forall|q: IVec3| bin_set(s, bin).contains(q) <==> slice_set(points, s).contains(q) by {
        if in_bin(s, bin, q) {
            let j = choose|j: int|
                0 <= j < bin.len() && s.x + (#[trigger] bin[j]).x == q.x && s.y + bin[j].y == q.y;
            assert(seen_at(points, points.len() as int, s, bin[j]));
            let k = choose|k: int|
                0 <= k < points.len() && spec_sector(#[trigger] points[k]) == s && bin[j] == rel_pos(
                    points[k],
                    s,
                );
            lemma_rel_pos(points[k]);
            assert(points[k] == q);
        }
        if points.contains(q) && spec_sector(q) == s {
            let k = choose|k: int| 0 <= k < points.len() && points[k] == q;
            assert(spec_sector(points[k]) == s);
            assert(bin.contains(rel_pos(points[k], s)));
            let j = choose|j: int| 0 <= j < bin.len() && bin[j] == rel_pos(points[k], s);
            lemma_rel_pos(points[k]);
            assert(s.x + bin[j].x == q.x && s.y + bin[j].y == q.y);
        }
    }
    assert(bin_set(s, bin) =~= slice_set(points, s));
}

/// Distinct sector slices of the points, in the order of their first
/// occurrence.
pub(crate) fn collect_slices(points: &Vec<IVec3>) -> (slices: Vec<IVec3>)
    requires
        forall|i: int| 0 <= i < points@.len() ==> encodable(#[trigger] points@[i]),
    ensures
        forall|k: int| 0 <= k < points@.len() ==> slices@.contains(spec_sector(#[trigger] points@[k])),
        forall|j: int| 0 <= j < slices@.len() ==> seen_slice(points@, points@.len() as int, #[trigger] slices@[j]),
{
    let n = points.len();
    let mut slices: Vec<IVec3> = Vec::new();
    let mut i: usize = 0;
    while i < n
        invariant
            n == points@.len(),
            i <= n,
            forall|k: int| 0 <= k < points@.len() ==> encodable(#[trigger] points@[k]),
            forall|k: int| 0 <= k < i ==> slices@.contains(spec_sector(#[trigger] points@[k])),
            forall|j: int| 0 <= j < slices@.len() ==> seen_slice(points@, i as int, #[trigger] slices@[j]),
        decreases n - i,
    {
        proof {
            lemma_rel_pos(points@[i as int]);
        }
        let s = points[i].sector_snap_2d();
        let ghost old_slices = slices@;
        if !find_slice(&slices, s) {
            slices.push(s);
            proof {
                assert(slices@[old_slices.len() as int] == s);
            }
        }
        proof {
            assert forall|k: int| 0 <= k < i + 1 implies slices@.contains(
                spec_sector(#[trigger] points@[k]),
            ) by {
                if k < i {
                    let j = choose|j: int|
                        0 <= j < old_slices.len() && old_slices[j] == spec_sector(points@[k]);
                    assert(slices@[j] == old_slices[j]);
                }
            }
            assert forall|j: int| 0 <= j < slices@.len() implies seen_slice(
                points@,
                i + 1,
                #[trigger] slices@[j],
            ) by {
                if j < old_slices.len() {
                    assert(slices@[j] == old_slices[j]);
                    assert(seen_slice(points@, i as int, old_slices[j]));
                } else {
                    assert(spec_sector(points@[i as int]) == slices@[j]);
                }
            }
        }
        i += 1;
    }
    slices
}

/// Braille patch of the points that lie in the sector slice `s`.
fn encode_slice(points: &Vec<IVec3>, s: IVec3) -> (e: (IVec3, Vec<char>))
    requires
        forall|i: int| 0 <= i < points@.len() ==> encodable(#[trigger] points@[i]),
        seen_slice(points@, points@.len() as int, s),
    ensures
        small_loc(e.0),
        e.1@.len() < 0x0000_1000,
        text_points(e.0, e.1@, e.1@.len() as int).to_set() == slice_set(points@, s),
{
    proof {
        let k = choose|k: int| 0 <= k < points@.len() && spec_sector(#[trigger] points@[k]) == s;
        lemma_rel_pos(points@[k]);
    }
    let bin = collect_bin(points, s);
    encode_bin(s, &bin)
}

/// Adding the patch of one more slice adds exactly the points of that slice.
proof fn lemma_atlas_step(
    e: Seq<(IVec3, Seq<char>)>,
    ev: (IVec3, Seq<char>),
    points: Seq<IVec3>,
    done: Seq<IVec3>,
    s: IVec3,
)
    requires
        atlas_points(e).to_set() == slices_set(points, done),
        text_points(ev.0, ev.1, ev.1.len() as int).to_set() == slice_set(points, s),
    ensures
        atlas_points(e.push(ev)).to_set() == slices_set(points, done.push(s)),
{
    assert(e.push(ev).drop_last() =~= e);
    assert(e.push(ev).last() == ev);
    assert(atlas_points(e.push(ev)) == atlas_points(e) + text_points(
        ev.0,
        ev.1,
        ev.1.len() as int,
    ));
    assert forall|q: IVec3|
        atlas_points(e.push(ev)).to_set().contains(q) <==> slices_set(points, done.push(s)).contains(q) by {
        lemma_concat_contains(atlas_points(e), text_points(ev.0, ev.1, ev.1.len() as int), q);
        assert(atlas_points(e).to_set().contains(q) == atlas_points(e).contains(q));
        assert(slices_set(points, done).contains(q) == (points.contains(q) && done.contains(spec_sector(q))));
        assert(slice_set(points, s).contains(q) == (points.contains(q) && spec_sector(q) == s));
        assert(done.push(s) =~= done + seq![s]);
        lemma_concat_contains(done, seq![s], spec_sector(q));
        if spec_sector(q) == s {
            assert(seq![s][0] == s);
        }
    }
    assert(atlas_points(e.push(ev)).to_set() =~= slices_set(points, done.push(s)));
}

impl BitAtlas {
    /// Encode a set of points as braille patches, one per sector slice that
    /// holds any of them, in the order in which the slices first occur.
    pub fn from_points(points: &Vec<IVec3>) -> (r: BitAtlas)
        requires
            forall|i: int| 0 <= i < points@.len() ==> encodable(#[trigger] points@[i]),
        ensures
            r.decodable(),
            atlas_points(r.patches()).to_set() == points@.to_set(),
    {
        let n = points.len();
        let slices = collect_slices(points);
        let m = slices.len();
        let mut entries: Vec<(IVec3, Vec<char>)> = Vec::new();
        let mut j: usize = 0;
        while j < m
            invariant
                n == points@.len(),
                m == slices@.len(),
                j <= m,
                entries@.len() == j,
                forall|k: int| 0 <= k < points@.len() ==> encodable(#[trigger] points@[k]),
                forall|k: int| 0 <= k < n ==> slices@.contains(spec_sector(#[trigger] points@[k])),
                forall|jj: int| 0 <= jj < slices@.len() ==> seen_slice(points@, n as int, #[trigger] slices@[jj]),
                forall|t: int|
                    0 <= t < j ==> small_loc((#[trigger] entries_view(entries@)[t]).0)
                        && entries_view(entries@)[t].1.len() < 0x0000_1000,
                atlas_points(entries_view(entries@)).to_set() == slices_set(
                    points@,
                    slices@.take(j as int),
                ),
            decreases m - j,
        {
            let s = slices[j];
            proof {
                assert(seen_slice(points@, n as int, slices@[j as int]));
                let k = choose|k: int| 0 <= k < n && spec_sector(#[trigger] points@[k]) == s;
                lemma_rel_pos(points@[k]);
            }
            let e = encode_slice(points, s);
            let ghost old_entries = entries@;
            let ghost ev = (e.0, e.1@);
            entries.push(e);
            proof {
                assert(entries_view(entries@) =~= entries_view(old_entries).push(ev));
                assert(slices@.take(j + 1) =~= slices@.take(j as int).push(s));
                lemma_atlas_step(entries_view(old_entries), ev, points@, slices@.take(j as int), s);
                assert forall|t: int| 0 <= t < j + 1 implies small_loc(
                    (#[trigger] entries_view(entries@)[t]).0,
                ) && entries_view(entries@)[t].1.len() < 0x0000_1000 by {
                    if t < j {
                        assert(entries_view(entries@)[t] == entries_view(old_entries)[t]);
                    }
                }
            }
            j += 1;
        }
        let r = BitAtlas { entries };
        proof {
            assert(slices@.take(m as int) =~= slices@);
            assert forall|q: IVec3| slices_set(points@, slices@).contains(q) <==> points@.to_set().contains(
                q,
            ) by {
                if points@.contains(q) {
                    let k = choose|k: int| 0 <= k < points@.len() && points@[k] == q;
                    assert(slices@.contains(spec_sector(points@[k])));
                }
            }
            assert(slices_set(points@, slices@) =~= points@.to_set());
        }
        r
    }
}

} // verus!
