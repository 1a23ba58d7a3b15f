//! Stairwell placement and the bounds of map generation lots.

use vstd::prelude::*;

use crate::arith::{div_euclid_i32, rem_euclid_i32};
use crate::geom::{Cube, IVec2, IVec3, Rect, in_i32, ivec2, ivec3, spec_ivec2, spec_ivec3};
use crate::location::{LEVEL_DEPTH, SECTOR_HEIGHT, SECTOR_WIDTH, spec_sector};

verus! {

/// Chessboard square color of a point relative to an origin.
pub open spec fn square_color(o: IVec2, p: IVec2) -> int {
    ((p.x - o.x) / 4 + (p.y - o.y) / 4) % 2
}

/// Result of snapping a point to the center of a chessboard square of the
/// color matching the parity, wrapped into the bounds.
pub open spec fn spec_snap_to_chessboard(parity: int, b: Rect, pos: IVec2) -> IVec2 {
    let o = b.min;
    let w = b.max.x - b.min.x;
    let h = b.max.y - b.min.y;
    let a1 = if square_color(o, pos) != parity % 2 {
        spec_ivec2(pos.x + 4, pos.y as int)
    } else {
        pos
    };
    let cx = ((a1.x - o.x) / 4) * 4 + 2;
    let cy = ((a1.y - o.y) / 4) * 4 + 2;
    spec_ivec2(o.x + cx % w, o.y + cy % h)
}

/// Chessboard bounds that snapping accepts: dimensions nonzero multiples
/// of 8 that fit the `i32` range.
pub open spec fn chessboard_ok(b: Rect) -> bool {
    let w = b.max.x - b.min.x;
    let h = b.max.y - b.min.y;
    w > 0 && w % 8 == 0 && h > 0 && h % 8 == 0 && w <= i32::MAX && h <= i32::MAX
}

/// Snapping `pos` stays in the `i32` range: its offset from the corner of
/// the bounds fits, and so does the step to the next square when the point
/// sits on a square of the wrong color.
pub open spec fn snap_fits(parity: int, b: Rect, pos: IVec2) -> bool {
    &&& in_i32(pos.x - b.min.x)
    &&& in_i32(pos.y - b.min.y)
    &&& square_color(b.min, pos) != parity % 2 ==> pos.x + 4 <= i32::MAX && in_i32(
        pos.x + 4 - b.min.x,
    )
}

/// Snap a point to the center of 4x4 chessboard squares within the bounds.
///
/// The point goes to white or black squares depending on whether `parity`
/// is even or odd.
pub fn snap_to_chessboard3(parity: i32, bounds: &Rect, pos: IVec2) -> (r: IVec2)
    requires
        chessboard_ok(*bounds),
        snap_fits(parity as int, *bounds, pos),
    ensures
        r == spec_snap_to_chessboard(parity as int, *bounds, pos),
{
    let o = bounds.min;
    let w = bounds.max.x - bounds.min.x;
    let h = bounds.max.y - bounds.min.y;
    let tx = pos.x - o.x;
    let ty = pos.y - o.y;
    let color = rem_euclid_i32(div_euclid_i32(tx, 4) + div_euclid_i32(ty, 4), 2);
    let a1 = if color != rem_euclid_i32(parity, 2) {
        ivec2(pos.x + 4, pos.y)
    } else {
        pos
    };
    proof {
        lemma_quarter_bounds((a1.x - o.x) as int);
        lemma_quarter_bounds((a1.y - o.y) as int);
    }
    let cx = div_euclid_i32(a1.x - o.x, 4) * 4 + 2;
    let cy = div_euclid_i32(a1.y - o.y, 4) * 4 + 2;
    ivec2(o.x + rem_euclid_i32(cx, w), o.y + rem_euclid_i32(cy, h))
}

/// Rounding down to a multiple of 4 and stepping to the middle of the
/// square stays within the `i32` range.
proof fn lemma_quarter_bounds(v: int)
    requires
        in_i32(v),
    ensures
        in_i32((v / 4) * 4 + 2),
        in_i32(v / 4),
{
    assert(v - 3 <= (v / 4) * 4 <= v);
    assert(v % 4 >= 2 ==> v - v % 4 + 2 <= v);
    assert(i32::MAX % 4 == 3);
}

/// Lower corner of the sector of a location, as integers.
pub open spec fn sector_corner(l: IVec3) -> (int, int) {
    ((l.x as int / SECTOR_WIDTH as int) * SECTOR_WIDTH, (l.y as int / SECTOR_HEIGHT as int) * SECTOR_HEIGHT)
}

/// Bounds of the stairwell chessboard within the sector of a location.
pub open spec fn stairwell_bounds(loc: IVec3) -> Rect {
    let s = spec_sector(loc);
    Rect { min: spec_ivec2(s.x + 4, s.y + 4), max: spec_ivec2(s.x + 44, s.y + 36) }
}

pub open spec fn spec_snap_stairwell(loc: IVec3) -> IVec3 {
    let p = spec_snap_to_chessboard(
        loc.z as int / LEVEL_DEPTH as int,
        stairwell_bounds(loc),
        spec_ivec2(loc.x as int, loc.y as int),
    );
    spec_ivec3(p.x as int, p.y as int, loc.z as int)
}

/// Locations that stairwell snapping computes in the `i32` range: the
/// sector corner and the far side of its chessboard fit, and so does the
/// step to the next square when the location sits on a square of the wrong
/// color.
pub open spec fn stairwell_ok(loc: IVec3) -> bool {
    let (sx, sy) = sector_corner(loc);
    &&& i32::MIN <= sx && sx + 44 <= i32::MAX
    &&& i32::MIN <= sy && sy + 36 <= i32::MAX
    &&& square_color(stairwell_bounds(loc).min, spec_ivec2(loc.x as int, loc.y as int)) != (loc.z as int
        / LEVEL_DEPTH as int) % 2 ==> loc.x + 4 <= i32::MAX
}

/// Snap a stairwell position to its closest designated grid position for
/// its z level.
///
/// Stairwells on consecutive levels alternate between black and white
/// squares of the chessboard so that up and down stairs of a level never
/// end up at the same spot; they are also kept away from the very edge of
/// the sector.
pub fn snap_stairwell_position(loc: IVec3) -> (r: IVec3)
    requires
        stairwell_ok(loc),
    ensures
        r == spec_snap_stairwell(loc),
{
    // Dimensions of the chessboard zone and its offset off the sector
    // edge, both leaving space at the edges and keeping even coordinates.
    let sx = div_euclid_i32(loc.x, SECTOR_WIDTH) * SECTOR_WIDTH;
    let sy = div_euclid_i32(loc.y, SECTOR_HEIGHT) * SECTOR_HEIGHT;
    let bounds = Rect::new(ivec2(sx + 4, sy + 4), ivec2(sx + 44, sy + 36));
    let p = snap_to_chessboard3(div_euclid_i32(loc.z, LEVEL_DEPTH), &bounds, loc.truncate());
    ivec3(p.x, p.y, loc.z)
}

proof fn lemma_color_shift(a: int, b: int)
    ensures
        ((a + 4) / 4 + b) % 2 != (a / 4 + b) % 2,
        (((a / 4) * 4 + 2) / 4) == a / 4,
{
    assert((a + 4) / 4 == a / 4 + 1);
}

proof fn lemma_wrap_keeps_color(c: int, w: int)
    requires
        w > 0,
        w % 8 == 0,
    ensures
        (c % w) / 4 % 2 == (c / 4) % 2,
        (c % w) % 4 == c % 4,
{
    let k = w / 8;
    assert(w == 8 * k);
    vstd::arithmetic::div_mod::lemma_fundamental_div_mod(c, w);
    let q = c / w;
    let r = c % w;
    assert(c == r + q * w) by (nonlinear_arith)
        requires
            c == w * q + r,
    ;
    let m = q * k;
    assert(q * w == 8 * m) by (nonlinear_arith)
        requires
            w == 8 * k,
            m == q * k,
    ;
    assert(c == r + 8 * m);
    assert(c / 4 == r / 4 + 2 * m);
    assert(c % 4 == r % 4);
    assert((r / 4 + 2 * m) % 2 == (r / 4) % 2);
}

/// A snapped point lies inside the bounds, at the center of a 4x4 square
/// whose color matches the parity.
pub proof fn lemma_snap_to_chessboard(parity: int, b: Rect, pos: IVec2)
    requires
        chessboard_ok(b),
        snap_fits(parity, b, pos),
    ensures
        b.spec_contains(spec_snap_to_chessboard(parity, b, pos)),
        (spec_snap_to_chessboard(parity, b, pos).x - b.min.x) % 4 == 2,
        (spec_snap_to_chessboard(parity, b, pos).y - b.min.y) % 4 == 2,
        square_color(b.min, spec_snap_to_chessboard(parity, b, pos)) == parity % 2,
{
    let o = b.min;
    let w = b.max.x - b.min.x;
    let h = b.max.y - b.min.y;
    let a1 = if square_color(o, pos) != parity % 2 {
        spec_ivec2(pos.x + 4, pos.y as int)
    } else {
        pos
    };
    if square_color(o, pos) != parity % 2 {
        lemma_color_shift(pos.x - o.x, (pos.y - o.y) / 4);
        assert(a1.x - o.x == (pos.x - o.x) + 4);
    }
    assert(((a1.x - o.x) / 4 + (a1.y - o.y) / 4) % 2 == parity % 2);
    let cx = ((a1.x - o.x) / 4) * 4 + 2;
    let cy = ((a1.y - o.y) / 4) * 4 + 2;
    lemma_color_shift(a1.x - o.x, 0);
    lemma_color_shift(a1.y - o.y, 0);
    assert(cx / 4 == (a1.x - o.x) / 4);
    assert(cy / 4 == (a1.y - o.y) / 4);
    assert(cx % 4 == 2);
    assert(cy % 4 == 2);
    lemma_wrap_keeps_color(cx, w);
    lemma_wrap_keeps_color(cy, h);
    let r = spec_snap_to_chessboard(parity, b, pos);
    assert(r.x - o.x == cx % w);
    assert(r.y - o.y == cy % h);
    assert(((cx % w) / 4 + (cy % h) / 4) % 2 == (cx / 4 + cy / 4) % 2);
}

/// Stairwells of two levels whose level numbers differ in parity, such as
/// consecutive levels, never share a horizontal position within a sector.
pub proof fn lemma_stairwells_apart(a: IVec3, b: IVec3)
    requires
        stairwell_ok(a),
        stairwell_ok(b),
        spec_sector(a).x == spec_sector(b).x,
        spec_sector(a).y == spec_sector(b).y,
        (a.z as int / LEVEL_DEPTH as int) % 2 != (b.z as int / LEVEL_DEPTH as int) % 2,
    ensures
        spec_snap_stairwell(a).x != spec_snap_stairwell(b).x || spec_snap_stairwell(a).y
            != spec_snap_stairwell(b).y,
{
    lemma_sector_small(a);
    lemma_sector_small(b);
    lemma_snap_to_chessboard(
        a.z as int / LEVEL_DEPTH as int,
        stairwell_bounds(a),
        spec_ivec2(a.x as int, a.y as int),
    );
    lemma_snap_to_chessboard(
        b.z as int / LEVEL_DEPTH as int,
        stairwell_bounds(b),
        spec_ivec2(b.x as int, b.y as int),
    );
}

proof fn lemma_sector_small(l: IVec3)
    requires
        stairwell_ok(l),
    ensures
        chessboard_ok(stairwell_bounds(l)),
{
}

/// A stairwell position that is off the designated chessboard.
#[derive(Copy, Clone, PartialEq, Eq, Structural, Debug)]
pub struct BadStairs {
    pub found: IVec3,
    pub expected: IVec3,
}

/// Bounds and topology definition for map generation.
#[derive(Copy, Clone, PartialEq, Eq, Structural, Debug)]
pub struct Lot {
    /// Volume in space in which the map should be generated.
    pub volume: Cube,
    /// Connection flags to the four horizontal neighbors, bit order NESW.
    pub sides: u8,
    pub up: Option<IVec3>,
    pub down: Option<IVec3>,
}

/// Lowest location of the lot volume shifted by an offset.
pub open spec fn lot_point(v: Cube, dx: int, dy: int) -> IVec3 {
    spec_ivec3(v.min.x + dx, v.min.y + dy, v.min.z as int)
}

/// Cell of the lot's edge that the connection `idx` (NESW) goes through,
/// if that connection is present: the center of that edge, rounded down to
/// an even offset from the lot's corner.
pub open spec fn spec_exit(l: Lot, idx: int) -> Option<IVec3> {
    let v = l.volume;
    let mid_x = SECTOR_WIDTH / 4 * 2;
    let mid_y = SECTOR_HEIGHT / 4 * 2;
    if idx == 0 {
        if l.sides & 1 != 0 {
            Some(lot_point(v, mid_x, 0))
        } else {
            None
        }
    } else if idx == 1 {
        if l.sides & 2 != 0 {
            Some(lot_point(v, SECTOR_WIDTH - 1, mid_y))
        } else {
            None
        }
    } else if idx == 2 {
        if l.sides & 4 != 0 {
            Some(lot_point(v, mid_x, SECTOR_HEIGHT - 1))
        } else {
            None
        }
    } else {
        if l.sides & 8 != 0 {
            Some(lot_point(v, 0, mid_y))
        } else {
            None
        }
    }
}

/// First misplaced stairwell, upstairs checked first.
pub open spec fn stairs_error(up: Option<IVec3>, down: Option<IVec3>) -> Option<BadStairs> {
    match up {
        Some(u) if u != spec_snap_stairwell(u) => Some(
            BadStairs { found: u, expected: spec_snap_stairwell(u) },
        ),
        _ => match down {
            Some(d) if d != spec_snap_stairwell(d) => Some(
                BadStairs { found: d, expected: spec_snap_stairwell(d) },
            ),
            _ => None,
        },
    }
}

impl Lot {
    /// A lot with validated stairwell positions: given stairs must sit on
    /// their snapped position.
    pub fn new(volume: Cube, sides: u8, up: Option<IVec3>, down: Option<IVec3>) -> (r: Result<
        Lot,
        BadStairs,
    >)
        requires
            up matches Some(u) ==> stairwell_ok(u),
            down matches Some(d) ==> stairwell_ok(d),
        ensures
            r == match stairs_error(up, down) {
                None => Ok::<Lot, BadStairs>(Lot { volume, sides, up, down }),
                Some(e) => Err(e),
            },
    {
        // Validate that stair positions fit in pattern.
        if let Some(u) = up {
            let expected = snap_stairwell_position(u);
            if u != expected {
                return Err(BadStairs { found: u, expected });
            }
        }
        if let Some(d) = down {
            let expected = snap_stairwell_position(d);
            if d != expected {
                return Err(BadStairs { found: d, expected });
            }
        }
        Ok(Lot { volume, sides, up, down })
    }

    /// Edge cell of connection `idx` (north, east, south, west), if the lot
    /// connects that way.
    pub fn exit(&self, idx: usize) -> (r: Option<IVec3>)
        requires
            idx < 4,
            self.volume.min.x + SECTOR_WIDTH <= i32::MAX,
            self.volume.min.y + SECTOR_HEIGHT <= i32::MAX,
        ensures
            r == spec_exit(*self, idx as int),
    {
        let min = self.volume.min;
        let mid_x = SECTOR_WIDTH / 4 * 2;
        let mid_y = SECTOR_HEIGHT / 4 * 2;
        if idx == 0 {
            if self.sides & 0b1 != 0 {
                Some(ivec3(min.x + mid_x, min.y, min.z))
            } else {
                None
            }
        } else if idx == 1 {
            if self.sides & 0b10 != 0 {
                Some(ivec3(min.x + SECTOR_WIDTH - 1, min.y + mid_y, min.z))
            } else {
                None
            }
        } else if idx == 2 {
            if self.sides & 0b100 != 0 {
                Some(ivec3(min.x + mid_x, min.y + SECTOR_HEIGHT - 1, min.z))
            } else {
                None
            }
        } else {
            if self.sides & 0b1000 != 0 {
                Some(ivec3(min.x, min.y + mid_y, min.z))
            } else {
                None
            }
        }
    }
}

} // verus!
