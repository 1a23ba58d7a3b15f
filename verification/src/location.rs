//! Game world locations: sectors, folding into the 2D plane and distances.

use vstd::prelude::*;

use crate::arith::{div_euclid_i32, div_euclid_i64, rem_euclid_i32, rem_euclid_i64};
use crate::geom::{IVec2, IVec3, Rect, abs, in_i32, ivec2, ivec3, spec_ivec2, spec_ivec3};

verus! {

/// Width of a single sector of the game world in tiles.
pub const SECTOR_WIDTH: i32 = 48;

/// Height of a single sector of the game world in tiles.
pub const SECTOR_HEIGHT: i32 = 40;

/// Depth of a single level of the game world in tiles.
pub const LEVEL_DEPTH: i32 = 2;

/// A location in the game world.
pub type Location = IVec3;

/// Origin of the sector holding a location.
pub open spec fn spec_sector(l: IVec3) -> IVec3 {
    spec_ivec3(
        (l.x as int / SECTOR_WIDTH as int) * SECTOR_WIDTH,
        (l.y as int / SECTOR_HEIGHT as int) * SECTOR_HEIGHT,
        l.z as int,
    )
}

/// The sector origin of a location fits the `i32` range.
pub open spec fn sector_in_range(l: IVec3) -> bool {
    in_i32((l.x as int / SECTOR_WIDTH as int) * SECTOR_WIDTH) && in_i32(
        (l.y as int / SECTOR_HEIGHT as int) * SECTOR_HEIGHT,
    )
}

/// Location folded into the plane, z layers stacked along y.
pub open spec fn spec_unfold(l: IVec3) -> IVec2 {
    spec_ivec2(l.x as int, l.y + l.z * 0x1_0000 + 0x8000)
}

/// Plane point unfolded back into a location.
pub open spec fn spec_fold(p: IVec2) -> IVec3 {
    spec_ivec3(p.x as int, p.y as int % 0x1_0000 - 0x8000, p.y as int / 0x1_0000)
}

/// Whether y and z fit in 16 bits, the range where folding is lossless.
pub open spec fn in_fold_range(l: IVec3) -> bool {
    -0x8000 <= l.y < 0x8000 && -0x8000 <= l.z < 0x8000
}

/// Location that a double-width screen column denotes, if it denotes one
/// cell and not the gap between two.
pub open spec fn spec_fold_wide(w: IVec2) -> Option<IVec3> {
    if w.x % 2 == 0 {
        Some(spec_fold(spec_ivec2(w.x / 2, w.y as int)))
    } else {
        None
    }
}

impl IVec3 {
    /// The location directly above.
    pub fn above(self) -> (r: IVec3)
        requires
            self.z < i32::MAX,
        ensures
            r == spec_ivec3(self.x as int, self.y as int, self.z + 1),
    {
        ivec3(self.x, self.y, self.z + 1)
    }

    /// The location directly below.
    pub fn below(self) -> (r: IVec3)
        requires
            self.z > i32::MIN,
        ensures
            r == spec_ivec3(self.x as int, self.y as int, self.z - 1),
    {
        ivec3(self.x, self.y, self.z - 1)
    }

    /// Return location snapped to the origin of its sector.
    pub fn sector(self) -> (r: IVec3)
        requires
            sector_in_range(self),
        ensures
            r == spec_sector(self),
    {
        let sx = div_euclid_i32(self.x, SECTOR_WIDTH);
        let sy = div_euclid_i32(self.y, SECTOR_HEIGHT);
        ivec3(sx * SECTOR_WIDTH, sy * SECTOR_HEIGHT, self.z)
    }

    /// Snap location to origin of its current 2D sector-slice.
    pub fn sector_snap_2d(self) -> (r: IVec3)
        requires
            sector_in_range(self),
        ensures
            r == spec_sector(self),
    {
        self.sector()
    }

    /// 2D rectangle for the sector the location is in.
    pub fn sector_rect(self) -> (r: Rect)
        requires
            sector_in_range(self),
            spec_sector(self).x + SECTOR_WIDTH <= i32::MAX,
            spec_sector(self).y + SECTOR_HEIGHT <= i32::MAX,
        ensures
            r.min == spec_ivec2(spec_sector(self).x as int, spec_sector(self).y as int),
            r.max == spec_ivec2(
                spec_sector(self).x + SECTOR_WIDTH,
                spec_sector(self).y + SECTOR_HEIGHT,
            ),
    {
        let p = self.sector_snap_2d().truncate();
        Rect::new(p, ivec2(p.x + SECTOR_WIDTH, p.y + SECTOR_HEIGHT))
    }

    /// Convert to a 2D vector, layering z levels vertically in the plane.
    ///
    /// Within the 16-bit range of y and z each location has a unique point on
    /// the plane, and `fold` gives the location back.
    pub fn unfold(self) -> (r: IVec2)
        ensures
            r == spec_unfold(self),
    {
        // Maps y: i16::MIN, z: i16::MIN to i32::MIN.
        let y: i64 = self.y as i64 + self.z as i64 * 0x1_0000 + 0x8000;
        ivec2(self.x, y as i32)
    }

    /// Convert an unfolded 2D vector back to a location.
    pub fn fold(p: IVec2) -> (r: IVec3)
        ensures
            r == spec_fold(p),
    {
        let y = rem_euclid_i64(p.y as i64, 0x1_0000) - 0x8000;
        let z = div_euclid_i64(p.y as i64, 0x1_0000);
        proof {
            lemma_div_65536_range(p.y as int);
        }
        ivec3(p.x, y as i32, z as i32)
    }

    /// Double the x coordinate, for double-width character display.
    pub fn widen(self) -> (r: IVec3)
        requires
            in_i32(self.x * 2),
        ensures
            r == spec_ivec3(self.x * 2, self.y as int, self.z as int),
    {
        ivec3(self.x * 2, self.y, self.z)
    }

    /// Location at a double-width screen position, `None` for the gap
    /// between two cells.
    pub fn fold_wide(w: IVec2) -> (r: Option<IVec3>)
        ensures
            r == spec_fold_wide(w),
    {
        if rem_euclid_i32(w.x, 2) == 0 {
            let half = div_euclid_i32(w.x, 2);
            Some(IVec3::fold(ivec2(half, w.y)))
        } else {
            None
        }
    }

    /// Return the two locations on two sides of an off-center wide position.
    ///
    /// If the position is not off-center, returns the same centered location
    /// twice.
    pub fn fold_wide_sides(w: IVec2) -> (r: (IVec3, IVec3))
        requires
            w.x % 2 == 0 || w.x < i32::MAX,
        ensures
            w.x % 2 == 0 ==> r.0 == spec_fold_wide(w).unwrap() && r.1 == r.0,
            w.x % 2 != 0 ==> r.0 == spec_fold(spec_ivec2((w.x - 1) / 2, w.y as int)) && r.1
                == spec_fold(spec_ivec2((w.x + 1) / 2, w.y as int)),
    {
        match IVec3::fold_wide(w) {
            Some(loc) => (loc, loc),
            None => {
                let a = IVec3::fold_wide(ivec2(w.x - 1, w.y));
                let b = IVec3::fold_wide(ivec2(w.x + 1, w.y));
                match (a, b) {
                    (Some(a), Some(b)) => (a, b),
                    _ => (IVec3::fold(ivec2(0, 0)), IVec3::fold(ivec2(0, 0))),
                }
            },
        }
    }

    /// How many sector transitions there are between self and other.
    pub fn sector_dist(self, other: IVec3) -> (r: usize)
        requires
            in_i32(self.z - other.z),
            abs((self.x as int) / (SECTOR_WIDTH as int) - (other.x as int) / (SECTOR_WIDTH as int)) + abs(
                (self.y as int) / (SECTOR_HEIGHT as int) - (other.y as int) / (SECTOR_HEIGHT as int),
            ) + abs(self.z - other.z) <= i32::MAX,
        ensures
            r == abs((self.x as int) / (SECTOR_WIDTH as int) - (other.x as int) / (SECTOR_WIDTH as int)) + abs(
                (self.y as int) / (SECTOR_HEIGHT as int) - (other.y as int) / (SECTOR_HEIGHT as int),
            ) + abs(self.z - other.z),
    {
        let dx = div_euclid_i32(self.x, SECTOR_WIDTH) as i64 - div_euclid_i32(
            other.x,
            SECTOR_WIDTH,
        ) as i64;
        let dy = div_euclid_i32(self.y, SECTOR_HEIGHT) as i64 - div_euclid_i32(
            other.y,
            SECTOR_HEIGHT,
        ) as i64;
        let dz = self.z as i64 - other.z as i64;
        let ax = if dx < 0 {
            -dx
        } else {
            dx
        };
        let ay = if dy < 0 {
            -dy
        } else {
            dy
        };
        let az = if dz < 0 {
            -dz
        } else {
            dz
        };
        (ax + ay + az) as usize
    }

    /// Whether the location is on the outermost rim of its sector.
    pub fn at_sector_edge(self) -> (r: bool)
        ensures
            r == ((self.x as int) % (SECTOR_WIDTH as int) == 0 || (self.x as int) % (SECTOR_WIDTH as int) == SECTOR_WIDTH
                - 1 || (self.y as int) % (SECTOR_HEIGHT as int) == 0 || (self.y as int) % (SECTOR_HEIGHT as int)
                == SECTOR_HEIGHT - 1),
    {
        let u = rem_euclid_i32(self.x, SECTOR_WIDTH);
        let v = rem_euclid_i32(self.y, SECTOR_HEIGHT);
        (u == 0 || u == (SECTOR_WIDTH - 1)) || (v == 0 || v == (SECTOR_HEIGHT - 1))
    }

    /// Planar vector towards another location on the same z level.
    pub fn vec_towards(self, other: IVec3) -> (r: Option<IVec2>)
        requires
            self.z == other.z ==> in_i32(other.x - self.x) && in_i32(other.y - self.y),
        ensures
            r == if self.z == other.z {
                Some(spec_ivec2(other.x - self.x, other.y - self.y))
            } else {
                None
            },
    {
        if self.z == other.z {
            Some(ivec2(other.x - self.x, other.y - self.y))
        } else {
            None
        }
    }

    /// Manhattan distance, used as the pathfinding heuristic.
    pub fn astar_heuristic(self, other: IVec3) -> (r: usize)
        requires
            abs(self.x - other.x) + abs(self.y - other.y) + abs(self.z - other.z) <= i32::MAX,
        ensures
            r == abs(self.x - other.x) + abs(self.y - other.y) + abs(self.z - other.z),
    {
        let dx = self.x as i64 - other.x as i64;
        let dy = self.y as i64 - other.y as i64;
        let dz = self.z as i64 - other.z as i64;
        let ax = if dx < 0 {
            -dx
        } else {
            dx
        };
        let ay = if dy < 0 {
            -dy
        } else {
            dy
        };
        let az = if dz < 0 {
            -dz
        } else {
            dz
        };
        (ax + ay + az) as usize
    }

    /// Sector bounding box of the location on the folded plane.
    pub fn sector_bounds(self) -> (r: Rect)
        requires
            sector_in_range(self),
            spec_unfold(spec_sector(self)).x + SECTOR_WIDTH <= i32::MAX,
            spec_unfold(spec_sector(self)).y + SECTOR_HEIGHT <= i32::MAX,
        ensures
            r.min == spec_unfold(spec_sector(self)),
            r.max == spec_ivec2(
                spec_unfold(spec_sector(self)).x + SECTOR_WIDTH,
                spec_unfold(spec_sector(self)).y + SECTOR_HEIGHT,
            ),
    {
        let p = self.sector().unfold();
        Rect::new(p, ivec2(p.x + SECTOR_WIDTH, p.y + SECTOR_HEIGHT))
    }

    /// Sector bounds extended for the adjacent sector rim.
    pub fn expanded_sector_bounds(self) -> (r: Rect)
        requires
            sector_in_range(self),
            spec_unfold(spec_sector(self)).x > i32::MIN,
            spec_unfold(spec_sector(self)).y > i32::MIN,
            spec_unfold(spec_sector(self)).x + SECTOR_WIDTH + 1 <= i32::MAX,
            spec_unfold(spec_sector(self)).y + SECTOR_HEIGHT + 1 <= i32::MAX,
        ensures
            r.min == spec_ivec2(
                spec_unfold(spec_sector(self)).x - 1,
                spec_unfold(spec_sector(self)).y - 1,
            ),
            r.max == spec_ivec2(
                spec_unfold(spec_sector(self)).x + SECTOR_WIDTH + 1,
                spec_unfold(spec_sector(self)).y + SECTOR_HEIGHT + 1,
            ),
    {
        self.sector_bounds().grow(ivec2(1, 1), ivec2(1, 1))
    }

    /// Same sector plus the facing rims of adjacent sectors.
    pub fn has_same_screen_as(self, other: IVec3) -> (r: bool)
        requires
            sector_in_range(self),
            spec_unfold(spec_sector(self)).x > i32::MIN,
            spec_unfold(spec_sector(self)).y > i32::MIN,
            spec_unfold(spec_sector(self)).x + SECTOR_WIDTH + 1 <= i32::MAX,
            spec_unfold(spec_sector(self)).y + SECTOR_HEIGHT + 1 <= i32::MAX,
        ensures
            r == (spec_unfold(spec_sector(self)).x - 1 <= spec_unfold(other).x
                < spec_unfold(spec_sector(self)).x + SECTOR_WIDTH + 1 && spec_unfold(
                spec_sector(self),
            ).y - 1 <= spec_unfold(other).y < spec_unfold(spec_sector(self)).y + SECTOR_HEIGHT
                + 1),
    {
        self.expanded_sector_bounds().contains(other.unfold())
    }
}

proof fn lemma_div_65536_range(v: int)
    requires
        i32::MIN <= v <= i32::MAX,
    ensures
        -0x8000 <= v / 0x1_0000 < 0x8000,
        0 <= v % 0x1_0000 < 0x1_0000,
{
}

/// Folding an unfolded location gives the location back, for y and z in
/// the 16-bit range.
pub proof fn lemma_fold_unfold(l: IVec3)
    requires
        in_fold_range(l),
    ensures
        spec_fold(spec_unfold(l)) == l,
{
    let v = l.y + l.z * 0x1_0000 + 0x8000;
    assert(i32::MIN <= v <= i32::MAX);
    assert(v == (l.z as int) * 0x1_0000 + (l.y + 0x8000));
    vstd::arithmetic::div_mod::lemma_fundamental_div_mod_converse(
        v,
        0x1_0000,
        l.z as int,
        l.y + 0x8000,
    );
}

/// Unfolding a folded point gives the point back.
pub proof fn lemma_unfold_fold(p: IVec2)
    ensures
        spec_unfold(spec_fold(p)) == p,
        in_fold_range(spec_fold(p)),
{
    let v = p.y as int;
    vstd::arithmetic::div_mod::lemma_fundamental_div_mod(v, 0x1_0000);
    lemma_div_65536_range(v);
}

} // verus!
