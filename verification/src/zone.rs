//! Volumes of game space: sectors, levels and their neighbors.
//!
//! A sector is a one z level thick box filling a cell of the sector lattice.
//! A fat sector is grown one z level up and down, a wide sector by a one
//! cell rim horizontally, and a level is a `LEVEL_DEPTH` thick stack of
//! sectors with its z origin at a multiple of `LEVEL_DEPTH`.

use vstd::prelude::*;

use crate::arith::{div_euclid_i32, rem_euclid_i32};
use crate::geom::{Cube, IVec3, in_i32, ivec3, spec_ivec3};
use crate::location::{LEVEL_DEPTH, SECTOR_HEIGHT, SECTOR_WIDTH};

verus! {

/// Dimensions of a level volume.
pub open spec fn level_basis() -> IVec3 {
    spec_ivec3(SECTOR_WIDTH as int, SECTOR_HEIGHT as int, LEVEL_DEPTH as int)
}

/// The lattice cell of the given basis at the given lattice position.
pub open spec fn spec_cell(basis: IVec3, pos: IVec3) -> Cube {
    Cube {
        min: spec_ivec3(basis.x * pos.x, basis.y * pos.y, basis.z * pos.z),
        max: spec_ivec3(basis.x * (pos.x + 1), basis.y * (pos.y + 1), basis.z * (pos.z + 1)),
    }
}

/// The one level thick sector box containing a location.
pub open spec fn spec_sector_from(l: IVec3) -> Cube {
    let ox = (l.x as int / SECTOR_WIDTH as int) * SECTOR_WIDTH;
    let oy = (l.y as int / SECTOR_HEIGHT as int) * SECTOR_HEIGHT;
    Cube {
        min: spec_ivec3(ox, oy, l.z as int),
        max: spec_ivec3(ox + SECTOR_WIDTH, oy + SECTOR_HEIGHT, l.z + 1),
    }
}

/// The sector box of a location fits the `i32` range.
pub open spec fn sector_box_in_range(l: IVec3) -> bool {
    in_i32((l.x as int / SECTOR_WIDTH as int) * SECTOR_WIDTH + SECTOR_WIDTH) && in_i32(
        (l.x as int / SECTOR_WIDTH as int) * SECTOR_WIDTH,
    ) && in_i32((l.y as int / SECTOR_HEIGHT as int) * SECTOR_HEIGHT + SECTOR_HEIGHT) && in_i32(
        (l.y as int / SECTOR_HEIGHT as int) * SECTOR_HEIGHT,
    ) && l.z < i32::MAX
}

/// Dimensions of a box.
pub open spec fn spec_dim(c: Cube) -> IVec3 {
    spec_ivec3(c.max.x - c.min.x, c.max.y - c.min.y, c.max.z - c.min.z)
}

/// Box shifted by whole multiples of its own dimensions.
pub open spec fn spec_offset(c: Cube, d: IVec3) -> Cube {
    let dim = spec_dim(c);
    Cube {
        min: spec_ivec3(c.min.x + d.x * dim.x, c.min.y + d.y * dim.y, c.min.z + d.z * dim.z),
        max: spec_ivec3(c.max.x + d.x * dim.x, c.max.y + d.y * dim.y, c.max.z + d.z * dim.z),
    }
}

pub open spec fn offset_in_range(c: Cube, d: IVec3) -> bool {
    let dim = spec_dim(c);
    in_i32(c.max.x - c.min.x) && in_i32(c.max.y - c.min.y) && in_i32(c.max.z - c.min.z) && in_i32(
        d.x * dim.x,
    ) && in_i32(d.y * dim.y) && in_i32(d.z * dim.z) && in_i32(c.min.x + d.x * dim.x) && in_i32(
        c.min.y + d.y * dim.y,
    ) && in_i32(c.min.z + d.z * dim.z) && in_i32(c.max.x + d.x * dim.x) && in_i32(
        c.max.y + d.y * dim.y,
    ) && in_i32(c.max.z + d.z * dim.z)
}

impl Cube {
    /// Construct the one z level thick sector zone containing a location.
    pub fn sector_from(loc: IVec3) -> (r: Cube)
        requires
            sector_box_in_range(loc),
        ensures
            r == spec_sector_from(loc),
    {
        let ox = div_euclid_i32(loc.x, SECTOR_WIDTH) * SECTOR_WIDTH;
        let oy = div_euclid_i32(loc.y, SECTOR_HEIGHT) * SECTOR_HEIGHT;
        Cube::new(
            ivec3(ox, oy, loc.z),
            ivec3(ox + SECTOR_WIDTH, oy + SECTOR_HEIGHT, loc.z + 1),
        )
    }

    /// The level at given lattice coordinates.
    pub fn level_at(pos: IVec3) -> (r: Cube)
        requires
            in_i32(SECTOR_WIDTH * pos.x) && in_i32(SECTOR_WIDTH * (pos.x + 1)),
            in_i32(SECTOR_HEIGHT * pos.y) && in_i32(SECTOR_HEIGHT * (pos.y + 1)),
            in_i32(LEVEL_DEPTH * pos.z) && in_i32(LEVEL_DEPTH * (pos.z + 1)),
        ensures
            r == spec_cell(level_basis(), pos),
    {
        proof {
            assert(-0x7fffffff <= pos.x < 0x7fffffff) by (nonlinear_arith)
                requires
                    in_i32(48 * pos.x) && in_i32(48 * (pos.x + 1)),
            ;
            assert(-0x7fffffff <= pos.y < 0x7fffffff) by (nonlinear_arith)
                requires
                    in_i32(40 * pos.y) && in_i32(40 * (pos.y + 1)),
            ;
            assert(-0x7fffffff <= pos.z < 0x7fffffff) by (nonlinear_arith)
                requires
                    in_i32(2 * pos.z) && in_i32(2 * (pos.z + 1)),
            ;
        }
        Cube::new(
            ivec3(SECTOR_WIDTH * pos.x, SECTOR_HEIGHT * pos.y, LEVEL_DEPTH * pos.z),
            ivec3(
                SECTOR_WIDTH * (pos.x + 1),
                SECTOR_HEIGHT * (pos.y + 1),
                LEVEL_DEPTH * (pos.z + 1),
            ),
        )
    }

    /// Shift the zone by a lattice delta measured in its own dimensions.
    pub fn offset(&self, d: IVec3) -> (r: Cube)
        requires
            offset_in_range(*self, d),
        ensures
            r == spec_offset(*self, d),
    {
        let dx = self.max.x - self.min.x;
        let dy = self.max.y - self.min.y;
        let dz = self.max.z - self.min.z;
        let sx = d.x * dx;
        let sy = d.y * dy;
        let sz = d.z * dz;
        Cube::new(
            ivec3(self.min.x + sx, self.min.y + sy, self.min.z + sz),
            ivec3(self.max.x + sx, self.max.y + sy, self.max.z + sz),
        )
    }

    pub fn above(&self) -> (r: Cube)
        requires
            offset_in_range(*self, spec_ivec3(0, 0, 1)),
        ensures
            r == spec_offset(*self, spec_ivec3(0, 0, 1)),
    {
        self.offset(ivec3(0, 0, 1))
    }

    pub fn below(&self) -> (r: Cube)
        requires
            offset_in_range(*self, spec_ivec3(0, 0, -1)),
        ensures
            r == spec_offset(*self, spec_ivec3(0, 0, -1)),
    {
        self.offset(ivec3(0, 0, -1))
    }

    pub fn east(&self) -> (r: Cube)
        requires
            offset_in_range(*self, spec_ivec3(1, 0, 0)),
        ensures
            r == spec_offset(*self, spec_ivec3(1, 0, 0)),
    {
        self.offset(ivec3(1, 0, 0))
    }

    pub fn south(&self) -> (r: Cube)
        requires
            offset_in_range(*self, spec_ivec3(0, 1, 0)),
        ensures
            r == spec_offset(*self, spec_ivec3(0, 1, 0)),
    {
        self.offset(ivec3(0, 1, 0))
    }

    /// Make a regular-width sector into a wide sector, growing a rim of one
    /// cell horizontally.
    pub fn wide(&self) -> (r: Cube)
        requires
            self.min.x > i32::MIN && self.min.y > i32::MIN,
            self.max.x < i32::MAX && self.max.y < i32::MAX,
        ensures
            r.min == spec_ivec3(self.min.x - 1, self.min.y - 1, self.min.z as int),
            r.max == spec_ivec3(self.max.x + 1, self.max.y + 1, self.max.z as int),
    {
        Cube::new(
            ivec3(self.min.x - 1, self.min.y - 1, self.min.z),
            ivec3(self.max.x + 1, self.max.y + 1, self.max.z),
        )
    }

    /// Make a thin sector into a fat sector, growing one z layer up and
    /// down.
    pub fn fat(&self) -> (r: Cube)
        requires
            self.min.z > i32::MIN && self.max.z < i32::MAX,
        ensures
            r.min == spec_ivec3(self.min.x as int, self.min.y as int, self.min.z - 1),
            r.max == spec_ivec3(self.max.x as int, self.max.y as int, self.max.z + 1),
    {
        Cube::new(
            ivec3(self.min.x, self.min.y, self.min.z - 1),
            ivec3(self.max.x, self.max.y, self.max.z + 1),
        )
    }

    /// Return the bottom layer of the zone.
    pub fn floor(&self) -> (r: Cube)
        requires
            self.min.z < i32::MAX,
        ensures
            r.min == self.min,
            r.max == spec_ivec3(self.max.x as int, self.max.y as int, self.min.z + 1),
    {
        Cube::new(self.min, ivec3(self.max.x, self.max.y, self.min.z + 1))
    }

    /// Whether the zone has standard sector width and height and snaps to
    /// the sector lattice.
    pub fn is_regular_width(&self) -> (r: bool)
        ensures
            r == (self.max.x - self.min.x == SECTOR_WIDTH && self.max.y - self.min.y
                == SECTOR_HEIGHT && (self.min.x as int) % (SECTOR_WIDTH as int) == 0 && (self.min.y as int) % (SECTOR_HEIGHT as int) == 0),
    {
        (self.max.x as i64 - self.min.x as i64) == SECTOR_WIDTH as i64 && (self.max.y as i64
            - self.min.y as i64) == SECTOR_HEIGHT as i64 && rem_euclid_i32(self.min.x, SECTOR_WIDTH)
            == 0 && rem_euclid_i32(self.min.y, SECTOR_HEIGHT) == 0
    }

    /// Snap a thin sector or a level into the two levels tall level zone
    /// that contains it.
    ///
    /// Sectors at z = 0 and z = 1 both snap into the level at z = 0..2.
    pub fn level(&self) -> (r: Cube)
        requires
            self.is_level_seed(),
        ensures
            r == spec_cell(level_basis(), self.level_lattice_pos()),
            r.spec_contains_other(*self),
    {
        let pos = ivec3(
            div_euclid_i32(self.min.x, SECTOR_WIDTH),
            div_euclid_i32(self.min.y, SECTOR_HEIGHT),
            div_euclid_i32(self.min.z, LEVEL_DEPTH),
        );
        Cube::level_at(pos)
    }

    /// Lattice position of the level containing the zone's lowest corner.
    pub open spec fn level_lattice_pos(self) -> IVec3 {
        spec_ivec3(
            self.min.x as int / SECTOR_WIDTH as int,
            self.min.y as int / SECTOR_HEIGHT as int,
            self.min.z as int / LEVEL_DEPTH as int,
        )
    }

    /// A zone that fits in a single level: regular width and at most the
    /// level's depth, within the level containing its lowest corner.
    pub open spec fn is_level_seed(self) -> bool {
        &&& self.max.x - self.min.x == SECTOR_WIDTH
        &&& self.max.y - self.min.y == SECTOR_HEIGHT
        &&& (self.min.x as int) % (SECTOR_WIDTH as int) == 0
        &&& (self.min.y as int) % (SECTOR_HEIGHT as int) == 0
        &&& self.min.z < self.max.z
        &&& self.max.z <= (self.min.z as int / LEVEL_DEPTH as int) * LEVEL_DEPTH + LEVEL_DEPTH
        &&& self.max.x < i32::MAX - SECTOR_WIDTH
        &&& self.max.y < i32::MAX - SECTOR_HEIGHT
        &&& self.max.z < i32::MAX - LEVEL_DEPTH
    }
}

/// A sector box contains its location.
pub proof fn lemma_sector_contains(l: IVec3)
    requires
        sector_box_in_range(l),
    ensures
        spec_sector_from(l).spec_contains(l),
{
}

} // verus!
