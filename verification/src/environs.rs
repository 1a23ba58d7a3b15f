//! Voxel environments and the pseudo-2D tiles that a top-down view shows of
//! them.

use vstd::prelude::*;

use crate::assoc::{AssocMap, keys_distinct, lemma_insert_get, lemma_key_index, seq_get, seq_has_key, seq_insert};
use crate::atlas::encodable;
use crate::block::{BadBlockChar, Block, Tile, Voxel, block_char, char_block, spec_is_support};
use crate::char_atlas::{Atlas, atlas_cells, last_char, shown_cells};
use crate::text::spec_is_whitespace;
use crate::geom::{IVec2, IVec3, dir4, dir8, ivec3, s4_dir, s8_dir, spec_ivec3};

verus! {

/// A space of voxels that can be read and written.
pub trait Environs {
    /// Contents of the voxel at a location.
    spec fn spec_voxel(&self, loc: IVec3) -> Voxel;

    fn voxel(&self, loc: &IVec3) -> (r: Voxel)
        ensures
            r == self.spec_voxel(*loc),
    ;

    fn set_voxel(&mut self, loc: &IVec3, voxel: Voxel)
        ensures
            forall|q: IVec3|
                #[trigger] final(self).spec_voxel(q) == if q == *loc {
                    voxel
                } else {
                    old(self).spec_voxel(q)
                },
    ;
}

/// Voxels stored by location; unset locations are empty.
pub struct Terrain {
    voxels: AssocMap<IVec3, Voxel>,
}

impl Terrain {
    /// Voxels set so far, in the order they were first set.
    pub closed spec fn entries(&self) -> Seq<(IVec3, Voxel)> {
        self.voxels@
    }

    #[verifier::type_invariant]
    closed spec fn wf(&self) -> bool {
        self.voxels.wf()
    }

    /// Empty space everywhere.
    pub fn new() -> (r: Terrain)
        ensures
            forall|q: IVec3| r.spec_voxel(q) is None,
    {
        Terrain { voxels: AssocMap::new() }
    }
}

impl Environs for Terrain {
    open spec fn spec_voxel(&self, loc: IVec3) -> Voxel {
        match seq_get(self.entries(), loc) {
            Some(v) => v,
            None => None,
        }
    }

    fn voxel(&self, loc: &IVec3) -> (r: Voxel) {
        proof {
            use_type_invariant(self);
        }
        match self.voxels.get(loc) {
            Some(v) => *v,
            None => None,
        }
    }

    /// Setting a voxel, even to empty space, records it.
    fn set_voxel(&mut self, loc: &IVec3, voxel: Voxel) {
        proof {
            use_type_invariant(&*self);
        }
        let mut v = AssocMap::new();
        std::mem::swap(&mut v, &mut self.voxels);
        let ghost before = v@;
        v.insert(*loc, voxel);
        self.voxels = v;
        proof {
            assert forall|q: IVec3|
                #[trigger] self.spec_voxel(q) == if q == *loc {
                    voxel
                } else {
                    old(self).spec_voxel(q)
                } by {
                lemma_insert_get(before, *loc, voxel, q);
            }
        }
    }
}

/// The pseudo-2D tile that the voxels above, at, below and two below a
/// location make.
pub open spec fn tile_of(a: Voxel, b: Voxel, c: Voxel, d: Voxel, l: IVec3) -> Tile {
    match (a, b, c) {
        // Solid three block stack, makes a proper wall; doors win even off
        // center since they change traversability.
        (Some(a), Some(b), Some(c)) => if a == Block::Door || c == Block::Door {
            Tile::Wall(Block::Door)
        } else {
            Tile::Wall(b)
        },
        // Raised floor.
        (None, Some(a), _) => Tile::Surface(spec_ivec3(l.x as int, l.y as int, l.z + 1), a),
        // Regular floor.
        (_, None, Some(a)) => Tile::Surface(l, a),
        // Depressed floor, or nothing.
        (_, _, None) => match d {
            Some(a) => Tile::Surface(spec_ivec3(l.x as int, l.y as int, l.z - 1), a),
            None => Tile::Void,
        },
    }
}

/// The tile at a location of an environment.
pub open spec fn spec_tile<E: Environs>(r: &E, l: IVec3) -> Tile {
    tile_of(
        r.spec_voxel(spec_ivec3(l.x as int, l.y as int, l.z + 1)),
        r.spec_voxel(l),
        r.spec_voxel(spec_ivec3(l.x as int, l.y as int, l.z - 1)),
        r.spec_voxel(spec_ivec3(l.x as int, l.y as int, l.z - 2)),
        l,
    )
}

/// Locations whose tile can be looked up: two levels of room below and one
/// above.
pub open spec fn tile_range(l: IVec3) -> bool {
    i32::MIN + 2 <= l.z < i32::MAX
}

/// Location is traversable space immediately above a support block.
pub open spec fn spec_stood_in<E: Environs>(r: &E, l: IVec3) -> bool {
    (r.spec_voxel(l) is None || r.spec_voxel(l) == Some(Block::Door)) && (r.spec_voxel(
        spec_ivec3(l.x as int, l.y as int, l.z - 1),
    ) matches Some(b) && spec_is_support(b))
}

/// Where a step from `l` towards `dir` lands: the neighboring location one
/// level up, level, or one level down, the first one that can be stood in.
pub open spec fn spec_walk_step<E: Environs>(r: &E, l: IVec3, dir: IVec2) -> Option<IVec3> {
    let n = spec_ivec3(l.x + dir.x, l.y + dir.y, l.z as int);
    let up = spec_ivec3(n.x as int, n.y as int, n.z + 1);
    let down = spec_ivec3(n.x as int, n.y as int, n.z - 1);
    if spec_stood_in(r, up) {
        Some(up)
    } else if spec_stood_in(r, n) {
        Some(n)
    } else if spec_stood_in(r, down) {
        Some(down)
    } else {
        None
    }
}

/// The tile of a cell from its column of voxels: a block with open space
/// above is a floor one level up, open space over a block a floor at the
/// cell, open space over open space over a block a floor one level down,
/// three blocks a wall of the middle block (a door if one of the outer two
/// is a door), and open space down to two levels below nothing.
pub proof fn lemma_tile_of_column<E: Environs>(r: &E, p: IVec3)
    requires
        i32::MIN + 2 <= p.z < i32::MAX,
    ensures
        ({
            let above = spec_ivec3(p.x as int, p.y as int, p.z + 1);
            let below = spec_ivec3(p.x as int, p.y as int, p.z - 1);
            let below2 = spec_ivec3(p.x as int, p.y as int, p.z - 2);
            let t = spec_tile(r, p);
            &&& r.spec_voxel(above) is None && r.spec_voxel(p) is Some ==> t == Tile::Surface(
                above,
                r.spec_voxel(p).unwrap(),
            )
            &&& r.spec_voxel(p) is None && r.spec_voxel(below) is Some ==> t == Tile::Surface(
                p,
                r.spec_voxel(below).unwrap(),
            )
            &&& r.spec_voxel(p) is None && r.spec_voxel(below) is None && r.spec_voxel(below2) is Some
                ==> t == Tile::Surface(below, r.spec_voxel(below2).unwrap())
            &&& r.spec_voxel(p) is None && r.spec_voxel(below) is None && r.spec_voxel(below2) is None
                ==> t == Tile::Void
            &&& r.spec_voxel(above) is Some && r.spec_voxel(above) != Some(Block::Door)
                && r.spec_voxel(p) is Some && r.spec_voxel(below) is Some && r.spec_voxel(below)
                != Some(Block::Door) ==> t == Tile::Wall(r.spec_voxel(p).unwrap())
        }),
{
}

/// An open door with a support block under it can be stood in, just as
/// open space can; a wall block cannot.
pub proof fn lemma_door_can_be_stood_in<E: Environs>(r: &E, l: IVec3)
    requires
        r.spec_voxel(spec_ivec3(l.x as int, l.y as int, l.z - 1)) matches Some(b) && spec_is_support(b),
    ensures
        r.spec_voxel(l) == Some(Block::Door) ==> spec_stood_in(r, l),
        r.spec_voxel(l) is None ==> spec_stood_in(r, l),
        r.spec_voxel(l) == Some(Block::Stone) ==> !spec_stood_in(r, l),
{
}

/// A step towards a doorway on level ground, under a solid block and above
/// a support block, lands in the doorway.
pub proof fn lemma_step_into_door<E: Environs>(r: &E, l: IVec3, dir: IVec2)
    requires
        ({
            let n = spec_ivec3(l.x + dir.x, l.y + dir.y, l.z as int);
            &&& r.spec_voxel(n) == Some(Block::Door)
            &&& r.spec_voxel(spec_ivec3(n.x as int, n.y as int, n.z - 1)) matches Some(b)
                && spec_is_support(b)
            &&& r.spec_voxel(spec_ivec3(n.x as int, n.y as int, n.z + 1)) matches Some(c) && c
                != Block::Door
        }),
    ensures
        spec_walk_step(r, l, dir) == Some(spec_ivec3(l.x + dir.x, l.y + dir.y, l.z as int)),
{
}

/// A step climbs onto a support block with open space above it, drops
/// down to a floor one level below when the cell ahead and the one under it
/// are open, and is refused by a wall three blocks high.
pub proof fn lemma_step_up_and_down<E: Environs>(r: &E, l: IVec3, dir: IVec2)
    requires
        i32::MIN + 2 <= l.z < i32::MAX,
    ensures
        ({
            let n = spec_ivec3(l.x + dir.x, l.y + dir.y, l.z as int);
            let up = spec_ivec3(n.x as int, n.y as int, n.z + 1);
            let down = spec_ivec3(n.x as int, n.y as int, n.z - 1);
            let down2 = spec_ivec3(n.x as int, n.y as int, n.z - 2);
            &&& (r.spec_voxel(n) matches Some(b) && spec_is_support(b)) && r.spec_voxel(up) is None
                ==> spec_walk_step(r, l, dir) == Some(up)
            &&& r.spec_voxel(n) is None && r.spec_voxel(down) is None && (r.spec_voxel(
                down2,
            ) matches Some(b) && spec_is_support(b)) ==> spec_walk_step(r, l, dir) == Some(down)
            &&& r.spec_voxel(up) == Some(Block::Stone) && r.spec_voxel(n) == Some(Block::Stone)
                && r.spec_voxel(down) == Some(Block::Stone) ==> spec_walk_step(r, l, dir) is None
        }),
{
    let n = spec_ivec3(l.x + dir.x, l.y + dir.y, l.z as int);
    let up = spec_ivec3(n.x as int, n.y as int, n.z + 1);
    let down = spec_ivec3(n.x as int, n.y as int, n.z - 1);
    assert(spec_ivec3(up.x as int, up.y as int, up.z - 1) == n);
    assert(spec_ivec3(n.x as int, n.y as int, n.z - 1) == down);
}

/// Bit `i` of a 4-bit mask: set when the step in direction `i` (clockwise
/// from north) goes up (`up`) or down (`!up`) a level.
pub open spec fn step_bit<E: Environs>(r: &E, l: IVec3, i: int, up: bool) -> int {
    match spec_walk_step(r, l, dir4(i)) {
        Some(n) => if (up && n.z > l.z) || (!up && n.z < l.z) {
            if i == 0 {
                1
            } else if i == 1 {
                2
            } else if i == 2 {
                4
            } else {
                8
            }
        } else {
            0
        },
        None => 0,
    }
}

/// Mask of the directions whose step goes up (`up`) or down a level.
pub open spec fn step_mask<E: Environs>(r: &E, l: IVec3, up: bool) -> int {
    step_bit(r, l, 0, up) + step_bit(r, l, 1, up) + step_bit(r, l, 2, up) + step_bit(r, l, 3, up)
}

/// Light passes through the voxel at a location: empty space or glass.
pub open spec fn see_through<E: Environs>(r: &E, l: IVec3) -> bool {
    r.spec_voxel(l) is None || r.spec_voxel(l) == Some(Block::Glass)
}

/// Locations whose neighborhood can be stepped around in.
pub open spec fn step_range(l: IVec3) -> bool {
    i32::MIN + 2 < l.x < i32::MAX - 2 && i32::MIN + 2 < l.y < i32::MAX - 2 && i32::MIN + 2 < l.z
        < i32::MAX - 2
}

impl IVec3 {
    /// Return the pseudo-2D tile for terrain at this location.
    pub fn tile<E: Environs>(self, r: &E) -> (t: Tile)
        requires
            tile_range(self),
        ensures
            t == spec_tile(r, self),
    {
        let above = r.voxel(&ivec3(self.x, self.y, self.z + 1));
        let here = r.voxel(&self);
        let below = r.voxel(&ivec3(self.x, self.y, self.z - 1));
        match (above, here, below) {
            (Some(a), Some(b), Some(c)) => {
                if a == Block::Door || c == Block::Door {
                    Tile::Wall(Block::Door)
                } else {
                    Tile::Wall(b)
                }
            },
            (None, Some(a), _) => Tile::Surface(ivec3(self.x, self.y, self.z + 1), a),
            (_, None, Some(a)) => Tile::Surface(self, a),
            (_, _, None) => {
                if let Some(a) = r.voxel(&ivec3(self.x, self.y, self.z - 2)) {
                    Tile::Surface(ivec3(self.x, self.y, self.z - 1), a)
                } else {
                    Tile::Void
                }
            },
        }
    }

    /// Location is a wall tile and has wall tiles as all 8 neighbors.
    pub fn is_interior_wall<E: Environs>(self, r: &E) -> (b: bool)
        requires
            tile_range(self),
            i32::MIN < self.x < i32::MAX,
            i32::MIN < self.y < i32::MAX,
        ensures
            b == (spec_tile(r, self) is Wall && forall|i: int|
                0 <= i < 8 ==> #[trigger] spec_tile(
                    r,
                    spec_ivec3(self.x + dir8(i).x, self.y + dir8(i).y, self.z as int),
                ) is Wall),
    {
        if !self.tile(r).is_wall() {
            return false;
        }
        let mut i: usize = 0;
        while i < 8
            invariant
                tile_range(self),
                i32::MIN < self.x < i32::MAX,
                i32::MIN < self.y < i32::MAX,
                i <= 8,
                forall|k: int|
                    0 <= k < i ==> #[trigger] spec_tile(
                        r,
                        spec_ivec3(self.x + dir8(k).x, self.y + dir8(k).y, self.z as int),
                    ) is Wall,
            decreases 8 - i,
        {
            let d = s8_dir(i);
            let n = ivec3(self.x + d.x, self.y + d.y, self.z);
            if !n.tile(r).is_wall() {
                assert(n == spec_ivec3(self.x + dir8(i as int).x, self.y + dir8(i as int).y, self.z as int));
                return false;
            }
            i += 1;
        }
        true
    }

    /// Location is traversable space immediately above a support block.
    pub fn can_be_stood_in<E: Environs>(self, r: &E) -> (b: bool)
        requires
            self.z > i32::MIN,
        ensures
            b == spec_stood_in(r, self),
    {
        let here = r.voxel(&self);
        let open = match here {
            None => true,
            Some(Block::Door) => true,
            _ => false,
        };
        open && match r.voxel(&ivec3(self.x, self.y, self.z - 1)) {
            Some(b) => b.is_support(),
            None => false,
        }
    }

    /// Look for the valid neighboring floor adjacent to current location.
    ///
    /// Can step up or down one Z level. Returns `None` if terrain is
    /// blocked.
    pub fn walk_step<E: Environs>(self, r: &E, dir: IVec2) -> (s: Option<IVec3>)
        requires
            step_range(self),
            -1 <= dir.x <= 1,
            -1 <= dir.y <= 1,
        ensures
            s == spec_walk_step(r, self, dir),
    {
        let n = ivec3(self.x + dir.x, self.y + dir.y, self.z);
        let up = ivec3(n.x, n.y, n.z + 1);
        let down = ivec3(n.x, n.y, n.z - 1);
        if up.can_be_stood_in(r) {
            Some(up)
        } else if n.can_be_stood_in(r) {
            Some(n)
        } else if down.can_be_stood_in(r) {
            Some(down)
        } else {
            None
        }
    }

    /// 4-bit mask that has 1 on direction with a step up.
    pub fn high_connectivity<E: Environs>(self, r: &E) -> (m: usize)
        requires
            step_range(self),
        ensures
            m == step_mask(r, self, true),
    {
        self.connectivity(r, true)
    }

    /// 4-bit mask that has 1 on direction with a step down.
    pub fn low_connectivity<E: Environs>(self, r: &E) -> (m: usize)
        requires
            step_range(self),
        ensures
            m == step_mask(r, self, false),
    {
        self.connectivity(r, false)
    }

    fn connectivity<E: Environs>(self, r: &E, up: bool) -> (m: usize)
        requires
            step_range(self),
        ensures
            m == step_mask(r, self, up),
    {
        let mut m: usize = 0;
        let mut bit: usize = 1;
        let mut i: usize = 0;
        while i < 4
            invariant
                step_range(self),
                i <= 4,
                bit == if i == 0 {
                    1usize
                } else if i == 1 {
                    2usize
                } else if i == 2 {
                    4usize
                } else if i == 3 {
                    8usize
                } else {
                    16usize
                },
                m == (if i > 0 {
                    step_bit(r, self, 0, up)
                } else {
                    0int
                }) + (if i > 1 {
                    step_bit(r, self, 1, up)
                } else {
                    0int
                }) + (if i > 2 {
                    step_bit(r, self, 2, up)
                } else {
                    0int
                }) + (if i > 3 {
                    step_bit(r, self, 3, up)
                } else {
                    0int
                }),
            decreases 4 - i,
        {
            let d = s4_dir(i);
            match self.walk_step(r, d) {
                Some(n) => {
                    if (up && n.z > self.z) || (!up && n.z < self.z) {
                        m = m + bit;
                    }
                },
                None => {},
            }
            bit = bit * 2;
            i += 1;
        }
        m
    }

    /// For field of view calculations, the non-opaque locations among the
    /// one above, this one and the one below, in that order.
    ///
    /// If the result is empty, this location should be treated as an opaque
    /// tile in terms of field of view.
    pub fn transparent_volume<E: Environs>(self, r: &E) -> (v: Vec<IVec3>)
        requires
            i32::MIN < self.z < i32::MAX,
        ensures
            v@ == seq![
                spec_ivec3(self.x as int, self.y as int, self.z + 1),
                self,
                spec_ivec3(self.x as int, self.y as int, self.z - 1),
            ].filter(|l: IVec3| see_through(r, l)),
    {
        let cands = [ivec3(self.x, self.y, self.z + 1), self, ivec3(self.x, self.y, self.z - 1)];
        let mut out: Vec<IVec3> = Vec::new();
        let ghost all = seq![
            spec_ivec3(self.x as int, self.y as int, self.z + 1),
            self,
            spec_ivec3(self.x as int, self.y as int, self.z - 1),
        ];
        let mut i: usize = 0;
        while i < 3
            invariant
                i <= 3,
                cands@ == all,
                out@ == all.take(i as int).filter(|l: IVec3| see_through(r, l)),
            decreases 3 - i,
        {
            let l = cands[i];
            let see = match r.voxel(&l) {
                None => true,
                Some(Block::Glass) => true,
                _ => false,
            };
            proof {
                reveal(Seq::filter);
                assert(all.take(i + 1).drop_last() == all.take(i as int));
                assert(all.take(i + 1).last() == l);
                assert(see_through(r, l) == see);
            }
            if see {
                out.push(l);
            }
            i += 1;
        }
        assert(all.take(3) == all);
        out
    }

    /// If the location has a surface, snap to the space above the surface.
    /// This may be offset above or below self.
    ///
    /// Otherwise return self unchanged.
    pub fn snap_above_floor<E: Environs>(self, r: &E) -> (l: IVec3)
        requires
            tile_range(self),
        ensures
            l == match spec_tile(r, self) {
                Tile::Surface(loc, _) => loc,
                _ => self,
            },
    {
        match self.tile(r) {
            Tile::Surface(loc, _) => loc,
            _ => self,
        }
    }
}

/// Map character of a voxel: its block's character, `'_'` for empty space.
pub open spec fn voxel_char(v: Voxel) -> char {
    match v {
        None => '_',
        Some(b) => block_char(b),
    }
}

/// The voxel that a map character stands for, if any.
pub open spec fn char_voxel(c: char) -> Option<Voxel> {
    if c == '_' {
        Some(None)
    } else {
        match char_block(c) {
            Some(b) => Some(Some(b)),
            None => None,
        }
    }
}

/// The voxels set in a terrain, as map characters at their locations.
pub open spec fn terrain_cells(t: Terrain) -> Set<(IVec3, char)> {
    Set::new(|e: (IVec3, char)| seq_has_key(t.entries(), e.0) && e.1 == voxel_char(t.spec_voxel(e.0)))
}

/// Voxels read from the first `n` map cells, a later cell replacing an
/// earlier one at the same location, or the first character that names no
/// voxel.
pub open spec fn decode_voxels(cells: Seq<(IVec3, char)>, n: int) -> Result<Seq<(IVec3, Voxel)>, char>
    decreases n,
{
    if n <= 0 {
        Ok(Seq::empty())
    } else {
        match decode_voxels(cells, n - 1) {
            Err(c) => Err(c),
            Ok(s) => match char_voxel(cells[n - 1].1) {
                Some(v) => Ok(seq_insert(s, cells[n - 1].0, v)),
                None => Err(cells[n - 1].1),
            },
        }
    }
}

/// Map characters of voxels are never null or whitespace, and read back as
/// the same voxel.
pub proof fn lemma_voxel_char(v: Voxel)
    ensures
        voxel_char(v) != '\0',
        voxel_char(v) != '\n',
        !spec_is_whitespace(voxel_char(v)),
        char_voxel(voxel_char(v)) == Some(v),
{
}

/// The last character written at a location by distinct-keyed items is
/// that location's item.
proof fn lemma_last_distinct(items: Seq<(IVec3, char)>, n: int, q: IVec3)
    requires
        0 <= n <= items.len(),
        forall|i: int, j: int| 0 <= i < j < items.len() ==> (#[trigger] items[i]).0 != (#[trigger] items[j]).0,
        forall|i: int| 0 <= i < items.len() ==> (#[trigger] items[i]).1 != '\0',
    ensures
        last_char(items, n, q) == if exists|k: int| 0 <= k < n && (#[trigger] items[k]).0 == q {
            Some(items[choose|k: int| 0 <= k < n && (#[trigger] items[k]).0 == q].1)
        } else {
            None
        },
    decreases n,
{
    if n > 0 {
        lemma_last_distinct(items, n - 1, q);
        if items[n - 1].0 == q {
            let k = choose|k: int| 0 <= k < n && (#[trigger] items[k]).0 == q;
            if k != n - 1 {
                assert(items[k].0 != items[n - 1].0);
            }
        } else if exists|k: int| 0 <= k < n && (#[trigger] items[k]).0 == q {
            let k = choose|k: int| 0 <= k < n && (#[trigger] items[k]).0 == q;
            assert(k != n - 1);
            assert(exists|k2: int| 0 <= k2 < n - 1 && (#[trigger] items[k2]).0 == q);
            let k2 = choose|k2: int| 0 <= k2 < n - 1 && (#[trigger] items[k2]).0 == q;
            if k2 != k {
                if k2 < k {
                    assert(items[k2].0 != items[k].0);
                } else {
                    assert(items[k].0 != items[k2].0);
                }
            }
        }
    }
}

impl Terrain {
    /// Whether a voxel has been set at a location.
    pub open spec fn has(&self, q: IVec3) -> bool {
        seq_has_key(self.entries(), q)
    }

    /// Write the terrain as a character atlas: each set voxel as its map
    /// character, empty space as `'_'`.
    pub fn to_atlas(&self) -> (r: Atlas)
        requires
            forall|i: int| 0 <= i < self.entries().len() ==> encodable((#[trigger] self.entries()[i]).0),
        ensures
            r.decodable(),
            atlas_cells(r.patches()).to_set() == terrain_cells(*self),
    {
        proof {
            use_type_invariant(self);
        }
        let n = self.voxels.len();
        let mut items: Vec<(IVec3, char)> = Vec::new();
        let mut i: usize = 0;
        while i < n
            invariant
                n == self.entries().len(),
                i <= n,
                items@.len() == i,
                forall|k: int|
                    0 <= k < i ==> (#[trigger] items@[k]).0 == self.entries()[k].0 && items@[k].1
                        == voxel_char(self.entries()[k].1),
            decreases n - i,
        {
            let loc = self.voxels.key_at(i);
            let v = *self.voxels.value_at(i);
            let c = match v {
                None => '_',
                Some(b) => b.to_char(),
            };
            items.push((loc, c));
            i += 1;
        }
        proof {
            assert forall|k: int| 0 <= k < items@.len() implies encodable((#[trigger] items@[k]).0)
                && items@[k].1 != '\n' by {
                assert(encodable(self.entries()[k].0));
                lemma_voxel_char(self.entries()[k].1);
            }
            assert forall|a: int, b: int| 0 <= a < b < items@.len() implies (#[trigger] items@[a]).0
                != (#[trigger] items@[b]).0 by {
                assert(self.entries()[a].0 != self.entries()[b].0);
            }
            assert forall|k: int| 0 <= k < items@.len() implies (#[trigger] items@[k]).1 != '\0' by {
                lemma_voxel_char(self.entries()[k].1);
            }
        }
        let r = Atlas::from_cells(&items);
        proof {
            assert forall|x: (IVec3, char)| shown_cells(items@).contains(x) <==> terrain_cells(*self).contains(x) by {
                let q = x.0;
                lemma_last_distinct(items@, n as int, q);
                if exists|k: int| 0 <= k < n && (#[trigger] items@[k]).0 == q {
                    let k = choose|k: int| 0 <= k < n && (#[trigger] items@[k]).0 == q;
                    lemma_key_index(self.entries(), k);
                    lemma_voxel_char(self.entries()[k].1);
                    assert(seq_has_key(self.entries(), q));
                } else {
                    if seq_has_key(self.entries(), q) {
                        let k = choose|k: int| 0 <= k < self.entries().len() && (#[trigger] self.entries()[k]).0 == q;
                        assert(items@[k].0 == q);
                    }
                }
            }
            assert(shown_cells(items@) =~= terrain_cells(*self));
        }
        r
    }

    /// Read a terrain from a character atlas: `'_'` is empty space, other
    /// characters are blocks; a character that names no block is an error.
    pub fn from_atlas(a: &Atlas) -> (r: Result<Terrain, BadBlockChar>)
        requires
            a.decodable(),
        ensures
            match decode_voxels(atlas_cells(a.patches()), atlas_cells(a.patches()).len() as int) {
                Ok(s) => r matches Ok(t) && t.entries() == s,
                Err(c) => r == Err::<Terrain, BadBlockChar>(BadBlockChar(c)),
            },
    {
        let cells = a.cells();
        let n = cells.len();
        let mut voxels: AssocMap<IVec3, Voxel> = AssocMap::new();
        let mut i: usize = 0;
        while i < n
            invariant
                n == cells@.len(),
                cells@ == atlas_cells(a.patches()),
                i <= n,
                voxels.wf(),
                decode_voxels(cells@, i as int) == Ok::<Seq<(IVec3, Voxel)>, char>(voxels@),
            decreases n - i,
        {
            let (loc, c) = cells[i];
            if c == '_' {
                voxels.insert(loc, None);
            } else {
                match Block::try_from_char(c) {
                    Ok(b) => {
                        voxels.insert(loc, Some(b));
                    },
                    Err(e) => {
                        proof {
                            assert(char_voxel(c) is None);
                            assert(decode_voxels(cells@, i + 1) == Err::<Seq<(IVec3, Voxel)>, char>(c));
                            lemma_decode_err_stays(cells@, i + 1, n as int);
                            assert(cells@ == atlas_cells(a.patches()));
                        }
                        return Err(e);
                    },
                }
            }
            i += 1;
        }
        assert(cells@ == atlas_cells(a.patches()));
        Ok(Terrain { voxels })
    }
}

/// Once decoding fails it stays failed with the same character.
proof fn lemma_decode_err_stays(cells: Seq<(IVec3, char)>, i: int, n: int)
    requires
        0 <= i <= n,
        decode_voxels(cells, i) is Err,
    ensures
        decode_voxels(cells, n) == decode_voxels(cells, i),
    decreases n - i,
{
    if i < n {
        lemma_decode_err_stays(cells, i + 1, n);
    }
}

/// Reading cells that each show the voxel of a terrain at its location
/// gives, after the first `n`, those voxels at the locations seen so far.
proof fn lemma_decode_terrain_prefix(t: Terrain, cells: Seq<(IVec3, char)>, n: int)
    requires
        0 <= n <= cells.len(),
        cells.to_set() == terrain_cells(t),
    ensures
        decode_voxels(cells, n) matches Ok(s) && keys_distinct(s) && forall|q: IVec3|
            #[trigger] seq_get(s, q) == if exists|k: int| 0 <= k < n && (#[trigger] cells[k]).0 == q {
                Some(t.spec_voxel(q))
            } else {
                None
            },
    decreases n,
{
    if n > 0 {
        lemma_decode_terrain_prefix(t, cells, n - 1);
        let s = decode_voxels(cells, n - 1)->Ok_0;
        let (q0, c0) = cells[n - 1];
        assert(cells.to_set().contains((q0, c0)));
        assert(terrain_cells(t).contains((q0, c0)));
        lemma_voxel_char(t.spec_voxel(q0));
        assert(char_voxel(c0) == Some(t.spec_voxel(q0)));
        assert forall|q: IVec3|
            #[trigger] seq_get(seq_insert(s, q0, t.spec_voxel(q0)), q) == if exists|k: int|
                0 <= k < n && (#[trigger] cells[k]).0 == q {
                Some(t.spec_voxel(q))
            } else {
                None
            } by {
            lemma_insert_get(s, q0, t.spec_voxel(q0), q);
            if q != q0 && exists|k: int| 0 <= k < n && (#[trigger] cells[k]).0 == q {
                let k = choose|k: int| 0 <= k < n && (#[trigger] cells[k]).0 == q;
                assert(k != n - 1);
                assert(exists|k2: int| 0 <= k2 < n - 1 && (#[trigger] cells[k2]).0 == q);
            }
            if exists|k: int| 0 <= k < n - 1 && (#[trigger] cells[k]).0 == q {
                let k = choose|k: int| 0 <= k < n - 1 && (#[trigger] cells[k]).0 == q;
                assert(0 <= k < n && cells[k].0 == q);
            }
            if q == q0 {
                assert(cells[n - 1].0 == q);
            }
        }
        lemma_insert_get(s, q0, t.spec_voxel(q0), q0);
    }
}

/// Writing a terrain as map cells and reading them back, in any order,
/// gives the same voxels at the same locations.
pub proof fn lemma_terrain_roundtrip(t: Terrain, cells: Seq<(IVec3, char)>)
    requires
        cells.to_set() == terrain_cells(t),
    ensures
        decode_voxels(cells, cells.len() as int) matches Ok(s) && forall|q: IVec3|
            #[trigger] seq_get(s, q) == seq_get(t.entries(), q),
{
    lemma_decode_terrain_prefix(t, cells, cells.len() as int);
    let s = decode_voxels(cells, cells.len() as int)->Ok_0;
    assert forall|q: IVec3| #[trigger] seq_get(s, q) == seq_get(t.entries(), q) by {
        if t.has(q) {
            assert(terrain_cells(t).contains((q, voxel_char(t.spec_voxel(q)))));
            assert(cells.to_set().contains((q, voxel_char(t.spec_voxel(q)))));
            let k = choose|k: int| 0 <= k < cells.len() && cells[k] == (q, voxel_char(t.spec_voxel(q)));
            assert(cells[k].0 == q);
        } else {
            if exists|k: int| 0 <= k < cells.len() && (#[trigger] cells[k]).0 == q {
                let k = choose|k: int| 0 <= k < cells.len() && (#[trigger] cells[k]).0 == q;
                assert(cells.to_set().contains(cells[k]));
                assert(terrain_cells(t).contains(cells[k]));
            }
        }
    }
}

} // verus!
