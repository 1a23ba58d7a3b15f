//! Integer vectors, rectangles and boxes on the game grid.

use vstd::prelude::*;

verus! {

/// Two-dimensional integer vector.
#[derive(Copy, Clone, PartialEq, Eq, Structural, Debug, Hash)]
pub struct IVec2 {
    pub x: i32,
    pub y: i32,
}

/// Three-dimensional integer vector.
#[derive(Copy, Clone, PartialEq, Eq, Structural, Debug, Hash)]
pub struct IVec3 {
    pub x: i32,
    pub y: i32,
    pub z: i32,
}

/// Whether an integer fits in `i32`.
pub open spec fn in_i32(v: int) -> bool {
    i32::MIN <= v <= i32::MAX
}

pub open spec fn spec_ivec2(x: int, y: int) -> IVec2 {
    IVec2 { x: x as i32, y: y as i32 }
}

pub open spec fn spec_ivec3(x: int, y: int, z: int) -> IVec3 {
    IVec3 { x: x as i32, y: y as i32, z: z as i32 }
}

pub fn ivec2(x: i32, y: i32) -> (r: IVec2)
    ensures
        r.x == x,
        r.y == y,
{
    IVec2 { x, y }
}

pub fn ivec3(x: i32, y: i32, z: i32) -> (r: IVec3)
    ensures
        r.x == x,
        r.y == y,
        r.z == z,
{
    IVec3 { x, y, z }
}

impl IVec2 {
    pub open spec fn can_add(self, o: IVec2) -> bool {
        in_i32(self.x + o.x) && in_i32(self.y + o.y)
    }

    pub open spec fn can_sub(self, o: IVec2) -> bool {
        in_i32(self.x - o.x) && in_i32(self.y - o.y)
    }

    pub open spec fn plus(self, o: IVec2) -> IVec2 {
        spec_ivec2(self.x + o.x, self.y + o.y)
    }

    pub open spec fn minus(self, o: IVec2) -> IVec2 {
        spec_ivec2(self.x - o.x, self.y - o.y)
    }

    pub fn zero() -> (r: IVec2)
        ensures
            r.x == 0,
            r.y == 0,
    {
        IVec2 { x: 0, y: 0 }
    }

    /// Componentwise sum.
    pub fn add(self, o: IVec2) -> (r: IVec2)
        requires
            self.can_add(o),
        ensures
            r.x == self.x + o.x,
            r.y == self.y + o.y,
    {
        IVec2 { x: self.x + o.x, y: self.y + o.y }
    }

    /// Componentwise difference.
    pub fn sub(self, o: IVec2) -> (r: IVec2)
        requires
            self.can_sub(o),
        ensures
            r.x == self.x - o.x,
            r.y == self.y - o.y,
    {
        IVec2 { x: self.x - o.x, y: self.y - o.y }
    }

    /// Extend into a 3D vector with the given z component.
    pub fn extend(self, z: i32) -> (r: IVec3)
        ensures
            r.x == self.x,
            r.y == self.y,
            r.z == z,
    {
        IVec3 { x: self.x, y: self.y, z }
    }
}

impl IVec3 {
    pub open spec fn can_add(self, o: IVec3) -> bool {
        in_i32(self.x + o.x) && in_i32(self.y + o.y) && in_i32(self.z + o.z)
    }

    pub open spec fn can_sub(self, o: IVec3) -> bool {
        in_i32(self.x - o.x) && in_i32(self.y - o.y) && in_i32(self.z - o.z)
    }

    pub open spec fn plus(self, o: IVec3) -> IVec3 {
        spec_ivec3(self.x + o.x, self.y + o.y, self.z + o.z)
    }

    pub open spec fn minus(self, o: IVec3) -> IVec3 {
        spec_ivec3(self.x - o.x, self.y - o.y, self.z - o.z)
    }

    pub fn zero() -> (r: IVec3)
        ensures
            r.x == 0,
            r.y == 0,
            r.z == 0,
    {
        IVec3 { x: 0, y: 0, z: 0 }
    }

    /// Componentwise sum.
    pub fn add(self, o: IVec3) -> (r: IVec3)
        requires
            self.can_add(o),
        ensures
            r.x == self.x + o.x,
            r.y == self.y + o.y,
            r.z == self.z + o.z,
    {
        IVec3 { x: self.x + o.x, y: self.y + o.y, z: self.z + o.z }
    }

    /// Componentwise difference.
    pub fn sub(self, o: IVec3) -> (r: IVec3)
        requires
            self.can_sub(o),
        ensures
            r.x == self.x - o.x,
            r.y == self.y - o.y,
            r.z == self.z - o.z,
    {
        IVec3 { x: self.x - o.x, y: self.y - o.y, z: self.z - o.z }
    }

    /// Drop the z component.
    pub fn truncate(self) -> (r: IVec2)
        ensures
            r.x == self.x,
            r.y == self.y,
    {
        IVec2 { x: self.x, y: self.y }
    }
}

pub open spec fn abs(v: int) -> int {
    if v < 0 {
        -v
    } else {
        v
    }
}

/// The four orthogonal unit directions, north, east, south and west.
pub open spec fn dir4(i: int) -> IVec2 {
    if i == 0 {
        spec_ivec2(0, -1)
    } else if i == 1 {
        spec_ivec2(1, 0)
    } else if i == 2 {
        spec_ivec2(0, 1)
    } else {
        spec_ivec2(-1, 0)
    }
}

/// The eight unit directions clockwise from north.
pub open spec fn dir8(i: int) -> IVec2 {
    if i == 0 {
        spec_ivec2(0, -1)
    } else if i == 1 {
        spec_ivec2(1, -1)
    } else if i == 2 {
        spec_ivec2(1, 0)
    } else if i == 3 {
        spec_ivec2(1, 1)
    } else if i == 4 {
        spec_ivec2(0, 1)
    } else if i == 5 {
        spec_ivec2(-1, 1)
    } else if i == 6 {
        spec_ivec2(-1, 0)
    } else {
        spec_ivec2(-1, -1)
    }
}

/// Orthogonal unit direction `i` (0 to 3) clockwise from north.
pub fn s4_dir(i: usize) -> (r: IVec2)
    requires
        i < 4,
    ensures
        r == dir4(i as int),
{
    if i == 0 {
        IVec2 { x: 0, y: -1 }
    } else if i == 1 {
        IVec2 { x: 1, y: 0 }
    } else if i == 2 {
        IVec2 { x: 0, y: 1 }
    } else {
        IVec2 { x: -1, y: 0 }
    }
}

/// Unit direction `i` (0 to 7) clockwise from north.
pub fn s8_dir(i: usize) -> (r: IVec2)
    requires
        i < 8,
    ensures
        r == dir8(i as int),
{
    if i == 0 {
        IVec2 { x: 0, y: -1 }
    } else if i == 1 {
        IVec2 { x: 1, y: -1 }
    } else if i == 2 {
        IVec2 { x: 1, y: 0 }
    } else if i == 3 {
        IVec2 { x: 1, y: 1 }
    } else if i == 4 {
        IVec2 { x: 0, y: 1 }
    } else if i == 5 {
        IVec2 { x: -1, y: 1 }
    } else if i == 6 {
        IVec2 { x: -1, y: 0 }
    } else {
        IVec2 { x: -1, y: -1 }
    }
}

/// Whether a point is far enough from the edges of the `i32` range that all
/// of its 8-neighbors can be computed.
pub open spec fn has_neighbors(p: IVec2) -> bool {
    i32::MIN < p.x < i32::MAX && i32::MIN < p.y < i32::MAX
}

/// Axis-aligned half-open rectangle `[min, max)`.
#[derive(Copy, Clone, PartialEq, Eq, Structural, Debug)]
pub struct Rect {
    pub min: IVec2,
    pub max: IVec2,
}

impl Rect {
    pub open spec fn spec_contains(self, p: IVec2) -> bool {
        self.min.x <= p.x < self.max.x && self.min.y <= p.y < self.max.y
    }

    pub open spec fn spec_width(self) -> int {
        self.max.x - self.min.x
    }

    pub open spec fn spec_height(self) -> int {
        self.max.y - self.min.y
    }

    pub fn new(min: IVec2, max: IVec2) -> (r: Rect)
        ensures
            r.min == min,
            r.max == max,
    {
        Rect { min, max }
    }

    /// Rectangle at origin with the given dimensions.
    pub fn sized(dim: IVec2) -> (r: Rect)
        ensures
            r.min == (IVec2 { x: 0, y: 0 }),
            r.max == dim,
    {
        Rect { min: IVec2 { x: 0, y: 0 }, max: dim }
    }

    pub fn contains(&self, p: IVec2) -> (r: bool)
        ensures
            r == self.spec_contains(p),
    {
        self.min.x <= p.x && p.x < self.max.x && self.min.y <= p.y && p.y < self.max.y
    }

    /// Whether the other rectangle lies entirely inside this one.
    pub open spec fn spec_contains_other(self, o: Rect) -> bool {
        self.min.x <= o.min.x && o.max.x <= self.max.x && self.min.y <= o.min.y && o.max.y
            <= self.max.y
    }

    pub fn contains_other(&self, o: &Rect) -> (r: bool)
        ensures
            r == self.spec_contains_other(*o),
    {
        self.min.x <= o.min.x && o.max.x <= self.max.x && self.min.y <= o.min.y && o.max.y
            <= self.max.y
    }

    /// Width, the rectangle must be nonnegative and fit the `i32` range.
    pub fn width(&self) -> (r: i32)
        requires
            in_i32(self.spec_width()),
        ensures
            r == self.spec_width(),
    {
        self.max.x - self.min.x
    }

    pub fn height(&self) -> (r: i32)
        requires
            in_i32(self.spec_height()),
        ensures
            r == self.spec_height(),
    {
        self.max.y - self.min.y
    }

    /// Grow the rectangle by `a` towards negative and `b` towards positive
    /// coordinates.
    pub fn grow(&self, a: IVec2, b: IVec2) -> (r: Rect)
        requires
            in_i32(self.min.x - a.x),
            in_i32(self.min.y - a.y),
            in_i32(self.max.x + b.x),
            in_i32(self.max.y + b.y),
        ensures
            r.min.x == self.min.x - a.x,
            r.min.y == self.min.y - a.y,
            r.max.x == self.max.x + b.x,
            r.max.y == self.max.y + b.y,
    {
        Rect {
            min: IVec2 { x: self.min.x - a.x, y: self.min.y - a.y },
            max: IVec2 { x: self.max.x + b.x, y: self.max.y + b.y },
        }
    }

    /// Translate the rectangle by an offset.
    pub fn offset(&self, d: IVec2) -> (r: Rect)
        requires
            self.min.can_add(d),
            self.max.can_add(d),
        ensures
            r.min == self.min.plus(d),
            r.max == self.max.plus(d),
    {
        Rect { min: self.min.add(d), max: self.max.add(d) }
    }
}

/// Axis-aligned half-open box `[min, max)`.
#[derive(Copy, Clone, PartialEq, Eq, Structural, Debug)]
pub struct Cube {
    pub min: IVec3,
    pub max: IVec3,
}

impl Cube {
    pub open spec fn spec_contains(self, p: IVec3) -> bool {
        self.min.x <= p.x < self.max.x && self.min.y <= p.y < self.max.y && self.min.z <= p.z
            < self.max.z
    }

    pub open spec fn spec_contains_other(self, o: Cube) -> bool {
        self.min.x <= o.min.x && o.max.x <= self.max.x && self.min.y <= o.min.y && o.max.y
            <= self.max.y && self.min.z <= o.min.z && o.max.z <= self.max.z
    }

    pub fn new(min: IVec3, max: IVec3) -> (r: Cube)
        ensures
            r.min == min,
            r.max == max,
    {
        Cube { min, max }
    }

    /// The unit box holding a single point.
    pub fn unit(p: IVec3) -> (r: Cube)
        requires
            p.x < i32::MAX,
            p.y < i32::MAX,
            p.z < i32::MAX,
        ensures
            r.min == p,
            r.max == spec_ivec3(p.x + 1, p.y + 1, p.z + 1),
            forall|q: IVec3| r.spec_contains(q) <==> q == p,
    {
        Cube { min: p, max: IVec3 { x: p.x + 1, y: p.y + 1, z: p.z + 1 } }
    }

    pub fn contains(&self, p: IVec3) -> (r: bool)
        ensures
            r == self.spec_contains(p),
    {
        self.min.x <= p.x && p.x < self.max.x && self.min.y <= p.y && p.y < self.max.y
            && self.min.z <= p.z && p.z < self.max.z
    }

    pub fn contains_other(&self, o: &Cube) -> (r: bool)
        ensures
            r == self.spec_contains_other(*o),
    {
        self.min.x <= o.min.x && o.max.x <= self.max.x && self.min.y <= o.min.y && o.max.y
            <= self.max.y && self.min.z <= o.min.z && o.max.z <= self.max.z
    }
}

} // verus!
