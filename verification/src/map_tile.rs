//! Terrain of a single cell on a flat game map.

use vstd::prelude::*;

verus! {

/// Specific terrain in a single game world map cell.
#[derive(Copy, Clone, PartialEq, Eq, Structural, Debug, Hash)]
pub enum MapTile {
    Wall,
    Ground,
    Grass,
    LowWall,
    Door,
    Water,
    Magma,
    Upstairs,
    Downstairs,
    Gore,
    Exit,
}

/// A character that names no terrain.
#[derive(Copy, Clone, PartialEq, Eq, Structural, Debug)]
pub struct BadMapTileChar(pub char);

impl MapTile {
    /// Declaration order of the variants.
    pub open spec fn ord(self) -> int {
        match self {
            MapTile::Wall => 0,
            MapTile::Ground => 1,
            MapTile::Grass => 2,
            MapTile::LowWall => 3,
            MapTile::Door => 4,
            MapTile::Water => 5,
            MapTile::Magma => 6,
            MapTile::Upstairs => 7,
            MapTile::Downstairs => 8,
            MapTile::Gore => 9,
            MapTile::Exit => 10,
        }
    }

    pub fn ordinal(self) -> (r: usize)
        ensures
            r == self.ord(),
    {
        match self {
            MapTile::Wall => 0,
            MapTile::Ground => 1,
            MapTile::Grass => 2,
            MapTile::LowWall => 3,
            MapTile::Door => 4,
            MapTile::Water => 5,
            MapTile::Magma => 6,
            MapTile::Upstairs => 7,
            MapTile::Downstairs => 8,
            MapTile::Gore => 9,
            MapTile::Exit => 10,
        }
    }

    pub open spec fn spec_blocks_sight(self) -> bool {
        matches!(self, MapTile::Wall | MapTile::Door)
    }

    pub open spec fn spec_blocks_movement(self) -> bool {
        matches!(self, MapTile::Wall | MapTile::LowWall | MapTile::Water | MapTile::Magma)
    }

    pub open spec fn spec_is_walkable(self) -> bool {
        !self.spec_blocks_movement()
    }

    pub open spec fn spec_blocks_shot(self) -> bool {
        matches!(self, MapTile::Wall | MapTile::Door | MapTile::Upstairs | MapTile::Downstairs)
    }

    pub open spec fn spec_is_wall(self) -> bool {
        matches!(self, MapTile::Wall | MapTile::LowWall | MapTile::Door)
    }

    pub open spec fn spec_edge_height(self) -> int {
        match self {
            MapTile::Wall => 2,
            MapTile::LowWall => 1,
            _ => 0,
        }
    }

    pub open spec fn spec_self_height(self) -> int {
        match self {
            MapTile::Wall | MapTile::Door => 2,
            MapTile::LowWall => 1,
            _ => 0,
        }
    }

    pub fn blocks_sight(self) -> (r: bool)
        ensures
            r == self.spec_blocks_sight(),
    {
        matches!(self, MapTile::Wall | MapTile::Door)
    }

    pub fn is_walkable(self) -> (r: bool)
        ensures
            r == self.spec_is_walkable(),
    {
        !self.blocks_movement()
    }

    pub fn blocks_movement(self) -> (r: bool)
        ensures
            r == self.spec_blocks_movement(),
    {
        matches!(self, MapTile::Wall | MapTile::LowWall | MapTile::Water | MapTile::Magma)
    }

    pub fn blocks_shot(self) -> (r: bool)
        ensures
            r == self.spec_blocks_shot(),
    {
        matches!(self, MapTile::Wall | MapTile::Door | MapTile::Upstairs | MapTile::Downstairs)
    }

    pub fn is_wall(self) -> (r: bool)
        ensures
            r == self.spec_is_wall(),
    {
        matches!(self, MapTile::Wall | MapTile::LowWall | MapTile::Door)
    }

    pub fn is_exit(self) -> (r: bool)
        ensures
            r == matches!(self, MapTile::Upstairs | MapTile::Downstairs),
    {
        matches!(self, MapTile::Upstairs | MapTile::Downstairs)
    }

    pub fn is_decoration(self) -> (r: bool)
        ensures
            r == (self == MapTile::Gore),
    {
        matches!(self, MapTile::Gore)
    }

    /// Other wall edge height for purposes of shaped wall display.
    pub fn edge_height(self) -> (r: usize)
        ensures
            r == self.spec_edge_height(),
    {
        match self {
            MapTile::Wall => 2,
            MapTile::LowWall => 1,
            // Doors open into doorways that have zero wall height.
            MapTile::Door => 0,
            _ => 0,
        }
    }

    /// Self height for purposes of shaped wall display.
    pub fn self_height(self) -> (r: usize)
        ensures
            r == self.spec_self_height(),
    {
        match self {
            MapTile::Wall | MapTile::Door => 2,
            MapTile::LowWall => 1,
            _ => 0,
        }
    }

    /// Terrain between two terrains, the first one coming earlier in
    /// declaration order.
    pub open spec fn mix_ordered(x: MapTile, y: MapTile) -> MapTile {
        match (x, y) {
            (MapTile::Ground, MapTile::Water) | (MapTile::Grass, MapTile::Water) | (
                MapTile::Exit,
                MapTile::Water,
            ) => MapTile::Water,
            (MapTile::Ground, MapTile::Magma) | (MapTile::Grass, MapTile::Magma) | (
                MapTile::Exit,
                MapTile::Magma,
            ) => MapTile::Magma,
            (MapTile::Wall, MapTile::Water) | (MapTile::Door, MapTile::Water) => MapTile::Water,
            (MapTile::Wall, MapTile::Magma) | (MapTile::Door, MapTile::Magma) => MapTile::Magma,
            (MapTile::Wall, MapTile::LowWall) => MapTile::LowWall,
            (MapTile::Wall, MapTile::Door) => MapTile::Wall,
            (MapTile::LowWall, MapTile::Door) => MapTile::LowWall,
            (MapTile::Water, MapTile::Magma) => MapTile::Magma,
            _ => MapTile::Ground,
        }
    }

    pub open spec fn spec_mix(self, other: MapTile) -> MapTile {
        if self == other {
            self
        } else if self.ord() > other.ord() {
            Self::mix_ordered(other, self)
        } else {
            Self::mix_ordered(self, other)
        }
    }

    /// Return the type of terrain that should show up in between two types
    /// of terrain on a double-width map.
    pub fn mix(self, other: MapTile) -> (r: MapTile)
        ensures
            r == self.spec_mix(other),
        decreases
                (if self.ord() > other.ord() {
                    1int
                } else {
                    0int
                }),
    {
        if self == other {
            return self;
        }
        // All defined matches are an earlier terrain type matched against a
        // later one, flip the inverse cases.
        if self.ordinal() > other.ordinal() {
            return other.mix(self);
        }
        match (self, other) {
            (MapTile::Ground, MapTile::Water) | (MapTile::Grass, MapTile::Water) | (
                MapTile::Exit,
                MapTile::Water,
            ) => MapTile::Water,
            (MapTile::Ground, MapTile::Magma) | (MapTile::Grass, MapTile::Magma) | (
                MapTile::Exit,
                MapTile::Magma,
            ) => MapTile::Magma,
            (MapTile::Wall, MapTile::Water) | (MapTile::Door, MapTile::Water) => MapTile::Water,
            (MapTile::Wall, MapTile::Magma) | (MapTile::Door, MapTile::Magma) => MapTile::Magma,
            (MapTile::Wall, MapTile::LowWall) => MapTile::LowWall,
            (MapTile::Wall, MapTile::Door) => MapTile::Wall,
            (MapTile::LowWall, MapTile::Door) => MapTile::LowWall,
            (MapTile::Water, MapTile::Magma) => MapTile::Magma,
            _ => MapTile::Ground,
        }
    }

    /// Map-file character of the terrain.
    pub open spec fn spec_char(self) -> char {
        match self {
            MapTile::Ground => '.',
            MapTile::Wall => '#',
            MapTile::LowWall => '-',
            MapTile::Door => '+',
            MapTile::Grass => ',',
            MapTile::Water => '~',
            MapTile::Magma => '&',
            MapTile::Upstairs => '<',
            MapTile::Downstairs => '>',
            MapTile::Gore => '\u{a7}',
            MapTile::Exit => 'X',
        }
    }

    /// Terrain named by a map-file character, if any.
    pub open spec fn spec_from_char(c: char) -> Option<MapTile> {
        if c == '.' {
            Some(MapTile::Ground)
        } else if c == '#' {
            Some(MapTile::Wall)
        } else if c == '-' {
            Some(MapTile::LowWall)
        } else if c == '+' {
            Some(MapTile::Door)
        } else if c == ',' {
            Some(MapTile::Grass)
        } else if c == '~' {
            Some(MapTile::Water)
        } else if c == '&' {
            Some(MapTile::Magma)
        } else if c == '<' {
            Some(MapTile::Upstairs)
        } else if c == '>' {
            Some(MapTile::Downstairs)
        } else if c == '\u{a7}' {
            Some(MapTile::Gore)
        } else if c == 'X' {
            Some(MapTile::Exit)
        } else {
            None
        }
    }

    /// Parse terrain from its map-file character.
    pub fn try_from_char(c: char) -> (r: Result<MapTile, BadMapTileChar>)
        ensures
            match Self::spec_from_char(c) {
                Some(t) => r == Ok::<MapTile, BadMapTileChar>(t),
                None => r == Err::<MapTile, BadMapTileChar>(BadMapTileChar(c)),
            },
    {
        if c == '.' {
            Ok(MapTile::Ground)
        } else if c == '#' {
            Ok(MapTile::Wall)
        } else if c == '-' {
            Ok(MapTile::LowWall)
        } else if c == '+' {
            Ok(MapTile::Door)
        } else if c == ',' {
            Ok(MapTile::Grass)
        } else if c == '~' {
            Ok(MapTile::Water)
        } else if c == '&' {
            Ok(MapTile::Magma)
        } else if c == '<' {
            Ok(MapTile::Upstairs)
        } else if c == '>' {
            Ok(MapTile::Downstairs)
        } else if c == '\u{a7}' {
            Ok(MapTile::Gore)
        } else if c == 'X' {
            Ok(MapTile::Exit)
        } else {
            Err(BadMapTileChar(c))
        }
    }

    /// Map-file character of the terrain.
    pub fn to_char(self) -> (r: char)
        ensures
            r == self.spec_char(),
    {
        match self {
            MapTile::Ground => '.',
            MapTile::Wall => '#',
            MapTile::LowWall => '-',
            MapTile::Door => '+',
            MapTile::Grass => ',',
            MapTile::Water => '~',
            MapTile::Magma => '&',
            MapTile::Upstairs => '<',
            MapTile::Downstairs => '>',
            MapTile::Gore => '\u{a7}',
            MapTile::Exit => 'X',
        }
    }
}

impl Default for MapTile {
    /// Solid wall is the default terrain.
    fn default() -> (r: MapTile)
        ensures
            r == MapTile::Wall,
    {
        MapTile::Wall
    }
}

/// Mixing terrain is symmetric.
pub proof fn lemma_mix_commutative(a: MapTile, b: MapTile)
    ensures
        a.spec_mix(b) == b.spec_mix(a),
{
}

/// Mixing a terrain with itself gives the same terrain.
pub proof fn lemma_mix_idempotent(a: MapTile)
    ensures
        a.spec_mix(a) == a,
{
}

/// The mix of two terrains is always one of them or plain ground.
pub proof fn lemma_mix_closed(a: MapTile, b: MapTile)
    ensures
        a.spec_mix(b) == a || a.spec_mix(b) == b || a.spec_mix(b) == MapTile::Ground,
{
}

/// A terrain is walkable exactly when it does not block movement.
pub proof fn lemma_walkable_iff_not_blocking(a: MapTile)
    ensures
        a.spec_is_walkable() <==> !a.spec_blocks_movement(),
{
}

/// Writing terrain as a character and reading it back gives the same
/// terrain.
pub proof fn lemma_char_roundtrip(a: MapTile)
    ensures
        MapTile::spec_from_char(a.spec_char()) == Some(a),
{
}

/// Reading a character that names a terrain and writing the terrain back
/// gives the same character.
pub proof fn lemma_from_char_roundtrip(c: char)
    ensures
        MapTile::spec_from_char(c) matches Some(t) ==> t.spec_char() == c,
{
}

} // verus!
