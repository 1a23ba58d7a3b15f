//! Terrain of a single cell in the content-side 2D world view.

use vstd::prelude::*;

verus! {

/// Specific terrain in a single game world map cell.
#[derive(Copy, Clone, PartialEq, Eq, Structural, Debug, Hash)]
pub enum Tile2D {
    Wall,
    Ground,
    Grass,
    LowWall,
    Door,
    Water,
    Magma,
    Upstairs,
    Downstairs,
    Gore,
    Exit,
}

/// A character that names no terrain.
#[derive(Copy, Clone, PartialEq, Eq, Structural, Debug)]
pub struct BadTile2DChar(pub char);

impl Tile2D {
    /// Declaration order of the variants.
    pub open spec fn ord(self) -> int {
        match self {
            Tile2D::Wall => 0,
            Tile2D::Ground => 1,
            Tile2D::Grass => 2,
            Tile2D::LowWall => 3,
            Tile2D::Door => 4,
            Tile2D::Water => 5,
            Tile2D::Magma => 6,
            Tile2D::Upstairs => 7,
            Tile2D::Downstairs => 8,
            Tile2D::Gore => 9,
            Tile2D::Exit => 10,
        }
    }

    pub fn ordinal(self) -> (r: usize)
        ensures
            r == self.ord(),
    {
        match self {
            Tile2D::Wall => 0,
            Tile2D::Ground => 1,
            Tile2D::Grass => 2,
            Tile2D::LowWall => 3,
            Tile2D::Door => 4,
            Tile2D::Water => 5,
            Tile2D::Magma => 6,
            Tile2D::Upstairs => 7,
            Tile2D::Downstairs => 8,
            Tile2D::Gore => 9,
            Tile2D::Exit => 10,
        }
    }

    pub open spec fn spec_blocks_sight(self) -> bool {
        matches!(self, Tile2D::Wall | Tile2D::Door)
    }

    pub open spec fn spec_blocks_movement(self) -> bool {
        matches!(self, Tile2D::Wall | Tile2D::LowWall | Tile2D::Water | Tile2D::Magma)
    }

    pub open spec fn spec_is_walkable(self) -> bool {
        !self.spec_blocks_movement()
    }

    pub open spec fn spec_blocks_shot(self) -> bool {
        matches!(self, Tile2D::Wall | Tile2D::Door | Tile2D::Upstairs | Tile2D::Downstairs)
    }

    pub open spec fn spec_is_wall(self) -> bool {
        matches!(self, Tile2D::Wall | Tile2D::LowWall | Tile2D::Door)
    }

    pub open spec fn spec_edge_height(self) -> int {
        match self {
            Tile2D::Wall => 2,
            Tile2D::LowWall => 1,
            _ => 0,
        }
    }

    pub open spec fn spec_self_height(self) -> int {
        match self {
            Tile2D::Wall | Tile2D::Door => 2,
            Tile2D::LowWall => 1,
            _ => 0,
        }
    }

    pub fn blocks_sight(self) -> (r: bool)
        ensures
            r == self.spec_blocks_sight(),
    {
        matches!(self, Tile2D::Wall | Tile2D::Door)
    }

    pub fn is_walkable(self) -> (r: bool)
        ensures
            r == self.spec_is_walkable(),
    {
        !self.blocks_movement()
    }

    pub fn blocks_movement(self) -> (r: bool)
        ensures
            r == self.spec_blocks_movement(),
    {
        matches!(self, Tile2D::Wall | Tile2D::LowWall | Tile2D::Water | Tile2D::Magma)
    }

    pub fn blocks_shot(self) -> (r: bool)
        ensures
            r == self.spec_blocks_shot(),
    {
        matches!(self, Tile2D::Wall | Tile2D::Door | Tile2D::Upstairs | Tile2D::Downstairs)
    }

    pub fn is_wall(self) -> (r: bool)
        ensures
            r == self.spec_is_wall(),
    {
        matches!(self, Tile2D::Wall | Tile2D::LowWall | Tile2D::Door)
    }

    pub fn is_exit(self) -> (r: bool)
        ensures
            r == matches!(self, Tile2D::Upstairs | Tile2D::Downstairs),
    {
        matches!(self, Tile2D::Upstairs | Tile2D::Downstairs)
    }

    pub fn is_decoration(self) -> (r: bool)
        ensures
            r == (self == Tile2D::Gore),
    {
        matches!(self, Tile2D::Gore)
    }

    /// Other wall edge height for purposes of shaped wall display.
    pub fn edge_height(self) -> (r: usize)
        ensures
            r == self.spec_edge_height(),
    {
        match self {
            Tile2D::Wall => 2,
            Tile2D::LowWall => 1,
            // Doors open into doorways that have zero wall height.
            Tile2D::Door => 0,
            _ => 0,
        }
    }

    /// Self height for purposes of shaped wall display.
    pub fn self_height(self) -> (r: usize)
        ensures
            r == self.spec_self_height(),
    {
        match self {
            Tile2D::Wall | Tile2D::Door => 2,
            Tile2D::LowWall => 1,
            _ => 0,
        }
    }

    /// Terrain between two terrains, the first one coming earlier in
    /// declaration order.
    pub open spec fn mix_ordered(x: Tile2D, y: Tile2D) -> Tile2D {
        match (x, y) {
            (Tile2D::Ground, Tile2D::Water) | (Tile2D::Grass, Tile2D::Water) | (
                Tile2D::Exit,
                Tile2D::Water,
            ) => Tile2D::Water,
            (Tile2D::Ground, Tile2D::Magma) | (Tile2D::Grass, Tile2D::Magma) | (
                Tile2D::Exit,
                Tile2D::Magma,
            ) => Tile2D::Magma,
            (Tile2D::Wall, Tile2D::Water) | (Tile2D::Door, Tile2D::Water) => Tile2D::Water,
            (Tile2D::Wall, Tile2D::Magma) | (Tile2D::Door, Tile2D::Magma) => Tile2D::Magma,
            (Tile2D::Wall, Tile2D::LowWall) => Tile2D::LowWall,
            (Tile2D::Wall, Tile2D::Door) => Tile2D::Wall,
            (Tile2D::LowWall, Tile2D::Door) => Tile2D::LowWall,
            (Tile2D::Water, Tile2D::Magma) => Tile2D::Magma,
            _ => Tile2D::Ground,
        }
    }

    pub open spec fn spec_mix(self, other: Tile2D) -> Tile2D {
        if self == other {
            self
        } else if self.ord() > other.ord() {
            Self::mix_ordered(other, self)
        } else {
            Self::mix_ordered(self, other)
        }
    }

    /// Return the type of terrain that should show up in between two types
    /// of terrain on a double-width map.
    pub fn mix(self, other: Tile2D) -> (r: Tile2D)
        ensures
            r == self.spec_mix(other),
        decreases
                (if self.ord() > other.ord() {
                    1int
                } else {
                    0int
                }),
    {
        if self == other {
            return self;
        }
        // All defined matches are an earlier terrain type matched against a
        // later one, flip the inverse cases.
        if self.ordinal() > other.ordinal() {
            return other.mix(self);
        }
        match (self, other) {
            (Tile2D::Ground, Tile2D::Water) | (Tile2D::Grass, Tile2D::Water) | (
                Tile2D::Exit,
                Tile2D::Water,
            ) => Tile2D::Water,
            (Tile2D::Ground, Tile2D::Magma) | (Tile2D::Grass, Tile2D::Magma) | (
                Tile2D::Exit,
                Tile2D::Magma,
            ) => Tile2D::Magma,
            (Tile2D::Wall, Tile2D::Water) | (Tile2D::Door, Tile2D::Water) => Tile2D::Water,
            (Tile2D::Wall, Tile2D::Magma) | (Tile2D::Door, Tile2D::Magma) => Tile2D::Magma,
            (Tile2D::Wall, Tile2D::LowWall) => Tile2D::LowWall,
            (Tile2D::Wall, Tile2D::Door) => Tile2D::Wall,
            (Tile2D::LowWall, Tile2D::Door) => Tile2D::LowWall,
            (Tile2D::Water, Tile2D::Magma) => Tile2D::Magma,
            _ => Tile2D::Ground,
        }
    }

    /// Map-file character of the terrain.
    pub open spec fn spec_char(self) -> char {
        match self {
            Tile2D::Ground => '.',
            Tile2D::Wall => '#',
            Tile2D::LowWall => '-',
            Tile2D::Door => '+',
            Tile2D::Grass => ',',
            Tile2D::Water => '~',
            Tile2D::Magma => '&',
            Tile2D::Upstairs => '<',
            Tile2D::Downstairs => '>',
            Tile2D::Gore => '\u{a7}',
            Tile2D::Exit => 'X',
        }
    }

    /// Terrain named by a map-file character, if any.
    pub open spec fn spec_from_char(c: char) -> Option<Tile2D> {
        if c == '.' {
            Some(Tile2D::Ground)
        } else if c == '#' {
            Some(Tile2D::Wall)
        } else if c == '-' {
            Some(Tile2D::LowWall)
        } else if c == '+' {
            Some(Tile2D::Door)
        } else if c == ',' {
            Some(Tile2D::Grass)
        } else if c == '~' {
            Some(Tile2D::Water)
        } else if c == '&' {
            Some(Tile2D::Magma)
        } else if c == '<' {
            Some(Tile2D::Upstairs)
        } else if c == '>' {
            Some(Tile2D::Downstairs)
        } else if c == '\u{a7}' {
            Some(Tile2D::Gore)
        } else if c == 'X' {
            Some(Tile2D::Exit)
        } else {
            None
        }
    }

    /// Parse terrain from its map-file character.
    pub fn try_from_char(c: char) -> (r: Result<Tile2D, BadTile2DChar>)
        ensures
            match Self::spec_from_char(c) {
                Some(t) => r == Ok::<Tile2D, BadTile2DChar>(t),
                None => r == Err::<Tile2D, BadTile2DChar>(BadTile2DChar(c)),
            },
    {
        if c == '.' {
            Ok(Tile2D::Ground)
        } else if c == '#' {
            Ok(Tile2D::Wall)
        } else if c == '-' {
            Ok(Tile2D::LowWall)
        } else if c == '+' {
            Ok(Tile2D::Door)
        } else if c == ',' {
            Ok(Tile2D::Grass)
        } else if c == '~' {
            Ok(Tile2D::Water)
        } else if c == '&' {
            Ok(Tile2D::Magma)
        } else if c == '<' {
            Ok(Tile2D::Upstairs)
        } else if c == '>' {
            Ok(Tile2D::Downstairs)
        } else if c == '\u{a7}' {
            Ok(Tile2D::Gore)
        } else if c == 'X' {
            Ok(Tile2D::Exit)
        } else {
            Err(BadTile2DChar(c))
        }
    }

    /// Map-file character of the terrain.
    pub fn to_char(self) -> (r: char)
        ensures
            r == self.spec_char(),
    {
        match self {
            Tile2D::Ground => '.',
            Tile2D::Wall => '#',
            Tile2D::LowWall => '-',
            Tile2D::Door => '+',
            Tile2D::Grass => ',',
            Tile2D::Water => '~',
            Tile2D::Magma => '&',
            Tile2D::Upstairs => '<',
            Tile2D::Downstairs => '>',
            Tile2D::Gore => '\u{a7}',
            Tile2D::Exit => 'X',
        }
    }
}

impl Default for Tile2D {
    /// Solid wall is the default terrain.
    fn default() -> (r: Tile2D)
        ensures
            r == Tile2D::Wall,
    {
        Tile2D::Wall
    }
}

/// Mixing terrain is symmetric.
pub proof fn lemma_mix_commutative(a: Tile2D, b: Tile2D)
    ensures
        a.spec_mix(b) == b.spec_mix(a),
{
}

/// Mixing a terrain with itself gives the same terrain.
pub proof fn lemma_mix_idempotent(a: Tile2D)
    ensures
        a.spec_mix(a) == a,
{
}

/// The mix of two terrains is always one of them or plain ground.
pub proof fn lemma_mix_closed(a: Tile2D, b: Tile2D)
    ensures
        a.spec_mix(b) == a || a.spec_mix(b) == b || a.spec_mix(b) == Tile2D::Ground,
{
}

/// A terrain is walkable exactly when it does not block movement.
pub proof fn lemma_walkable_iff_not_blocking(a: Tile2D)
    ensures
        a.spec_is_walkable() <==> !a.spec_blocks_movement(),
{
}

/// Writing terrain as a character and reading it back gives the same
/// terrain.
pub proof fn lemma_char_roundtrip(a: Tile2D)
    ensures
        Tile2D::spec_from_char(a.spec_char()) == Some(a),
{
}

/// Reading a character that names a terrain and writing the terrain back
/// gives the same character.
pub proof fn lemma_from_char_roundtrip(c: char)
    ensures
        Tile2D::spec_from_char(c) matches Some(t) ==> t.spec_char() == c,
{
}

} // verus!
