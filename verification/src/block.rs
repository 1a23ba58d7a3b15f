//! Voxel contents of the game world.

use vstd::prelude::*;

use crate::geom::IVec3;

verus! {

/// Possible contents for a voxel.
#[derive(Copy, Clone, PartialEq, Eq, Structural, Debug, Hash)]
pub enum Block {
    /// Smooth, worked walls, shown as shaped walls.
    Stone,
    SplatteredRock,
    Grass,
    Glass,
    /// Rough, unworked mass, drawn as undifferentiated blob.
    Rubble,
    Altar,
    Door,
    Water,
    Magma,
}

/// Contents of a single voxel, `None` is empty space.
pub type Voxel = Option<Block>;

/// A character that names no block.
#[derive(Copy, Clone, PartialEq, Eq, Structural, Debug)]
pub struct BadBlockChar(pub char);

pub open spec fn spec_is_support(b: Block) -> bool {
    matches!(b, Block::Stone | Block::SplatteredRock | Block::Rubble | Block::Grass | Block::Glass)
}

pub open spec fn spec_blocks_sight(b: Block) -> bool {
    matches!(b, Block::Stone | Block::SplatteredRock | Block::Rubble | Block::Grass | Block::Magma | Block::Door)
}

/// Map-file character of each block.
pub open spec fn block_char(b: Block) -> char {
    match b {
        Block::Stone => '*',
        Block::SplatteredRock => '\u{a7}',
        Block::Grass => ';',
        Block::Glass => '|',
        Block::Rubble => '%',
        Block::Altar => '=',
        Block::Door => '+',
        Block::Water => '~',
        Block::Magma => '&',
    }
}

/// The block that a map-file character stands for, if any.
pub open spec fn char_block(c: char) -> Option<Block> {
    if c == '*' {
        Some(Block::Stone)
    } else if c == '\u{a7}' {
        Some(Block::SplatteredRock)
    } else if c == ';' {
        Some(Block::Grass)
    } else if c == '|' {
        Some(Block::Glass)
    } else if c == '%' {
        Some(Block::Rubble)
    } else if c == '=' {
        Some(Block::Altar)
    } else if c == '+' {
        Some(Block::Door)
    } else if c == '~' {
        Some(Block::Water)
    } else if c == '&' {
        Some(Block::Magma)
    } else {
        None
    }
}

impl Block {
    /// Block is solid matter that can be stood on top of.
    pub fn is_support(self) -> (r: bool)
        ensures
            r == spec_is_support(self),
    {
        matches!(self, Block::Stone | Block::SplatteredRock | Block::Rubble | Block::Grass | Block::Glass)
    }

    pub fn blocks_sight(self) -> (r: bool)
        ensures
            r == spec_blocks_sight(self),
    {
        matches!(self, Block::Stone | Block::SplatteredRock | Block::Rubble | Block::Grass | Block::Magma | Block::Door)
    }

    /// Parse a block from its map-file character.
    pub fn try_from_char(c: char) -> (r: Result<Block, BadBlockChar>)
        ensures
            match char_block(c) {
                Some(b) => r == Ok::<Block, BadBlockChar>(b),
                None => r == Err::<Block, BadBlockChar>(BadBlockChar(c)),
            },
    {
        if c == '*' {
            Ok(Block::Stone)
        } else if c == '\u{a7}' {
            Ok(Block::SplatteredRock)
        } else if c == ';' {
            Ok(Block::Grass)
        } else if c == '|' {
            Ok(Block::Glass)
        } else if c == '%' {
            Ok(Block::Rubble)
        } else if c == '=' {
            Ok(Block::Altar)
        } else if c == '+' {
            Ok(Block::Door)
        } else if c == '~' {
            Ok(Block::Water)
        } else if c == '&' {
            Ok(Block::Magma)
        } else {
            Err(BadBlockChar(c))
        }
    }

    /// Map-file character for the block.
    pub fn to_char(self) -> (r: char)
        ensures
            r == block_char(self),
    {
        match self {
            Block::Stone => '*',
            Block::SplatteredRock => '\u{a7}',
            Block::Grass => ';',
            Block::Glass => '|',
            Block::Rubble => '%',
            Block::Altar => '=',
            Block::Door => '+',
            Block::Water => '~',
            Block::Magma => '&',
        }
    }

}

impl Default for Block {
    /// Smooth stone is the default block.
    fn default() -> (r: Block)
        ensures
            r == Block::Stone,
    {
        Block::Stone
    }
}

/// Writing a block and reading it back gives the same block, and the empty
/// space character `'_'` never names a block.
pub proof fn lemma_block_char_roundtrip(b: Block)
    ensures
        char_block(block_char(b)) == Some(b),
        block_char(b) != '_',
{
}

/// Reading a character that names a block and writing the block back gives
/// the same character.
pub proof fn lemma_char_block_roundtrip(c: char)
    ensures
        char_block(c) matches Some(b) ==> block_char(b) == c,
{
}

/// 2D representation for a top-down view of a voxel location.
#[derive(Copy, Clone, PartialEq, Eq, Structural, Debug, Hash)]
pub enum Tile {
    /// Surface with empty space above it.
    ///
    /// May be displaced from slice center by +/-1 z.
    Surface(IVec3, Block),
    /// Solid vertical mass.
    Wall(Block),
    /// Empty space with no visible floor.
    Void,
}

impl Tile {
    pub fn is_wall(&self) -> (r: bool)
        ensures
            r == (*self is Wall),
    {
        matches!(self, Tile::Wall(_))
    }
}

} // verus!
