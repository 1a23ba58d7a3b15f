use magog::block::{BadBlockChar, Block};
use magog::map_tile::{BadMapTileChar, MapTile};
use magog::tile2d::Tile2D;

const MAP_TILES: [MapTile; 11] = [
    MapTile::Wall,
    MapTile::Ground,
    MapTile::Grass,
    MapTile::LowWall,
    MapTile::Door,
    MapTile::Water,
    MapTile::Magma,
    MapTile::Upstairs,
    MapTile::Downstairs,
    MapTile::Gore,
    MapTile::Exit,
];

#[test]
fn map_tile_mix_examples() {
    assert_eq!(MapTile::Water.mix(MapTile::Magma), MapTile::Magma);
    assert_eq!(MapTile::Grass.mix(MapTile::Ground), MapTile::Ground);
    assert_eq!(MapTile::Wall.mix(MapTile::Door), MapTile::Wall);
    assert_eq!(MapTile::Door.mix(MapTile::LowWall), MapTile::LowWall);
    assert_eq!(MapTile::Ground.mix(MapTile::Water), MapTile::Water);
}

#[test]
fn map_tile_mix_is_commutative_and_idempotent() {
    for a in MAP_TILES {
        assert_eq!(a.mix(a), a);
        for b in MAP_TILES {
            assert_eq!(a.mix(b), b.mix(a));
        }
    }
}

#[test]
fn map_tile_chars_roundtrip() {
    for t in MAP_TILES {
        assert_eq!(MapTile::try_from_char(t.to_char()), Ok(t));
    }
    assert_eq!(MapTile::try_from_char('.'), Ok(MapTile::Ground));
    assert_eq!(MapTile::try_from_char('§'), Ok(MapTile::Gore));
    assert_eq!(MapTile::try_from_char('?'), Err(BadMapTileChar('?')));
}

#[test]
fn map_tile_predicates() {
    assert!(MapTile::Wall.blocks_sight());
    assert!(MapTile::Door.blocks_sight());
    assert!(!MapTile::LowWall.blocks_sight());
    assert!(MapTile::Water.blocks_movement());
    assert!(!MapTile::Water.is_walkable());
    assert!(MapTile::Door.is_walkable());
    assert!(MapTile::Upstairs.blocks_shot());
    assert!(MapTile::Downstairs.is_exit());
    assert!(MapTile::Gore.is_decoration());
    assert_eq!(MapTile::Wall.edge_height(), 2);
    assert_eq!(MapTile::LowWall.edge_height(), 1);
    assert_eq!(MapTile::Door.edge_height(), 0);
    assert_eq!(MapTile::Door.self_height(), 2);
    assert_eq!(MapTile::default(), MapTile::Wall);
}

#[test]
fn tile2d_mix_and_chars() {
    assert_eq!(Tile2D::Water.mix(Tile2D::Magma), Tile2D::Magma);
    assert_eq!(Tile2D::Grass.mix(Tile2D::Ground), Tile2D::Ground);
    assert_eq!(Tile2D::try_from_char('#'), Ok(Tile2D::Wall));
    assert_eq!(Tile2D::Ground.to_char(), '.');
    assert!(Tile2D::try_from_char('q').is_err());
    assert_eq!(Tile2D::default(), Tile2D::Wall);
}

#[test]
fn block_chars_and_predicates() {
    let all = [
        Block::Stone,
        Block::SplatteredRock,
        Block::Grass,
        Block::Glass,
        Block::Rubble,
        Block::Altar,
        Block::Door,
        Block::Water,
        Block::Magma,
    ];
    for b in all {
        assert_eq!(Block::try_from_char(b.to_char()), Ok(b));
    }
    assert_eq!(Block::try_from_char('*'), Ok(Block::Stone));
    assert_eq!(Block::try_from_char('_'), Err(BadBlockChar('_')));
    assert!(Block::Glass.is_support());
    assert!(!Block::Glass.blocks_sight());
    assert!(Block::Door.blocks_sight());
    assert!(!Block::Door.is_support());
    assert_eq!(Block::default(), Block::Stone);
}
