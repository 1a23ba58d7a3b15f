//! Game logic of a roguelike: terrain tiles, world coordinates, map patches,
//! compact map encodings and the entity placement index.

pub mod arith;
pub mod geom;
pub mod text;
pub mod patch;
pub mod patch_text;
pub mod block;
pub mod tile2d;
pub mod map_tile;
pub mod time;
pub mod assoc;
pub mod data;
pub mod ecs;
pub mod location;
pub mod zone;
pub mod stairs;
pub mod atlas;
pub mod placement;
pub mod sector_map;
pub mod rng;
pub mod buffer;
pub mod environs;
pub mod area_map;
pub mod unfold;
pub mod char_atlas;
pub mod mapgen;
pub mod skeleton;
pub mod reread;
pub mod world;
pub mod image;
pub mod ai;
