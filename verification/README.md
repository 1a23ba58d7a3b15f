# magog

Game logic of a roguelike, written in Verus: the executable code carries
`requires`/`ensures` contracts and proofs that Verus checks.

## Layout

- `src/` — the verified library.
  - `geom`, `arith`, `location`, `zone`: grid vectors, rectangles, boxes,
    sectors, levels and the folding of 3D locations into the plane.
  - `map_tile`, `tile2d`, `block`: terrain kinds, their properties and map
    characters.
  - `patch`, `patch_text`, `reread`: flat map patches, reading them from text
    maps with a legend, writing them back, and the proof that reading a
    written map gives back the patch, for patches laid out from the origin
    with something on every row, and unless an exit tile meets a spawn
    lettered `X`.
  - `atlas`, `char_atlas`, `environs`, `area_map`: compact encodings of maps
    and voxel terrain, and maps of areas of the world.
  - `sector_map`, `data`, `unfold`, `stairs`, `skeleton`: scenario regions,
    their unfolding into columns of levels, stairwell placement and the world
    skeleton with its map generation lots.
  - `mapgen`, `world`: procedural dungeon levels, the stack of levels of a
    dungeon, and the world they make. A level's contract says that its map
    is its start put through a chain of rooms, each a walled rectangle with
    its spawns merged in, joined to the open cells before it by the tunnel
    the path search found, at least six of them unless the next room found
    no spot; that a level
    without upstairs holds a room; and that a level with no spot for its
    downstairs comes back as an error holding the map it built. The world's
    terrain reads back the cells of the levels.
  - `ai`: the next single-step action of a mob for its standing order,
    decided from a snapshot of what it sees.
  - `placement`, `ecs`, `time`, `buffer`, `image`, `assoc`, `text`, `rng`: the
    entity placement index, game time, pixel buffers with their PNG
    screenshots, windows into them and fonts, insertion-ordered maps, text
    helpers and random numbers.
- `tests/` — tests of the library on concrete values.

The rooms-and-corridors map generator of the original is not in the
library: it works with floating-point room ratios throughout and rests on
grid helpers (point clouds, Dijkstra maps) of a crate that is not at hand.
- `app/` — a command-line program around the library: normalizing patch
  files, inspecting sector maps and generating dungeons from a spawn table.

Calls into `rand`, `pathfinding`, `image` and a few standard library
character and string functions go through small trusted wrappers. Their contracts state what the
outside functions' sources and documentation show, as far as it is needed:
which results a random draw can give, that a found tunnel path is made of dig
steps (its exact path is only named, not written out), and that a PNG is the
encoder's output for the pixel bytes. Everything else in `src/` is proved.
