# voxelcraft

The game logic of a small voxel building game, written in Verus: every function
in `src/` carries a `requires`/`ensures` contract that Verus proves.

## Layout

- `src/block.rs` — block types and their tables (names, drops, save ids,
  sound materials, atlas tiles).
- `src/world.rs` — the editable world: block overrides over procedural
  terrain, analytic trees, block queries, mining and placing, dirty-chunk
  bookkeeping. The noise-derived inputs (a column's terrain top, a cell's
  cave flag, a tree's base height) are passed in as integers and flags.
- `src/tree_blocks.rs` — the trees reaching a chunk, collected into a block
  map for meshing.
- `src/mesh.rs` — which block faces a chunk mesh shows, their ambient
  occlusion and quad split.
- `src/terrain.rs` — hashes behind the noise, face axes, chunk rings and the
  chunk streaming plan.
- `src/items.rs`, `src/inventory.rs` — items, shaped crafting recipes, the
  hotbar/backpack/crafting-grid inventory and its clicks.
- `src/save.rs`, `src/settings.rs`, `src/sysinfo.rs` — the save formats
  (edit overlay, chunk mesh cache, world header), the settings file and the
  `/proc` text the debug overlay reads.
- `src/ui.rs`, `src/text.rs`, `src/textures.rs` — settings-page rows, what
  keys and mouse buttons do on each screen, the pixel font and string
  helpers, the atlas texel layout.

`app/` is the program around the library: heightmap and cave noise,
vertex building, the texture atlas painting, player physics and file I/O.

## Laws

Besides each function's contract, `src/` proves laws that span functions,
among them: the edit file, the chunk mesh cache and the settings file read
back what was written; an override decides its cell; a mined cell reads as
air; open basins below sea level flood and land columns stay dry; restoring
saved edits reproduces the overlay; inventory clicks neither create nor
lose items, and neither does dragging a stack across the panel; sliders
stay within their ranges, and each setting takes the last line that gives
it a value; pressing E or O twice leaves the screens as they were; over any
history of mines and places, the chunks to remesh are those around every
changed column; the trees grown from the world's tree cells stand apart,
so the tree blocks collected for a chunk agree with the block query; lakes
rest on a solid floor, the water surface is the top water cell of its
column, and caves stay under three blocks of crust.
