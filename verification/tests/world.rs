use voxelcraft::block::{Block, BlockType};
use voxelcraft::terrain::{lattice_hash, water_key};
use voxelcraft::tree_blocks::TreeBlocks;
use voxelcraft::world::{cave_hash, trees_at, Tree, World, SEA_LEVEL};

// The heightmap and cave noise as the game computes them: integer lattice
// hashes from the library, float interpolation here.

fn rand01(x: i32, z: i32, seed: u64) -> f32 {
    ((lattice_hash(x, z, seed) >> 40) as f32) / (1u64 << 24) as f32
}

fn smooth(t: f32) -> f32 {
    t * t * (3.0 - 2.0 * t)
}

fn value_noise(x: f32, z: f32, seed: u64) -> f32 {
    let xi = x.floor() as i32;
    let zi = z.floor() as i32;
    let tx = smooth(x - x.floor());
    let tz = smooth(z - z.floor());
    let a = rand01(xi, zi, seed);
    let b = rand01(xi + 1, zi, seed);
    let c = rand01(xi, zi + 1, seed);
    let d = rand01(xi + 1, zi + 1, seed);
    a + (b - a) * tx + (c - a) * tz + (a - b - c + d) * tx * tz
}

fn terrain_height(x: i32, z: i32, seed: u64) -> i32 {
    let fx = x as f32;
    let fz = z as f32;
    let noise = value_noise(fx * 0.015, fz * 0.015, seed) * 0.55
        + value_noise(fx * 0.04, fz * 0.04, seed ^ 0x1111) * 0.28
        + value_noise(fx * 0.09, fz * 0.09, seed ^ 0x2222) * 0.12
        + value_noise(fx * 0.2, fz * 0.2, seed ^ 0x3333) * 0.05;
    (8.0 + noise * 10.0).round() as i32
}

fn value_noise_3(x: f32, y: f32, z: f32, seed: u64) -> f32 {
    let h = |ix: i32, iy: i32, iz: i32| cave_hash(ix, iy, iz, seed) as f32 / (1u64 << 53) as f32;
    let fade = |t: f32| t * t * (3.0 - 2.0 * t);
    let (xi, yi, zi) = (x.floor() as i32, y.floor() as i32, z.floor() as i32);
    let (xf, yf, zf) = (fade(x - xi as f32), fade(y - yi as f32), fade(z - zi as f32));
    let c = |dx: i32, dy: i32, dz: i32| h(xi + dx, yi + dy, zi + dz);
    let lerp = |a: f32, b: f32, t: f32| a + (b - a) * t;
    let x00 = lerp(c(0, 0, 0), c(1, 0, 0), xf);
    let x10 = lerp(c(0, 1, 0), c(1, 1, 0), xf);
    let x01 = lerp(c(0, 0, 1), c(1, 0, 1), xf);
    let x11 = lerp(c(0, 1, 1), c(1, 1, 1), xf);
    lerp(lerp(x00, x10, yf), lerp(x01, x11, yf), zf)
}

fn is_cave(x: i32, y: i32, z: i32, seed: u64) -> bool {
    let a = value_noise_3(x as f32 * 0.09, y as f32 * 0.14, z as f32 * 0.09, seed ^ 0xCAFE);
    let b = value_noise_3(x as f32 * 0.09, y as f32 * 0.14, z as f32 * 0.09, seed ^ 0xBEEF);
    (a - 0.5).abs() < 0.055 && (b - 0.5).abs() < 0.055
}

/// The trees that can reach column (x, z).
fn trees_near(w: &World, x: i32, z: i32) -> Vec<Tree> {
    let sites = w.nearby_tree_sites(x, z);
    let bases: Vec<i32> = sites
        .iter()
        .map(|s| match s {
            Some(s) => terrain_height(s.tx, s.tz, w.seed()),
            None => 0,
        })
        .collect();
    trees_at(&sites, &bases)
}

fn block(w: &World, x: i32, y: i32, z: i32) -> Block {
    let seed = w.seed();
    w.block(x, y, z, &trees_near(w, x, z), terrain_height(x, z, seed), is_cave(x, y, z, seed))
}

#[test]
fn water_key_is_the_chunks_own_key() {
    for cx in -40..=40 {
        for cz in -40..=40 {
            assert_eq!(water_key((cx, cz)), (cx, cz));
        }
    }
}

#[test]
fn sea_fills_open_basins_only() {
    let w = World::new(0xABCD);
    let mut land: Option<(i32, i32, i32)> = None;
    let mut basin: Option<(i32, i32, i32)> = None;
    for x in 0..400 {
        let top = terrain_height(x, 0, w.seed());
        if top > SEA_LEVEL + 4 && land.is_none() {
            land = Some((x, SEA_LEVEL - 2, 0));
        }
        if top <= SEA_LEVEL && basin.is_none() {
            basin = Some((x, SEA_LEVEL - 1, 0));
        }
    }
    let (bx, by, bz) = basin.expect("a below-sea column exists in 400");
    assert!(matches!(block(&w, bx, by, bz), Block::Solid(BlockType::Water)));
    if let Some((lx, ly, lz)) = land {
        // Under a tall column, a cell at sea level is inside terrain, not
        // water.
        assert!(!matches!(block(&w, lx, ly, lz), Block::Solid(BlockType::Water)));
    }
}

#[test]
fn water_is_not_solid_and_not_mineable() {
    let mut w = World::new(0xABCD);
    let mut found = None;
    for x in 0..400 {
        if matches!(block(&w, x, SEA_LEVEL - 1, 0), Block::Solid(BlockType::Water)) {
            found = Some(x);
            break;
        }
    }
    let x = found.expect("water exists in 400 columns");
    let y = SEA_LEVEL - 1;
    let seed = w.seed();
    let trees = trees_near(&w, x, 0);
    let top = terrain_height(x, 0, seed);
    let cave = is_cave(x, y, 0, seed);
    assert!(!w.solid(x, y, 0, &trees, top, cave), "water must not collide");
    assert!(w.mine(x, y, 0, &trees, top, cave).is_none(), "water must not be mineable");
    assert_eq!(w.edit_count(), 0);
}

#[test]
fn terrain_strata_and_bedrock() {
    let mut w = World::new(7);
    // A column with its top at 20 and no caves: grass, 3 dirt, then stone
    // (or coal), air above.
    assert_eq!(w.block(3, 19, 3, &[], 20, false), Block::Solid(BlockType::Grass));
    assert_eq!(w.block(3, 16, 3, &[], 20, false), Block::Solid(BlockType::Dirt));
    assert!(matches!(
        w.block(3, 15, 3, &[], 20, false),
        Block::Solid(BlockType::Stone) | Block::Solid(BlockType::CoalOre)
    ));
    assert_eq!(w.block(3, 20, 3, &[], 20, false), Block::Air);
    // Caves carve below the three-block crust only.
    assert_eq!(w.block(3, 16, 3, &[], 20, true), Block::Air);
    assert_eq!(w.block(3, 17, 3, &[], 20, true), Block::Solid(BlockType::Dirt));
    assert_eq!(w.block(3, 18, 3, &[], 20, true), Block::Solid(BlockType::Dirt));
    assert_eq!(w.block(3, 19, 3, &[], 20, true), Block::Solid(BlockType::Grass));
    // Bedrock cannot be mined; dirt drops dirt, grass drops dirt.
    assert_eq!(w.mine(3, 0, 3, &[], 20, false), None);
    assert_eq!(w.mine(3, 19, 3, &[], 20, false), Some(BlockType::Dirt));
    assert_eq!(w.block(3, 19, 3, &[], 20, false), Block::Air);
    assert_eq!(w.override_at(3, 19, 3), Some(BlockType::Air));
}

#[test]
fn edits_win_and_mark_chunks_dirty() {
    let mut w = World::new(1);
    assert!(!w.has_edits());
    assert!(w.place(5, 30, -3, BlockType::Planks, &[], 20, false));
    // Placing into an occupied cell is refused.
    assert!(!w.place(5, 10, -3, BlockType::Planks, &[], 20, false));
    assert!(w.has_edits());
    assert_eq!(w.block(5, 30, -3, &[], 20, false), Block::Solid(BlockType::Planks));
    let mut dirty = w.drain_dirty();
    dirty.sort();
    assert!(dirty.contains(&(0, -1)));
    assert!(w.drain_dirty().is_empty());
    let edits = w.edits();
    assert_eq!(edits, vec![([5, 30, -3], BlockType::Planks)]);
    let mut w2 = World::new(1);
    w2.restore_edits(&edits);
    assert_eq!(w2.override_at(5, 30, -3), Some(BlockType::Planks));
    assert_eq!(w2.edit_count(), 1);
    assert!(w.place(6, 30, -3, BlockType::Stone, &[], 20, false));
    let mut snap = w.snapshot();
    assert_eq!(snap.override_at(5, 30, -3), Some(BlockType::Planks));
    assert!(snap.drain_dirty().is_empty());
}

#[test]
fn trees_grow_logs_and_leaves() {
    let w = World::new(0xABCD);
    let tree = Tree { tx: 10, tz: 10, base: 14, height: 5 };
    // Trunk, then leaves around the top, nothing far away.
    assert_eq!(tree.block_at(10, 14, 10, w.seed()), Some(BlockType::Log));
    assert_eq!(tree.block_at(10, 18, 10, w.seed()), Some(BlockType::Log));
    assert_eq!(tree.block_at(10, 19, 10, w.seed()), Some(BlockType::Leaves));
    assert_eq!(tree.block_at(11, 20, 10, w.seed()), Some(BlockType::Leaves));
    assert_eq!(tree.block_at(11, 20, 11, w.seed()), None);
    assert_eq!(tree.block_at(13, 17, 10, w.seed()), None);
    assert_eq!(w.block(10, 15, 10, &[tree], 14, false), Block::Solid(BlockType::Log));
    // The tree map for a chunk holds the same blocks.
    let mut tb = TreeBlocks::new();
    w.collect_tree_blocks(&[tree], 0, 15, 0, 15, &mut tb);
    assert_eq!(tb.get(10, 14, 10), Some(BlockType::Log));
    assert_eq!(tb.get(11, 20, 10), Some(BlockType::Leaves));
    assert_eq!(tb.get(11, 20, 11), None);
    assert_eq!(tb.top(), 20);
}

#[test]
fn tree_sites_cover_the_box() {
    let w = World::new(0xABCD);
    let sites = w.tree_sites_in_box(0, 15, 0, 15);
    // Cells -1..=2 in x and z: 16 candidate sites.
    assert_eq!(sites.len(), 16);
    let near = w.nearby_tree_sites(0, 0);
    // Cell (-1, -1) leads both lists.
    assert_eq!(sites[0], near[0]);
}

#[test]
fn lake_has_a_solid_floor() {
    let w = World::new(7);
    // A column whose top is 8: water from its surface layer up to sea level,
    // solid dirt below it, air above the sea.
    assert_eq!(w.block(3, 10, 3, &[], 8, false), Block::Solid(BlockType::Water));
    assert_eq!(w.block(3, 7, 3, &[], 8, false), Block::Solid(BlockType::Water));
    assert_eq!(w.block(3, 6, 3, &[], 8, false), Block::Solid(BlockType::Dirt));
    assert!(w.solid(3, 6, 3, &[], 8, false));
    assert_eq!(w.block(3, SEA_LEVEL, 3, &[], 8, false), Block::Air);
    assert_eq!(w.block(3, 2, 3, &[], 8, true), Block::Air);
}

#[test]
fn dirty_chunks_over_a_history_and_inverted_boxes() {
    let mut w = World::new(1);
    // Mine a cell at a chunk corner, then place one in the middle of a chunk.
    assert_eq!(w.mine(16, 17, 16, &[], 20, false), Some(BlockType::Dirt));
    assert!(w.place(40, 30, 40, BlockType::Stone, &[], 20, false));
    let mut dirty = w.drain_dirty();
    dirty.sort();
    assert_eq!(dirty, vec![(0, 0), (0, 1), (1, 0), (1, 1), (2, 2)]);
    assert!(w.drain_dirty().is_empty());
    // An inverted box still covers the cells between its widened ends.
    assert_eq!(w.tree_sites_in_box(5, 4, 5, 4).len(), 1);
    assert!(w.tree_sites_in_box(20, 0, 0, 15).is_empty());
}

#[test]
fn water_surface_scan() {
    let mut w = World::new(7);
    // Column top 8: water fills 7..=10 (SEA_LEVEL - 1); from any height at
    // or below 10 the surface is the top water cell, from above it there is
    // none.
    assert_eq!(w.water_surface_cell(3, 3, 2, &[], 8), Some(SEA_LEVEL - 1));
    assert_eq!(w.water_surface_cell(3, 3, 7, &[], 8), Some(SEA_LEVEL - 1));
    assert_eq!(w.water_surface_cell(3, 3, SEA_LEVEL - 1, &[], 8), Some(SEA_LEVEL - 1));
    assert_eq!(w.water_surface_cell(3, 3, SEA_LEVEL, &[], 8), None);
    assert_eq!(w.water_surface_cell(3, 3, 15, &[], 5), None);
    // Dry land has no surface.
    assert_eq!(w.water_surface_cell(3, 3, 0, &[], 20), None);
    // A mined-out top water cell lowers the surface.
    w.restore_edits(&[([3, SEA_LEVEL - 1, 3], BlockType::Air)]);
    assert_eq!(w.water_surface_cell(3, 3, 0, &[], 8), Some(SEA_LEVEL - 2));
}

#[test]
fn collected_tree_blocks_match_the_block_query() {
    let w = World::new(0xABCD);
    // Two trunks three blocks apart: their leaves meet, their logs never do.
    let trees = [Tree { tx: 10, tz: 10, base: 14, height: 5 }, Tree { tx: 13, tz: 10, base: 14, height: 6 }];
    let mut tb = TreeBlocks::new();
    w.collect_tree_blocks(&trees, 0, 15, 0, 15, &mut tb);
    for x in 6..18 {
        for z in 6..15 {
            for y in 12..24 {
                let expect = match w.block(x, y, z, &trees, 5, false) {
                    Block::Solid(t) if t == BlockType::Log || t == BlockType::Leaves => Some(t),
                    _ => None,
                };
                assert_eq!(tb.get(x, y, z), expect, "cell ({x}, {y}, {z})");
            }
        }
    }
}
