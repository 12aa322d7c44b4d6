//! Voxel world state: typed block edits layered over the procedural
//! terrain, deterministic tree placement, block queries, mining/placing,
//! and re-mesh bookkeeping.
//!
//! Storage model: a sparse map of block overrides keyed by position.
//! A cell without an override is governed by the procedural terrain and
//! the analytic trees; an override holds an explicit type, or `Air` for a
//! mined cell, and always wins.
//!
//! The procedural inputs that come from the heightmap noise (a column's
//! terrain top, the cave noise of a cell, a tree's base height) are passed
//! in by the caller as plain integers and flags.
use vstd::prelude::*;

use crate::block::{Block, BlockType, spec_is_solid};
use crate::terrain::{CHUNK_SIZE, hash_u64, spec_hash_u64};
use std::collections::HashMap;
use vstd::std_specs::iter::IteratorSpec;
use vstd::wrapping::u64_specs;

verus! {

broadcast use vstd::std_specs::hash::group_hash_axioms;

/// Sea level: a column's cells from its surface layer up to
/// `SEA_LEVEL - 1` hold water.
pub const SEA_LEVEL: i32 = 11;
/// World-cell size for tree placement (one candidate tree per cell).
pub const TREE_CELL: i32 = 8;
/// Probability (out of 100) that a tree cell actually spawns a tree.
pub const TREE_CHANCE: u64 = 40;

/// `hash2` of the world generator: mixes two coordinates, a salt and the
/// seed.
pub open spec fn spec_hash2(a: i64, b: i64, salt: u64, seed: u64) -> u64 {
    spec_hash_u64(
        u64_specs::wrapping_mul(a as u64, 0x9E3779B97F4A7C15u64) ^ u64_specs::wrapping_mul(
            b as u64,
            0xC2B2AE3D27D4EB4Fu64,
        ) ^ salt ^ seed,
    )
}

pub fn hash2(a: i64, b: i64, salt: u64, seed: u64) -> (r: u64)
    ensures
        r == spec_hash2(a, b, salt, seed),
{
    hash_u64((a as u64).wrapping_mul(0x9E3779B97F4A7C15u64) ^ (b as u64).wrapping_mul(0xC2B2AE3D27D4EB4Fu64) ^ salt ^ seed)
}

/// Where a tree cell's tree stands, from hashing alone: its trunk column
/// and trunk height. Whether it really grows there also depends on the
/// terrain height at the trunk (see [`Tree::from_site`]).
#[derive(Clone, Copy, Debug, PartialEq, Eq, Structural)]
pub struct TreeSite {
    pub tx: i32,
    pub tz: i32,
    /// Trunk height in blocks (4..=6).
    pub height: i32,
}

/// A deterministic tree instance (trunk column + shape parameters).
#[derive(Clone, Copy, Debug, PartialEq, Eq, Structural)]
pub struct Tree {
    pub tx: i32,
    pub tz: i32,
    /// y of the lowest trunk block (= terrain top at the trunk).
    pub base: i32,
    /// Trunk height in blocks (4..=6).
    pub height: i32,
}

/// Tree cell coordinates whose trunk positions stay inside `i32`.
pub open spec fn cell_in_range(cx: int) -> bool {
    i32::MIN <= cx * 8 && cx * 8 + 5 <= i32::MAX
}

/// The tree site of cell (cx, cz), if the cell's hash gives it a tree.
pub open spec fn spec_tree_site(seed: u64, cx: i32, cz: i32) -> Option<TreeSite> {
    let h = spec_hash2(cx as i64, cz as i64, 0x7EE5, seed);
    if h % 100 >= TREE_CHANCE {
        None
    } else {
        let jx = spec_hash2(cx as i64, cz as i64, 0x11, seed) % 5;
        let jz = spec_hash2(cx as i64, cz as i64, 0x22, seed) % 5;
        Some(
            TreeSite {
                tx: (cx * 8 + 1 + jx) as i32,
                tz: (cz * 8 + 1 + jz) as i32,
                height: (4 + spec_hash2(cx as i64, cz as i64, 0x33, seed) % 3) as i32,
            },
        )
    }
}

/// The tree standing at `site` when the terrain top there is `base`:
/// none when the ground is too low (below 5).
pub open spec fn spec_tree_from_site(site: TreeSite, base: i32) -> Option<Tree> {
    if base < 5 {
        None
    } else {
        Some(Tree { tx: site.tx, tz: site.tz, base, height: site.height })
    }
}

/// A tree's numbers keep every derived coordinate inside `i32`.
pub open spec fn tree_ok(t: Tree) -> bool {
    4 <= t.height <= 6 && t.base + 9 <= i32::MAX
}

impl TreeSite {
    /// The tree site of world cell (cx, cz), if any (one candidate tree per
    /// 8x8 cell, ~40% of cells, trunk jittered inside the cell).
    pub fn of_cell(seed: u64, cx: i32, cz: i32) -> (r: Option<TreeSite>)
        requires
            cell_in_range(cx as int),
            cell_in_range(cz as int),
        ensures
            r == spec_tree_site(seed, cx, cz),
            r matches Some(s) ==> 4 <= s.height <= 6,
    {
        let h = hash2(cx as i64, cz as i64, 0x7EE5, seed);
        if h % 100 >= TREE_CHANCE {
            return None;
        }
        let jx = (hash2(cx as i64, cz as i64, 0x11, seed) % 5) as i32;
        let jz = (hash2(cx as i64, cz as i64, 0x22, seed) % 5) as i32;
        let height = 4 + (hash2(cx as i64, cz as i64, 0x33, seed) % 3) as i32;
        Some(TreeSite { tx: cx * TREE_CELL + 1 + jx, tz: cz * TREE_CELL + 1 + jz, height })
    }
}

impl Tree {
    /// The tree at `site` given the terrain top `base` at its trunk.
    pub fn from_site(site: TreeSite, base: i32) -> (r: Option<Tree>)
        ensures
            r == spec_tree_from_site(site, base),
    {
        if base < 5 {
            None
        } else {
            Some(Tree { tx: site.tx, tz: site.tz, base, height: site.height })
        }
    }
}

/// The block type tree `t` puts at (x, y, z), if any: a trunk of `height`
/// logs from `base`, then a leaf blob of two 5x5 layers (corners kept
/// about a third of the time, decided per block by hash), a 3x3 layer and
/// a plus-shaped cap; the trunk continues as log through the leaf layers
/// below the top.
pub open spec fn spec_tree_block(t: Tree, x: i32, y: i32, z: i32, seed: u64) -> Option<BlockType> {
    let top: int = t.base + t.height - 1;
    let dy: int = y - (top - 1);
    let dx: int = x - t.tx;
    let dz: int = z - t.tz;
    let ax: int = if dx < 0 { -dx } else { dx };
    let az: int = if dz < 0 { -dz } else { dz };
    let radius: int = if dy <= 1 { 2 } else { 1 };
    if x == t.tx && z == t.tz && t.base <= y < t.base + t.height {
        Some(BlockType::Log)
    } else if !(0 <= dy <= 3) {
        None
    } else if ax > radius || az > radius {
        None
    } else if dy == 3 && ax == 1 && az == 1 {
        None
    } else if dy <= 1 && ax == 2 && az == 2 && spec_hash2(
        (x as i64 * 7 + y as i64) as i64,
        z as i64,
        0xA1EAF,
        seed,
    ) % 3 != 0 {
        None
    } else if dx == 0 && dz == 0 && y < top {
        Some(BlockType::Log)
    } else {
        Some(BlockType::Leaves)
    }
}

impl Tree {
    /// Is block (x, y, z) part of this tree? Returns its type if so.
    pub fn block_at(&self, x: i32, y: i32, z: i32, seed: u64) -> (r: Option<BlockType>)
        requires
            tree_ok(*self),
        ensures
            r == spec_tree_block(*self, x, y, z, seed),
    {
        let base = self.base as i64;
        let height = self.height as i64;
        let yy = y as i64;
        if x == self.tx && z == self.tz && yy >= base && yy < base + height {
            return Some(BlockType::Log);
        }
        let top: i64 = base + height - 1;
        let dy: i64 = yy - (top - 1);
        if !(0 <= dy && dy <= 3) {
            return None;
        }
        let dx: i64 = x as i64 - self.tx as i64;
        let dz: i64 = z as i64 - self.tz as i64;
        let ax: i64 = if dx < 0 { -dx } else { dx };
        let az: i64 = if dz < 0 { -dz } else { dz };
        let radius: i64 = if dy <= 1 { 2 } else { 1 };
        if ax > radius || az > radius {
            return None;
        }
        if dy == 3 && ax == 1 && az == 1 {
            return None;
        }
        if dy <= 1 && ax == 2 && az == 2 {
            let h = hash2(x as i64 * 7 + y as i64, z as i64, 0xA1EAF, seed);
            if h % 3 != 0 {
                return None;
            }
        }
        if dx == 0 && dz == 0 && yy < top {
            return Some(BlockType::Log);
        }
        Some(BlockType::Leaves)
    }
}

/// The first of `trees` that has a block at (x, y, z).
pub open spec fn spec_trees_block(trees: Seq<Tree>, x: i32, y: i32, z: i32, seed: u64) -> Option<BlockType>
    decreases trees.len(),
{
    if trees.len() == 0 {
        None
    } else {
        match spec_tree_block(trees[0], x, y, z, seed) {
            Some(b) => Some(b),
            None => spec_trees_block(trees.drop_first(), x, y, z, seed),
        }
    }
}

/// The block of the first of `trees` that has one at (x, y, z).
pub fn trees_block(trees: &[Tree], x: i32, y: i32, z: i32, seed: u64) -> (r: Option<BlockType>)
    requires
        forall|i: int| 0 <= i < trees.len() ==> tree_ok(#[trigger] trees@[i]),
    ensures
        r == spec_trees_block(trees@, x, y, z, seed),
{
    let mut i: usize = 0;
    assert(trees@.skip(0) =~= trees@);
    while i < trees.len()
        invariant
            i <= trees.len(),
            forall|j: int| 0 <= j < trees.len() ==> tree_ok(#[trigger] trees@[j]),
            spec_trees_block(trees@, x, y, z, seed) == spec_trees_block(trees@.skip(i as int), x, y, z, seed),
        decreases trees.len() - i,
    {
        let b = trees[i].block_at(x, y, z, seed);
        proof {
            let rest = trees@.skip(i as int);
            assert(rest[0] == trees@[i as int]);
            assert(rest.drop_first() =~= trees@.skip(i + 1));
        }
        if b.is_some() {
            return b;
        }
        i = i + 1;
    }
    assert(trees@.skip(i as int) =~= Seq::<Tree>::empty());
    None
}


/// Coal pocket test: hashed 4x4x4 pockets, ~28% of which hold coal, and
/// inside a pocket a per-block hash keeps ~40% of the blocks.
pub open spec fn spec_is_coal_vein(x: i32, y: i32, z: i32, seed: u64) -> bool {
    let px = x as int / 4;
    let py = y as int / 4;
    let pz = z as int / 4;
    let h = spec_hash2((px * 3 + py) as i64, pz as i64, 0xC0A1, seed);
    if h % 100 >= 28 {
        false
    } else {
        let s = spec_hash_u64(((x as u64) << 32u64) ^ ((y as u64) << 16u64) ^ (z as u64) ^ 0xC0A1F00Du64);
        s % 10 < 4
    }
}

/// Floor division by a positive divisor.
pub(crate) fn div_floor(a: i32, b: i32) -> (r: i32)
    requires
        b > 0,
    ensures
        r == a as int / b as int,
{
    assert(i32::MIN <= a as int / b as int <= i32::MAX) by (nonlinear_arith)
        requires
            b > 0,
            i32::MIN <= a <= i32::MAX,
    ;
    let q = a.checked_div_euclid(b);
    assert(q is Some);
    q.unwrap()
}

fn is_coal_vein(x: i32, y: i32, z: i32, seed: u64) -> (r: bool)
    ensures
        r == spec_is_coal_vein(x, y, z, seed),
{
    let px = div_floor(x, 4);
    let py = div_floor(y, 4);
    let pz = div_floor(z, 4);
    let h = hash2(px as i64 * 3 + py as i64, pz as i64, 0xC0A1, seed);
    if h % 100 >= 28 {
        return false;
    }
    let s = hash_u64(((x as u64) << 32u64) ^ ((y as u64) << 16u64) ^ (z as u64) ^ 0xC0A1F00Du64);
    s % 10 < 4
}

/// The block at (x, y, z): an edit override wins (an `Air` override is a
/// mined hole); else the first tree with a block there; else water below
/// sea level from the column's surface layer `top - 1` up (no grass grows
/// under a lake: its floor is the dirt below); else the stratified terrain
/// below the column top `top`: grass on
/// top, three dirt layers, stone (with coal veins) below, carved to air by
/// a cave where `cave` is set below three blocks of crust (at least four
/// below the top); else air.
pub open spec fn spec_block(
    edits: Map<(i32, i32, i32), BlockType>,
    trees: Seq<Tree>,
    top: i32,
    cave: bool,
    seed: u64,
    x: i32,
    y: i32,
    z: i32,
) -> Block {
    if edits.contains_key((x, y, z)) {
        if edits[(x, y, z)] == BlockType::Air {
            Block::Air
        } else {
            Block::Solid(edits[(x, y, z)])
        }
    } else {
        match spec_trees_block(trees, x, y, z, seed) {
            Some(t) => Block::Solid(t),
            None => if top - 1 <= y < SEA_LEVEL {
                Block::Solid(BlockType::Water)
            } else if y < top {
                if y <= top - 4 && cave {
                    Block::Air
                } else {
                    Block::Solid(
                        if y == top - 1 {
                            BlockType::Grass
                        } else if y >= top - 4 {
                            BlockType::Dirt
                        } else if spec_is_coal_vein(x, y, z, seed) {
                            BlockType::CoalOre
                        } else {
                            BlockType::Stone
                        },
                    )
                }
            } else {
                Block::Air
            },
        }
    }
}

/// Hash-map key of a cell: the three coordinates packed into one integer.
pub open spec fn pos_key(p: (i32, i32, i32)) -> int {
    p.0 * 0x1_0000_0000_0000_0000 + (p.1 + 0x8000_0000) * 0x1_0000_0000 + (p.2 + 0x8000_0000)
}

proof fn lemma_pos_key_injective(a: (i32, i32, i32), b: (i32, i32, i32))
    requires
        pos_key(a) == pos_key(b),
    ensures
        a == b,
{
}

fn pos_key_exec(x: i32, y: i32, z: i32) -> (r: i128)
    ensures
        r == pos_key((x, y, z)),
{
    (x as i128) * 0x1_0000_0000_0000_0000i128 + ((y as i128) + 0x8000_0000i128) * 0x1_0000_0000i128 + ((z as i128)
        + 0x8000_0000i128)
}

/// The chunks an edit at column (x, z) dirties: the containing chunk and
/// its neighbours (face culling and AO reach one block out).
pub open spec fn touched_chunks(x: i32, z: i32) -> Set<(i32, i32)> {
    set![
        chunk_of_cell(x - 1, z - 1),
        chunk_of_cell(x - 1, z as int),
        chunk_of_cell(x - 1, z + 1),
        chunk_of_cell(x as int, z - 1),
        chunk_of_cell(x as int, z as int),
        chunk_of_cell(x as int, z + 1),
        chunk_of_cell(x + 1, z - 1),
        chunk_of_cell(x + 1, z as int),
        chunk_of_cell(x + 1, z + 1),
    ]
}

/// The chunk (in chunk coordinates) containing block column (x, z).
pub open spec fn chunk_of_cell(x: int, z: int) -> (i32, i32) {
    ((x / (CHUNK_SIZE as int)) as i32, (z / (CHUNK_SIZE as int)) as i32)
}

/// The editable world: seed, sparse block overrides, and the chunks edited
/// since the last drain.
pub struct World {
    seed: u64,
    /// Overrides keyed by [`pos_key`]; each entry also keeps its cell.
    blocks: HashMap<i128, ([i32; 3], BlockType)>,
    /// Chunks affected by edits since the last drain (no repeats).
    dirty_chunks: Vec<(i32, i32)>,
}

impl World {
    /// Every override is stored under its own cell's key; no dirty chunk
    /// is listed twice.
    pub closed spec fn wf(&self) -> bool {
        &&& forall|k: i128| #[trigger]
            self.blocks@.contains_key(k) ==> pos_key(
                (self.blocks@[k].0@[0], self.blocks@[k].0@[1], self.blocks@[k].0@[2]),
            ) == k
        &&& self.dirty_chunks@.no_duplicates()
    }

    /// The edit overlay: cell -> override type.
    pub closed spec fn edits_view(&self) -> Map<(i32, i32, i32), BlockType> {
        Map::new(
            |p: (i32, i32, i32)| self.blocks@.contains_key(pos_key(p) as i128),
            |p: (i32, i32, i32)| self.blocks@[pos_key(p) as i128].1,
        )
    }

    /// The world seed.
    pub closed spec fn spec_seed(&self) -> u64 {
        self.seed
    }

    /// Chunks edited since the last drain.
    pub closed spec fn dirty_view(&self) -> Set<(i32, i32)> {
        self.dirty_chunks@.to_set()
    }

    pub fn new(seed: u64) -> (w: World)
        ensures
            w.wf(),
            w.spec_seed() == seed,
            w.edits_view() == Map::<(i32, i32, i32), BlockType>::empty(),
            w.dirty_view() == Set::<(i32, i32)>::empty(),
    {
        let w = World { seed, blocks: HashMap::new(), dirty_chunks: Vec::new() };
        assert(w.edits_view() =~= Map::<(i32, i32, i32), BlockType>::empty());
        assert(w.dirty_view() =~= Set::<(i32, i32)>::empty());
        w
    }
}

impl World {
    /// The world seed.
    pub fn seed(&self) -> (r: u64)
        ensures
            r == self.spec_seed(),
    {
        self.seed
    }

    /// Raw edit-override lookup: `Some(t)` if this exact cell has an
    /// explicit edit (a type or `Air`), `None` if terrain-governed.
    pub fn override_at(&self, x: i32, y: i32, z: i32) -> (r: Option<BlockType>)
        requires
            self.wf(),
        ensures
            r == (if self.edits_view().contains_key((x, y, z)) {
                Some(self.edits_view()[(x, y, z)])
            } else {
                None
            }),
    {
        let k = pos_key_exec(x, y, z);
        match self.blocks.get(&k) {
            Some(e) => Some(e.1),
            None => None,
        }
    }

    /// Does any edit exist?
    pub fn has_edits(&self) -> (r: bool)
        requires
            self.wf(),
        ensures
            r == (self.edits_view().dom() != Set::<(i32, i32, i32)>::empty()),
    {
        let r = !self.blocks.is_empty();
        proof {
            if r {
                let k = choose|k: i128| self.blocks@.contains_key(k);
                let c = self.blocks@[k].0@;
                let p = (c[0], c[1], c[2]);
                assert(pos_key(p) as i128 == k);
                assert(self.edits_view().dom().contains(p));
            } else {
                assert(self.edits_view().dom() =~= Set::<(i32, i32, i32)>::empty());
            }
        }
        r
    }

    /// The block occupying (x, y, z), given the trees near the column (in
    /// cell order), the column's terrain top and the cell's cave flag.
    pub fn block(&self, x: i32, y: i32, z: i32, trees: &[Tree], top: i32, cave: bool) -> (r: Block)
        requires
            self.wf(),
            forall|i: int| 0 <= i < trees.len() ==> tree_ok(#[trigger] trees@[i]),
        ensures
            r == spec_block(self.edits_view(), trees@, top, cave, self.spec_seed(), x, y, z),
    {
        if let Some(t) = self.override_at(x, y, z) {
            return match t {
                BlockType::Air => Block::Air,
                _ => Block::Solid(t),
            };
        }
        if let Some(t) = trees_block(trees, x, y, z, self.seed) {
            return Block::Solid(t);
        }
        let yy = y as i64;
        let tt = top as i64;
        if tt - 1 <= yy && y < SEA_LEVEL {
            return Block::Solid(BlockType::Water);
        }
        if yy < tt {
            if yy <= tt - 4 && cave {
                return Block::Air;
            }
            Block::Solid(
                if yy == tt - 1 {
                    BlockType::Grass
                } else if yy >= tt - 4 {
                    BlockType::Dirt
                } else if is_coal_vein(x, y, z, self.seed) {
                    BlockType::CoalOre
                } else {
                    BlockType::Stone
                },
            )
        } else {
            Block::Air
        }
    }

    /// Is the block at (x, y, z) solid (see [`World::block`])?
    pub fn solid(&self, x: i32, y: i32, z: i32, trees: &[Tree], top: i32, cave: bool) -> (r: bool)
        requires
            self.wf(),
            forall|i: int| 0 <= i < trees.len() ==> tree_ok(#[trigger] trees@[i]),
        ensures
            r == spec_is_solid(spec_block(self.edits_view(), trees@, top, cave, self.spec_seed(), x, y, z)),
    {
        self.block(x, y, z, trees, top, cave).is_solid()
    }
}

/// The highest height at which the scan from `y0` down to 0 finds water in
/// column (x, z), if any.
pub open spec fn is_water_at(
    edits: Map<(i32, i32, i32), BlockType>,
    trees: Seq<Tree>,
    top: i32,
    seed: u64,
    x: i32,
    y: int,
    z: i32,
) -> bool {
    spec_block(edits, trees, top, false, seed, x, y as i32, z) == Block::Solid(BlockType::Water)
}

/// Whether a cell holds water does not depend on its cave flag: caves
/// carve only dry ground.
pub proof fn lemma_water_ignores_cave(
    edits: Map<(i32, i32, i32), BlockType>,
    trees: Seq<Tree>,
    top: i32,
    cave: bool,
    seed: u64,
    x: i32,
    y: i32,
    z: i32,
)
    ensures
        (spec_block(edits, trees, top, cave, seed, x, y, z) == Block::Solid(BlockType::Water)) == is_water_at(
            edits,
            trees,
            top,
            seed,
            x,
            y as int,
            z,
        ),
{
}

/// Cell (x, h, z) holds a water override.
pub open spec fn water_edit_at(edits: Map<(i32, i32, i32), BlockType>, x: i32, h: int, z: i32) -> bool {
    edits.contains_key((x, h as i32, z)) && edits[(x, h as i32, z)] == BlockType::Water
}

/// Every water cell of a column is a water override, or an unedited cell
/// from the surface layer up to below sea level.
proof fn lemma_water_cell_origin(
    edits: Map<(i32, i32, i32), BlockType>,
    trees: Seq<Tree>,
    top: i32,
    seed: u64,
    x: i32,
    h: int,
    z: i32,
)
    requires
        i32::MIN <= h <= i32::MAX,
        is_water_at(edits, trees, top, seed, x, h, z),
    ensures
        water_edit_at(edits, x, h, z) || (!edits.contains_key((x, h as i32, z)) && top - 1 <= h < SEA_LEVEL),
{
    lemma_trees_block_not_water(trees, x, h as i32, z, seed);
}

impl World {
    /// The highest water cell of column (x, z), when some water cell of the
    /// column lies at or above the feet cell `from`; `None` when none does.
    /// The cave flag does not matter: caves never hold water.
    pub fn water_surface_cell(&self, x: i32, z: i32, from: i32, trees: &[Tree], top: i32) -> (r: Option<i32>)
        requires
            self.wf(),
            forall|i: int| 0 <= i < trees.len() ==> tree_ok(#[trigger] trees@[i]),
        ensures
            match r {
                Some(y) => {
                    &&& from <= y
                    &&& is_water_at(self.edits_view(), trees@, top, self.spec_seed(), x, y as int, z)
                    &&& forall|h: int|
                        y < h <= i32::MAX ==> !#[trigger] is_water_at(
                            self.edits_view(),
                            trees@,
                            top,
                            self.spec_seed(),
                            x,
                            h,
                            z,
                        )
                },
                None => forall|h: int|
                    from <= h <= i32::MAX ==> !#[trigger] is_water_at(
                        self.edits_view(),
                        trees@,
                        top,
                        self.spec_seed(),
                        x,
                        h,
                        z,
                    ),
            },
    {
        let ghost ev = self.edits_view();
        let ghost seed = self.spec_seed();
        // The highest water override in the column.
        let edits = self.edits();
        let mut best: Option<i32> = None;
        let mut i: usize = 0;
        while i < edits.len()
            invariant
                i <= edits.len(),
                ev == self.edits_view(),
                forall|j: int|
                    0 <= j < edits.len() ==> ev.contains_key(cell_of(#[trigger] edits@[j].0))
                        && ev[cell_of(edits@[j].0)] == edits@[j].1,
                best matches Some(b) ==> water_edit_at(ev, x, b as int, z),
                forall|j: int|
                    0 <= j < i ==> ((#[trigger] edits@[j]).0@[0] == x && edits@[j].0@[2] == z && edits@[j].1
                        == BlockType::Water) ==> (best matches Some(b) && edits@[j].0@[1] <= b),
            decreases edits.len() - i,
        {
            let (c, t) = edits[i];
            if c[0] == x && c[2] == z && t == BlockType::Water {
                proof {
                    assert(cell_of(c) == (x, c@[1], z));
                }
                match best {
                    Some(b) => {
                        if c[1] > b {
                            best = Some(c[1]);
                        }
                    },
                    None => {
                        best = Some(c[1]);
                    },
                }
            }
            i = i + 1;
        }
        proof {
            assert forall|h: int| i32::MIN <= h <= i32::MAX && water_edit_at(ev, x, h, z) implies (best matches Some(
                b,
            ) && h <= b) by {
                let p = (x, h as i32, z);
                assert(ev.contains_key(p));
                let k = choose|k: int| 0 <= k < edits.len() && cell_of(#[trigger] edits@[k].0) == p;
                assert(edits@[k].0@[0] == x && edits@[k].0@[2] == z && edits@[k].0@[1] == h);
            }
        }
        // The highest water cell from below sea level down to the surface
        // layer (the only unedited cells that can hold water).
        let lo: i64 = top as i64 - 1;
        let mut y: i64 = (SEA_LEVEL - 1) as i64;
        let mut found: Option<i32> = None;
        while found.is_none() && y >= lo && y >= i32::MIN as i64
            invariant
                lo == top - 1,
                y <= SEA_LEVEL - 1,
                self.wf(),
                ev == self.edits_view(),
                seed == self.spec_seed(),
                forall|k: int| 0 <= k < trees.len() ==> tree_ok(#[trigger] trees@[k]),
                found matches Some(f) ==> f == y && is_water_at(ev, trees@, top, seed, x, f as int, z),
                forall|h: int| y < h < SEA_LEVEL ==> !#[trigger] is_water_at(ev, trees@, top, seed, x, h, z),
            decreases y - lo + 1, (if found is None { 1int } else { 0int }),
        {
            let yy: i32 = y as i32;
            if self.block(x, yy, z, trees, top, false) == Block::Solid(BlockType::Water) {
                found = Some(yy);
            } else {
                y = y - 1;
            }
        }
        proof {
            assert forall|h: int| i32::MIN <= h <= i32::MAX && is_water_at(ev, trees@, top, seed, x, h, z) implies (best
                matches Some(b) && h <= b) || (found matches Some(f) && h <= f) by {
                lemma_water_cell_origin(ev, trees@, top, seed, x, h, z);
                if !water_edit_at(ev, x, h, z) {
                    assert(h > y || h <= y);
                }
            }
        }
        let top_cell: Option<i32> = match (best, found) {
            (Some(b), Some(f)) => Some(if b > f { b } else { f }),
            (Some(b), None) => Some(b),
            (None, Some(f)) => Some(f),
            (None, None) => None,
        };
        proof {
            if let Some(b) = best {
                assert(is_water_at(ev, trees@, top, seed, x, b as int, z));
            }
        }
        match top_cell {
            Some(t) => {
                if t >= from {
                    Some(t)
                } else {
                    None
                }
            },
            None => None,
        }
    }
}

/// The type mining takes out of a cell holding `b` at height `y`: any
/// solid or leaf block above bedrock (y = 0); never water or air.
pub open spec fn spec_mined(b: Block, y: i32) -> Option<BlockType> {
    match b {
        Block::Solid(t) => if y > 0 && t != BlockType::Water {
            Some(t)
        } else {
            None
        },
        Block::Air => None,
    }
}

/// What mining a block of type `t` drops (grass drops dirt).
pub open spec fn spec_drop(t: BlockType) -> BlockType {
    if t == BlockType::Grass {
        BlockType::Dirt
    } else {
        t
    }
}

impl World {
    proof fn lemma_edits_insert(&self, new: World, x: i32, y: i32, z: i32, t: BlockType)
        requires
            self.wf(),
            new.blocks@ == self.blocks@.insert(pos_key_exec_spec(x, y, z), ([x, y, z], t)),
        ensures
            new.edits_view() == self.edits_view().insert((x, y, z), t),
            forall|k: i128| #[trigger]
                new.blocks@.contains_key(k) ==> pos_key(
                    (new.blocks@[k].0@[0], new.blocks@[k].0@[1], new.blocks@[k].0@[2]),
                ) == k,
    {
        let key = pos_key_exec_spec(x, y, z);
        assert forall|p: (i32, i32, i32)| #[trigger] new.edits_view().contains_key(p) == self.edits_view().insert((x, y, z), t).contains_key(p) by {
            if pos_key(p) as i128 == key {
                lemma_pos_key_injective(p, (x, y, z));
            }
        }
        assert forall|p: (i32, i32, i32)| new.edits_view().contains_key(p) implies #[trigger] new.edits_view()[p] == self.edits_view().insert((x, y, z), t)[p] by {
            if pos_key(p) as i128 == key {
                lemma_pos_key_injective(p, (x, y, z));
            }
        }
        assert(new.edits_view() =~= self.edits_view().insert((x, y, z), t));
        assert forall|k: i128| #[trigger] new.blocks@.contains_key(k) implies pos_key(
            (new.blocks@[k].0@[0], new.blocks@[k].0@[1], new.blocks@[k].0@[2]),
        ) == k by {
            if k == key {
                let arr: [i32; 3] = [x, y, z];
                assert(arr@[0] == x && arr@[1] == y && arr@[2] == z);
            }
        }
    }

    /// Record chunk `c` as needing a re-mesh.
    fn mark_dirty(&mut self, c: (i32, i32))
        requires
            old(self).wf(),
        ensures
            final(self).wf(),
            final(self).dirty_view() == old(self).dirty_view().insert(c),
            final(self).edits_view() == old(self).edits_view(),
            final(self).blocks == old(self).blocks,
            final(self).spec_seed() == old(self).spec_seed(),
    {
        let mut i: usize = 0;
        while i < self.dirty_chunks.len()
            invariant
                i <= self.dirty_chunks.len(),
                *self == *old(self),
                self.wf(),
                forall|j: int| 0 <= j < i ==> self.dirty_chunks@[j] != c,
            decreases self.dirty_chunks.len() - i,
        {
            if self.dirty_chunks[i].0 == c.0 && self.dirty_chunks[i].1 == c.1 {
                assert(self.dirty_chunks@[i as int] == c);
                assert(self.dirty_chunks@.contains(c));
                assert(self.dirty_chunks@.to_set().contains(c));
                assert(self.dirty_view().insert(c) =~= self.dirty_view());
                return;
            }
            i = i + 1;
        }
        let ghost before = self.dirty_chunks@;
        self.dirty_chunks.push(c);
        proof {
            assert(!before.contains(c));
            assert(self.dirty_chunks@ == before.push(c));
            let after = self.dirty_chunks@;
            assert forall|e: (i32, i32)| after.to_set().contains(e) <==> before.to_set().insert(c).contains(e) by {
                if after.contains(e) {
                    let j = choose|j: int| 0 <= j < after.len() && after[j] == e;
                    if j < before.len() {
                        assert(before[j] == e);
                    }
                }
                if before.contains(e) {
                    let j = choose|j: int| 0 <= j < before.len() && before[j] == e;
                    assert(after[j] == e);
                }
                if e == c {
                    assert(after[before.len() as int] == c);
                }
            }
            assert(after.to_set() =~= before.to_set().insert(c));
            assert(after.no_duplicates());
        }
    }

    /// Mark the chunks around an edit at column (x, z) for re-meshing.
    fn touch(&mut self, x: i32, z: i32)
        requires
            old(self).wf(),
        ensures
            final(self).wf(),
            final(self).dirty_view() == old(self).dirty_view().union(touched_chunks(x, z)),
            final(self).edits_view() == old(self).edits_view(),
            final(self).blocks == old(self).blocks,
            final(self).spec_seed() == old(self).spec_seed(),
    {
        let ghost start = self.dirty_view();
        let mut dx: i64 = -1;
        while dx <= 1
            invariant
                -1 <= dx <= 2,
                self.wf(),
                self.blocks == old(self).blocks,
                self.seed == old(self).seed,
                start == old(self).dirty_view(),
                self.dirty_view() == start.union(
                    Set::new(|c: (i32, i32)| exists|ddx: int, ddz: int| #![trigger chunk_of_cell(x + ddx, z + ddz)]
                        -1 <= ddx < dx && -1 <= ddz <= 1 && c == chunk_of_cell(x + ddx, z + ddz)),
                ),
            decreases 2 - dx,
        {
            let mut dz: i64 = -1;
            while dz <= 1
                invariant
                    -1 <= dx <= 1,
                    -1 <= dz <= 2,
                    self.wf(),
                    self.blocks == old(self).blocks,
                    self.seed == old(self).seed,
                    start == old(self).dirty_view(),
                    self.dirty_view() == start.union(
                        Set::new(|c: (i32, i32)| exists|ddx: int, ddz: int| #![trigger chunk_of_cell(x + ddx, z + ddz)]
                            (-1 <= ddx < dx && -1 <= ddz <= 1 || ddx == dx && -1 <= ddz < dz) && c == chunk_of_cell(x + ddx, z + ddz)),
                    ),
                decreases 2 - dz,
            {
                let cx = div_floor_i64(x as i64 + dx, 16);
                let cz = div_floor_i64(z as i64 + dz, 16);
                let ghost before = self.dirty_view();
                self.mark_dirty((cx as i32, cz as i32));
                proof {
                    let c = chunk_of_cell(x + dx, z + dz);
                    assert(c == (cx as i32, cz as i32));
                    assert(self.dirty_view() =~= start.union(
                        Set::new(|c: (i32, i32)| exists|ddx: int, ddz: int| #![trigger chunk_of_cell(x + ddx, z + ddz)]
                            (-1 <= ddx < dx && -1 <= ddz <= 1 || ddx == dx && -1 <= ddz < dz + 1) && c == chunk_of_cell(x + ddx, z + ddz)),
                    )) by {
                        assert forall|c2: (i32, i32)| self.dirty_view().contains(c2) implies start.union(
                        Set::new(|c: (i32, i32)| exists|ddx: int, ddz: int| #![trigger chunk_of_cell(x + ddx, z + ddz)]
                            (-1 <= ddx < dx && -1 <= ddz <= 1 || ddx == dx && -1 <= ddz < dz + 1) && c == chunk_of_cell(x + ddx, z + ddz)),
                        ).contains(c2) by {
                            if c2 == c {
                                assert(chunk_of_cell(x + dx as int, z + dz as int) == c2);
                            }
                        }
                    }
                }
                dz = dz + 1;
            }
            proof {
                assert(self.dirty_view() =~= start.union(
                    Set::new(|c: (i32, i32)| exists|ddx: int, ddz: int| #![trigger chunk_of_cell(x + ddx, z + ddz)]
                        -1 <= ddx < dx + 1 && -1 <= ddz <= 1 && c == chunk_of_cell(x + ddx, z + ddz)),
                ));
            }
            dx = dx + 1;
        }
        proof {
            let s = Set::new(|c: (i32, i32)| exists|ddx: int, ddz: int| #![trigger chunk_of_cell(x + ddx, z + ddz)]
                -1 <= ddx < 2 && -1 <= ddz <= 1 && c == chunk_of_cell(x + ddx, z + ddz));
            assert forall|c: (i32, i32)| s.contains(c) implies touched_chunks(x, z).contains(c) by {
                let (ddx, ddz) = choose|ddx: int, ddz: int| #![trigger chunk_of_cell(x + ddx, z + ddz)]
                    -1 <= ddx < 2 && -1 <= ddz <= 1 && c == chunk_of_cell(x + ddx, z + ddz);
                if ddx == -1 && ddz == -1 {} else if ddx == -1 && ddz == 0 {} else if ddx == -1 && ddz == 1 {}
                else if ddx == 0 && ddz == -1 {} else if ddx == 0 && ddz == 0 {} else if ddx == 0 && ddz == 1 {}
                else if ddx == 1 && ddz == -1 {} else if ddx == 1 && ddz == 0 {} else {}
            }
            assert forall|c: (i32, i32)| touched_chunks(x, z).contains(c) implies s.contains(c) by {
                if c == chunk_of_cell(x - 1, z - 1) { assert(chunk_of_cell(x + (-1), z + (-1)) == c); }
                else if c == chunk_of_cell(x - 1, z as int) { assert(chunk_of_cell(x + (-1), z + 0) == c); }
                else if c == chunk_of_cell(x - 1, z + 1) { assert(chunk_of_cell(x + (-1), z + 1) == c); }
                else if c == chunk_of_cell(x as int, z - 1) { assert(chunk_of_cell(x + 0, z + (-1)) == c); }
                else if c == chunk_of_cell(x as int, z as int) { assert(chunk_of_cell(x + 0, z + 0) == c); }
                else if c == chunk_of_cell(x as int, z + 1) { assert(chunk_of_cell(x + 0, z + 1) == c); }
                else if c == chunk_of_cell(x + 1, z - 1) { assert(chunk_of_cell(x + 1, z + (-1)) == c); }
                else if c == chunk_of_cell(x + 1, z as int) { assert(chunk_of_cell(x + 1, z + 0) == c); }
                else { assert(chunk_of_cell(x + 1, z + 1) == c); }
            }
            assert(s =~= touched_chunks(x, z));
        }
    }
}

/// Floor division of an `i64` by a positive divisor.
fn div_floor_i64(a: i64, b: i64) -> (r: i64)
    requires
        b > 0,
    ensures
        r == a as int / b as int,
{
    assert(i64::MIN <= a as int / b as int <= i64::MAX) by (nonlinear_arith)
        requires
            b > 0,
            i64::MIN <= a <= i64::MAX,
    ;
    let q = a.checked_div_euclid(b);
    assert(q is Some);
    q.unwrap()
}

pub open spec fn pos_key_exec_spec(x: i32, y: i32, z: i32) -> i128 {
    pos_key((x, y, z)) as i128
}

impl World {
    /// Write override `t` at (x, y, z).
    fn set_override(&mut self, x: i32, y: i32, z: i32, t: BlockType)
        requires
            old(self).wf(),
        ensures
            final(self).wf(),
            final(self).edits_view() == old(self).edits_view().insert((x, y, z), t),
            final(self).dirty_chunks == old(self).dirty_chunks,
            final(self).spec_seed() == old(self).spec_seed(),
    {
        let ghost before = *self;
        let k = pos_key_exec(x, y, z);
        self.blocks.insert(k, ([x, y, z], t));
        proof {
            before.lemma_edits_insert(*self, x, y, z, t);
        }
    }

    /// Mine the block at (x, y, z) (see [`World::block`] for the inputs).
    /// Anything solid or leafy above bedrock (y = 0) becomes an `Air`
    /// override, its chunks are marked for re-meshing, and the drop is
    /// returned; water, air and bedrock are refused and nothing changes.
    pub fn mine(&mut self, x: i32, y: i32, z: i32, trees: &[Tree], top: i32, cave: bool) -> (r: Option<BlockType>)
        requires
            old(self).wf(),
            forall|i: int| 0 <= i < trees.len() ==> tree_ok(#[trigger] trees@[i]),
        ensures
            final(self).wf(),
            final(self).spec_seed() == old(self).spec_seed(),
            ({
                let b = spec_block(old(self).edits_view(), trees@, top, cave, old(self).spec_seed(), x, y, z);
                match spec_mined(b, y) {
                    Some(t) => {
                        &&& r == Some(spec_drop(t))
                        &&& final(self).edits_view() == old(self).edits_view().insert((x, y, z), BlockType::Air)
                        &&& final(self).dirty_view() == old(self).dirty_view().union(touched_chunks(x, z))
                    },
                    None => {
                        &&& r is None
                        &&& final(self).edits_view() == old(self).edits_view()
                        &&& final(self).dirty_view() == old(self).dirty_view()
                    },
                }
            }),
    {
        match self.block(x, y, z, trees, top, cave) {
            Block::Solid(t) => {
                if y > 0 && !t.is_water() {
                    self.set_override(x, y, z, BlockType::Air);
                    self.touch(x, z);
                    Some(t.drop())
                } else {
                    None
                }
            },
            Block::Air => None,
        }
    }

    /// Place a block of type `t` at (x, y, z). Refused (returns false,
    /// nothing changes) where the cell is solid; otherwise the override is
    /// written, its chunks are marked, and it returns true.
    pub fn place(&mut self, x: i32, y: i32, z: i32, t: BlockType, trees: &[Tree], top: i32, cave: bool) -> (r: bool)
        requires
            old(self).wf(),
            forall|i: int| 0 <= i < trees.len() ==> tree_ok(#[trigger] trees@[i]),
        ensures
            final(self).wf(),
            final(self).spec_seed() == old(self).spec_seed(),
            r == !spec_is_solid(spec_block(old(self).edits_view(), trees@, top, cave, old(self).spec_seed(), x, y, z)),
            r ==> final(self).edits_view() == old(self).edits_view().insert((x, y, z), t),
            r ==> final(self).dirty_view() == old(self).dirty_view().union(touched_chunks(x, z)),
            !r ==> final(self).edits_view() == old(self).edits_view(),
            !r ==> final(self).dirty_view() == old(self).dirty_view(),
    {
        if self.solid(x, y, z, trees, top, cave) {
            return false;
        }
        self.set_override(x, y, z, t);
        self.touch(x, z);
        true
    }

    /// Number of stored block edits.
    pub fn edit_count(&self) -> (r: usize)
        requires
            self.wf(),
        ensures
            r == self.edits_view().dom().len(),
            self.edits_view().dom().finite(),
    {
        proof {
            self.lemma_edits_dom_len();
        }
        self.blocks.len()
    }

    /// The edit overlay of a well-formed world is finite, so adding a cell
    /// it lacks raises `edit_count` by one.
    pub proof fn lemma_edits_finite(&self)
        requires
            self.wf(),
        ensures
            self.edits_view().dom().finite(),
    {
        self.lemma_edits_dom_len();
    }

    proof fn lemma_edits_dom_len(&self)
        requires
            self.wf(),
        ensures
            self.edits_view().dom().len() == self.blocks@.dom().len(),
            self.edits_view().dom().finite(),
    {
        let f = |p: (i32, i32, i32)| pos_key(p) as i128;
        let d = self.edits_view().dom();
        assert(d.map(f) =~= self.blocks@.dom()) by {
            assert forall|k: i128| self.blocks@.dom().contains(k) implies d.map(f).contains(k) by {
                let c = self.blocks@[k].0@;
                let p = (c[0], c[1], c[2]);
                assert(d.contains(p));
                assert(f(p) == k);
            }
        }
        let g = |k: i128| {
            let c = self.blocks@[k].0@;
            (c[0], c[1], c[2])
        };
        assert(d.finite()) by {
            assert forall|p: (i32, i32, i32)| d.contains(p) implies self.blocks@.dom().map(g).contains(p) by {
                let k = pos_key(p) as i128;
                let c = self.blocks@[k].0@;
                lemma_pos_key_injective(p, (c[0], c[1], c[2]));
                assert(g(k) == p);
            }
            self.blocks@.dom().lemma_map_finite(g);
            vstd::set_lib::lemma_len_subset(d, self.blocks@.dom().map(g));
        }
        assert(vstd::relations::injective_on(f, d)) by {
            assert forall|a: (i32, i32, i32), b: (i32, i32, i32)| d.contains(a) && d.contains(b) && #[trigger] f(a) == #[trigger] f(b) implies a == b by {
                assert(-0x1_0000_0000_0000_0000_0000_0000 < pos_key(a) < 0x1_0000_0000_0000_0000_0000_0000);
                assert(-0x1_0000_0000_0000_0000_0000_0000 < pos_key(b) < 0x1_0000_0000_0000_0000_0000_0000);
                lemma_pos_key_injective(a, b);
            }
        }
        vstd::set_lib::lemma_map_size(d, self.blocks@.dom(), f);
    }
}

/// The chunks around every changed column of `cols`, each column touching
/// its own chunk and the eight around it.
pub open spec fn changed_chunks(cols: Seq<(i32, i32)>) -> Set<(i32, i32)>
    decreases cols.len(),
{
    if cols.len() == 0 {
        Set::empty()
    } else {
        changed_chunks(cols.drop_last()).union(touched_chunks(cols.last().0, cols.last().1))
    }
}

proof fn lemma_changed_chunks_members(cols: Seq<(i32, i32)>, k: (i32, i32))
    ensures
        changed_chunks(cols).contains(k) <==> exists|i: int|
            0 <= i < cols.len() && #[trigger] touched_chunks(cols[i].0, cols[i].1).contains(k),
    decreases cols.len(),
{
    if cols.len() > 0 {
        let p = cols.drop_last();
        lemma_changed_chunks_members(p, k);
        if changed_chunks(cols).contains(k) {
            if touched_chunks(cols.last().0, cols.last().1).contains(k) {
                assert(touched_chunks(cols[cols.len() - 1].0, cols[cols.len() - 1].1).contains(k));
            } else {
                let i = choose|i: int| 0 <= i < p.len() && #[trigger] touched_chunks(p[i].0, p[i].1).contains(k);
                assert(cols[i] == p[i]);
            }
        }
        if exists|i: int| 0 <= i < cols.len() && #[trigger] touched_chunks(cols[i].0, cols[i].1).contains(k) {
            let i = choose|i: int| 0 <= i < cols.len() && #[trigger] touched_chunks(cols[i].0, cols[i].1).contains(k);
            if i < p.len() {
                assert(p[i] == cols[i]);
                assert(touched_chunks(p[i].0, p[i].1).contains(k));
            }
        }
    }
}

/// Over a history of worlds in which each step is a successful mine or
/// place at column `cols[i]` (see [`World::mine`], [`World::place`]), the
/// chunks to remesh at the end are those of the start plus the chunk of
/// every cell next to or on a changed column: a chunk is dirty exactly when
/// it was at the start or is `((x + dx) div 16, (z + dz) div 16)` for a
/// changed column (x, z) and dx, dz in -1..=1. Starting from a fresh or
/// just-drained world, the next drain returns exactly those chunks.
pub proof fn lemma_dirty_history(ws: Seq<World>, cols: Seq<(i32, i32)>)
    requires
        ws.len() == cols.len() + 1,
        forall|i: int|
            0 <= i < cols.len() ==> #[trigger] ws[i + 1].dirty_view() == ws[i].dirty_view().union(
                touched_chunks(cols[i].0, cols[i].1),
            ),
    ensures
        ws.last().dirty_view() == ws[0].dirty_view().union(changed_chunks(cols)),
        forall|k: (i32, i32)|
            #[trigger] ws.last().dirty_view().contains(k) <==> (ws[0].dirty_view().contains(k) || exists|i: int|
                0 <= i < cols.len() && #[trigger] touched_chunks(cols[i].0, cols[i].1).contains(k)),
    decreases cols.len(),
{
    if cols.len() > 0 {
        let n = cols.len() - 1;
        let ws1 = ws.drop_last();
        let c1 = cols.drop_last();
        assert forall|i: int| 0 <= i < c1.len() implies #[trigger] ws1[i + 1].dirty_view() == ws1[i].dirty_view().union(
            touched_chunks(c1[i].0, c1[i].1),
        ) by {
            assert(ws1[i + 1] == ws[i + 1] && ws1[i] == ws[i] && c1[i] == cols[i]);
        }
        lemma_dirty_history(ws1, c1);
        assert(ws[n + 1].dirty_view() == ws[n].dirty_view().union(touched_chunks(cols[n].0, cols[n].1)));
        assert(ws1.last() == ws[n]);
        assert(ws.last().dirty_view() =~= ws[0].dirty_view().union(changed_chunks(cols)));
    }
    assert forall|k: (i32, i32)| #[trigger] ws.last().dirty_view().contains(k) <==> (ws[0].dirty_view().contains(k)
        || exists|i: int| 0 <= i < cols.len() && #[trigger] touched_chunks(cols[i].0, cols[i].1).contains(k)) by {
        lemma_changed_chunks_members(cols, k);
    }
}

/// The cell of a coordinate triple.
pub open spec fn cell_of(a: [i32; 3]) -> (i32, i32, i32) {
    (a@[0], a@[1], a@[2])
}

impl World {
    /// Every edit of the overlay, once each, in no particular order (for
    /// saving).
    pub fn edits(&self) -> (r: Vec<([i32; 3], BlockType)>)
        requires
            self.wf(),
        ensures
            r.len() == self.edits_view().dom().len(),
            forall|i: int|
                0 <= i < r.len() ==> self.edits_view().contains_key(cell_of(#[trigger] r[i].0))
                    && self.edits_view()[cell_of(r[i].0)] == r[i].1,
            forall|p: (i32, i32, i32)|
                #[trigger] self.edits_view().contains_key(p) ==> exists|i: int| 0 <= i < r.len() && cell_of(#[trigger] r[i].0) == p,
            forall|i: int, j: int| 0 <= i < j < r.len() ==> cell_of(#[trigger] r[i].0) != cell_of(#[trigger] r[j].0),
    {
        let mut out: Vec<([i32; 3], BlockType)> = Vec::new();
        let ghost m = self.blocks@;
        let ghost v = vstd::std_specs::hash::spec_hash_map_iter(&self.blocks).remaining();
        for kv in it: self.blocks.iter()
            invariant
                m == self.blocks@,
                v == vstd::std_specs::hash::spec_hash_map_iter(&self.blocks).remaining(),
                it.seq() == v,
                v.no_duplicates(),
                self.wf(),
                out.len() == it.index(),
                forall|j: int| 0 <= j < it.index() ==> out[j] == *(#[trigger] it.seq()[j]).1,
        {
            out.push(*kv.1);
        }
        proof {
            self.lemma_edits_dom_len();
            assert forall|i: int| 0 <= i < out.len() implies self.edits_view().contains_key(cell_of(#[trigger] out[i].0))
                && self.edits_view()[cell_of(out[i].0)] == out[i].1 by {
                let k = *v[i].0;
                assert(m.contains_key(k));
                assert(pos_key(cell_of(m[k].0)) == k);
            }
            assert forall|p: (i32, i32, i32)| #[trigger] self.edits_view().contains_key(p) implies exists|i: int| 0 <= i < out.len() && cell_of(#[trigger] out[i].0) == p by {
                let k = pos_key(p) as i128;
                assert(m.contains_key(k));
                assert(v.contains((&k, &m[k])));
                let i = choose|i: int| 0 <= i < v.len() && v[i] == (&k, &m[k]);
                lemma_pos_key_injective(p, cell_of(m[k].0));
                assert(cell_of(out[i].0) == p);
            }
            assert forall|i: int, j: int| 0 <= i < j < out.len() implies cell_of(#[trigger] out[i].0) != cell_of(#[trigger] out[j].0) by {
                let ki = *v[i].0;
                let kj = *v[j].0;
                assert(m.contains_key(ki) && m[ki] == *v[i].1);
                assert(m.contains_key(kj) && m[kj] == *v[j].1);
                assert(out[i] == m[ki] && out[j] == m[kj]);
                assert(pos_key(cell_of(m[ki].0)) == ki);
                assert(pos_key(cell_of(m[kj].0)) == kj);
                if cell_of(out[i].0) == cell_of(out[j].0) {
                    assert(ki == kj);
                    assert(v[i] == v[j]);
                }
            }
        }
        out
    }
}

/// The overlay after writing each of `edits` in order (later wins).
pub open spec fn apply_edits(m: Map<(i32, i32, i32), BlockType>, edits: Seq<([i32; 3], BlockType)>) -> Map<(i32, i32, i32), BlockType>
    decreases edits.len(),
{
    if edits.len() == 0 {
        m
    } else {
        apply_edits(m, edits.drop_last()).insert(cell_of(edits.last().0), edits.last().1)
    }
}

impl World {
    /// Bulk-insert saved edits at load time, in order (a later edit of the
    /// same cell wins). Chunks are not marked: meshes come from the cache.
    pub fn restore_edits(&mut self, edits: &[([i32; 3], BlockType)])
        requires
            old(self).wf(),
        ensures
            final(self).wf(),
            final(self).spec_seed() == old(self).spec_seed(),
            final(self).edits_view() == apply_edits(old(self).edits_view(), edits@),
            final(self).dirty_view() == old(self).dirty_view(),
    {
        let mut i: usize = 0;
        while i < edits.len()
            invariant
                i <= edits.len(),
                self.wf(),
                self.spec_seed() == old(self).spec_seed(),
                self.dirty_chunks == old(self).dirty_chunks,
                self.edits_view() == apply_edits(old(self).edits_view(), edits@.take(i as int)),
            decreases edits.len() - i,
        {
            let (p, t) = edits[i];
            self.set_override(p[0], p[1], p[2], t);
            proof {
                assert(edits@.take(i + 1).drop_last() =~= edits@.take(i as int));
                assert(edits@.take(i + 1).last() == edits@[i as int]);
                assert(cell_of(p) == (p[0], p[1], p[2]));
            }
            i = i + 1;
        }
        assert(edits@.take(edits.len() as int) =~= edits@);
    }

    /// Take the chunks edited since the last call (re-mesh targets), each
    /// once, leaving none.
    pub fn drain_dirty(&mut self) -> (r: Vec<(i32, i32)>)
        requires
            old(self).wf(),
        ensures
            final(self).wf(),
            final(self).spec_seed() == old(self).spec_seed(),
            final(self).edits_view() == old(self).edits_view(),
            r@.to_set() == old(self).dirty_view(),
            r@.no_duplicates(),
            final(self).dirty_view() == Set::<(i32, i32)>::empty(),
            old(self).dirty_view() == Set::<(i32, i32)>::empty() ==> r.len() == 0,
    {
        let mut r: Vec<(i32, i32)> = Vec::new();
        std::mem::swap(&mut r, &mut self.dirty_chunks);
        assert(self.dirty_chunks@.to_set() =~= Set::<(i32, i32)>::empty());
        if r.len() > 0 {
            assert(r@.to_set().contains(r@[0]));
        }
        r
    }

    /// Deep copy for a background mesher: same seed and edits, no dirty
    /// chunks.
    pub fn snapshot(&self) -> (w: World)
        requires
            self.wf(),
        ensures
            w.wf(),
            w.spec_seed() == self.spec_seed(),
            w.edits_view() == self.edits_view(),
            w.dirty_view() == Set::<(i32, i32)>::empty(),
    {
        let w = World { seed: self.seed, blocks: self.blocks.clone(), dirty_chunks: Vec::new() };
        assert(w.dirty_chunks@.to_set() =~= Set::<(i32, i32)>::empty());
        assert(w.edits_view() =~= self.edits_view());
        w
    }

    /// The tree sites of the nine cells around column (x, z), in order
    /// (cell x offset -1..=1 outer, z offset -1..=1 inner).
    pub fn nearby_tree_sites(&self, x: i32, z: i32) -> (r: Vec<Option<TreeSite>>)
        requires
            cell_in_range(x as int / 8 - 1),
            cell_in_range(x as int / 8 + 1),
            cell_in_range(z as int / 8 - 1),
            cell_in_range(z as int / 8 + 1),
        ensures
            r.len() == 9,
            forall|i: int|
                0 <= i < 9 ==> #[trigger] r[i] == spec_tree_site(
                    self.spec_seed(),
                    (x as int / 8 + i / 3 - 1) as i32,
                    (z as int / 8 + i % 3 - 1) as i32,
                ),
    {
        let cx = div_floor(x, TREE_CELL);
        let cz = div_floor(z, TREE_CELL);
        let mut out: Vec<Option<TreeSite>> = Vec::new();
        let mut dx: i32 = -1;
        while dx <= 1
            invariant
                -1 <= dx <= 2,
                cx == x as int / 8,
                cz == z as int / 8,
                cell_in_range(cx - 1),
                cell_in_range(cx + 1),
                cell_in_range(cz - 1),
                cell_in_range(cz + 1),
                out.len() == 3 * (dx + 1),
                forall|i: int|
                    0 <= i < out.len() ==> #[trigger] out[i] == spec_tree_site(
                        self.spec_seed(),
                        (x as int / 8 + i / 3 - 1) as i32,
                        (z as int / 8 + i % 3 - 1) as i32,
                    ),
            decreases 2 - dx,
        {
            let mut dz: i32 = -1;
            while dz <= 1
                invariant
                    -1 <= dx <= 1,
                    -1 <= dz <= 2,
                    cx == x as int / 8,
                    cz == z as int / 8,
                    cell_in_range(cx - 1),
                    cell_in_range(cx + 1),
                    cell_in_range(cz - 1),
                    cell_in_range(cz + 1),
                    out.len() == 3 * (dx + 1) + dz + 1,
                    forall|i: int|
                        0 <= i < out.len() ==> #[trigger] out[i] == spec_tree_site(
                            self.spec_seed(),
                            (x as int / 8 + i / 3 - 1) as i32,
                            (z as int / 8 + i % 3 - 1) as i32,
                        ),
                decreases 2 - dz,
            {
                proof {
                    let i = out.len() as int;
                    assert(i / 3 == dx + 1 && i % 3 == dz + 1);
                }
                out.push(TreeSite::of_cell(self.seed, cx + dx, cz + dz));
                dz = dz + 1;
            }
            dx = dx + 1;
        }
        out
    }
}

/// The trees standing at `sites` given the terrain top at each trunk
/// (`bases[i]` for `sites[i]`), in order, skipping empty sites and sites
/// on low ground.
pub open spec fn spec_trees_at(sites: Seq<Option<TreeSite>>, bases: Seq<i32>) -> Seq<Tree>
    decreases sites.len(),
{
    if sites.len() == 0 || bases.len() == 0 {
        seq![]
    } else {
        let prev = spec_trees_at(sites.drop_last(), bases.drop_last());
        match sites.last() {
            Some(s) => match spec_tree_from_site(s, bases.last()) {
                Some(t) => prev.push(t),
                None => prev,
            },
            None => prev,
        }
    }
}

/// The trees standing at `sites` (see [`spec_trees_at`]).
pub fn trees_at(sites: &[Option<TreeSite>], bases: &[i32]) -> (r: Vec<Tree>)
    requires
        sites.len() == bases.len(),
        forall|i: int| 0 <= i < sites.len() ==> (#[trigger] sites@[i] matches Some(s) ==> 4 <= s.height <= 6 && bases@[i] + 9 <= i32::MAX),
    ensures
        r@ == spec_trees_at(sites@, bases@),
        forall|i: int| 0 <= i < r.len() ==> tree_ok(#[trigger] r@[i]),
{
    let mut out: Vec<Tree> = Vec::new();
    let mut i: usize = 0;
    while i < sites.len()
        invariant
            i <= sites.len(),
            sites.len() == bases.len(),
            forall|j: int| 0 <= j < sites.len() ==> (#[trigger] sites@[j] matches Some(s) ==> 4 <= s.height <= 6 && bases@[j] + 9 <= i32::MAX),
            out@ == spec_trees_at(sites@.take(i as int), bases@.take(i as int)),
            forall|j: int| 0 <= j < out.len() ==> tree_ok(#[trigger] out@[j]),
        decreases sites.len() - i,
    {
        proof {
            assert(sites@.take(i + 1).drop_last() =~= sites@.take(i as int));
            assert(bases@.take(i + 1).drop_last() =~= bases@.take(i as int));
            assert(sites@.take(i + 1).last() == sites@[i as int]);
            assert(bases@.take(i + 1).last() == bases@[i as int]);
        }
        if let Some(s) = sites[i] {
            if let Some(t) = Tree::from_site(s, bases[i]) {
                out.push(t);
            }
        }
        i = i + 1;
    }
    assert(sites@.take(sites.len() as int) =~= sites@);
    assert(bases@.take(bases.len() as int) =~= bases@);
    out
}


/// An override decides its cell whatever the terrain, trees or caves say:
/// a mined cell reads as air, a placed block reads as itself.
pub proof fn lemma_override_wins(
    edits: Map<(i32, i32, i32), BlockType>,
    t: BlockType,
    trees: Seq<Tree>,
    top: i32,
    cave: bool,
    seed: u64,
    x: i32,
    y: i32,
    z: i32,
)
    ensures
        spec_block(edits.insert((x, y, z), t), trees, top, cave, seed, x, y, z) == (if t == BlockType::Air {
            Block::Air
        } else {
            Block::Solid(t)
        }),
{
}

/// After a successful mine, the cell reads as air whatever the procedural
/// inputs; mining it again gets nothing.
pub proof fn lemma_mined_cell_is_air(
    edits: Map<(i32, i32, i32), BlockType>,
    trees: Seq<Tree>,
    top: i32,
    cave: bool,
    seed: u64,
    x: i32,
    y: i32,
    z: i32,
)
    ensures
        spec_block(edits.insert((x, y, z), BlockType::Air), trees, top, cave, seed, x, y, z) == Block::Air,
        spec_mined(spec_block(edits.insert((x, y, z), BlockType::Air), trees, top, cave, seed, x, y, z), y) is None,
{
}

/// Water is neither solid nor minable, and nothing at or below bedrock
/// (y <= 0) is minable.
pub proof fn lemma_water_and_bedrock(b: Block, y: i32)
    ensures
        !spec_is_solid(Block::Solid(BlockType::Water)),
        spec_mined(Block::Solid(BlockType::Water), y) is None,
        y <= 0 ==> spec_mined(b, y) is None,
{
}

/// An unedited cell below sea level from a column's surface layer up is
/// water unless a tree occupies it.
pub proof fn lemma_open_basins_flood(
    edits: Map<(i32, i32, i32), BlockType>,
    trees: Seq<Tree>,
    top: i32,
    cave: bool,
    seed: u64,
    x: i32,
    y: i32,
    z: i32,
)
    requires
        top - 1 <= y < SEA_LEVEL,
        !edits.contains_key((x, y, z)),
        spec_trees_block(trees, x, y, z, seed) is None,
    ensures
        spec_block(edits, trees, top, cave, seed, x, y, z) == Block::Solid(BlockType::Water),
{
}

/// Under a column whose top is above sea level an unedited cell is never
/// water: caves and shafts under land stay dry.
pub proof fn lemma_land_stays_dry(
    edits: Map<(i32, i32, i32), BlockType>,
    trees: Seq<Tree>,
    top: i32,
    cave: bool,
    seed: u64,
    x: i32,
    y: i32,
    z: i32,
)
    requires
        top > SEA_LEVEL,
        !edits.contains_key((x, y, z)),
    ensures
        spec_block(edits, trees, top, cave, seed, x, y, z) != Block::Solid(BlockType::Water),
{
    match spec_trees_block(trees, x, y, z, seed) {
        Some(t) => {
            lemma_trees_block_not_water(trees, x, y, z, seed);
        },
        None => {},
    }
}

proof fn lemma_trees_block_not_water(trees: Seq<Tree>, x: i32, y: i32, z: i32, seed: u64)
    ensures
        spec_trees_block(trees, x, y, z, seed) != Some(BlockType::Water),
    decreases trees.len(),
{
    if trees.len() > 0 {
        lemma_trees_block_not_water(trees.drop_first(), x, y, z, seed);
    }
}

proof fn lemma_apply_edits_lookup(e: Seq<([i32; 3], BlockType)>, p: (i32, i32, i32))
    ensures
        apply_edits(Map::empty(), e).contains_key(p) <==> exists|i: int| 0 <= i < e.len() && cell_of(#[trigger] e[i].0) == p,
        apply_edits(Map::empty(), e).contains_key(p) ==> exists|i: int|
            0 <= i < e.len() && cell_of(#[trigger] e[i].0) == p && apply_edits(Map::empty(), e)[p] == e[i].1,
    decreases e.len(),
{
    if e.len() > 0 {
        let prev = e.drop_last();
        lemma_apply_edits_lookup(prev, p);
        let n = e.len() - 1;
        if cell_of(e[n].0) == p {
        } else {
            if exists|i: int| 0 <= i < prev.len() && cell_of(#[trigger] prev[i].0) == p {
                let i = choose|i: int| 0 <= i < prev.len() && cell_of(#[trigger] prev[i].0) == p;
                assert(e[i] == prev[i]);
            }
            if exists|i: int| 0 <= i < e.len() && cell_of(#[trigger] e[i].0) == p {
                let i = choose|i: int| 0 <= i < e.len() && cell_of(#[trigger] e[i].0) == p;
                assert(i < n);
                assert(prev[i] == e[i]);
            }
            if apply_edits(Map::empty(), e).contains_key(p) {
                let i = choose|i: int|
                    0 <= i < prev.len() && cell_of(#[trigger] prev[i].0) == p && apply_edits(Map::empty(), prev)[p] == prev[i].1;
                assert(e[i] == prev[i]);
            }
        }
    }
}

/// Restoring a listing of an overlay (every edit once, as [`World::edits`]
/// gives it) into an empty world reproduces the overlay exactly.
pub proof fn lemma_restore_reproduces(m: Map<(i32, i32, i32), BlockType>, e: Seq<([i32; 3], BlockType)>)
    requires
        forall|i: int| 0 <= i < e.len() ==> m.contains_key(cell_of(#[trigger] e[i].0)) && m[cell_of(e[i].0)] == e[i].1,
        forall|p: (i32, i32, i32)| #[trigger] m.contains_key(p) ==> exists|i: int| 0 <= i < e.len() && cell_of(#[trigger] e[i].0) == p,
    ensures
        apply_edits(Map::empty(), e) == m,
{
    let r = apply_edits(Map::empty(), e);
    assert forall|p: (i32, i32, i32)| r.contains_key(p) <==> m.contains_key(p) by {
        lemma_apply_edits_lookup(e, p);
    }
    assert forall|p: (i32, i32, i32)| r.contains_key(p) implies r[p] == m[p] by {
        lemma_apply_edits_lookup(e, p);
    }
    assert(r =~= m);
}


/// The lattice value behind the cave noise at lattice point (ix, iy, iz):
/// a 53-bit integer, the point's value in [0, 1) over 2^53.
pub open spec fn spec_cave_hash(ix: i32, iy: i32, iz: i32, seed: u64) -> u64 {
    let z1 = u64_specs::wrapping_mul(ix as u64, 0x9E37_79B9_7F4A_7C15u64) ^ u64_specs::wrapping_mul(
        iy as u64,
        0xC2B2_AE3D_27D4_EB4Fu64,
    ) ^ u64_specs::wrapping_mul(iz as u64, 0x1656_67A5_35A5_30C9u64) ^ seed;
    let z2 = u64_specs::wrapping_mul(z1 ^ (z1 >> 30u64), 0xBF58_476D_1CE4_E5B9u64);
    let z3 = u64_specs::wrapping_mul(z2 ^ (z2 >> 27u64), 0x94D0_49BB_1331_11EBu64);
    (z3 ^ (z3 >> 31u64)) >> 11u64
}

pub fn cave_hash(ix: i32, iy: i32, iz: i32, seed: u64) -> (r: u64)
    ensures
        r == spec_cave_hash(ix, iy, iz, seed),
{
    let z1 = (ix as u64).wrapping_mul(0x9E37_79B9_7F4A_7C15u64) ^ (iy as u64).wrapping_mul(0xC2B2_AE3D_27D4_EB4Fu64)
        ^ (iz as u64).wrapping_mul(0x1656_67A5_35A5_30C9u64) ^ seed;
    let z2 = (z1 ^ (z1 >> 30u64)).wrapping_mul(0xBF58_476D_1CE4_E5B9u64);
    let z3 = (z2 ^ (z2 >> 27u64)).wrapping_mul(0x94D0_49BB_1331_11EBu64);
    (z3 ^ (z3 >> 31u64)) >> 11u64
}


/// What a view ray hit: the solid cell, and the empty cell in front of the
/// face it entered through (where a placed block goes).
#[derive(Clone, Copy, Debug)]
pub struct RayHit {
    pub block: [i32; 3],
    pub adjacent: [i32; 3],
}


/// The stone band: in an unedited, tree-free cell at least five below the
/// column top (under the grass and three dirt layers), a cave carves air;
/// otherwise the cell is coal ore exactly where the coal-vein pocket test
/// holds and plain stone everywhere else.
pub proof fn lemma_stone_band(
    edits: Map<(i32, i32, i32), BlockType>,
    trees: Seq<Tree>,
    top: i32,
    cave: bool,
    seed: u64,
    x: i32,
    y: i32,
    z: i32,
)
    requires
        !edits.contains_key((x, y, z)),
        spec_trees_block(trees, x, y, z, seed) is None,
        y <= top - 5,
    ensures
        cave ==> spec_block(edits, trees, top, cave, seed, x, y, z) == Block::Air,
        !cave ==> (spec_block(edits, trees, top, cave, seed, x, y, z) == Block::Solid(BlockType::CoalOre)
            <==> spec_is_coal_vein(x, y, z, seed)),
        !cave ==> (spec_block(edits, trees, top, cave, seed, x, y, z) == Block::Solid(BlockType::Stone)
            <==> !spec_is_coal_vein(x, y, z, seed)),
{
}

/// Above the stone band of an unedited, tree-free column whose top is above
/// sea level: grass on the top cell, dirt on the three below it, of which
/// the two under the grass are never carved by a cave (three blocks of
/// crust), air from the top up.
pub proof fn lemma_soil_layers(
    edits: Map<(i32, i32, i32), BlockType>,
    trees: Seq<Tree>,
    top: i32,
    cave: bool,
    seed: u64,
    x: i32,
    y: i32,
    z: i32,
)
    requires
        !edits.contains_key((x, y, z)),
        spec_trees_block(trees, x, y, z, seed) is None,
        top > SEA_LEVEL,
    ensures
        y == top - 1 ==> spec_block(edits, trees, top, cave, seed, x, y, z) == Block::Solid(BlockType::Grass),
        top - 3 <= y <= top - 2 ==> spec_block(edits, trees, top, cave, seed, x, y, z) == Block::Solid(BlockType::Dirt),
        y == top - 4 ==> spec_block(edits, trees, top, cave, seed, x, y, z) == (if cave {
            Block::Air
        } else {
            Block::Solid(BlockType::Dirt)
        }),
        y >= top ==> spec_block(edits, trees, top, cave, seed, x, y, z) == Block::Air,
{
}
} // verus!
