//! Block types and the per-type tables (names, drops, save ids, sound
//! materials, atlas tiles).
use vstd::prelude::*;

verus! {

/// Distinct block types. Natural terrain is column-stratified; trees add
/// logs/leaves; crafting turns logs into planks.
#[derive(Clone, Copy, PartialEq, Eq, Debug, Hash, Structural)]
pub enum BlockType {
    Grass,
    Dirt,
    Stone,
    Log,
    Leaves,
    Planks,
    /// A placeable crafting station; right-clicking one opens the 3x3 table.
    CraftingTable,
    /// Stone with coal seams; needs a pickaxe.
    CoalOre,
    /// Water filling open basins below sea level. Not solid, not minable.
    Water,
    /// A mined cell (explicit hole).
    Air,
}

pub open spec fn spec_block_name(t: BlockType) -> Seq<char> {
    match t {
        BlockType::Grass => "grass"@,
        BlockType::Dirt => "dirt"@,
        BlockType::Stone => "stone"@,
        BlockType::Log => "log"@,
        BlockType::Leaves => "leaves"@,
        BlockType::Planks => "planks"@,
        BlockType::CraftingTable => "crafting table"@,
        BlockType::CoalOre => "coal ore"@,
        BlockType::Water => "water"@,
        BlockType::Air => "air"@,
    }
}

impl BlockType {
    /// Is this type a fluid the player swims in?
    pub fn is_water(self) -> (r: bool)
        ensures
            r == (self == BlockType::Water),
    {
        match self {
            BlockType::Water => true,
            _ => false,
        }
    }

    /// What you get when you mine this block (grass drops dirt).
    pub fn drop(self) -> (r: BlockType)
        ensures
            r == (if self == BlockType::Grass { BlockType::Dirt } else { self }),
    {
        match self {
            BlockType::Grass => BlockType::Dirt,
            other => other,
        }
    }

    pub fn name(self) -> (r: &'static str)
        ensures
            r@ == spec_block_name(self),
    {
        match self {
            BlockType::Grass => "grass",
            BlockType::Dirt => "dirt",
            BlockType::Stone => "stone",
            BlockType::Log => "log",
            BlockType::Leaves => "leaves",
            BlockType::Planks => "planks",
            BlockType::CraftingTable => "crafting table",
            BlockType::CoalOre => "coal ore",
            BlockType::Water => "water",
            BlockType::Air => "air",
        }
    }
}


/// The save-file id byte of each block type.
pub open spec fn spec_block_id(t: BlockType) -> u8 {
    match t {
        BlockType::Grass => 0,
        BlockType::Dirt => 1,
        BlockType::Stone => 2,
        BlockType::Log => 3,
        BlockType::Leaves => 4,
        BlockType::Planks => 5,
        BlockType::CraftingTable => 6,
        BlockType::Air => 7,
        BlockType::CoalOre => 8,
        BlockType::Water => 9,
    }
}

/// The block type a save-file id byte stands for, if any.
pub open spec fn spec_block_from_id(b: u8) -> Option<BlockType> {
    if b == 0 {
        Some(BlockType::Grass)
    } else if b == 1 {
        Some(BlockType::Dirt)
    } else if b == 2 {
        Some(BlockType::Stone)
    } else if b == 3 {
        Some(BlockType::Log)
    } else if b == 4 {
        Some(BlockType::Leaves)
    } else if b == 5 {
        Some(BlockType::Planks)
    } else if b == 6 {
        Some(BlockType::CraftingTable)
    } else if b == 7 {
        Some(BlockType::Air)
    } else if b == 8 {
        Some(BlockType::CoalOre)
    } else if b == 9 {
        Some(BlockType::Water)
    } else {
        None
    }
}

impl BlockType {
    /// Id byte used in the edit file (stable across versions).
    pub fn id(self) -> (r: u8)
        ensures
            r == spec_block_id(self),
    {
        match self {
            BlockType::Grass => 0,
            BlockType::Dirt => 1,
            BlockType::Stone => 2,
            BlockType::Log => 3,
            BlockType::Leaves => 4,
            BlockType::Planks => 5,
            BlockType::CraftingTable => 6,
            BlockType::CoalOre => 8,
            BlockType::Water => 9,
            BlockType::Air => 7,
        }
    }

    /// Inverse of [`BlockType::id`]; `None` for unknown bytes.
    pub fn from_id(b: u8) -> (r: Option<BlockType>)
        ensures
            r == spec_block_from_id(b),
    {
        match b {
            0 => Some(BlockType::Grass),
            1 => Some(BlockType::Dirt),
            2 => Some(BlockType::Stone),
            3 => Some(BlockType::Log),
            4 => Some(BlockType::Leaves),
            5 => Some(BlockType::Planks),
            6 => Some(BlockType::CraftingTable),
            7 => Some(BlockType::Air),
            8 => Some(BlockType::CoalOre),
            9 => Some(BlockType::Water),
            _ => None,
        }
    }
}

/// Every block type survives the id byte: `from_id(id(t)) == Some(t)`.
pub proof fn lemma_block_id_round_trip(t: BlockType)
    ensures
        spec_block_from_id(spec_block_id(t)) == Some(t),
{
}

/// Exactly the bytes 0..=9 name a block type, and each names the type whose
/// id it is.
pub proof fn lemma_block_id_onto(b: u8)
    ensures
        spec_block_from_id(b) is Some <==> b <= 9,
        spec_block_from_id(b) matches Some(t) ==> spec_block_id(t) == b,
{
}

/// All placeable types, in hotbar order.
pub open spec fn spec_solid_all() -> Seq<BlockType> {
    seq![
        BlockType::Grass,
        BlockType::Dirt,
        BlockType::Stone,
        BlockType::Log,
        BlockType::Leaves,
        BlockType::Planks,
        BlockType::CraftingTable,
        BlockType::CoalOre,
    ]
}

/// All placeable types (used by the hotbar and crafting logic).
pub fn solid_all() -> (r: Vec<BlockType>)
    ensures
        r@ == spec_solid_all(),
{
    let r = vec![
        BlockType::Grass,
        BlockType::Dirt,
        BlockType::Stone,
        BlockType::Log,
        BlockType::Leaves,
        BlockType::Planks,
        BlockType::CraftingTable,
        BlockType::CoalOre,
    ];
    assert(r@ =~= spec_solid_all());
    r
}

/// The block occupying a cell: solid type or air.
#[derive(Clone, Copy, PartialEq, Eq, Debug, Structural)]
pub enum Block {
    Air,
    Solid(BlockType),
}

/// Water occupies a cell but is not solid for collision or targeting.
pub open spec fn spec_is_solid(b: Block) -> bool {
    match b {
        Block::Solid(t) => t != BlockType::Water,
        Block::Air => false,
    }
}

impl Block {
    /// Solid for collision and ray targeting (water is not).
    pub fn is_solid(self) -> (r: bool)
        ensures
            r == spec_is_solid(self),
    {
        match self {
            Block::Solid(t) => !t.is_water(),
            Block::Air => false,
        }
    }
}

/// Sound material family of a block.
#[derive(Clone, Copy, PartialEq, Eq, Debug, Structural)]
pub enum Material {
    Stone,
    Wood,
    Soft,
    Leaf,
}

pub open spec fn spec_block_material(t: BlockType) -> Material {
    match t {
        BlockType::Stone | BlockType::CoalOre => Material::Stone,
        BlockType::Log | BlockType::Planks | BlockType::CraftingTable => Material::Wood,
        BlockType::Leaves => Material::Leaf,
        _ => Material::Soft,
    }
}

/// The sound material for a block type.
pub fn block_material(t: BlockType) -> (r: Material)
    ensures
        r == spec_block_material(t),
{
    match t {
        BlockType::Stone | BlockType::CoalOre => Material::Stone,
        BlockType::Log | BlockType::Planks | BlockType::CraftingTable => Material::Wood,
        BlockType::Leaves => Material::Leaf,
        _ => Material::Soft,
    }
}

/// Texels per atlas tile side.
pub const TILE_PX: usize = 16;
/// Tiles in the atlas row. Tile 0 is opaque white (the pass-through tile).
pub const TILES: usize = 11;
/// Atlas width in texels.
pub const ATLAS_W: usize = 176;
/// Atlas height in texels.
pub const ATLAS_H: usize = 16;
pub const TILE_GRASS_TOP: usize = 1;
pub const TILE_DIRT: usize = 2;
pub const TILE_GRASS_SIDE: usize = 3;
pub const TILE_STONE: usize = 4;
pub const TILE_BARK: usize = 5;
pub const TILE_RINGS: usize = 6;
pub const TILE_LEAVES: usize = 7;
pub const TILE_PLANKS: usize = 8;
pub const TILE_CRAFTING_TABLE: usize = 9;
pub const TILE_COAL_ORE: usize = 10;

/// (top, bottom, side) atlas tiles of a block type.
pub open spec fn spec_type_tiles(t: BlockType) -> (usize, usize, usize) {
    match t {
        BlockType::Grass => (TILE_GRASS_TOP, TILE_DIRT, TILE_GRASS_SIDE),
        BlockType::Dirt => (TILE_DIRT, TILE_DIRT, TILE_DIRT),
        BlockType::Stone => (TILE_STONE, TILE_STONE, TILE_STONE),
        BlockType::Log => (TILE_RINGS, TILE_RINGS, TILE_BARK),
        BlockType::Leaves => (TILE_LEAVES, TILE_LEAVES, TILE_LEAVES),
        BlockType::Planks => (TILE_PLANKS, TILE_PLANKS, TILE_PLANKS),
        BlockType::CraftingTable => (TILE_CRAFTING_TABLE, TILE_CRAFTING_TABLE, TILE_CRAFTING_TABLE),
        BlockType::CoalOre => (TILE_COAL_ORE, TILE_COAL_ORE, TILE_COAL_ORE),
        BlockType::Water => (0, 0, 0),
        BlockType::Air => (0, 0, 0),
    }
}

/// Atlas tile of face `face_idx` (order +Y, -Y, +X, -X, +Z, -Z).
pub open spec fn spec_face_tile(t: BlockType, face_idx: usize) -> usize {
    let tiles = spec_type_tiles(t);
    if face_idx == 0 {
        tiles.0
    } else if face_idx == 1 {
        tiles.1
    } else {
        tiles.2
    }
}

/// Which atlas tile each face of a block uses: index 0 is the top, 1 the
/// bottom, anything else a side.
pub fn face_tiles(t: BlockType, face_idx: usize) -> (r: usize)
    ensures
        r == spec_face_tile(t, face_idx),
        r < TILES,
{
    let (top, bottom, side) = match t {
        BlockType::Grass => (TILE_GRASS_TOP, TILE_DIRT, TILE_GRASS_SIDE),
        BlockType::Dirt => (TILE_DIRT, TILE_DIRT, TILE_DIRT),
        BlockType::Stone => (TILE_STONE, TILE_STONE, TILE_STONE),
        BlockType::Log => (TILE_RINGS, TILE_RINGS, TILE_BARK),
        BlockType::Leaves => (TILE_LEAVES, TILE_LEAVES, TILE_LEAVES),
        BlockType::Planks => (TILE_PLANKS, TILE_PLANKS, TILE_PLANKS),
        BlockType::CraftingTable => (TILE_CRAFTING_TABLE, TILE_CRAFTING_TABLE, TILE_CRAFTING_TABLE),
        BlockType::CoalOre => (TILE_COAL_ORE, TILE_COAL_ORE, TILE_COAL_ORE),
        BlockType::Water => (0, 0, 0),
        BlockType::Air => (0, 0, 0),
    };
    if face_idx == 0 {
        top
    } else if face_idx == 1 {
        bottom
    } else {
        side
    }
}

/// The tile a held block's face uses (same table as terrain faces).
pub fn face_tiles_for_held(t: BlockType, face_idx: usize) -> (r: usize)
    ensures
        r == spec_face_tile(t, face_idx),
{
    face_tiles(t, face_idx)
}


/// The atlas tiles of every block face: a log shows its rings on the top
/// and bottom and bark on all four sides; grass shows its top tile up, dirt
/// down and the grass side tile around; every other solid block shows one
/// tile of its own on all six faces; water and air show tile 0.
pub proof fn lemma_face_tile_table(f: usize)
    ensures
        spec_face_tile(BlockType::Log, f) == (if f <= 1 { TILE_RINGS } else { TILE_BARK }),
        spec_face_tile(BlockType::Grass, f) == (if f == 0 {
            TILE_GRASS_TOP
        } else if f == 1 {
            TILE_DIRT
        } else {
            TILE_GRASS_SIDE
        }),
        spec_face_tile(BlockType::Dirt, f) == TILE_DIRT,
        spec_face_tile(BlockType::Stone, f) == TILE_STONE,
        spec_face_tile(BlockType::Leaves, f) == TILE_LEAVES,
        spec_face_tile(BlockType::Planks, f) == TILE_PLANKS,
        spec_face_tile(BlockType::CraftingTable, f) == TILE_CRAFTING_TABLE,
        spec_face_tile(BlockType::CoalOre, f) == TILE_COAL_ORE,
        spec_face_tile(BlockType::Water, f) == 0,
        spec_face_tile(BlockType::Air, f) == 0,
        spec_face_tile(BlockType::Grass, 1) == spec_face_tile(BlockType::Dirt, f),
{
}
} // verus!
