//! Which block faces a chunk mesh shows, and how each is shaded: face
//! culling against solid neighbours (leaves show through leaves), per-corner
//! ambient occlusion from the three cells around each corner, and the quad
//! diagonal that keeps the brighter corners joined. Vertex positions,
//! colours and texture coordinates are laid on these quads by the caller.
use vstd::prelude::*;

use crate::block::{spec_face_tile, face_tiles, Block, BlockType};
use crate::terrain::{tangent_axes, CHUNK_SIZE, MAX_Y};
use crate::tree_blocks::{top_of, TreeBlocks};
use crate::world::{World, SEA_LEVEL};

verus! {

/// What a cell looks like to the mesher: its explicit type (an edit
/// override, else a tree block), and whether the procedural ground fills it.
#[derive(Clone, Copy, Debug, PartialEq, Eq, Structural)]
pub struct Probe {
    pub kind: Option<BlockType>,
    pub ground: bool,
}

/// Does a probed cell hide faces and darken corners? An explicit type does
/// unless it is air; otherwise the procedural ground decides.
pub open spec fn probe_solid(p: Probe) -> bool {
    match p.kind {
        Some(t) => t != BlockType::Air,
        None => p.ground,
    }
}

/// Index of offset `d` (each component in -1..=1) in a 3x3x3 neighbourhood.
pub open spec fn nb_index(d: (int, int, int)) -> int {
    (d.0 + 1) * 9 + (d.1 + 1) * 3 + (d.2 + 1)
}

/// The offset stored at neighbourhood index `i`.
pub open spec fn nb_offset(i: int) -> (int, int, int) {
    (i / 9 - 1, (i / 3) % 3 - 1, i % 3 - 1)
}

/// Face normals in face order: +Y, -Y, +X, -X, +Z, -Z.
pub open spec fn face_normal(f: int) -> (int, int, int) {
    if f == 0 {
        (0, 1, 0)
    } else if f == 1 {
        (0, -1, 0)
    } else if f == 2 {
        (1, 0, 0)
    } else if f == 3 {
        (-1, 0, 0)
    } else if f == 4 {
        (0, 0, 1)
    } else {
        (0, 0, -1)
    }
}

/// Corner `i` of face `f` on the unit cube, counter-clockwise seen from
/// outside.
pub open spec fn face_corner(f: int, i: int) -> (int, int, int) {
    if f == 0 {
        if i == 0 { (0, 1, 0) } else if i == 1 { (0, 1, 1) } else if i == 2 { (1, 1, 1) } else { (1, 1, 0) }
    } else if f == 1 {
        if i == 0 { (0, 0, 0) } else if i == 1 { (1, 0, 0) } else if i == 2 { (1, 0, 1) } else { (0, 0, 1) }
    } else if f == 2 {
        if i == 0 { (1, 0, 0) } else if i == 1 { (1, 1, 0) } else if i == 2 { (1, 1, 1) } else { (1, 0, 1) }
    } else if f == 3 {
        if i == 0 { (0, 0, 0) } else if i == 1 { (0, 1, 0) } else if i == 2 { (0, 1, 1) } else { (0, 0, 1) }
    } else if f == 4 {
        if i == 0 { (0, 0, 1) } else if i == 1 { (1, 0, 1) } else if i == 2 { (1, 1, 1) } else { (0, 1, 1) }
    } else {
        if i == 0 { (1, 0, 0) } else if i == 1 { (0, 0, 0) } else if i == 2 { (0, 1, 0) } else { (1, 1, 0) }
    }
}

/// Component `a` of `v`.
pub open spec fn comp(v: (int, int, int), a: int) -> int {
    if a == 0 {
        v.0
    } else if a == 1 {
        v.1
    } else {
        v.2
    }
}

/// `v` moved by `d` along axis `a`.
pub open spec fn add_axis(v: (int, int, int), a: int, d: int) -> (int, int, int) {
    if a == 0 {
        (v.0 + d, v.1, v.2)
    } else if a == 1 {
        (v.0, v.1 + d, v.2)
    } else {
        (v.0, v.1, v.2 + d)
    }
}

/// The tangent axes of face `f` (those of its normal).
pub open spec fn face_tangents(f: int) -> (int, int) {
    if f == 0 || f == 1 {
        (0, 2)
    } else if f == 2 || f == 3 {
        (1, 2)
    } else {
        (0, 1)
    }
}

/// Is the cell at offset `d` solid?
pub open spec fn solid_at(nb: Seq<Probe>, d: (int, int, int)) -> bool {
    probe_solid(nb[nb_index(d)])
}

/// Ambient occlusion level (0 = darkest, 3 = open) at corner `i` of face
/// `f`: from the face's neighbour cell, look one step toward the corner
/// along each tangent axis (two side cells) and along both (the diagonal
/// cell). Two solid sides close the corner; otherwise each solid cell of
/// the three darkens it one level.
pub open spec fn corner_ao(nb: Seq<Probe>, f: int, i: int) -> int {
    let n = face_normal(f);
    let c = face_corner(f, i);
    let ua = face_tangents(f).0;
    let va = face_tangents(f).1;
    let s1 = add_axis(n, ua, 2 * comp(c, ua) - 1);
    let s2 = add_axis(n, va, 2 * comp(c, va) - 1);
    let diag = add_axis(s1, va, 2 * comp(c, va) - 1);
    let b1: int = if solid_at(nb, s1) { 1 } else { 0 };
    let b2: int = if solid_at(nb, s2) { 1 } else { 0 };
    let bd: int = if solid_at(nb, diag) { 1 } else { 0 };
    if b1 == 1 && b2 == 1 {
        0
    } else {
        3 - (b1 + b2 + bd)
    }
}

/// Is face `f` of a block of type `b` visible? It is hidden by a solid
/// neighbour, except that leaves stay visible against leaves.
pub open spec fn face_visible(b: BlockType, nb: Seq<Probe>, f: int) -> bool {
    let q = nb[nb_index(face_normal(f))];
    !(probe_solid(q) && !(b == BlockType::Leaves && q.kind == Some(BlockType::Leaves)))
}

/// One visible block face: its cell, the block type drawn there, face
/// index, atlas tile, the AO level of each corner, and whether the quad is
/// split along the other diagonal.
#[derive(Clone, Copy, Debug, PartialEq, Eq, Structural)]
pub struct FaceQuad {
    pub x: i32,
    pub y: i32,
    pub z: i32,
    pub kind: BlockType,
    pub face: usize,
    pub tile: usize,
    pub ao0: u8,
    pub ao1: u8,
    pub ao2: u8,
    pub ao3: u8,
    /// Split along corners 1-3 instead of 0-2 (when corners 0 and 2 are
    /// brighter together than 1 and 3).
    pub flip: bool,
}

pub open spec fn spec_face_quad(b: BlockType, x: i32, y: i32, z: i32, nb: Seq<Probe>, f: int) -> FaceQuad {
    let a0 = corner_ao(nb, f, 0);
    let a1 = corner_ao(nb, f, 1);
    let a2 = corner_ao(nb, f, 2);
    let a3 = corner_ao(nb, f, 3);
    FaceQuad {
        x,
        y,
        z,
        kind: b,
        face: f as usize,
        tile: spec_face_tile(b, f as usize),
        ao0: a0 as u8,
        ao1: a1 as u8,
        ao2: a2 as u8,
        ao3: a3 as u8,
        flip: a0 + a2 > a1 + a3,
    }
}

/// The visible faces among the first `n` faces of a block of type `b` at
/// (x, y, z), in face order.
pub open spec fn cell_quads_upto(b: BlockType, x: i32, y: i32, z: i32, nb: Seq<Probe>, n: int) -> Seq<FaceQuad>
    decreases n,
{
    if n <= 0 {
        seq![]
    } else {
        let prev = cell_quads_upto(b, x, y, z, nb, n - 1);
        if face_visible(b, nb, n - 1) {
            prev.push(spec_face_quad(b, x, y, z, nb, n - 1))
        } else {
            prev
        }
    }
}

/// The visible faces of a block of type `b` at (x, y, z) whose 3x3x3
/// neighbourhood is `nb`, in face order.
pub open spec fn spec_cell_quads(b: BlockType, x: i32, y: i32, z: i32, nb: Seq<Probe>) -> Seq<FaceQuad> {
    cell_quads_upto(b, x, y, z, nb, 6)
}

/// Face normal of face `f`, as coordinates.
fn face_normal_exec(f: usize) -> (r: [i32; 3])
    requires
        f < 6,
    ensures
        (r@[0] as int, r@[1] as int, r@[2] as int) == face_normal(f as int),
        r@.len() == 3,
{
    match f {
        0 => [0, 1, 0],
        1 => [0, -1, 0],
        2 => [1, 0, 0],
        3 => [-1, 0, 0],
        4 => [0, 0, 1],
        _ => [0, 0, -1],
    }
}

/// Corner `i` of face `f`, as coordinates.
fn face_corner_exec(f: usize, i: usize) -> (r: [i32; 3])
    requires
        f < 6,
        i < 4,
    ensures
        (r@[0] as int, r@[1] as int, r@[2] as int) == face_corner(f as int, i as int),
        r@.len() == 3,
{
    let table: [[i32; 3]; 24] = [
        [0, 1, 0], [0, 1, 1], [1, 1, 1], [1, 1, 0],
        [0, 0, 0], [1, 0, 0], [1, 0, 1], [0, 0, 1],
        [1, 0, 0], [1, 1, 0], [1, 1, 1], [1, 0, 1],
        [0, 0, 0], [0, 1, 0], [0, 1, 1], [0, 0, 1],
        [0, 0, 1], [1, 0, 1], [1, 1, 1], [0, 1, 1],
        [1, 0, 0], [0, 0, 0], [0, 1, 0], [1, 1, 0],
    ];
    table[f * 4 + i]
}

fn nb_solid(nb: &[Probe], d: [i32; 3]) -> (r: bool)
    requires
        nb@.len() == 27,
        -1 <= d@[0] <= 1,
        -1 <= d@[1] <= 1,
        -1 <= d@[2] <= 1,
    ensures
        r == solid_at(nb@, (d@[0] as int, d@[1] as int, d@[2] as int)),
{
    let i = ((d[0] + 1) * 9 + (d[1] + 1) * 3 + (d[2] + 1)) as usize;
    let p = nb[i];
    match p.kind {
        Some(t) => t != BlockType::Air,
        None => p.ground,
    }
}

/// Ambient occlusion level of corner `i` of face `f` (see [`corner_ao`]).
fn corner_ao_exec(nb: &[Probe], f: usize, i: usize) -> (r: u8)
    requires
        nb@.len() == 27,
        f < 6,
        i < 4,
    ensures
        r as int == corner_ao(nb@, f as int, i as int),
{
    let n = face_normal_exec(f);
    let c = face_corner_exec(f, i);
    let (ua, va) = tangent_axes(n);
    assert((ua as int, va as int) == face_tangents(f as int));
    let su: i32 = c[ua] * 2 - 1;
    let sv: i32 = c[va] * 2 - 1;
    let mut s1: [i32; 3] = n;
    s1[ua] = n[ua] + su;
    let mut s2: [i32; 3] = n;
    s2[va] = n[va] + sv;
    let mut dg: [i32; 3] = s1;
    dg[va] = s1[va] + sv;
    let ghost nn = face_normal(f as int);
    let ghost cc = face_corner(f as int, i as int);
    assert((s1@[0] as int, s1@[1] as int, s1@[2] as int) == add_axis(nn, ua as int, 2 * comp(cc, ua as int) - 1));
    assert((s2@[0] as int, s2@[1] as int, s2@[2] as int) == add_axis(nn, va as int, 2 * comp(cc, va as int) - 1));
    assert((dg@[0] as int, dg@[1] as int, dg@[2] as int) == add_axis(
        add_axis(nn, ua as int, 2 * comp(cc, ua as int) - 1),
        va as int,
        2 * comp(cc, va as int) - 1,
    ));
    let b1 = nb_solid(nb, s1);
    let b2 = nb_solid(nb, s2);
    let bd = nb_solid(nb, dg);
    if b1 && b2 {
        0
    } else {
        let k: u8 = (if b1 { 1u8 } else { 0u8 }) + (if b2 { 1u8 } else { 0u8 }) + (if bd { 1u8 } else { 0u8 });
        3 - k
    }
}

/// Append the visible faces of a block of type `b` at (x, y, z) whose
/// 3x3x3 neighbourhood is `nb` (see [`spec_cell_quads`]).
pub fn push_cell_quads(out: &mut Vec<FaceQuad>, b: BlockType, x: i32, y: i32, z: i32, nb: &[Probe])
    requires
        nb@.len() == 27,
    ensures
        final(out)@ == old(out)@ + spec_cell_quads(b, x, y, z, nb@),
{
    let ghost start = out@;
    let mut f: usize = 0;
    while f < 6
        invariant
            f <= 6,
            nb@.len() == 27,
            out@ == start + cell_quads_upto(b, x, y, z, nb@, f as int),
        decreases 6 - f,
    {
        let n = face_normal_exec(f);
        let qi = ((n[0] + 1) * 9 + (n[1] + 1) * 3 + (n[2] + 1)) as usize;
        let q = nb[qi];
        let solid = match q.kind {
            Some(t) => t != BlockType::Air,
            None => q.ground,
        };
        let leaves_on_leaves = match (b, q.kind) {
            (BlockType::Leaves, Some(BlockType::Leaves)) => true,
            _ => false,
        };
        if !(solid && !leaves_on_leaves) {
            let a0 = corner_ao_exec(nb, f, 0);
            let a1 = corner_ao_exec(nb, f, 1);
            let a2 = corner_ao_exec(nb, f, 2);
            let a3 = corner_ao_exec(nb, f, 3);
            let quad = FaceQuad {
                x,
                y,
                z,
                kind: b,
                face: f,
                tile: face_tiles(b, f),
                ao0: a0,
                ao1: a1,
                ao2: a2,
                ao3: a3,
                flip: a0 as u32 + a2 as u32 > a1 as u32 + a3 as u32,
            };
            out.push(quad);
            assert(quad == spec_face_quad(b, x, y, z, nb@, f as int));
        }
        assert(out@ =~= start + cell_quads_upto(b, x, y, z, nb@, f + 1));
        f = f + 1;
    }
}


/// Height-ring slot of column (wx, wz) for the chunk at (cx, cz): the ring
/// covers the chunk and two columns around it (20x20, x-major); columns
/// further out use the nearest ring column.
pub open spec fn ring_index(cx: int, cz: int, wx: int, wz: int) -> int {
    clamp(wx - cx + 2, 0, 19) * 20 + clamp(wz - cz + 2, 0, 19)
}

pub open spec fn clamp(v: int, lo: int, hi: int) -> int {
    if v < lo {
        lo
    } else if v > hi {
        hi
    } else {
        v
    }
}

/// The procedural column top the mesher uses at (wx, wz).
pub open spec fn ring_top(heights: Seq<i32>, cx: int, cz: int, wx: int, wz: int) -> int {
    heights[ring_index(cx, cz, wx, wz)] as int
}

/// How the mesher sees cell `p`: an edit first, then a tree block, as its
/// explicit type; the height ring for the procedural ground.
pub open spec fn probe_of(
    edits: Map<(i32, i32, i32), BlockType>,
    trees: Map<(i32, i32, i32), BlockType>,
    heights: Seq<i32>,
    cx: int,
    cz: int,
    p: (int, int, int),
) -> Probe {
    let q = (p.0 as i32, p.1 as i32, p.2 as i32);
    Probe {
        kind: if edits.contains_key(q) {
            Some(edits[q])
        } else if trees.contains_key(q) {
            Some(trees[q])
        } else {
            None
        },
        ground: p.1 < ring_top(heights, cx, cz, p.0, p.2),
    }
}

/// The 3x3x3 neighbourhood of cell (x, y, z).
pub open spec fn spec_neighbourhood(
    edits: Map<(i32, i32, i32), BlockType>,
    trees: Map<(i32, i32, i32), BlockType>,
    heights: Seq<i32>,
    cx: int,
    cz: int,
    x: int,
    y: int,
    z: int,
) -> Seq<Probe> {
    Seq::new(
        27,
        |i: int|
            probe_of(edits, trees, heights, cx, cz, (x + nb_offset(i).0, y + nb_offset(i).1, z + nb_offset(i).2)),
    )
}

/// The type the mesher draws at cell (x, y, z), if any: an edit wins (a
/// mined cell draws nothing), then a tree block, then the procedural
/// column: grass on top, three layers of dirt, stone below.
pub open spec fn spec_cell_kind(
    edits: Map<(i32, i32, i32), BlockType>,
    trees: Map<(i32, i32, i32), BlockType>,
    heights: Seq<i32>,
    cx: int,
    cz: int,
    x: i32,
    y: i32,
    z: i32,
) -> Option<BlockType> {
    let q = (x, y, z);
    let h = ring_top(heights, cx, cz, x as int, z as int);
    if edits.contains_key(q) {
        if edits[q] == BlockType::Air {
            None
        } else {
            Some(edits[q])
        }
    } else if trees.contains_key(q) {
        Some(trees[q])
    } else if y < h {
        Some(
            if y == h - 1 {
                BlockType::Grass
            } else if y >= h - 4 {
                BlockType::Dirt
            } else {
                BlockType::Stone
            },
        )
    } else {
        None
    }
}

/// The faces the mesher emits for cell (x, y, z).
pub open spec fn cell_quads_at(
    edits: Map<(i32, i32, i32), BlockType>,
    trees: Map<(i32, i32, i32), BlockType>,
    heights: Seq<i32>,
    cx: int,
    cz: int,
    x: i32,
    y: i32,
    z: i32,
) -> Seq<FaceQuad> {
    match spec_cell_kind(edits, trees, heights, cx, cz, x, y, z) {
        Some(b) => spec_cell_quads(b, x, y, z, spec_neighbourhood(edits, trees, heights, cx, cz, x as int, y as int, z as int)),
        None => seq![],
    }
}

/// The faces of cells y = 0..n of column (x, z), bottom up.
pub open spec fn column_quads(
    edits: Map<(i32, i32, i32), BlockType>,
    trees: Map<(i32, i32, i32), BlockType>,
    heights: Seq<i32>,
    cx: int,
    cz: int,
    x: i32,
    z: i32,
    n: int,
) -> Seq<FaceQuad>
    decreases n,
{
    if n <= 0 {
        seq![]
    } else {
        column_quads(edits, trees, heights, cx, cz, x, z, n - 1) + cell_quads_at(edits, trees, heights, cx, cz, x, (n - 1) as i32, z)
    }
}

/// The largest of a non-empty sequence.
pub open spec fn seq_max(s: Seq<i32>) -> int
    decreases s.len(),
{
    if s.len() <= 1 {
        s[0] as int
    } else {
        let m = seq_max(s.drop_last());
        if s.last() > m {
            s.last() as int
        } else {
            m
        }
    }
}

pub open spec fn max_int(a: int, b: int) -> int {
    if a > b {
        a
    } else {
        b
    }
}

/// How high the mesher scans column (lx, lz) of the chunk: to MAX_Y when
/// edits exist (placed blocks can stand anywhere below it), else to the
/// highest of the column top, the tallest tree block + 1 and the ring's
/// highest column.
pub open spec fn scan_top(
    edits: Map<(i32, i32, i32), BlockType>,
    trees: Map<(i32, i32, i32), BlockType>,
    heights: Seq<i32>,
    lx: int,
    lz: int,
) -> int {
    if !edits.dom().is_empty() {
        MAX_Y as int
    } else {
        max_int(max_int(heights[(lx + 2) * 20 + (lz + 2)] as int, top_of(trees) + 1), seq_max(heights))
    }
}

/// The faces of columns lz = 0..n of chunk row lx.
pub open spec fn row_quads(
    edits: Map<(i32, i32, i32), BlockType>,
    trees: Map<(i32, i32, i32), BlockType>,
    heights: Seq<i32>,
    cx: int,
    cz: int,
    lx: int,
    n: int,
) -> Seq<FaceQuad>
    decreases n,
{
    if n <= 0 {
        seq![]
    } else {
        row_quads(edits, trees, heights, cx, cz, lx, n - 1) + column_quads(
            edits,
            trees,
            heights,
            cx,
            cz,
            (cx + lx) as i32,
            (cz + n - 1) as i32,
            scan_top(edits, trees, heights, lx, n - 1),
        )
    }
}

/// The faces of chunk rows lx = 0..n: x-row by x-row, column by column in
/// z, cell by cell upward.
pub open spec fn spec_chunk_quads(
    edits: Map<(i32, i32, i32), BlockType>,
    trees: Map<(i32, i32, i32), BlockType>,
    heights: Seq<i32>,
    cx: int,
    cz: int,
    n: int,
) -> Seq<FaceQuad>
    decreases n,
{
    if n <= 0 {
        seq![]
    } else {
        spec_chunk_quads(edits, trees, heights, cx, cz, n - 1) + row_quads(edits, trees, heights, cx, cz, n - 1, CHUNK_SIZE as int)
    }
}

fn ring_index_exec(cx: i32, cz: i32, wx: i32, wz: i32) -> (r: usize)
    requires
        i32::MIN + 3 <= cx,
        cx <= i32::MAX - 20,
        i32::MIN + 3 <= cz,
        cz <= i32::MAX - 20,
        cx - 1 <= wx <= cx + 16,
        cz - 1 <= wz <= cz + 16,
    ensures
        r == ring_index(cx as int, cz as int, wx as int, wz as int),
        r < 400,
{
    let dx = wx - cx + 2;
    let dz = wz - cz + 2;
    let dx = if dx < 0 { 0 } else if dx > 19 { 19 } else { dx };
    let dz = if dz < 0 { 0 } else if dz > 19 { 19 } else { dz };
    (dx * 20 + dz) as usize
}

fn probe_exec(
    world: &World,
    trees: &TreeBlocks,
    heights: &[i32],
    cx: i32,
    cz: i32,
    x: i32,
    y: i32,
    z: i32,
) -> (r: Probe)
    requires
        world.wf(),
        trees.wf(),
        heights@.len() == 400,
        i32::MIN + 3 <= cx,
        cx <= i32::MAX - 20,
        i32::MIN + 3 <= cz,
        cz <= i32::MAX - 20,
        cx - 1 <= x <= cx + 16,
        cz - 1 <= z <= cz + 16,
    ensures
        r == probe_of(world.edits_view(), trees.view(), heights@, cx as int, cz as int, (x as int, y as int, z as int)),
{
    let kind = match world.override_at(x, y, z) {
        Some(t) => Some(t),
        None => trees.get(x, y, z),
    };
    let ground = y < heights[ring_index_exec(cx, cz, x, z)];
    Probe { kind, ground }
}

fn neighbourhood(
    world: &World,
    trees: &TreeBlocks,
    heights: &[i32],
    cx: i32,
    cz: i32,
    x: i32,
    y: i32,
    z: i32,
) -> (r: Vec<Probe>)
    requires
        world.wf(),
        trees.wf(),
        heights@.len() == 400,
        i32::MIN + 3 <= cx,
        cx <= i32::MAX - 20,
        i32::MIN + 3 <= cz,
        cz <= i32::MAX - 20,
        cx <= x < cx + 16,
        cz <= z < cz + 16,
        i32::MIN < y < i32::MAX,
    ensures
        r@ == spec_neighbourhood(world.edits_view(), trees.view(), heights@, cx as int, cz as int, x as int, y as int, z as int),
{
    let mut out: Vec<Probe> = Vec::new();
    let mut i: usize = 0;
    while i < 27
        invariant
            i <= 27,
            world.wf(),
            trees.wf(),
            heights@.len() == 400,
            i32::MIN + 3 <= cx,
            cx <= i32::MAX - 20,
            i32::MIN + 3 <= cz,
            cz <= i32::MAX - 20,
            cx <= x < cx + 16,
            cz <= z < cz + 16,
            i32::MIN < y < i32::MAX,
            out@ =~= spec_neighbourhood(world.edits_view(), trees.view(), heights@, cx as int, cz as int, x as int, y as int, z as int).take(i as int),
        decreases 27 - i,
    {
        let dx: i32 = (i / 9) as i32 - 1;
        let dy: i32 = ((i / 3) % 3) as i32 - 1;
        let dz: i32 = (i % 3) as i32 - 1;
        let p = probe_exec(world, trees, heights, cx, cz, x + dx, y + dy, z + dz);
        out.push(p);
        i = i + 1;
    }
    out
}

fn cell_kind_exec(
    world: &World,
    trees: &TreeBlocks,
    heights: &[i32],
    cx: i32,
    cz: i32,
    x: i32,
    y: i32,
    z: i32,
) -> (r: Option<BlockType>)
    requires
        world.wf(),
        trees.wf(),
        heights@.len() == 400,
        i32::MIN + 3 <= cx,
        cx <= i32::MAX - 20,
        i32::MIN + 3 <= cz,
        cz <= i32::MAX - 20,
        cx <= x < cx + 16,
        cz <= z < cz + 16,
    ensures
        r == spec_cell_kind(world.edits_view(), trees.view(), heights@, cx as int, cz as int, x, y, z),
{
    match world.override_at(x, y, z) {
        Some(t) => if t == BlockType::Air {
            None
        } else {
            Some(t)
        },
        None => match trees.get(x, y, z) {
            Some(t) => Some(t),
            None => {
                let h = heights[ring_index_exec(cx, cz, x, z)];
                if y < h {
                    Some(
                        if y == h - 1 {
                            BlockType::Grass
                        } else if y as i64 >= h as i64 - 4 {
                            BlockType::Dirt
                        } else {
                            BlockType::Stone
                        },
                    )
                } else {
                    None
                }
            },
        },
    }
}

fn heights_max(heights: &[i32]) -> (r: i32)
    requires
        heights@.len() >= 1,
    ensures
        r == seq_max(heights@),
        exists|i: int| 0 <= i < heights@.len() && r == heights@[i],
{
    let mut m = heights[0];
    let mut i: usize = 1;
    assert(heights@.take(1).len() == 1);
    while i < heights.len()
        invariant
            1 <= i <= heights.len(),
            m == seq_max(heights@.take(i as int)),
            exists|j: int| 0 <= j < i && m == heights@[j],
        decreases heights.len() - i,
    {
        assert(heights@.take(i + 1).drop_last() =~= heights@.take(i as int));
        assert(heights@.take(i + 1).last() == heights@[i as int]);
        if heights[i] > m {
            m = heights[i];
        }
        i = i + 1;
    }
    assert(heights@.take(heights.len() as int) =~= heights@);
    m
}

/// The faces of one chunk, in emission order (see [`spec_chunk_quads`]):
/// the chunk's corner column is (chunk_x, chunk_z), `heights` is the
/// terrain height ring around it (see [`ring_index`]) and `trees` the tree
/// blocks reaching it.
pub fn chunk_quads(world: &World, trees: &TreeBlocks, heights: &[i32], chunk_x: i32, chunk_z: i32) -> (r: Vec<FaceQuad>)
    requires
        world.wf(),
        trees.wf(),
        heights@.len() == 400,
        forall|i: int| 0 <= i < 400 ==> #[trigger] heights@[i] < i32::MAX,
        top_of(trees.view()) < i32::MAX - 1,
        i32::MIN + 3 <= chunk_x,
        chunk_x <= i32::MAX - 20,
        i32::MIN + 3 <= chunk_z,
        chunk_z <= i32::MAX - 20,
    ensures
        r@ == spec_chunk_quads(world.edits_view(), trees.view(), heights@, chunk_x as int, chunk_z as int, CHUNK_SIZE as int),
{
    let ghost e = world.edits_view();
    let ghost tv = trees.view();
    let ghost hs = heights@;
    let ghost cx = chunk_x as int;
    let ghost cz = chunk_z as int;
    let edited = world.has_edits();
    let tree_top = trees.top();
    let proc_max = heights_max(heights);
    assert(proc_max < i32::MAX);
    let mut out: Vec<FaceQuad> = Vec::new();
    let mut lx: i32 = 0;
    while lx < CHUNK_SIZE
        invariant
            0 <= lx <= CHUNK_SIZE,
            world.wf(),
            trees.wf(),
            e == world.edits_view(),
            tv == trees.view(),
            hs == heights@,
            cx == chunk_x,
            cz == chunk_z,
            heights@.len() == 400,
            forall|i: int| 0 <= i < 400 ==> #[trigger] heights@[i] < i32::MAX,
            tree_top == top_of(tv),
            tree_top < i32::MAX - 1,
            proc_max == seq_max(hs),
            proc_max < i32::MAX,
            edited == !e.dom().is_empty(),
            i32::MIN + 3 <= chunk_x,
            chunk_x <= i32::MAX - 20,
            i32::MIN + 3 <= chunk_z,
            chunk_z <= i32::MAX - 20,
            out@ == spec_chunk_quads(e, tv, hs, cx, cz, lx as int),
        decreases CHUNK_SIZE - lx,
    {
        let ghost row_start = out@;
        let mut lz: i32 = 0;
        while lz < CHUNK_SIZE
            invariant
                0 <= lx < CHUNK_SIZE,
                0 <= lz <= CHUNK_SIZE,
                world.wf(),
                trees.wf(),
                e == world.edits_view(),
                tv == trees.view(),
                hs == heights@,
                cx == chunk_x,
                cz == chunk_z,
                heights@.len() == 400,
                forall|i: int| 0 <= i < 400 ==> #[trigger] heights@[i] < i32::MAX,
                tree_top == top_of(tv),
                tree_top < i32::MAX - 1,
                proc_max == seq_max(hs),
                proc_max < i32::MAX,
                edited == !e.dom().is_empty(),
                i32::MIN + 3 <= chunk_x,
                chunk_x <= i32::MAX - 20,
                i32::MIN + 3 <= chunk_z,
                chunk_z <= i32::MAX - 20,
                row_start == spec_chunk_quads(e, tv, hs, cx, cz, lx as int),
                out@ == row_start + row_quads(e, tv, hs, cx, cz, lx as int, lz as int),
            decreases CHUNK_SIZE - lz,
        {
            let wx = chunk_x + lx;
            let wz = chunk_z + lz;
            let col_top = heights[((lx + 2) * 20 + (lz + 2)) as usize];
            let top: i32 = if edited {
                MAX_Y
            } else {
                let a = if col_top > tree_top + 1 { col_top } else { tree_top + 1 };
                if a > proc_max { a } else { proc_max }
            };
            assert(top == scan_top(e, tv, hs, lx as int, lz as int));
            let ghost col_start = out@;
            let mut y: i32 = 0;
            while y < top
                invariant
                    0 <= lx < CHUNK_SIZE,
                    0 <= lz < CHUNK_SIZE,
                    0 <= y <= top || (top < 0 && y == 0),
                    top < i32::MAX,
                    wx == chunk_x + lx,
                    wz == chunk_z + lz,
                    world.wf(),
                    trees.wf(),
                    e == world.edits_view(),
                    tv == trees.view(),
                    hs == heights@,
                    cx == chunk_x,
                    cz == chunk_z,
                    heights@.len() == 400,
                    i32::MIN + 3 <= chunk_x,
                    chunk_x <= i32::MAX - 20,
                    i32::MIN + 3 <= chunk_z,
                    chunk_z <= i32::MAX - 20,
                    out@ == col_start + column_quads(e, tv, hs, cx, cz, wx, wz, y as int),
                decreases top - y,
            {
                let kind = cell_kind_exec(world, trees, heights, chunk_x, chunk_z, wx, y, wz);
                match kind {
                    Some(b) => {
                        let nb = neighbourhood(world, trees, heights, chunk_x, chunk_z, wx, y, wz);
                        push_cell_quads(&mut out, b, wx, y, wz, nb.as_slice());
                    },
                    None => {},
                }
                assert(out@ =~= col_start + column_quads(e, tv, hs, cx, cz, wx, wz, y + 1));
                y = y + 1;
            }
            proof {
                if top <= 0 {
                    assert(column_quads(e, tv, hs, cx, cz, wx, wz, top as int) =~= Seq::<FaceQuad>::empty());
                    assert(column_quads(e, tv, hs, cx, cz, wx, wz, 0) =~= Seq::<FaceQuad>::empty());
                }
                assert(out@ =~= col_start + column_quads(e, tv, hs, cx, cz, wx, wz, top as int));
                assert(row_quads(e, tv, hs, cx, cz, lx as int, lz + 1) == row_quads(e, tv, hs, cx, cz, lx as int, lz as int)
                    + column_quads(e, tv, hs, cx, cz, wx, wz, scan_top(e, tv, hs, lx as int, lz as int)));
                assert(out@ =~= row_start + row_quads(e, tv, hs, cx, cz, lx as int, lz + 1));
            }
            lz = lz + 1;
        }
        assert(out@ =~= spec_chunk_quads(e, tv, hs, cx, cz, lx + 1));
        lx = lx + 1;
    }
    out
}


/// Every face the mesher emits for a cell is one that is visible from its
/// neighbour (solid neighbours hide faces, except leaves against leaves),
/// belongs to the cell, and has corner occlusion levels within 0..=3.
pub proof fn lemma_cell_quads_visible(b: BlockType, x: i32, y: i32, z: i32, nb: Seq<Probe>, n: int)
    requires
        0 <= n <= 6,
    ensures
        forall|k: int|
            0 <= k < cell_quads_upto(b, x, y, z, nb, n).len() ==> {
                let q = #[trigger] cell_quads_upto(b, x, y, z, nb, n)[k];
                &&& q.x == x && q.y == y && q.z == z
                &&& q.face < n
                &&& face_visible(b, nb, q.face as int)
                &&& q.ao0 <= 3 && q.ao1 <= 3 && q.ao2 <= 3 && q.ao3 <= 3
            },
    decreases n,
{
    if n > 0 {
        lemma_cell_quads_visible(b, x, y, z, nb, n - 1);
        let prev = cell_quads_upto(b, x, y, z, nb, n - 1);
        let cur = cell_quads_upto(b, x, y, z, nb, n);
        assert forall|k: int| 0 <= k < cur.len() implies {
            let q = #[trigger] cur[k];
            &&& q.x == x && q.y == y && q.z == z
            &&& q.face < n
            &&& face_visible(b, nb, q.face as int)
            &&& q.ao0 <= 3 && q.ao1 <= 3 && q.ao2 <= 3 && q.ao3 <= 3
        } by {
            if k < prev.len() {
                assert(cur[k] == prev[k]);
            } else {
                let f = n - 1;
                assert(0 <= corner_ao(nb, f, 0) <= 3);
                assert(0 <= corner_ao(nb, f, 1) <= 3);
                assert(0 <= corner_ao(nb, f, 2) <= 3);
                assert(0 <= corner_ao(nb, f, 3) <= 3);
            }
        }
    }
}


/// A face of a water mesh: the surface on top of a water column (drawn from
/// above and below), or a side facing east (+x), west (-x), south (+z) or
/// north (-z).
#[derive(Clone, Copy, Debug, PartialEq, Eq, Structural)]
pub enum WaterFace {
    Surface,
    East,
    West,
    South,
    North,
}

/// One face of the water mesh at cell (x, y, z).
#[derive(Clone, Copy, Debug, PartialEq, Eq, Structural)]
pub struct WaterQuad {
    pub x: i32,
    pub y: i32,
    pub z: i32,
    pub face: WaterFace,
}

pub open spec fn is_water_block(b: Block) -> bool {
    b == Block::Solid(BlockType::Water)
}

/// The faces of water cell (x, y, z): the surface when the cell above is
/// not water, then each side (east, west, south, north) whose neighbour is
/// air (a block or more water there hides the side).
pub open spec fn water_cell_quads(
    x: i32,
    y: i32,
    z: i32,
    above: Block,
    east: Block,
    west: Block,
    south: Block,
    north: Block,
) -> Seq<WaterQuad> {
    let q = |f: WaterFace| WaterQuad { x, y, z, face: f };
    (if !is_water_block(above) { seq![q(WaterFace::Surface)] } else { seq![] })
        + (if !(east is Solid) { seq![q(WaterFace::East)] } else { seq![] })
        + (if !(west is Solid) { seq![q(WaterFace::West)] } else { seq![] })
        + (if !(south is Solid) { seq![q(WaterFace::South)] } else { seq![] })
        + (if !(north is Solid) { seq![q(WaterFace::North)] } else { seq![] })
}

/// The water faces of column (x, z) from cell `y` down: cell by cell while
/// the cells are water, stopping at the first that is not. `column[y]` is
/// the block at height y (one past the top cell scanned), `sides[d][y]` the
/// block beside it in direction d (east, west, south, north).
pub open spec fn water_scan(x: i32, z: i32, column: Seq<Block>, sides: Seq<Seq<Block>>, y: int) -> Seq<WaterQuad>
    decreases y + 1,
{
    if y < 0 || !is_water_block(column[y]) {
        seq![]
    } else {
        water_cell_quads(x, y as i32, z, column[y + 1], sides[0][y], sides[1][y], sides[2][y], sides[3][y]) + water_scan(
            x,
            z,
            column,
            sides,
            y - 1,
        )
    }
}

/// The water faces of column (x, z) (see [`water_scan`]), scanning down
/// from the cell just below sea level.
pub fn water_column_quads(x: i32, z: i32, column: &[Block], sides: &[Vec<Block>]) -> (r: Vec<WaterQuad>)
    requires
        column@.len() == SEA_LEVEL + 1,
        sides@.len() == 4,
        forall|d: int| 0 <= d < 4 ==> (#[trigger] sides@[d])@.len() == SEA_LEVEL,
    ensures
        r@ == water_scan(x, z, column@, sides@.map_values(|v: Vec<Block>| v@), SEA_LEVEL - 1),
{
    let ghost sv = sides@.map_values(|v: Vec<Block>| v@);
    let mut out: Vec<WaterQuad> = Vec::new();
    let mut y: i32 = SEA_LEVEL - 1;
    while y >= 0
        invariant
            -1 <= y < SEA_LEVEL,
            column@.len() == SEA_LEVEL + 1,
            sides@.len() == 4,
            forall|d: int| 0 <= d < 4 ==> (#[trigger] sides@[d])@.len() == SEA_LEVEL,
            sv == sides@.map_values(|v: Vec<Block>| v@),
            out@ + water_scan(x, z, column@, sv, y as int) == water_scan(x, z, column@, sv, SEA_LEVEL - 1),
        decreases y + 1,
    {
        let yy = y as usize;
        if column[yy] != Block::Solid(BlockType::Water) {
            assert(water_scan(x, z, column@, sv, y as int) =~= Seq::<WaterQuad>::empty());
            assert(out@ =~= out@ + water_scan(x, z, column@, sv, y as int));
            return out;
        }
        let ghost before = out@;
        let q = |f: WaterFace| -> (r: WaterQuad)
            ensures
                r == (WaterQuad { x, y, z, face: f }),
        { WaterQuad { x, y, z, face: f } };
        let mut cell: Vec<WaterQuad> = Vec::new();
        if column[yy + 1] != Block::Solid(BlockType::Water) {
            cell.push(q(WaterFace::Surface));
        }
        if !matches!(sides[0][yy], Block::Solid(_)) {
            cell.push(q(WaterFace::East));
        }
        if !matches!(sides[1][yy], Block::Solid(_)) {
            cell.push(q(WaterFace::West));
        }
        if !matches!(sides[2][yy], Block::Solid(_)) {
            cell.push(q(WaterFace::South));
        }
        if !matches!(sides[3][yy], Block::Solid(_)) {
            cell.push(q(WaterFace::North));
        }
        assert(cell@ =~= water_cell_quads(x, y, z, column@[yy + 1], sv[0][y as int], sv[1][y as int], sv[2][y as int], sv[3][y as int]));
        out.append(&mut cell);
        y = y - 1;
    }
    assert(water_scan(x, z, column@, sv, -1) =~= Seq::<WaterQuad>::empty());
    assert(out@ =~= out@ + water_scan(x, z, column@, sv, -1));
    out
}

} // verus!
