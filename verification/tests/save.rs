use voxelcraft::block::BlockType;
use voxelcraft::save::{
    chunk_path, load_chunk_mesh, load_edits, load_meta, parse_meta, save_chunk_mesh, save_edits,
    FORMAT_VERSION, TERRAIN_VERSION, VERTEX_STRIDE,
};

/// The 44 bytes of one vertex: position, normal, colour, uv, as `f32`s.
fn vertex_bytes(pos: [f32; 3], normal: [f32; 3], color: [f32; 3], uv: [f32; 2]) -> Vec<u8> {
    let mut b = Vec::new();
    for f in pos.iter().chain(normal.iter()).chain(color.iter()).chain(uv.iter()) {
        b.extend_from_slice(&f.to_le_bytes());
    }
    b
}

fn f32_at(b: &[u8], off: usize) -> f32 {
    f32::from_le_bytes([b[off], b[off + 1], b[off + 2], b[off + 3]])
}

#[test]
fn meta_round_trips() {
    // The header fields the library reads back from a saved world.conf.
    let text = "# VoxelCraft world save (hand-editable at your own risk)\n\
                version=2\nseed=12345\npx=1.500\npy=12.250\npz=-3.000\n\
                yaw=1.10000\npitch=-0.25000\nflying=true\nday_time=0.31000\n";
    let m = load_meta(text).unwrap();
    assert_eq!(m.seed, 12345);
    assert_eq!(m.version, FORMAT_VERSION);
    assert_eq!(m.flying, Some(true));
}

#[test]
fn meta_from_newer_format_or_without_seed_is_not_loadable() {
    assert!(load_meta("version=3\nseed=5\n").is_none());
    assert!(load_meta("version=2\n").is_none());
    assert!(load_meta("version=0\nseed=5\n").is_none());
    assert!(load_meta("version=1\nseed=5\n").is_some());
    // Unparsable numbers read as zero; the last line of a key wins.
    let h = parse_meta("seed=oops\nversion=+2\nflying=1\nflying=no\n");
    assert_eq!(h.seed, 0);
    assert_eq!(h.version, 2);
    assert_eq!(h.flying, Some(false));
    assert!(load_meta("seed=18446744073709551616\nversion=2\n").is_none());
}

#[test]
fn edits_round_trip_and_ignore_corrupt_tail() {
    let edits = vec![
        ([1, 2, 3], BlockType::Air),
        ([4, 5, 6], BlockType::Planks),
        ([-7, 0, 9], BlockType::CraftingTable),
    ];
    let mut bytes = save_edits(&edits);
    assert_eq!((bytes.len() - 4) / 13, 3);
    // Append a partial record (7 bytes): loading must ignore it silently.
    bytes.extend_from_slice(&[9u8; 7]);
    let loaded = load_edits(&bytes).unwrap();
    assert_eq!(loaded, edits);
}

#[test]
fn edits_file_layout_and_rejections() {
    let bytes = save_edits(&[([-1, 0, 258], BlockType::Stone)]);
    assert_eq!(
        bytes,
        vec![2, 0, 0, 0, 255, 255, 255, 255, 0, 0, 0, 0, 2, 1, 0, 0, 2]
    );
    // Too short for a version, or another version: not an edit file.
    assert!(load_edits(&[2, 0, 0]).is_none());
    assert!(load_edits(&[3, 0, 0, 0]).is_none());
    // Records with unknown block ids are skipped.
    let mut b = save_edits(&[([0, 0, 0], BlockType::Dirt), ([1, 1, 1], BlockType::Log)]);
    b[4 + 12] = 200;
    assert_eq!(load_edits(&b).unwrap(), vec![([1, 1, 1], BlockType::Log)]);
}

#[test]
fn chunk_mesh_round_trips_with_seed_tag() {
    let v = vertex_bytes([0.5, 1.0, -2.0], [0.0, 1.0, 0.0], [0.3, 0.4, 0.5], [0.25, 0.75]);
    let mut verts = Vec::new();
    for _ in 0..4 {
        verts.extend_from_slice(&v);
    }
    let idx = vec![0u16, 1, 2, 0, 2, 3];
    let file = save_chunk_mesh(777, &verts, &idx);
    let (lv, li) = load_chunk_mesh(&file, 777).unwrap();
    assert_eq!(li, idx);
    assert_eq!([f32_at(&lv, 0), f32_at(&lv, 4), f32_at(&lv, 8)], [0.5, 1.0, -2.0]);
    let last = 3 * VERTEX_STRIDE;
    assert_eq!([f32_at(&lv, last + 36), f32_at(&lv, last + 40)], [0.25, 0.75]);
    // A different seed must not load another world's chunk.
    assert!(load_chunk_mesh(&file, 999).is_none());
}

#[test]
fn truncated_chunk_mesh_headers_are_rejected() {
    // The header ends at byte 20; shorter files are not caches.
    for len in [16, 17, 18, 19] {
        assert!(load_chunk_mesh(&vec![0u8; len], 42).is_none());
    }
}

#[test]
fn chunk_mesh_rejects_bad_index_and_trailing_data() {
    let v = vertex_bytes([0.0, 0.0, 0.0], [0.0, 1.0, 0.0], [1.0; 3], [0.0, 0.0]);
    let mut bytes = Vec::new();
    bytes.extend_from_slice(&FORMAT_VERSION.to_le_bytes());
    bytes.extend_from_slice(&(42u64 ^ TERRAIN_VERSION).to_le_bytes());
    bytes.extend_from_slice(&1u32.to_le_bytes()); // one vertex
    bytes.extend_from_slice(&1u32.to_le_bytes()); // one index
    bytes.extend_from_slice(&v);
    bytes.extend_from_slice(&1u16.to_le_bytes()); // out of range
    assert!(load_chunk_mesh(&bytes, 42).is_none());
    let last = bytes.len() - 1;
    bytes[last] = 0;
    bytes.push(0); // exact structure plus trailing byte is invalid
    assert!(load_chunk_mesh(&bytes, 42).is_none());
}

#[test]
fn chunk_mesh_with_in_range_index_loads_exactly() {
    let v = vertex_bytes([0.0, 0.0, 0.0], [0.0, 1.0, 0.0], [1.0; 3], [0.0, 0.0]);
    let mut bytes = Vec::new();
    bytes.extend_from_slice(&FORMAT_VERSION.to_le_bytes());
    bytes.extend_from_slice(&(42u64 ^ TERRAIN_VERSION).to_le_bytes());
    bytes.extend_from_slice(&1u32.to_le_bytes());
    bytes.extend_from_slice(&1u32.to_le_bytes());
    bytes.extend_from_slice(&v);
    bytes.extend_from_slice(&0u16.to_le_bytes());
    let (lv, li) = load_chunk_mesh(&bytes, 42).unwrap();
    assert_eq!(lv, v);
    assert_eq!(li, vec![0u16]);
    assert_eq!(save_chunk_mesh(42, &v, &[0u16]), bytes);
}

#[test]
fn terrain_version_bump_invalidates_cache() {
    let v = vertex_bytes([0.0, 0.0, 0.0], [0.0, 1.0, 0.0], [1.0; 3], [0.0, 0.0]);
    let mut verts = Vec::new();
    for _ in 0..4 {
        verts.extend_from_slice(&v);
    }
    let file = save_chunk_mesh(42, &verts, &[0u16, 1, 2, 0, 2, 3]);
    // Same seed + current TERRAIN_VERSION loads fine...
    assert!(load_chunk_mesh(&file, 42).is_some());
    // ...and the tag stored is the seed XOR the terrain version.
    assert_eq!(u64::from_le_bytes(file[4..12].try_into().unwrap()), 42 ^ TERRAIN_VERSION);
    // Indices but no vertices is structurally invalid.
    let empty = save_chunk_mesh(42, &[], &[0u16]);
    assert!(load_chunk_mesh(&empty, 42).is_none());
}

#[test]
fn block_ids_cover_every_type() {
    for t in [
        BlockType::Grass,
        BlockType::Dirt,
        BlockType::Stone,
        BlockType::Log,
        BlockType::Leaves,
        BlockType::Planks,
        BlockType::CraftingTable,
        BlockType::CoalOre,
        BlockType::Air,
    ] {
        assert_eq!(BlockType::from_id(t.id()), Some(t));
    }
    assert_eq!(BlockType::from_id(200), None);
}

#[test]
fn chunk_cache_file_names() {
    assert_eq!(chunk_path(-1, 3), "chunks/-1_3.mesh");
    assert_eq!(chunk_path(0, -2147483648), "chunks/0_-2147483648.mesh");
}
