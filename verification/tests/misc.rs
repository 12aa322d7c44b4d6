use voxelcraft::block::{block_material, face_tiles, solid_all, Block, BlockType, Material, TILE_GRASS_TOP};
use voxelcraft::mesh::{chunk_quads, water_column_quads, FaceQuad, WaterFace, WaterQuad};
use voxelcraft::sysinfo::{cpu_model, parse_meminfo, read};
use voxelcraft::terrain::{
    chunks_around, chunks_to_load, chunks_to_unload, hash_u64, tangent_axes, uv_axes, wanted_in_flight,
};
use voxelcraft::inventory::{overlaps_player, Inventory};
use voxelcraft::items::ItemType;
use voxelcraft::text::glyph_for;
use voxelcraft::textures::{atlas_base, clamp8, leaf_key, put, Rng};
use voxelcraft::tree_blocks::TreeBlocks;
use voxelcraft::ui::{key_pressed, mouse_button, ClickAction, GameKey, MouseButton, MoveMode, ScreenAction, Screens};
use voxelcraft::world::World;

#[test]
fn proc_text_gives_cpu_and_memory() {
    let cpu = "processor\t: 0\nvendor_id\t: GenuineIntel\nmodel name\t: Intel(R) Core(TM) i7 CPU  \nmodel name\t: other\n";
    let mem = "MemTotal:       16384000 kB\nMemFree:         1000 kB\nMemAvailable:    4096000 kB\n";
    let s = read(cpu, mem);
    assert_eq!(s.cpu_model, "Intel(R) Core(TM) i7 CPU");
    assert_eq!(s.ram_total_mib, 16000);
    assert_eq!(s.ram_used_mib, 16000 - 4000);
    assert_eq!(cpu_model(""), "unknown");
    assert_eq!(cpu_model("model name without colon\n"), "unknown");
    assert_eq!(parse_meminfo(""), (0, 0));
    // More available than total saturates at zero used.
    assert_eq!(parse_meminfo("MemTotal: 2048 kB\nMemAvailable: 4096 kB"), (2, 0));
}

#[test]
fn atlas_base_layout_and_keys() {
    let data = atlas_base();
    assert_eq!(data.len(), 176 * 16 * 4);
    // Tile 0 must be fully opaque white.
    for y in 0..16 {
        for x in 0..16 {
            let i = (y * 176 + x) * 4;
            assert_eq!(&data[i..i + 4], &[255, 255, 255, 255]);
        }
    }
    let mut d = data.clone();
    put(&mut d, 120, 3, leaf_key());
    let i = (3 * 176 + 120) * 4;
    assert_eq!(&d[i..i + 4], &[255, 0, 254, 255]);
    assert_eq!(clamp8(-3), 0);
    assert_eq!(clamp8(300), 255);
    assert_eq!(clamp8(77), 77);
}

#[test]
fn texture_stream_is_the_lcg() {
    let mut r = Rng::new(0);
    assert_eq!(r.state, 0x9E37_79B9_7F4A_7C15);
    let expected = 0x9E37_79B9_7F4A_7C15u64
        .wrapping_mul(6364136223846793005)
        .wrapping_add(1442695040888963407);
    assert_eq!(r.next_bits(), expected >> 33);
    assert_eq!(r.state, expected);
}

#[test]
fn flat_chunk_shows_only_top_faces() {
    let w = World::new(5);
    let trees = TreeBlocks::new();
    let heights = vec![10i32; 400];
    let quads = chunk_quads(&w, &trees, &heights, 0, 0);
    assert_eq!(quads.len(), 256);
    for q in &quads {
        assert_eq!(q.y, 9);
        assert_eq!(q.face, 0);
        assert_eq!(q.tile, TILE_GRASS_TOP);
        assert_eq!((q.ao0, q.ao1, q.ao2, q.ao3), (3, 3, 3, 3));
        assert!(!q.flip);
    }
    assert_eq!((quads[0].x, quads[0].z), (0, 0));
    assert_eq!((quads[1].x, quads[1].z), (0, 1));
    assert_eq!((quads[16].x, quads[16].z), (1, 0));
}

#[test]
fn mined_hole_opens_faces_with_occlusion() {
    let mut w = World::new(5);
    assert_eq!(w.mine(5, 19, 5, &[], 20, false), Some(BlockType::Dirt));
    let trees = TreeBlocks::new();
    let heights = vec![20i32; 400];
    let quads = chunk_quads(&w, &trees, &heights, 0, 0);
    // One top face lost, the floor's top face and four walls gained.
    assert_eq!(quads.len(), 260);
    let floor: Vec<&FaceQuad> = quads.iter().filter(|q| (q.x, q.y, q.z) == (5, 18, 5)).collect();
    assert_eq!(floor.len(), 1);
    assert_eq!(floor[0].face, 0);
    assert_eq!((floor[0].ao0, floor[0].ao1, floor[0].ao2, floor[0].ao3), (0, 0, 0, 0));
    // The west wall's +X face: bottom corners closed, top corners open to
    // the sky on one side.
    let wall: Vec<&FaceQuad> = quads.iter().filter(|q| (q.x, q.y, q.z, q.face) == (4, 19, 5, 2)).collect();
    assert_eq!(wall.len(), 1);
    assert_eq!((wall[0].ao0, wall[0].ao1, wall[0].ao2, wall[0].ao3), (0, 2, 2, 0));
    assert!(!wall[0].flip);
}

#[test]
fn move_mode_toggles() {
    assert_eq!(MoveMode::Walk.toggled(), MoveMode::Fly);
    assert_eq!(MoveMode::Fly.toggled(), MoveMode::Walk);
    assert!(MoveMode::Fly.is_flying());
    assert!(!MoveMode::Walk.is_flying());
}

#[test]
fn block_tables() {
    assert_eq!(solid_all().len(), 8);
    assert_eq!(block_material(BlockType::CoalOre), Material::Stone);
    assert_eq!(block_material(BlockType::Leaves), Material::Leaf);
    assert_eq!(face_tiles(BlockType::Grass, 0), TILE_GRASS_TOP);
    assert!(!Block::Solid(BlockType::Water).is_solid());
    assert!(Block::Solid(BlockType::Leaves).is_solid());
    assert!(!Block::Air.is_solid());
    assert_eq!(BlockType::Grass.drop(), BlockType::Dirt);
    assert!(BlockType::Water.is_water());
}

#[test]
fn face_axes_and_chunk_rings() {
    assert_eq!(tangent_axes([0, 0, 1]), (0, 1));
    assert_eq!(tangent_axes([0, -1, 0]), (0, 2));
    assert_eq!(tangent_axes([1, 0, 0]), (1, 2));
    assert_eq!(uv_axes([0, 0, -1]), (0, 1, true));
    assert_eq!(uv_axes([-1, 0, 0]), (2, 1, true));
    assert_eq!(uv_axes([0, 1, 0]), (0, 2, false));
    let ring = chunks_around((3, -2), 1);
    assert_eq!(ring.len(), 9);
    assert_eq!(ring[0], (2, -3));
    assert_eq!(ring[8], (4, -1));
    assert!(chunks_around((0, 0), -1).is_empty());
    assert_eq!(hash_u64(0), 0xE220A8397B1DCDAF);
}

#[test]
fn glyphs_for_text() {
    assert_eq!(glyph_for('1'), [0b010, 0b110, 0b010, 0b010, 0b111]);
    assert_eq!(glyph_for(' '), [0, 0, 0, 0, 0]);
}

#[test]
fn streaming_plans_nearest_first_with_hysteresis() {
    let loaded = vec![(0, 0), (5, 5), (2, 0), (3, -3)];
    let in_flight = vec![(1, 1), (9, 9)];
    let load = chunks_to_load((0, 0), 2, &loaded, &in_flight);
    // 25 chunks in the square, minus loaded (0,0) and (2,0), minus (1,1).
    assert_eq!(load.len(), 22);
    assert!(!load.contains(&(0, 0)) && !load.contains(&(1, 1)) && !load.contains(&(2, 0)));
    let d = |c: &(i32, i32)| c.0 * c.0 + c.1 * c.1;
    assert!(load.windows(2).all(|w| d(&w[0]) <= d(&w[1])));
    assert_eq!(d(&load[0]), 1);
    // Only chunks beyond radius + 1 unload; (3, -3) is in the hysteresis band.
    assert_eq!(chunks_to_unload((0, 0), 2, &loaded), vec![(5, 5)]);
    assert_eq!(chunks_to_unload((0, 0), 1, &loaded), vec![(5, 5), (3, -3)]);
    assert_eq!(wanted_in_flight((0, 0), 2, &in_flight), vec![(1, 1)]);
    assert!(chunks_to_load((0, 0), -1, &[], &[]).is_empty());
}

#[test]
fn hotbar_title_and_placement_guard() {
    let mut inv = Inventory::new();
    inv.inventory[0] = (Some(ItemType::Block(BlockType::Dirt)), 3);
    inv.inventory[2] = (Some(ItemType::Stick), 12);
    assert_eq!(
        inv.hotbar_summary(),
        "1.dirt:3 2.— 3.stick:12 4.— 5.— 6.— 7.— 8.—"
    );
    assert_eq!(inv.selected_name(), "dirt");
    inv.select_slot(1);
    assert_eq!(inv.selected_name(), "empty");
    // Feet in row 10, head reaching row 12: rows 10 and 11 are the body.
    assert!(overlaps_player([4, 10, 7], 4, 7, 10, 12));
    assert!(overlaps_player([4, 11, 7], 4, 7, 10, 12));
    assert!(!overlaps_player([4, 12, 7], 4, 7, 10, 12));
    assert!(!overlaps_player([4, 9, 7], 4, 7, 10, 12));
    assert!(!overlaps_player([5, 10, 7], 4, 7, 10, 12));
}

#[test]
fn hotbar_wheel_round_trip() {
    let mut inv = Inventory::new();
    inv.select_slot(5);
    inv.scroll_hotbar(13);
    assert_eq!(inv.selected, 2);
    inv.scroll_hotbar(-13);
    assert_eq!(inv.selected, 5);
}

#[test]
fn water_column_faces() {
    let water = Block::Solid(BlockType::Water);
    let mut column = vec![water; 11];
    column.push(Block::Air);
    let mut north = vec![Block::Solid(BlockType::Stone); 11];
    north[10] = Block::Air;
    let sides = vec![
        vec![Block::Solid(BlockType::Stone); 11],
        vec![Block::Air; 11],
        vec![water; 11],
        north,
    ];
    let quads = water_column_quads(3, -4, &column, &sides);
    assert_eq!(quads.len(), 13);
    assert_eq!(quads[0], WaterQuad { x: 3, y: 10, z: -4, face: WaterFace::Surface });
    assert_eq!(quads[1].face, WaterFace::West);
    assert_eq!(quads[2].face, WaterFace::North);
    assert_eq!(quads[12], WaterQuad { x: 3, y: 0, z: -4, face: WaterFace::West });
    // The scan stops at the first cell that is not water.
    let mut shallow = column.clone();
    shallow[4] = Block::Solid(BlockType::Dirt);
    assert_eq!(water_column_quads(3, -4, &shallow, &sides).len(), 3 + 5);
    let mut dry = column.clone();
    dry[10] = Block::Air;
    assert!(water_column_quads(3, -4, &dry, &sides).is_empty());
}

#[test]
fn menu_keys_open_and_close_screens() {
    let game = Screens { inv_open: false, settings_open: false, debug_visible: false, dragging_slider: false };
    // ESC in game opens the settings page and frees the mouse...
    let (s1, a1) = key_pressed(game, GameKey::Escape, true);
    assert!(s1.settings_open);
    assert_eq!(a1, vec![ScreenAction::ReleaseCursor]);
    // ...and ESC again quits (the host saves first).
    let (_, a2) = key_pressed(s1, GameKey::Escape, false);
    assert_eq!(a2, vec![ScreenAction::Quit]);
    // O closes the page and captures the mouse again.
    let (s2b, a2b) = key_pressed(s1, GameKey::Settings, false);
    assert_eq!(s2b, game);
    assert_eq!(a2b, vec![ScreenAction::GrabCursor]);
    // E opens the inventory; ESC closes it, returning its stacks.
    let (s3, a3) = key_pressed(game, GameKey::Inventory, true);
    assert!(s3.inv_open);
    assert_eq!(a3, vec![ScreenAction::OpenInventory, ScreenAction::ReleaseCursor]);
    let (s4, a4) = key_pressed(s3, GameKey::Escape, false);
    assert_eq!(s4, game);
    assert_eq!(a4, vec![ScreenAction::CloseInventory, ScreenAction::GrabCursor]);
    // O while dragging a slider closes the page and ends the drag.
    let dragging = Screens { settings_open: true, dragging_slider: true, ..game };
    let (s5, _) = key_pressed(dragging, GameKey::Settings, false);
    assert_eq!(s5, game);
    // F3 flips the debug panel; digits 1..8 select slots 0..7; F retries the grab.
    assert!(key_pressed(game, GameKey::DebugPanel, true).0.debug_visible);
    assert_eq!(key_pressed(game, GameKey::Hotbar(7), true).1, vec![ScreenAction::SelectSlot(7)]);
    assert!(key_pressed(game, GameKey::Hotbar(8), true).1.is_empty());
    assert!(key_pressed(game, GameKey::RetryGrab, true).1.is_empty());
    assert_eq!(key_pressed(game, GameKey::RetryGrab, false).1, vec![ScreenAction::GrabCursor]);
}

#[test]
fn mouse_buttons_by_screen() {
    let game = Screens { inv_open: false, settings_open: false, debug_visible: false, dragging_slider: false };
    let page = Screens { settings_open: true, ..game };
    // Settings page: a press on a slider row starts a drag, release ends it.
    let (s1, a1) = mouse_button(page, MouseButton::Left, true, Some(1), false);
    assert!(s1.dragging_slider);
    assert_eq!(a1, Some(ClickAction::StartDrag(1)));
    let (s2, a2) = mouse_button(s1, MouseButton::Left, false, Some(1), false);
    assert_eq!(s2, page);
    assert_eq!(a2, Some(ClickAction::EndDrag));
    assert_eq!(mouse_button(page, MouseButton::Left, true, Some(3), false).1, Some(ClickAction::ToggleRow(3)));
    assert_eq!(mouse_button(page, MouseButton::Left, true, Some(5), false).1, None);
    assert_eq!(mouse_button(page, MouseButton::Right, true, Some(0), false).1, None);
    // Inventory panel.
    let inv = Screens { inv_open: true, ..game };
    assert_eq!(mouse_button(inv, MouseButton::Left, true, None, false).1, Some(ClickAction::PanelPress));
    assert_eq!(mouse_button(inv, MouseButton::Left, false, None, false).1, Some(ClickAction::PanelRelease));
    assert_eq!(mouse_button(inv, MouseButton::Right, true, None, false).1, Some(ClickAction::PanelRightClick));
    // In game: capture first, then mine and use.
    assert_eq!(mouse_button(game, MouseButton::Left, true, None, false).1, Some(ClickAction::GrabCursor));
    assert_eq!(mouse_button(game, MouseButton::Right, true, None, false).1, None);
    assert_eq!(mouse_button(game, MouseButton::Left, true, None, true).1, Some(ClickAction::MineStart));
    assert_eq!(mouse_button(game, MouseButton::Left, false, None, true).1, Some(ClickAction::MineStop));
    assert_eq!(mouse_button(game, MouseButton::Right, true, None, true).1, Some(ClickAction::UseTarget));
}

#[test]
fn streaming_ties_keep_scan_order() {
    let plan = chunks_to_load((0, 0), 1, &[], &[]);
    assert_eq!(
        plan,
        vec![(0, 0), (-1, 0), (0, -1), (0, 1), (1, 0), (-1, -1), (-1, 1), (1, -1), (1, 1)]
    );
}
