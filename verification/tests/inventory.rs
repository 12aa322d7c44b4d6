use voxelcraft::block::{solid_all, BlockType};
use voxelcraft::inventory::{hovered_slot, Inventory, BACKPACK_SLOTS, PANEL_SLOTS};
use voxelcraft::items::{matching_recipe, ItemType};

fn app() -> Inventory {
    Inventory::new()
}

#[test]
fn fills_hotbar_first_then_backpack() {
    let mut a = app();
    let all = solid_all();
    // Distinct types claim the hotbar slots in order...
    for &t in all.iter() {
        assert_eq!(
            a.inv_add(ItemType::Block(t)),
            Some(("h", all.iter().position(|&x| x == t).unwrap()))
        );
    }
    // ...the next new type overflows into backpack slot 0.
    assert_eq!(a.inv_add(ItemType::Stick), Some(("b", 0)));
    assert_eq!(a.backpack[0], (Some(ItemType::Stick), 1));
}

#[test]
fn overflows_to_backpack_then_reuses_freed_hotbar_slot() {
    let mut a = app();
    for &t in solid_all().iter() {
        let _ = a.inv_add(ItemType::Block(t));
    }
    assert_eq!(a.inv_add(ItemType::WoodPickaxe), Some(("b", 0)));
    // Free hotbar slot 3; the next new type must claim it (hotbar before
    // backpack) even though the backpack already has items.
    a.inventory[3] = (None, 0);
    assert_eq!(a.inv_add(ItemType::WoodAxe), Some(("h", 3)));
}

#[test]
fn quick_craft_uses_the_same_shaped_recipe_as_the_panel() {
    let mut a = app();
    a.inventory[0] = (Some(ItemType::Block(BlockType::Log)), 1);
    a.craft('c');
    assert_eq!(a.inventory[0], (Some(ItemType::Block(BlockType::Planks)), 4));

    // Tools are table-only even when the shortcut is pressed directly.
    a.inventory[1] = (Some(ItemType::Block(BlockType::Planks)), 3);
    a.inventory[2] = (Some(ItemType::Stick), 2);
    a.craft('t');
    assert_eq!(a.inventory[1], (Some(ItemType::Block(BlockType::Planks)), 3));
    assert_eq!(a.inventory[2], (Some(ItemType::Stick), 2));

    a.open_inventory(3);
    a.craft('t');
    assert_eq!(a.inventory[0], (Some(ItemType::Block(BlockType::Planks)), 1));
    assert_eq!(a.inventory[1], (Some(ItemType::Block(BlockType::Planks)), 3));
    assert_eq!(a.inventory[2], (Some(ItemType::WoodPickaxe), 1));
}

#[test]
fn closing_inventory_returns_grid_items() {
    let mut a = app();
    a.open_inventory(2);
    a.craft_grid[0] = (Some(ItemType::Block(BlockType::Log)), 3);
    a.craft_grid[1] = (Some(ItemType::Stick), 2);
    a.close_inventory();
    assert!(a.craft_grid.iter().all(|slot| slot.0.is_none() && slot.1 == 0));
    assert_eq!(a.inventory[0], (Some(ItemType::Block(BlockType::Log)), 3));
    assert_eq!(a.inventory[1], (Some(ItemType::Stick), 2));
    assert!(!a.inv_open);
    assert_eq!(a.craft_size, 2);
}

#[test]
fn two_by_two_grid_bottom_right_cell_is_clickable_and_crafts_table() {
    let mut a = app();
    a.open_inventory(2);
    a.backpack[0] = (Some(ItemType::Block(BlockType::Planks)), 4);
    a.inv_slot_click(0); // pick up 4 planks
    for cell in [0usize, 1, 3, 4] {
        a.craft_slot_right_click(cell); // drop one per cell
    }
    assert_eq!(a.craft_grid[0], (Some(ItemType::Block(BlockType::Planks)), 1));
    assert_eq!(a.craft_grid[1], (Some(ItemType::Block(BlockType::Planks)), 1));
    assert_eq!(a.craft_grid[3], (Some(ItemType::Block(BlockType::Planks)), 1));
    assert_eq!(a.craft_grid[4], (Some(ItemType::Block(BlockType::Planks)), 1));
    // The matcher must see the table pattern in the 2x2 grid...
    let recipe = matching_recipe(&a.craft_grid, 2, false)
        .expect("2x2 planks square must match crafting table");
    assert_eq!(recipe.name, "crafting table");
    // ...and clicking the output must produce it.
    a.craft_grid_output();
    assert_eq!(
        a.inventory
            .iter()
            .chain(a.backpack.iter())
            .find(|s| s.0 == Some(ItemType::Block(BlockType::CraftingTable)))
            .map(|s| s.1),
        Some(1)
    );
}

#[test]
fn click_pickup_place_swap() {
    let mut a = app();
    a.backpack[2] = (Some(ItemType::Block(BlockType::Log)), 5);
    a.inv_slot_click(2); // pick up
    assert!(a.backpack[2].0.is_none());
    assert_eq!(a.inv_held, Some(ItemType::Block(BlockType::Log)));
    assert_eq!(a.inv_held_count, 5);
    a.inv_slot_click(BACKPACK_SLOTS + 4); // place in hotbar slot 4
    assert_eq!(a.inventory[4], (Some(ItemType::Block(BlockType::Log)), 5));
    assert!(a.inv_held.is_none());
    // Swap: put stone over the log.
    a.inventory[0] = (Some(ItemType::Block(BlockType::Stone)), 2);
    a.inv_slot_click(BACKPACK_SLOTS + 0); // pick stone up
    a.inv_slot_click(BACKPACK_SLOTS + 4); // swap onto log
    assert_eq!(a.inventory[4], (Some(ItemType::Block(BlockType::Stone)), 2));
    assert_eq!(a.inv_held, Some(ItemType::Block(BlockType::Log)));
    assert_eq!(a.inv_held_count, 5);
}

#[test]
fn stacks_merge_and_selection_wraps() {
    let mut a = app();
    assert_eq!(a.inv_add_n(ItemType::Stick, 3), Some(("h", 0)));
    assert_eq!(a.inv_add_n(ItemType::Stick, 2), Some(("h", 0)));
    assert_eq!(a.inventory[0], (Some(ItemType::Stick), 5));
    a.inventory[1] = (Some(ItemType::Block(BlockType::Dirt)), 2);
    a.select_slot(1);
    assert_eq!(a.selected_block(), Some(BlockType::Dirt));
    a.take_one_selected();
    a.take_one_selected();
    assert_eq!(a.inventory[1], (None, 0));
    a.scroll_hotbar(-2);
    assert_eq!(a.selected, 7);
    a.scroll_hotbar(9);
    assert_eq!(a.selected, 0);
}

#[test]
fn right_click_splits_and_consumes() {
    let mut a = app();
    a.inventory[0] = (Some(ItemType::Block(BlockType::Planks)), 6);
    a.consume_inventory_item(ItemType::Block(BlockType::Planks), 4);
    assert_eq!(a.inventory[0], (Some(ItemType::Block(BlockType::Planks)), 2));
    a.inv_slot_right_click(BACKPACK_SLOTS);
    assert_eq!(a.inv_held, Some(ItemType::Block(BlockType::Planks)));
    assert_eq!(a.inv_held_count, 1);
    assert_eq!(a.inventory[0], (Some(ItemType::Block(BlockType::Planks)), 1));
    assert!(a.stash_back(ItemType::Stick, 2));
}

#[test]
fn drag_moves_a_stack_between_slots() {
    let mut a = app();
    a.inventory[0] = (Some(ItemType::Stick), 5);
    a.inv_open = true;
    // Press on hotbar slot 0 (panel index 18), release over backpack 2.
    let origin = hovered_slot(Some(BACKPACK_SLOTS), None);
    let target = hovered_slot(Some(2), None);
    a.drag_release(origin, target, false);
    assert_eq!(a.inventory[0], (None, 0));
    assert_eq!(a.backpack[2], (Some(ItemType::Stick), 5));
    assert_eq!(a.inv_held, None);
}

#[test]
fn drag_onto_the_same_slot_picks_it_up() {
    let mut a = app();
    a.backpack[4] = (Some(ItemType::Stick), 3);
    a.drag_release(Some(4), Some(4), false);
    assert_eq!(a.backpack[4], (None, 0));
    assert_eq!((a.inv_held, a.inv_held_count), (Some(ItemType::Stick), 3));
}

#[test]
fn drag_into_the_crafting_grid_and_release_outside_stashes() {
    let mut a = app();
    a.inventory[1] = (Some(ItemType::Stick), 2);
    // Craft cell 0 is index PANEL_SLOTS.
    assert_eq!(hovered_slot(None, Some(0)), Some(PANEL_SLOTS));
    assert_eq!(hovered_slot(None, None), None);
    a.drag_release(Some(BACKPACK_SLOTS + 1), Some(PANEL_SLOTS), false);
    assert_eq!(a.craft_grid[0], (Some(ItemType::Stick), 2));
    // Pick it up again and let go over nothing: it returns to a slot.
    a.drag_release(Some(PANEL_SLOTS), None, false);
    assert_eq!(a.inv_held, Some(ItemType::Stick));
    a.drag_release(None, None, false);
    assert_eq!(a.inv_held, None);
    assert_eq!(a.inv_held_count, 0);
    assert_eq!(a.inventory[0], (Some(ItemType::Stick), 2));
}

#[test]
fn inactive_grid_cell_ignores_a_drag() {
    let mut a = app();
    a.inventory[0] = (Some(ItemType::Stick), 1);
    // Cell 2 is outside the 2x2 grid.
    a.drag_release(Some(BACKPACK_SLOTS), Some(PANEL_SLOTS + 2), false);
    assert_eq!(a.craft_grid[2], (None, 0));
    assert_eq!((a.inv_held, a.inv_held_count), (Some(ItemType::Stick), 1));
}
