use voxelcraft::block::BlockType;
use voxelcraft::items::{
    craft_recipes, hardness, item_bitmap, matching_recipe, recipe_by_key, recipe_ingredients,
    recipe_ingredients_text, tier_block_reason, tool_speed, CraftRecipe, ItemType,
};

type B = BlockType;

/// Seconds to break `block` holding `held`: the hardness table over the
/// tool speed table, as the game computes it.
fn break_time(block: BlockType, held: Option<ItemType>) -> f32 {
    hardness(block) as f32 / 100.0 / tool_speed(block, held) as f32
}

#[test]
fn tools_speed_up_their_blocks() {
    // Bare hands: stone is slow, wood is medium, dirt fast.
    let (stone, wood, dirt) = (
        break_time(B::Stone, None),
        break_time(B::Log, None),
        break_time(B::Dirt, None),
    );
    assert_eq!(stone, 5.0);
    assert_eq!(wood, 1.6);
    assert_eq!(dirt, 0.4);

    // Wooden pickaxe: 7x on stone, no effect on wood.
    assert!((break_time(B::Stone, Some(ItemType::WoodPickaxe)) - 5.0 / 7.0).abs() < 1e-5);
    assert_eq!(break_time(B::Log, Some(ItemType::WoodPickaxe)), wood);

    // Wooden axe: 5x on wood products, no effect on stone.
    assert!((break_time(B::Log, Some(ItemType::WoodAxe)) - 1.6 / 5.0).abs() < 1e-5);
    assert_eq!(break_time(B::Stone, Some(ItemType::WoodAxe)), stone);
}

#[test]
fn stone_tier_gates_and_speeds() {
    // Stone/coal are impossible bare-handed and with an axe, possible
    // with any pickaxe.
    assert_eq!(tier_block_reason(B::Stone, None).is_some(), true);
    assert_eq!(
        tier_block_reason(B::CoalOre, Some(ItemType::WoodAxe)).is_some(),
        true
    );
    assert_eq!(
        tier_block_reason(B::Stone, Some(ItemType::WoodPickaxe)),
        None
    );
    assert_eq!(
        tier_block_reason(B::CoalOre, Some(ItemType::StonePickaxe)),
        None
    );
    // Dirt/wood remain ungated.
    assert_eq!(tier_block_reason(B::Dirt, None), None);
    // Stone pick mines stone faster than wood pick.
    assert!(
        break_time(B::Stone, Some(ItemType::StonePickaxe))
            < break_time(B::Stone, Some(ItemType::WoodPickaxe))
    );
}

#[test]
fn stone_pickaxe_recipe_matches_in_the_table_grid() {
    let mut grid = [(None, 0); 9];
    let stone = ItemType::Block(B::Stone);
    grid[0] = (Some(stone), 1);
    grid[1] = (Some(stone), 1);
    grid[2] = (Some(stone), 1);
    grid[4] = (Some(ItemType::Stick), 1);
    grid[7] = (Some(ItemType::Stick), 1);
    let r = matching_recipe(&grid, 3, true).unwrap();
    assert_eq!(r.name, "stone pickaxe");
    assert!(r.requires_table);
}

#[test]
fn canonical_recipes_have_expected_ingredients_and_keys() {
    let recipes = craft_recipes();
    let by_key = |key: char| -> CraftRecipe {
        *recipes.iter().find(|recipe| recipe.key == key).unwrap()
    };
    let ingredients = |key: char| recipe_ingredients(&by_key(key));
    assert_eq!(ingredients('c'), vec![(ItemType::Block(B::Log), 1)]);
    assert_eq!(by_key('c').output, (ItemType::Block(B::Planks), 4));
    assert_eq!(ingredients('r'), vec![(ItemType::Block(B::Planks), 2)]);
    assert_eq!(by_key('r').output, (ItemType::Stick, 4));
    assert_eq!(ingredients('b'), vec![(ItemType::Block(B::Planks), 4)]);
    assert_eq!(by_key('b').output, (ItemType::Block(B::CraftingTable), 1));
    assert_eq!(
        ingredients('t'),
        vec![(ItemType::Block(B::Planks), 3), (ItemType::Stick, 2),]
    );
    assert_eq!(ingredients('v'), ingredients('t'));
    assert!(by_key('t').requires_table);
    assert!(by_key('v').requires_table);
    assert_eq!(recipe_ingredients_text(&by_key('t')), "3 PLANKS + 2 STICKS");
}

#[test]
fn shaped_grid_uses_two_by_two_for_the_table_and_three_by_three_for_tools() {
    let mut grid = [(None, 0); 9];
    let planks = ItemType::Block(B::Planks);
    grid[0] = (Some(planks), 1);
    grid[1] = (Some(planks), 1);
    grid[3] = (Some(planks), 1);
    grid[4] = (Some(planks), 1);
    assert_eq!(
        matching_recipe(&grid, 2, false).unwrap().name,
        "crafting table"
    );
    grid = [(None, 0); 9];
    grid[0] = (Some(planks), 1);
    grid[1] = (Some(planks), 1);
    grid[2] = (Some(planks), 1);
    grid[4] = (Some(ItemType::Stick), 1);
    grid[7] = (Some(ItemType::Stick), 1);
    assert_eq!(
        matching_recipe(&grid, 3, true).unwrap().name,
        "wood pickaxe"
    );
    assert!(matching_recipe(&grid, 2, true).is_none());
}

#[test]
fn recipe_lookup_by_key_and_unknown_key() {
    assert_eq!(recipe_by_key('b').unwrap().name, "crafting table");
    assert!(recipe_by_key('z').is_none());
}

#[test]
fn shaped_pattern_may_sit_anywhere_in_the_grid() {
    // One log in the bottom-right cell of the 3x3 table grid still makes
    // planks; a stray second item spoils the match.
    let mut grid = [(None, 0); 9];
    grid[8] = (Some(ItemType::Block(B::Log)), 1);
    assert_eq!(matching_recipe(&grid, 3, true).unwrap().name, "planks");
    grid[0] = (Some(ItemType::Stick), 1);
    assert!(matching_recipe(&grid, 3, true).is_none());
}

#[test]
fn tool_tables_by_block_and_item() {
    assert_eq!(hardness(B::Grass), 45);
    assert_eq!(hardness(B::CoalOre), 650);
    assert_eq!(hardness(B::CraftingTable), 100);
    assert_eq!(tool_speed(B::CoalOre, Some(ItemType::StonePickaxe)), 11);
    assert_eq!(tool_speed(B::Planks, Some(ItemType::WoodAxe)), 5);
    assert_eq!(tool_speed(B::Dirt, Some(ItemType::WoodAxe)), 1);
}

#[test]
fn item_names_and_bitmaps() {
    assert_eq!(ItemType::Stick.name(), "stick");
    assert_eq!(ItemType::Block(B::Log).name(), B::Log.name());
    let pick = item_bitmap(ItemType::WoodPickaxe);
    assert!(pick.iter().any(|row| row.iter().any(|&c| c != 0)));
    // Every non-block item has a visible icon; the stone pickaxe shares the
    // pickaxe shape.
    for t in [ItemType::Stick, ItemType::WoodPickaxe, ItemType::WoodAxe, ItemType::StonePickaxe] {
        let bm = item_bitmap(t);
        assert!(bm.iter().all(|row| row.iter().all(|&c| c <= 1)));
        assert!(bm.iter().any(|row| row.iter().any(|&c| c == 1)));
    }
    assert_eq!(item_bitmap(ItemType::StonePickaxe), pick);
    assert_eq!(
        item_bitmap(ItemType::Stick),
        [[0, 0, 0, 0, 1], [0, 0, 0, 1, 1], [0, 0, 1, 1, 0], [0, 1, 1, 0, 0], [1, 1, 0, 0, 0]]
    );
    assert_eq!(item_bitmap(ItemType::Block(B::Stone)), [[0; 5]; 5]);
}

#[test]
fn empty_recipe_window_has_no_ingredients() {
    let mut r = craft_recipes()[0];
    r.width = 0;
    assert!(recipe_ingredients(&r).is_empty());
    assert_eq!(recipe_ingredients_text(&r), "");
    r.width = 2;
    r.height = 0;
    assert!(recipe_ingredients(&r).is_empty());
}
