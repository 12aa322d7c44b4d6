//! Items (what a hotbar slot can hold), the pickaxe tier gate, the shaped
//! crafting recipes and the grid matcher.
use vstd::prelude::*;

use crate::block::{BlockType, spec_block_name};
use crate::text::{chars_to_string, decimal, push_decimal, push_upper, upper};

verus! {

/// One slot's content kind: a block or a non-placeable item.
#[derive(Clone, Copy, PartialEq, Eq, Debug, Hash, Structural)]
pub enum ItemType {
    Block(BlockType),
    Stick,
    WoodPickaxe,
    WoodAxe,
    StonePickaxe,
}

pub open spec fn spec_item_name(i: ItemType) -> Seq<char> {
    match i {
        ItemType::Block(t) => spec_block_name(t),
        ItemType::Stick => "stick"@,
        ItemType::WoodPickaxe => "wood pick"@,
        ItemType::WoodAxe => "wood axe"@,
        ItemType::StonePickaxe => "stone pick"@,
    }
}

impl ItemType {
    pub fn name(self) -> (r: &'static str)
        ensures
            r@ == spec_item_name(self),
    {
        match self {
            ItemType::Block(t) => t.name(),
            ItemType::Stick => "stick",
            ItemType::WoodPickaxe => "wood pick",
            ItemType::WoodAxe => "wood axe",
            ItemType::StonePickaxe => "stone pick",
        }
    }
}

/// Equality of optional items, decided field by field.
pub fn same_item(a: Option<ItemType>, b: Option<ItemType>) -> (r: bool)
    ensures
        r == (a == b),
{
    match (a, b) {
        (None, None) => true,
        (Some(x), Some(y)) => x == y,
        _ => false,
    }
}

/// True when breaking `block` needs a pickaxe that `held` is not.
pub open spec fn spec_tier_blocked(block: BlockType, held: Option<ItemType>) -> bool {
    (block == BlockType::Stone || block == BlockType::CoalOre) && !(held == Some(
        ItemType::WoodPickaxe,
    ) || held == Some(ItemType::StonePickaxe))
}

/// Mining-tier gate: `None` means anything breaks the block; `Some(msg)`
/// means it needs a pickaxe and bare hands or axes produce nothing.
pub fn tier_block_reason(block: BlockType, held: Option<ItemType>) -> (r: Option<&'static str>)
    ensures
        r is Some <==> spec_tier_blocked(block, held),
        r matches Some(msg) ==> msg@ == "needs a pickaxe"@,
{
    let needs_pick = match block {
        BlockType::Stone | BlockType::CoalOre => true,
        _ => false,
    };
    if !needs_pick {
        return None;
    }
    match held {
        Some(ItemType::WoodPickaxe) | Some(ItemType::StonePickaxe) => None,
        _ => Some("needs a pickaxe"),
    }
}

/// A shaped recipe for the crafting grid. `pattern` is a 3x3 row-major
/// template of which only the top-left `width x height` cells are used; the
/// pattern may sit anywhere in the active grid, every other cell empty.
#[derive(Clone, Copy, Debug)]
pub struct CraftRecipe {
    pub name: &'static str,
    pub width: usize,
    pub height: usize,
    pub pattern: [Option<ItemType>; 9],
    pub output: (ItemType, u32),
    pub key: char,
    pub requires_table: bool,
}

/// Number of shaped recipes.
pub const RECIPE_COUNT: usize = 6;

pub open spec fn planks_item() -> Option<ItemType> {
    Some(ItemType::Block(BlockType::Planks))
}

/// The recipe table, in matching priority order: the pattern, size, output,
/// quick-craft key and table requirement of each recipe.
pub open spec fn spec_recipe(i: int) -> (Seq<Option<ItemType>>, usize, usize, (ItemType, u32), char, bool) {
    let p = planks_item();
    let st = Some(ItemType::Stick);
    let stone = Some(ItemType::Block(BlockType::Stone));
    if i == 0 {
        (seq![Some(ItemType::Block(BlockType::Log)), None, None, None, None, None, None, None, None],
         1, 1, (ItemType::Block(BlockType::Planks), 4), 'c', false)
    } else if i == 1 {
        (seq![p, None, None, p, None, None, None, None, None],
         1, 2, (ItemType::Stick, 4), 'r', false)
    } else if i == 2 {
        (seq![p, p, None, p, p, None, None, None, None],
         2, 2, (ItemType::Block(BlockType::CraftingTable), 1), 'b', false)
    } else if i == 3 {
        (seq![p, p, p, None, st, None, None, st, None],
         3, 3, (ItemType::WoodPickaxe, 1), 't', true)
    } else if i == 4 {
        (seq![p, p, None, p, st, None, None, st, None],
         3, 3, (ItemType::WoodAxe, 1), 'v', true)
    } else {
        (seq![stone, stone, stone, None, st, None, None, st, None],
         3, 3, (ItemType::StonePickaxe, 1), 's', true)
    }
}

pub open spec fn spec_recipe_name(i: int) -> Seq<char> {
    if i == 0 {
        "planks"@
    } else if i == 1 {
        "sticks"@
    } else if i == 2 {
        "crafting table"@
    } else if i == 3 {
        "wood pickaxe"@
    } else if i == 4 {
        "wood axe"@
    } else {
        "stone pickaxe"@
    }
}

/// `r` is recipe number `i` of the table.
pub open spec fn is_recipe(r: CraftRecipe, i: int) -> bool {
    let (pattern, w, h, out, key, table) = spec_recipe(i);
    &&& 0 <= i < RECIPE_COUNT
    &&& r.name@ == spec_recipe_name(i)
    &&& r.pattern@ == pattern
    &&& r.width == w
    &&& r.height == h
    &&& r.output == out
    &&& r.key == key
    &&& r.requires_table == table
}

/// A recipe's shape: width/height in 1..=3 and nothing outside its box.
pub open spec fn recipe_shape_ok(r: CraftRecipe) -> bool {
    1 <= r.width <= 3 && 1 <= r.height <= 3
}

/// The pattern window lies inside the 3x3 pattern (an empty window, of
/// width or height 0, holds no cells).
pub open spec fn recipe_fits_grid(r: CraftRecipe) -> bool {
    r.width <= 3 && r.height <= 3
}

/// Recipe number `i` of the table (in priority order).
pub fn recipe(i: usize) -> (r: CraftRecipe)
    requires
        i < RECIPE_COUNT,
    ensures
        is_recipe(r, i as int),
        recipe_shape_ok(r),
{
    let log = Some(ItemType::Block(BlockType::Log));
    let p = Some(ItemType::Block(BlockType::Planks));
    let st = Some(ItemType::Stick);
    let stone = Some(ItemType::Block(BlockType::Stone));
    let r = if i == 0 {
        CraftRecipe {
            name: "planks",
            width: 1,
            height: 1,
            pattern: [log, None, None, None, None, None, None, None, None],
            output: (ItemType::Block(BlockType::Planks), 4),
            key: 'c',
            requires_table: false,
        }
    } else if i == 1 {
        CraftRecipe {
            name: "sticks",
            width: 1,
            height: 2,
            pattern: [p, None, None, p, None, None, None, None, None],
            output: (ItemType::Stick, 4),
            key: 'r',
            requires_table: false,
        }
    } else if i == 2 {
        CraftRecipe {
            name: "crafting table",
            width: 2,
            height: 2,
            pattern: [p, p, None, p, p, None, None, None, None],
            output: (ItemType::Block(BlockType::CraftingTable), 1),
            key: 'b',
            requires_table: false,
        }
    } else if i == 3 {
        CraftRecipe {
            name: "wood pickaxe",
            width: 3,
            height: 3,
            pattern: [p, p, p, None, st, None, None, st, None],
            output: (ItemType::WoodPickaxe, 1),
            key: 't',
            requires_table: true,
        }
    } else if i == 4 {
        CraftRecipe {
            name: "wood axe",
            width: 3,
            height: 3,
            pattern: [p, p, None, p, st, None, None, st, None],
            output: (ItemType::WoodAxe, 1),
            key: 'v',
            requires_table: true,
        }
    } else {
        CraftRecipe {
            name: "stone pickaxe",
            width: 3,
            height: 3,
            pattern: [stone, stone, stone, None, st, None, None, st, None],
            output: (ItemType::StonePickaxe, 1),
            key: 's',
            requires_table: true,
        }
    };
    assert(r.pattern@ =~= spec_recipe(i as int).0);
    r
}

/// The whole recipe table, in priority order.
pub fn craft_recipes() -> (r: Vec<CraftRecipe>)
    ensures
        r.len() == RECIPE_COUNT,
        forall|i: int| 0 <= i < RECIPE_COUNT ==> is_recipe(#[trigger] r[i], i),
{
    let mut v: Vec<CraftRecipe> = Vec::new();
    let mut i: usize = 0;
    while i < RECIPE_COUNT
        invariant
            i <= RECIPE_COUNT,
            v.len() == i,
            forall|j: int| 0 <= j < i ==> is_recipe(#[trigger] v[j], j),
        decreases RECIPE_COUNT - i,
    {
        v.push(recipe(i));
        i = i + 1;
    }
    v
}

/// What cell (x, y) of the grid must hold when a `w x h` pattern sits with
/// its top-left corner at (ox, oy): the pattern cell inside the box, empty
/// outside it.
pub open spec fn expected_cell(pattern: Seq<Option<ItemType>>, w: int, h: int, ox: int, oy: int, x: int, y: int) -> Option<ItemType> {
    if ox <= x < ox + w && oy <= y < oy + h {
        pattern[(y - oy) * 3 + (x - ox)]
    } else {
        None
    }
}

/// Every cell of the active `size x size` grid holds exactly what the
/// pattern placed at (ox, oy) asks for.
pub open spec fn fits_at(pattern: Seq<Option<ItemType>>, w: int, h: int, grid: Seq<(Option<ItemType>, u32)>, size: int, ox: int, oy: int) -> bool {
    forall|x: int, y: int|
        0 <= x < size && 0 <= y < size ==> #[trigger] grid[y * 3 + x].0 == expected_cell(pattern, w, h, ox, oy, x, y)
}

/// A pattern matches the grid when the table requirement is met, it fits the
/// active size, and some placement of it accounts for every cell.
pub open spec fn pattern_matches(pattern: Seq<Option<ItemType>>, w: int, h: int, needs_table: bool, grid: Seq<(Option<ItemType>, u32)>, size: int, table: bool) -> bool {
    &&& !(needs_table && !table)
    &&& w <= size && h <= size
    &&& exists|ox: int, oy: int|
        0 <= ox <= size - w && 0 <= oy <= size - h && #[trigger] fits_at(pattern, w, h, grid, size, ox, oy)
}

pub open spec fn recipe_matches(r: CraftRecipe, grid: Seq<(Option<ItemType>, u32)>, size: int, table: bool) -> bool {
    pattern_matches(r.pattern@, r.width as int, r.height as int, r.requires_table, grid, size, table)
}

/// Recipe number `i` of the table matches the grid.
pub open spec fn recipe_index_matches(i: int, grid: Seq<(Option<ItemType>, u32)>, size: int, table: bool) -> bool {
    let (pattern, w, h, _out, _key, needs_table) = spec_recipe(i);
    pattern_matches(pattern, w as int, h as int, needs_table, grid, size, table)
}

/// The active grid side: `size` clamped to 2..=3.
pub open spec fn grid_side(size: usize) -> int {
    if size < 2 {
        2
    } else if size > 3 {
        3
    } else {
        size as int
    }
}

/// Does the pattern placed at (ox, oy) account for every active cell?
fn fits_at_exec(r: &CraftRecipe, grid: &[(Option<ItemType>, u32); 9], size: usize, ox: usize, oy: usize) -> (b: bool)
    requires
        2 <= size <= 3,
        recipe_shape_ok(*r),
        ox + r.width <= size,
        oy + r.height <= size,
    ensures
        b == fits_at(r.pattern@, r.width as int, r.height as int, grid@, size as int, ox as int, oy as int),
{
    let ghost pat = r.pattern@;
    let ghost (w, h) = (r.width as int, r.height as int);
    let mut y: usize = 0;
    while y < size
        invariant
            y <= size,
            2 <= size <= 3,
            recipe_shape_ok(*r),
            ox + r.width <= size,
            oy + r.height <= size,
            pat == r.pattern@,
            w == r.width,
            h == r.height,
            forall|xx: int, yy: int|
                0 <= xx < size && 0 <= yy < y ==> #[trigger] grid@[yy * 3 + xx].0 == expected_cell(pat, w, h, ox as int, oy as int, xx, yy),
        decreases size - y,
    {
        let mut x: usize = 0;
        while x < size
            invariant
                x <= size,
                y < size,
                2 <= size <= 3,
                recipe_shape_ok(*r),
                ox + r.width <= size,
                oy + r.height <= size,
                pat == r.pattern@,
                w == r.width,
                h == r.height,
                forall|xx: int, yy: int|
                    0 <= xx < size && 0 <= yy < y ==> #[trigger] grid@[yy * 3 + xx].0 == expected_cell(pat, w, h, ox as int, oy as int, xx, yy),
                forall|xx: int|
                    0 <= xx < x ==> #[trigger] grid@[y * 3 + xx].0 == expected_cell(pat, w, h, ox as int, oy as int, xx, y as int),
            decreases size - x,
        {
            let expected = if x >= ox && x < ox + r.width && y >= oy && y < oy + r.height {
                r.pattern[(y - oy) * 3 + (x - ox)]
            } else {
                None
            };
            let actual = grid[y * 3 + x].0;
            if !same_item(expected, actual) {
                assert(grid@[y * 3 + x].0 != expected_cell(pat, w, h, ox as int, oy as int, x as int, y as int));
                return false;
            }
            x = x + 1;
        }
        y = y + 1;
    }
    true
}

/// Does recipe `r` match the grid anywhere?
fn recipe_fits(r: &CraftRecipe, grid: &[(Option<ItemType>, u32); 9], size: usize, table_available: bool) -> (b: bool)
    requires
        2 <= size <= 3,
        recipe_shape_ok(*r),
    ensures
        b == recipe_matches(*r, grid@, size as int, table_available),
{
    if r.requires_table && !table_available {
        return false;
    }
    if r.width > size || r.height > size {
        return false;
    }
    let mut oy: usize = 0;
    while oy <= size - r.height
        invariant
            2 <= size <= 3,
            recipe_shape_ok(*r),
            r.width <= size,
            r.height <= size,
            !(r.requires_table && !table_available),
            oy <= size - r.height + 1,
            forall|ox: int, y0: int|
                0 <= ox <= size - r.width && 0 <= y0 < oy ==> !#[trigger] fits_at(
                    r.pattern@, r.width as int, r.height as int, grid@, size as int, ox, y0),
        decreases size - r.height + 1 - oy,
    {
        let mut ox: usize = 0;
        while ox <= size - r.width
            invariant
                2 <= size <= 3,
                recipe_shape_ok(*r),
                r.width <= size,
                r.height <= size,
                !(r.requires_table && !table_available),
                oy <= size - r.height,
                ox <= size - r.width + 1,
                forall|x0: int, y0: int|
                    0 <= x0 <= size - r.width && 0 <= y0 < oy ==> !#[trigger] fits_at(
                        r.pattern@, r.width as int, r.height as int, grid@, size as int, x0, y0),
                forall|x0: int|
                    0 <= x0 < ox ==> !#[trigger] fits_at(
                        r.pattern@, r.width as int, r.height as int, grid@, size as int, x0, oy as int),
            decreases size - r.width + 1 - ox,
        {
            if fits_at_exec(r, grid, size, ox, oy) {
                assert(0 <= ox <= size - r.width && 0 <= oy <= size - r.height);
                assert(fits_at(r.pattern@, r.width as int, r.height as int, grid@, size as int, ox as int, oy as int));
                return true;
            }
            ox = ox + 1;
        }
        oy = oy + 1;
    }
    false
}

/// The first recipe (in table order) that matches the active grid, if any.
/// `size` is clamped to 2..=3; tool recipes also need `table_available`.
pub fn matching_recipe(grid: &[(Option<ItemType>, u32); 9], size: usize, table_available: bool) -> (r: Option<CraftRecipe>)
    ensures
        r is Some <==> exists|i: int| 0 <= i < RECIPE_COUNT && #[trigger] recipe_index_matches(i, grid@, grid_side(size), table_available),
        r matches Some(rec) ==> exists|i: int| {
            &&& is_recipe(rec, i)
            &&& #[trigger] recipe_index_matches(i, grid@, grid_side(size), table_available)
            &&& forall|j: int| 0 <= j < i ==> !recipe_index_matches(j, grid@, grid_side(size), table_available)
        },
{
    let side: usize = if size < 2 {
        2
    } else if size > 3 {
        3
    } else {
        size
    };
    let mut i: usize = 0;
    while i < RECIPE_COUNT
        invariant
            i <= RECIPE_COUNT,
            side as int == grid_side(size),
            forall|j: int| 0 <= j < i ==> !#[trigger] recipe_index_matches(j, grid@, side as int, table_available),
        decreases RECIPE_COUNT - i,
    {
        let rec = recipe(i);
        if recipe_fits(&rec, grid, side, table_available) {
            assert(recipe_index_matches(i as int, grid@, side as int, table_available));
            return Some(rec);
        }
        assert(!recipe_index_matches(i as int, grid@, side as int, table_available));
        i = i + 1;
    }
    None
}

/// How many times `it` occurs in `s`.
pub open spec fn count_item(s: Seq<ItemType>, it: ItemType) -> nat
    decreases s.len(),
{
    if s.len() == 0 {
        0
    } else {
        count_item(s.drop_last(), it) + if s.last() == it {
            1nat
        } else {
            0nat
        }
    }
}

/// The distinct items of `s`, in order of first occurrence.
pub open spec fn distinct_items(s: Seq<ItemType>) -> Seq<ItemType>
    decreases s.len(),
{
    if s.len() == 0 {
        seq![]
    } else {
        let d = distinct_items(s.drop_last());
        if d.contains(s.last()) {
            d
        } else {
            d.push(s.last())
        }
    }
}

/// Items in row `y` of a pattern, columns `0..x`, left to right.
pub open spec fn row_items(pattern: Seq<Option<ItemType>>, y: int, x: int) -> Seq<ItemType>
    decreases x,
{
    if x <= 0 {
        seq![]
    } else {
        let prev = row_items(pattern, y, x - 1);
        match pattern[y * 3 + x - 1] {
            Some(i) => prev.push(i),
            None => prev,
        }
    }
}

/// Items in rows `0..y` (each `w` cells wide), row-major.
pub open spec fn rows_items(pattern: Seq<Option<ItemType>>, w: int, y: int) -> Seq<ItemType>
    decreases y,
{
    if y <= 0 {
        seq![]
    } else {
        rows_items(pattern, w, y - 1) + row_items(pattern, y - 1, w)
    }
}

/// Every item a recipe's `width x height` box holds, row-major.
pub open spec fn recipe_items(r: CraftRecipe) -> Seq<ItemType> {
    rows_items(r.pattern@, r.width as int, r.height as int)
}

/// Ingredient stacks of a recipe: each distinct item (in first-seen
/// order) with the number of cells holding it.
pub open spec fn spec_ingredients(r: CraftRecipe) -> Seq<(ItemType, nat)> {
    let s = recipe_items(r);
    distinct_items(s).map_values(|it: ItemType| (it, count_item(s, it)))
}

proof fn lemma_count_push(s: Seq<ItemType>, x: ItemType, it: ItemType)
    ensures
        count_item(s.push(x), it) == count_item(s, it) + if x == it {
            1nat
        } else {
            0nat
        },
{
    assert(s.push(x).drop_last() =~= s);
}

proof fn lemma_count_le_len(s: Seq<ItemType>, it: ItemType)
    ensures
        count_item(s, it) <= s.len(),
    decreases s.len(),
{
    if s.len() > 0 {
        lemma_count_le_len(s.drop_last(), it);
    }
}

proof fn lemma_absent_count_zero(s: Seq<ItemType>, it: ItemType)
    requires
        !distinct_items(s).contains(it),
    ensures
        count_item(s, it) == 0,
    decreases s.len(),
{
    if s.len() > 0 {
        let d = distinct_items(s.drop_last());
        if !d.contains(s.last()) {
            assert(d.push(s.last())[d.len() as int] == s.last());
            if d.contains(it) {
                let k = choose|k: int| 0 <= k < d.len() && d[k] == it;
                assert(d.push(s.last())[k] == it);
            }
        }
        lemma_absent_count_zero(s.drop_last(), it);
    }
}

proof fn lemma_distinct_no_dup(s: Seq<ItemType>)
    ensures
        distinct_items(s).no_duplicates(),
    decreases s.len(),
{
    if s.len() > 0 {
        lemma_distinct_no_dup(s.drop_last());
    }
}

/// Ingredient stacks of a recipe, duplicate items merged: each distinct
/// item of the pattern, in the order first met scanning rows top to
/// bottom, with the number of cells that hold it.
pub fn recipe_ingredients(recipe: &CraftRecipe) -> (r: Vec<(ItemType, u32)>)
    requires
        recipe_fits_grid(*recipe),
    ensures
        r.len() == spec_ingredients(*recipe).len(),
        forall|i: int|
            0 <= i < r.len() ==> (#[trigger] r[i]).0 == spec_ingredients(*recipe)[i].0
                && r[i].1 == spec_ingredients(*recipe)[i].1,
{
    let ghost pat = recipe.pattern@;
    let ghost w = recipe.width as int;
    let mut ingredients: Vec<(ItemType, u32)> = Vec::new();
    let ghost mut seen: Seq<ItemType> = seq![];
    let mut y: usize = 0;
    while y < recipe.height
        invariant
            recipe_fits_grid(*recipe),
            pat == recipe.pattern@,
            w == recipe.width,
            y <= recipe.height,
            seen == rows_items(pat, w, y as int),
            seen.len() <= y * w,
            ingredients.len() == distinct_items(seen).len(),
            forall|i: int|
                0 <= i < ingredients.len() ==> (#[trigger] ingredients[i]).0 == distinct_items(seen)[i]
                    && ingredients[i].1 == count_item(seen, ingredients[i].0),
        decreases recipe.height - y,
    {
        let mut x: usize = 0;
        while x < recipe.width
            invariant
                recipe_fits_grid(*recipe),
                pat == recipe.pattern@,
                w == recipe.width,
                y < recipe.height,
                x <= recipe.width,
                seen == rows_items(pat, w, y as int) + row_items(pat, y as int, x as int),
                seen.len() <= y * w + x,
                ingredients.len() == distinct_items(seen).len(),
                forall|i: int|
                    0 <= i < ingredients.len() ==> (#[trigger] ingredients[i]).0 == distinct_items(seen)[i]
                        && ingredients[i].1 == count_item(seen, ingredients[i].0),
            decreases recipe.width - x,
        {
            assert(y * w + x < 9) by (nonlinear_arith)
                requires
                    y < recipe.height,
                    recipe.height <= 3,
                    x < w,
                    w <= 3,
            ;
            match recipe.pattern[y * 3 + x] {
                None => {
                    proof {
                        assert(row_items(pat, y as int, x + 1) == row_items(pat, y as int, x as int));
                    }
                },
                Some(item) => {
                    let ghost old_seen = seen;
                    proof {
                        seen = seen.push(item);
                        assert(row_items(pat, y as int, x + 1) == row_items(pat, y as int, x as int).push(item));
                        assert(seen =~= rows_items(pat, w, y as int) + row_items(pat, y as int, x + 1));
                        assert(seen.drop_last() =~= old_seen);
                        lemma_count_le_len(old_seen, item);
                        lemma_distinct_no_dup(old_seen);
                    }
                    let mut k: usize = 0;
                    while k < ingredients.len() && ingredients[k].0 != item
                        invariant
                            k <= ingredients.len(),
                            forall|j: int| 0 <= j < k ==> (#[trigger] ingredients[j]).0 != item,
                        decreases ingredients.len() - k,
                    {
                        k = k + 1;
                    }
                    let found = k < ingredients.len();
                    if found {
                        let ghost old_ing = ingredients@;
                        assert(distinct_items(old_seen)[k as int] == item);
                        assert(distinct_items(old_seen).contains(item));
                        assert(distinct_items(seen) == distinct_items(old_seen));
                        let c = ingredients[k].1;
                        ingredients.set(k, (item, c + 1));
                        proof {
                            assert forall|i: int| 0 <= i < ingredients.len() implies (#[trigger] ingredients[i]).0
                                == distinct_items(seen)[i] && ingredients[i].1 == count_item(seen, ingredients[i].0) by {
                                lemma_count_push(old_seen, item, ingredients[i].0);
                                if i != k {
                                    assert(old_ing[i] == ingredients[i]);
                                    assert(distinct_items(old_seen)[i] != distinct_items(old_seen)[k as int]);
                                }
                            }
                        }
                    } else {
                        let ghost old_ing = ingredients@;
                        assert(!distinct_items(old_seen).contains(item)) by {
                            if distinct_items(old_seen).contains(item) {
                                let j = choose|j: int| 0 <= j < distinct_items(old_seen).len() && distinct_items(old_seen)[j] == item;
                                assert(ingredients[j].0 == item);
                            }
                        }
                        proof { lemma_absent_count_zero(old_seen, item); }
                        assert(distinct_items(seen) == distinct_items(old_seen).push(item));
                        ingredients.push((item, 1));
                        proof {
                            assert forall|i: int| 0 <= i < ingredients.len() implies (#[trigger] ingredients[i]).0
                                == distinct_items(seen)[i] && ingredients[i].1 == count_item(seen, ingredients[i].0) by {
                                lemma_count_push(old_seen, item, ingredients[i].0);
                                if i < old_ing.len() {
                                    assert(old_ing[i] == ingredients[i]);
                                }
                            }
                        }
                    }
                },
            }
            x = x + 1;
        }
        proof {
            assert(rows_items(pat, w, y + 1) == rows_items(pat, w, y as int) + row_items(pat, y as int, w));
        }
        assert((y + 1) * w == y * w + w) by (nonlinear_arith);
        y = y + 1;
    }
    ingredients
}

/// Label of one ingredient stack: `"<n> <NAME>"`, the name upper-cased and
/// pluralised with a trailing 'S' when `n != 1` and it does not already end
/// in 'S'.
pub open spec fn stack_label(it: ItemType, n: nat) -> Seq<char> {
    let name = upper(spec_item_name(it));
    let name = if n != 1 && !(name.len() > 0 && name.last() == 'S') {
        name.push('S')
    } else {
        name
    };
    decimal(n) + seq![' '] + name
}

/// Parts joined with `" + "`.
pub open spec fn join_plus(parts: Seq<Seq<char>>) -> Seq<char>
    decreases parts.len(),
{
    if parts.len() == 0 {
        seq![]
    } else if parts.len() == 1 {
        parts[0]
    } else {
        join_plus(parts.drop_last()) + seq![' ', '+', ' '] + parts.last()
    }
}

pub open spec fn spec_ingredients_text(r: CraftRecipe) -> Seq<char> {
    join_plus(spec_ingredients(r).map_values(|p: (ItemType, nat)| stack_label(p.0, p.1)))
}

/// Append the label of one ingredient stack to `out`.
fn push_stack_label(out: &mut Vec<char>, item: ItemType, count: u32)
    ensures
        final(out)@ == old(out)@ + stack_label(item, count as nat),
{
    let ghost mid = out@;
    push_decimal(out, count as u64);
    out.push(' ');
    let start = out.len();
    push_upper(out, item.name());
    let ghost nm = upper(spec_item_name(item));
    assert(out@ == mid + decimal(count as nat) + seq![' '] + nm);
    proof {
        assert(start == (mid + decimal(count as nat) + seq![' ']).len());
        assert(out.len() > start <==> nm.len() > 0);
        if nm.len() > 0 {
            assert(out@[out.len() - 1] == nm.last());
        }
    }
    if count != 1 && !(out.len() > start && out[out.len() - 1] == 'S') {
        out.push('S');
    }
    assert(final(out)@ =~= mid + stack_label(item, count as nat));
}

/// Compact ingredient text for a recipe list, e.g. `"3 PLANKS + 2 STICKS"`.
pub fn recipe_ingredients_text(recipe: &CraftRecipe) -> (s: String)
    requires
        recipe_fits_grid(*recipe),
    ensures
        s@ == spec_ingredients_text(*recipe),
{
    let ings = recipe_ingredients(recipe);
    let ghost labels = spec_ingredients(*recipe).map_values(|p: (ItemType, nat)| stack_label(p.0, p.1));
    let mut out: Vec<char> = Vec::new();
    let mut i: usize = 0;
    while i < ings.len()
        invariant
            i <= ings.len(),
            ings.len() == spec_ingredients(*recipe).len(),
            labels.len() == ings.len(),
            forall|j: int|
                0 <= j < ings.len() ==> (#[trigger] ings[j]).0 == spec_ingredients(*recipe)[j].0
                    && ings[j].1 == spec_ingredients(*recipe)[j].1,
            labels == spec_ingredients(*recipe).map_values(|p: (ItemType, nat)| stack_label(p.0, p.1)),
            out@ == join_plus(labels.take(i as int)),
        decreases ings.len() - i,
    {
        let (item, count) = ings[i];
        if i > 0 {
            out.push(' ');
            out.push('+');
            out.push(' ');
        }
        let ghost mid = out@;
        push_stack_label(&mut out, item, count);
        proof {
            assert(labels[i as int] == stack_label(item, count as nat));
            assert(labels.take(i + 1).drop_last() =~= labels.take(i as int));
            if i == 0 {
                assert(mid =~= seq![]);
            }
            assert(out@ =~= join_plus(labels.take(i + 1)));
        }
        i = i + 1;
    }
    assert(labels.take(ings.len() as int) =~= labels);
    chars_to_string(&out)
}

/// 5x5 cell bitmap rows (top to bottom, 1 = filled) of a tool or stick
/// icon (both pickaxes share one shape; their colours differ); blocks
/// (drawn as cubes) get an empty bitmap.
pub open spec fn spec_item_bitmap(item: ItemType) -> Seq<Seq<u8>> {
    match item {
        ItemType::Stick => seq![
            seq![0u8, 0, 0, 0, 1],
            seq![0u8, 0, 0, 1, 1],
            seq![0u8, 0, 1, 1, 0],
            seq![0u8, 1, 1, 0, 0],
            seq![1u8, 1, 0, 0, 0],
        ],
        ItemType::WoodPickaxe | ItemType::StonePickaxe => seq![
            seq![0u8, 1, 1, 1, 0],
            seq![1u8, 0, 0, 0, 1],
            seq![0u8, 0, 1, 0, 0],
            seq![0u8, 1, 1, 0, 0],
            seq![1u8, 0, 0, 0, 0],
        ],
        ItemType::WoodAxe => seq![
            seq![0u8, 1, 1, 0, 0],
            seq![1u8, 1, 1, 0, 0],
            seq![0u8, 0, 1, 0, 0],
            seq![0u8, 0, 0, 1, 0],
            seq![0u8, 0, 0, 0, 1],
        ],
        _ => seq![
            seq![0u8, 0, 0, 0, 0],
            seq![0u8, 0, 0, 0, 0],
            seq![0u8, 0, 0, 0, 0],
            seq![0u8, 0, 0, 0, 0],
            seq![0u8, 0, 0, 0, 0],
        ],
    }
}

/// 5x5 icon bitmap for non-block items.
pub fn item_bitmap(item: ItemType) -> (r: [[u8; 5]; 5])
    ensures
        forall|i: int| 0 <= i < 5 ==> (#[trigger] r@[i])@ == spec_item_bitmap(item)[i],
{
    let r: [[u8; 5]; 5] = match item {
        ItemType::Stick => [
            [0, 0, 0, 0, 1],
            [0, 0, 0, 1, 1],
            [0, 0, 1, 1, 0],
            [0, 1, 1, 0, 0],
            [1, 1, 0, 0, 0],
        ],
        ItemType::WoodPickaxe | ItemType::StonePickaxe => [
            [0, 1, 1, 1, 0],
            [1, 0, 0, 0, 1],
            [0, 0, 1, 0, 0],
            [0, 1, 1, 0, 0],
            [1, 0, 0, 0, 0],
        ],
        ItemType::WoodAxe => [
            [0, 1, 1, 0, 0],
            [1, 1, 1, 0, 0],
            [0, 0, 1, 0, 0],
            [0, 0, 0, 1, 0],
            [0, 0, 0, 0, 1],
        ],
        _ => [[0; 5]; 5],
    };
    assert forall|i: int| 0 <= i < 5 implies (#[trigger] r@[i])@ == spec_item_bitmap(item)[i] by {
        assert(r@[i]@ =~= spec_item_bitmap(item)[i]);
    }
    r
}

/// The first recipe of the table whose quick-craft key is `key`.
pub fn recipe_by_key(key: char) -> (r: Option<CraftRecipe>)
    ensures
        r is Some <==> exists|i: int| 0 <= i < RECIPE_COUNT && (#[trigger] spec_recipe(i)).4 == key,
        r matches Some(rec) ==> rec.key == key,
        r matches Some(rec) ==> exists|i: int|
            #[trigger] is_recipe(rec, i) && forall|j: int| 0 <= j < i ==> (#[trigger] spec_recipe(j)).4 != key,
        r matches Some(rec) ==> recipe_shape_ok(rec),
{
    let mut i: usize = 0;
    while i < RECIPE_COUNT
        invariant
            i <= RECIPE_COUNT,
            forall|j: int| 0 <= j < i ==> (#[trigger] spec_recipe(j)).4 != key,
        decreases RECIPE_COUNT - i,
    {
        let rec = recipe(i);
        if rec.key == key {
            assert(is_recipe(rec, i as int));
            assert(forall|j: int| 0 <= j < i ==> (#[trigger] spec_recipe(j)).4 != key);
            assert(exists|ii: int| #[trigger] is_recipe(rec, ii) && forall|j: int| 0 <= j < ii ==> (#[trigger] spec_recipe(j)).4 != key);
            return Some(rec);
        }
        i = i + 1;
    }
    None
}


/// Ingredient stacks of recipe number `i` of the table.
pub open spec fn index_ingredients(i: int) -> Seq<(ItemType, nat)> {
    let (pattern, w, h, _out, _key, _table) = spec_recipe(i);
    let s = rows_items(pattern, w as int, h as int);
    distinct_items(s).map_values(|it: ItemType| (it, count_item(s, it)))
}

/// The first recipe index (from `i` on) with quick-craft key `key`.
pub open spec fn key_index_from(key: char, i: int) -> Option<int>
    decreases RECIPE_COUNT - i,
{
    if i >= RECIPE_COUNT || i < 0 {
        None
    } else if spec_recipe(i).4 == key {
        Some(i)
    } else {
        key_index_from(key, i + 1)
    }
}

pub proof fn lemma_key_index(key: char, i: int, k: int)
    requires
        0 <= k <= i < RECIPE_COUNT,
        spec_recipe(i).4 == key,
        forall|j: int| 0 <= j < i ==> (#[trigger] spec_recipe(j)).4 != key,
    ensures
        key_index_from(key, k) == Some(i),
    decreases i - k,
{
    if k < i {
        lemma_key_index(key, i, k + 1);
    }
}

pub proof fn lemma_no_key(key: char, k: int)
    requires
        0 <= k,
        forall|j: int| 0 <= j < RECIPE_COUNT ==> (#[trigger] spec_recipe(j)).4 != key,
    ensures
        key_index_from(key, k) is None,
    decreases RECIPE_COUNT - k,
{
    if k < RECIPE_COUNT {
        lemma_no_key(key, k + 1);
    }
}

/// Ingredient counts are small: at most nine cells.
pub proof fn lemma_ingredient_counts_small(r: CraftRecipe)
    requires
        recipe_fits_grid(r),
    ensures
        forall|k: int| 0 <= k < spec_ingredients(r).len() ==> 1 <= (#[trigger] spec_ingredients(r)[k]).1 <= 9,
{
    let s = recipe_items(r);
    lemma_rows_items_len(r.pattern@, r.width as int, r.height as int);
    assert forall|k: int| 0 <= k < spec_ingredients(r).len() implies 1 <= (#[trigger] spec_ingredients(r)[k]).1 <= 9 by {
        let it = distinct_items(s)[k];
        lemma_count_le_len(s, it);
        lemma_distinct_contained(s, it);
    }
}

proof fn lemma_rows_items_len(p: Seq<Option<ItemType>>, w: int, y: int)
    requires
        0 <= w <= 3,
        0 <= y <= 3,
    ensures
        rows_items(p, w, y).len() <= 9,
        rows_items(p, w, y).len() <= 3 * y,
    decreases y,
{
    if y > 0 {
        lemma_rows_items_len(p, w, y - 1);
        lemma_row_items_len(p, y - 1, w);
    }
}

proof fn lemma_row_items_len(p: Seq<Option<ItemType>>, y: int, x: int)
    requires
        0 <= x,
    ensures
        row_items(p, y, x).len() <= x,
    decreases x,
{
    if x > 0 {
        lemma_row_items_len(p, y, x - 1);
    }
}

proof fn lemma_distinct_contained(s: Seq<ItemType>, it: ItemType)
    requires
        distinct_items(s).contains(it),
    ensures
        count_item(s, it) >= 1,
    decreases s.len(),
{
    if s.len() > 0 {
        let d = distinct_items(s.drop_last());
        if d.contains(it) {
            lemma_distinct_contained(s.drop_last(), it);
        } else if !d.contains(s.last()) {
            let k = choose|k: int| 0 <= k < d.push(s.last()).len() && d.push(s.last())[k] == it;
            if k < d.len() {
                assert(d[k] == it);
            }
        }
    }
}


/// Seconds to break a block bare-handed, in hundredths. Stone is the wall
/// that pickaxes exist to break through.
pub open spec fn spec_hardness(block: BlockType) -> u32 {
    match block {
        BlockType::Grass => 45,
        BlockType::Dirt => 40,
        BlockType::Leaves => 25,
        BlockType::Log => 160,
        BlockType::Planks => 140,
        BlockType::Stone => 500,
        BlockType::CoalOre => 650,
        _ => 100,
    }
}

pub fn hardness(block: BlockType) -> (r: u32)
    ensures
        r == spec_hardness(block),
{
    match block {
        BlockType::Grass => 45,
        BlockType::Dirt => 40,
        BlockType::Leaves => 25,
        BlockType::Log => 160,
        BlockType::Planks => 140,
        BlockType::Stone => 500,
        BlockType::CoalOre => 650,
        _ => 100,
    }
}

/// How many times faster the held item breaks the block: pickaxes speed up
/// stone and coal (stone 11x, wood 7x), the axe speeds up logs and planks
/// (5x); anything else works at hand speed (1x). Breaking takes
/// [`hardness`] divided by this.
pub open spec fn spec_tool_speed(block: BlockType, held: Option<ItemType>) -> u32 {
    let stony = block == BlockType::Stone || block == BlockType::CoalOre;
    let woody = block == BlockType::Log || block == BlockType::Planks;
    if stony && held == Some(ItemType::StonePickaxe) {
        11
    } else if stony && held == Some(ItemType::WoodPickaxe) {
        7
    } else if woody && held == Some(ItemType::WoodAxe) {
        5
    } else {
        1
    }
}

pub fn tool_speed(block: BlockType, held: Option<ItemType>) -> (r: u32)
    ensures
        r == spec_tool_speed(block, held),
{
    match (block, held) {
        (BlockType::Stone, Some(ItemType::StonePickaxe)) | (BlockType::CoalOre, Some(ItemType::StonePickaxe)) => 11,
        (BlockType::Stone, Some(ItemType::WoodPickaxe)) | (BlockType::CoalOre, Some(ItemType::WoodPickaxe)) => 7,
        (BlockType::Log, Some(ItemType::WoodAxe)) | (BlockType::Planks, Some(ItemType::WoodAxe)) => 5,
        _ => 1,
    }
}


/// Tool speeds: coal ore mines like stone and planks like logs under every
/// held item; on those stone-family blocks a wooden pickaxe is 7x and a
/// stone pickaxe 11x faster than a bare hand, the axe is 5x on the wood
/// family, and every other pairing of block and held item mines at hand
/// speed.
pub proof fn lemma_tool_speeds(b: BlockType, h: Option<ItemType>)
    ensures
        spec_tool_speed(BlockType::CoalOre, h) == spec_tool_speed(BlockType::Stone, h),
        spec_tool_speed(BlockType::Planks, h) == spec_tool_speed(BlockType::Log, h),
        (b == BlockType::Stone || b == BlockType::CoalOre) ==> spec_tool_speed(b, Some(ItemType::WoodPickaxe)) == 7
            && spec_tool_speed(b, Some(ItemType::StonePickaxe)) == 11 && spec_tool_speed(b, None) == 1,
        (b == BlockType::Log || b == BlockType::Planks) ==> spec_tool_speed(b, Some(ItemType::WoodAxe)) == 5
            && spec_tool_speed(b, None) == 1,
        (b == BlockType::Stone || b == BlockType::CoalOre) ==> spec_tool_speed(b, Some(ItemType::StonePickaxe))
            > spec_tool_speed(b, Some(ItemType::WoodPickaxe)) > spec_tool_speed(b, None),
        h is None ==> spec_tool_speed(b, h) == 1,
        (h != Some(ItemType::WoodPickaxe) && h != Some(ItemType::StonePickaxe) && h != Some(ItemType::WoodAxe))
            ==> spec_tool_speed(b, h) == 1,
        !(b == BlockType::Stone || b == BlockType::CoalOre || b == BlockType::Log || b == BlockType::Planks)
            ==> spec_tool_speed(b, h) == 1,
        (b == BlockType::Stone || b == BlockType::CoalOre) ==> spec_tool_speed(b, Some(ItemType::WoodAxe)) == 1,
        (b == BlockType::Log || b == BlockType::Planks) ==> spec_tool_speed(b, Some(ItemType::WoodPickaxe)) == 1
            && spec_tool_speed(b, Some(ItemType::StonePickaxe)) == 1,
{
}

/// Every recipe makes what it is named for: the output item's name begins
/// the recipe's name ("stone pick" for "stone pickaxe", "stick" for
/// "sticks"), the pickaxe whose head is stone is the stone pickaxe and the
/// one whose head is planks the wooden one, and tools come one at a time.
pub proof fn lemma_recipe_outputs(i: int)
    requires
        0 <= i < RECIPE_COUNT,
    ensures
        spec_item_name(spec_recipe(i).3.0).len() <= spec_recipe_name(i).len(),
        spec_item_name(spec_recipe(i).3.0) == spec_recipe_name(i).take(spec_item_name(spec_recipe(i).3.0).len() as int),
        spec_recipe(i).0[0] == Some(ItemType::Block(BlockType::Stone)) ==> spec_recipe(i).3 == (ItemType::StonePickaxe, 1u32),
        (spec_recipe(i).0[0] == planks_item() && spec_recipe(i).0[2] == planks_item()) ==> spec_recipe(i).3 == (
            ItemType::WoodPickaxe,
            1u32,
        ),
        (spec_recipe(i).3.0 == ItemType::WoodPickaxe || spec_recipe(i).3.0 == ItemType::WoodAxe || spec_recipe(i).3.0
            == ItemType::StonePickaxe) ==> spec_recipe(i).3.1 == 1 && spec_recipe(i).5,
        spec_recipe(i).0[0] == Some(ItemType::Block(BlockType::Log)) ==> spec_recipe(i).3 == (
            ItemType::Block(BlockType::Planks),
            4u32,
        ) && !spec_recipe(i).5,
        (spec_recipe(i).1 == 1 && spec_recipe(i).2 == 2 && spec_recipe(i).0[0] == planks_item()) ==> spec_recipe(i).3
            == (ItemType::Stick, 4u32) && !spec_recipe(i).5,
        (spec_recipe(i).1 == 2 && spec_recipe(i).2 == 2) ==> spec_recipe(i).3 == (
            ItemType::Block(BlockType::CraftingTable),
            1u32,
        ) && !spec_recipe(i).5,
        !(spec_recipe(i).3.0 == ItemType::WoodPickaxe || spec_recipe(i).3.0 == ItemType::WoodAxe || spec_recipe(i).3.0
            == ItemType::StonePickaxe) ==> !spec_recipe(i).5,
{
    reveal_strlit("planks");
    reveal_strlit("sticks");
    reveal_strlit("stick");
    reveal_strlit("crafting table");
    reveal_strlit("wood pickaxe");
    reveal_strlit("wood pick");
    reveal_strlit("wood axe");
    reveal_strlit("stone pickaxe");
    reveal_strlit("stone pick");
    if i == 0 {
        assert(spec_recipe_name(i).take(6) =~= "planks"@);
    } else if i == 1 {
        assert(spec_recipe_name(i).take(5) =~= "stick"@);
    } else if i == 2 {
        assert(spec_recipe_name(i).take(14) =~= "crafting table"@);
    } else if i == 3 {
        assert(spec_recipe_name(i).take(9) =~= "wood pick"@);
    } else if i == 4 {
        assert(spec_recipe_name(i).take(8) =~= "wood axe"@);
    } else {
        assert(spec_recipe_name(i).take(10) =~= "stone pick"@);
    }
}
} // verus!
