//! The player's item slots: the hotbar, the backpack, the crafting grid
//! and the stack held on the cursor, with the insertion policy, click
//! semantics, grid crafting and quick-crafting.
//!
//! Slots are generic (not type-locked): an item stacks onto a slot already
//! holding it, otherwise it claims the first empty slot, hotbar before
//! backpack.
use vstd::prelude::*;

use crate::block::BlockType;
use crate::items::{
    ItemType, RECIPE_COUNT, grid_side, index_ingredients, is_recipe, key_index_from, matching_recipe,
    recipe_by_key, recipe_index_matches, recipe_ingredients, spec_ingredients, spec_recipe,
};
use crate::text::{chars_to_string, decimal, push_decimal, push_str_chars};

verus! {

/// Hotbar slots (one per placeable block type).
pub const NUM_SLOTS: usize = 8;
/// Backpack slots shown in the inventory panel.
pub const BACKPACK_SLOTS: usize = 18;
/// Panel slots: the backpack first, then the hotbar.
pub const PANEL_SLOTS: usize = 26;

/// One slot: an item and how many (`(None, 0)` when empty).
pub type Slot = (Option<ItemType>, u32);

/// A slot is empty exactly when its count is zero.
pub open spec fn slot_ok(s: Slot) -> bool {
    s.0 is None <==> s.1 == 0
}

pub open spec fn slots_ok(s: Seq<Slot>) -> bool {
    forall|i: int| 0 <= i < s.len() ==> slot_ok(#[trigger] s[i])
}

/// First slot holding `t`.
pub open spec fn find_item(s: Seq<Slot>, t: ItemType) -> Option<int> {
    if exists|i: int| 0 <= i < s.len() && (#[trigger] s[i]).0 == Some(t) {
        Some(choose|i: int| 0 <= i < s.len() && (#[trigger] s[i]).0 == Some(t) && forall|j: int| 0 <= j < i ==> s[j].0 != Some(t))
    } else {
        None
    }
}

/// First empty slot.
pub open spec fn find_empty(s: Seq<Slot>) -> Option<int> {
    if exists|i: int| 0 <= i < s.len() && (#[trigger] s[i]).0 is None {
        Some(choose|i: int| 0 <= i < s.len() && (#[trigger] s[i]).0 is None && forall|j: int| 0 <= j < i ==> s[j].0 is Some)
    } else {
        None
    }
}

fn find_item_exec(s: &[Slot], t: ItemType) -> (r: Option<usize>)
    ensures
        match r {
            Some(i) => find_item(s@, t) == Some(i as int) && i < s.len(),
            None => find_item(s@, t) is None,
        },
{
    let mut i: usize = 0;
    while i < s.len()
        invariant
            i <= s.len(),
            forall|j: int| 0 <= j < i ==> s@[j].0 != Some(t),
        decreases s.len() - i,
    {
        let hit = match s[i].0 {
            Some(x) => x == t,
            None => false,
        };
        if hit {
            proof {
                assert(s@[i as int].0 == Some(t));
                let w = choose|k: int| 0 <= k < s@.len() && (#[trigger] s@[k]).0 == Some(t) && forall|j: int| 0 <= j < k ==> s@[j].0 != Some(t);
                if w < i {
                } else if w > i {
                    assert(s@[i as int].0 != Some(t));
                }
            }
            return Some(i);
        }
        i = i + 1;
    }
    None
}

fn find_empty_exec(s: &[Slot]) -> (r: Option<usize>)
    ensures
        match r {
            Some(i) => find_empty(s@) == Some(i as int) && i < s.len(),
            None => find_empty(s@) is None,
        },
{
    let mut i: usize = 0;
    while i < s.len()
        invariant
            i <= s.len(),
            forall|j: int| 0 <= j < i ==> s@[j].0 is Some,
        decreases s.len() - i,
    {
        if s[i].0.is_none() {
            proof {
                assert(s@[i as int].0 is None);
                let w = choose|k: int| 0 <= k < s@.len() && (#[trigger] s@[k]).0 is None && forall|j: int| 0 <= j < k ==> s@[j].0 is Some;
                if w < i {
                } else if w > i {
                    assert(s@[i as int].0 is Some);
                }
            }
            return Some(i);
        }
        i = i + 1;
    }
    None
}

/// How many of `t` the slots hold.
pub open spec fn count_in(s: Seq<Slot>, t: ItemType) -> nat
    decreases s.len(),
{
    if s.len() == 0 {
        0
    } else {
        count_in(s.drop_last(), t) + if s.last().0 == Some(t) {
            s.last().1 as nat
        } else {
            0nat
        }
    }
}

/// The contribution of one slot to the count of `t`.
pub open spec fn slot_count(s: Slot, t: ItemType) -> nat {
    if s.0 == Some(t) {
        s.1 as nat
    } else {
        0
    }
}

pub proof fn lemma_count_in_update(s: Seq<Slot>, i: int, v: Slot, t: ItemType)
    requires
        0 <= i < s.len(),
    ensures
        count_in(s.update(i, v), t) + slot_count(s[i], t) == count_in(s, t) + slot_count(v, t),
    decreases s.len(),
{
    if i < s.len() - 1 {
        lemma_count_in_update(s.drop_last(), i, v, t);
        assert(s.update(i, v).drop_last() =~= s.drop_last().update(i, v));
    } else {
        assert(s.update(i, v).drop_last() =~= s.drop_last());
    }
}


pub open spec fn sat_add(a: u32, b: u32) -> u32 {
    if a + b > u32::MAX {
        u32::MAX
    } else {
        (a + b) as u32
    }
}

/// Where a stack went (`true` = hotbar) and the new hotbar and backpack:
/// onto the first hotbar slot holding the item, else the first such
/// backpack slot (counts saturate), else the first empty hotbar slot, else
/// the first empty backpack slot; nowhere (nothing changes) when the count
/// is zero or every slot is taken by other items.
pub open spec fn spec_add_stack(h: Seq<Slot>, b: Seq<Slot>, t: ItemType, count: u32) -> (Seq<Slot>, Seq<Slot>, Option<(bool, int)>) {
    if count == 0 {
        (h, b, None)
    } else {
        match find_item(h, t) {
            Some(i) => (h.update(i, (Some(t), sat_add(h[i].1, count))), b, Some((true, i))),
            None => match find_item(b, t) {
                Some(i) => (h, b.update(i, (Some(t), sat_add(b[i].1, count))), Some((false, i))),
                None => match find_empty(h) {
                    Some(i) => (h.update(i, (Some(t), count)), b, Some((true, i))),
                    None => match find_empty(b) {
                        Some(i) => (h, b.update(i, (Some(t), count)), Some((false, i))),
                        None => (h, b, None),
                    },
                },
            },
        }
    }
}

/// The area tag of an insertion result as (hotbar?, index).
pub open spec fn placement(r: Option<(&'static str, usize)>) -> Option<(bool, int)> {
    match r {
        Some((w, i)) => Some((w@ == "h"@, i as int)),
        None => None,
    }
}

/// The player's slots and the inventory panel state.
#[derive(Clone, Copy, Debug)]
pub struct Inventory {
    /// Hotbar slots.
    pub inventory: [Slot; NUM_SLOTS],
    /// Backpack slots.
    pub backpack: [Slot; BACKPACK_SLOTS],
    /// Crafting grid: 2x2 (cells 0, 1, 3, 4) in the plain inventory, 3x3
    /// at a crafting table; stride 3.
    pub craft_grid: [Slot; 9],
    pub craft_size: usize,
    /// Stack held on the cursor.
    pub inv_held: Option<ItemType>,
    pub inv_held_count: u32,
    /// Inventory panel open.
    pub inv_open: bool,
    /// Selected hotbar slot.
    pub selected: usize,
}

impl Inventory {
    /// Grid size is 2 or 3, every stack's count is zero exactly when it is
    /// empty, and the selected slot is a hotbar slot.
    pub open spec fn wf(&self) -> bool {
        &&& (self.craft_size == 2 || self.craft_size == 3)
        &&& slots_ok(self.inventory@)
        &&& slots_ok(self.backpack@)
        &&& slots_ok(self.craft_grid@)
        &&& slot_ok((self.inv_held, self.inv_held_count))
        &&& self.selected < NUM_SLOTS
    }

    /// Empty slots, closed panel, 2x2 grid, first slot selected.
    pub fn new() -> (r: Inventory)
        ensures
            r.wf(),
            forall|i: int| 0 <= i < NUM_SLOTS ==> #[trigger] r.inventory@[i] == (None::<ItemType>, 0u32),
            forall|i: int| 0 <= i < BACKPACK_SLOTS ==> #[trigger] r.backpack@[i] == (None::<ItemType>, 0u32),
            forall|i: int| 0 <= i < 9 ==> #[trigger] r.craft_grid@[i] == (None::<ItemType>, 0u32),
            r.craft_size == 2,
            r.inv_held is None,
            r.inv_held_count == 0,
            !r.inv_open,
            r.selected == 0,
    {
        let e: Slot = (None, 0);
        Inventory {
            inventory: [e; NUM_SLOTS],
            backpack: [e; BACKPACK_SLOTS],
            craft_grid: [e; 9],
            craft_size: 2,
            inv_held: None,
            inv_held_count: 0,
            inv_open: false,
            selected: 0,
        }
    }

    /// Add a whole stack to one compatible slot (see [`spec_add_stack`]).
    /// Returns `("h", i)` or `("b", i)` for hotbar/backpack slot `i`, or
    /// `None` when it did not fit.
    pub fn inv_add_n(&mut self, t: ItemType, count: u32) -> (r: Option<(&'static str, usize)>)
        ensures
            ({
                let (h, b, w) = spec_add_stack(old(self).inventory@, old(self).backpack@, t, count);
                &&& final(self).inventory@ == h
                &&& final(self).backpack@ == b
                &&& placement(r) == w
            }),
            r matches Some((w, _)) ==> w@ == "h"@ || w@ == "b"@,
            final(self).craft_grid == old(self).craft_grid,
            final(self).craft_size == old(self).craft_size,
            final(self).inv_held == old(self).inv_held,
            final(self).inv_held_count == old(self).inv_held_count,
            final(self).inv_open == old(self).inv_open,
            final(self).selected == old(self).selected,
    {
        proof {
            reveal_strlit("h");
            reveal_strlit("b");
            assert("b"@[0] != "h"@[0]);
            assert("b"@ != "h"@);
        }
        if count == 0 {
            return None;
        }
        if let Some(i) = find_item_exec(&self.inventory, t) {
            let c = self.inventory[i].1;
            self.inventory[i] = (Some(t), c.saturating_add(count));
            return Some(("h", i));
        }
        if let Some(i) = find_item_exec(&self.backpack, t) {
            let c = self.backpack[i].1;
            self.backpack[i] = (Some(t), c.saturating_add(count));
            return Some(("b", i));
        }
        if let Some(i) = find_empty_exec(&self.inventory) {
            self.inventory[i] = (Some(t), count);
            return Some(("h", i));
        }
        if let Some(i) = find_empty_exec(&self.backpack) {
            self.backpack[i] = (Some(t), count);
            return Some(("b", i));
        }
        None
    }

    /// Add one item (a picked-up drop) with the same policy.
    pub fn inv_add(&mut self, t: ItemType) -> (r: Option<(&'static str, usize)>)
        ensures
            ({
                let (h, b, w) = spec_add_stack(old(self).inventory@, old(self).backpack@, t, 1);
                &&& final(self).inventory@ == h
                &&& final(self).backpack@ == b
                &&& placement(r) == w
            }),
            r matches Some((w, _)) ==> w@ == "h"@ || w@ == "b"@,
            final(self).craft_grid == old(self).craft_grid,
            final(self).craft_size == old(self).craft_size,
            final(self).inv_held == old(self).inv_held,
            final(self).inv_held_count == old(self).inv_held_count,
            final(self).inv_open == old(self).inv_open,
            final(self).selected == old(self).selected,
    {
        self.inv_add_n(t, 1)
    }
}


/// A left click of the cursor stack `held` on `slot`: pick the stack up,
/// put the held stack down, merge equal items, or swap; returns the new
/// (held, slot).
pub open spec fn spec_click(held: Slot, slot: Slot) -> (Slot, Slot) {
    match held.0 {
        None => match slot.0 {
            Some(item) => ((Some(item), slot.1), (None, 0)),
            None => (held, slot),
        },
        Some(h) => match slot.0 {
            None => ((None, 0), (Some(h), held.1)),
            Some(c) => if h == c {
                ((None, 0), (Some(c), (slot.1 + held.1) as u32))
            } else {
                ((Some(c), slot.1), (Some(h), held.1))
            },
        },
    }
}

/// A right click of `held` on `slot`: with a stack on the cursor, drop one
/// item onto an empty or same-item slot; with an empty cursor, pick up the
/// larger half (rounded up) of the slot's stack; returns the new (held,
/// slot).
pub open spec fn spec_right_click(held: Slot, slot: Slot) -> (Slot, Slot) {
    match held.0 {
        Some(h) => if slot.0 is None || slot.0 == Some(h) {
            let left = (held.1 - 1) as u32;
            (if left == 0 {
                (None, 0)
            } else {
                (Some(h), left)
            }, (Some(h), (slot.1 + 1) as u32))
        } else {
            (held, slot)
        },
        None => match slot.0 {
            Some(c) => {
                let take = ((slot.1 + 1) / 2) as u32;
                let rest = (slot.1 - take) as u32;
                ((Some(c), take), if rest == 0 {
                    (None, 0)
                } else {
                    (Some(c), rest)
                })
            },
            None => (held, slot),
        },
    }
}

/// A left click cannot overflow: merging stays within `u32`.
pub open spec fn click_fits(held: Slot, slot: Slot) -> bool {
    held.0 is Some && held.0 == slot.0 ==> slot.1 + held.1 <= u32::MAX
}

/// A right click cannot overflow.
pub open spec fn right_click_fits(held: Slot, slot: Slot) -> bool {
    held.0 is Some && (slot.0 is None || slot.0 == held.0) ==> slot.1 + 1 <= u32::MAX
}

fn click(held: Slot, slot: Slot) -> (r: (Slot, Slot))
    requires
        click_fits(held, slot),
    ensures
        r == spec_click(held, slot),
{
    match (held.0, slot) {
        (None, (Some(item), n)) => ((Some(item), n), (None, 0)),
        (Some(h), (None, _)) => ((None, 0), (Some(h), held.1)),
        (Some(h), (Some(c), n)) => {
            if h == c {
                ((None, 0), (Some(c), n + held.1))
            } else {
                ((Some(c), n), (Some(h), held.1))
            }
        },
        _ => (held, slot),
    }
}

fn right_click(held: Slot, slot: Slot) -> (r: (Slot, Slot))
    requires
        right_click_fits(held, slot),
        slot_ok(held),
        slot_ok(slot),
    ensures
        r == spec_right_click(held, slot),
{
    match held.0 {
        Some(h) => {
            let fits = match slot.0 {
                None => true,
                Some(c) => c == h,
            };
            if fits {
                let left = held.1 - 1;
                let new_held: Slot = if left == 0 {
                    (None, 0)
                } else {
                    (Some(h), left)
                };
                (new_held, (Some(h), slot.1 + 1))
            } else {
                (held, slot)
            }
        },
        None => match slot.0 {
            Some(c) => {
                let take = slot.1 / 2 + slot.1 % 2;
                let rest = slot.1 - take;
                let new_slot: Slot = if rest == 0 {
                    (None, 0)
                } else {
                    (Some(c), rest)
                };
                ((Some(c), take), new_slot)
            },
            None => (held, slot),
        },
    }
}

/// A left click moves items between the cursor and a slot without creating
/// or losing any, and keeps both stacks well formed.
pub proof fn lemma_click_conserves(held: Slot, slot: Slot, t: ItemType)
    requires
        slot_ok(held),
        slot_ok(slot),
        click_fits(held, slot),
    ensures
        slot_count(spec_click(held, slot).0, t) + slot_count(spec_click(held, slot).1, t) == slot_count(held, t)
            + slot_count(slot, t),
        slot_ok(spec_click(held, slot).0) && slot_ok(spec_click(held, slot).1),
{
}

/// A right click moves items between the cursor and a slot without
/// creating or losing any, and keeps both stacks well formed.
pub proof fn lemma_right_click_conserves(held: Slot, slot: Slot, t: ItemType)
    requires
        slot_ok(held),
        slot_ok(slot),
        right_click_fits(held, slot),
    ensures
        slot_count(spec_right_click(held, slot).0, t) + slot_count(spec_right_click(held, slot).1, t)
            == slot_count(held, t) + slot_count(slot, t),
        slot_ok(spec_right_click(held, slot).0) && slot_ok(spec_right_click(held, slot).1),
{
}

proof fn lemma_update_ok(s: Seq<Slot>, i: int, v: Slot)
    requires
        slots_ok(s),
        slot_ok(v),
        0 <= i < s.len(),
    ensures
        slots_ok(s.update(i, v)),
{
    assert forall|j: int| 0 <= j < s.len() implies slot_ok(#[trigger] s.update(i, v)[j]) by {
        if j != i {
            assert(slot_ok(s[j]));
        }
    }
}

/// Replacing slot `i` of an area and the cursor stack by a click's result
/// keeps every item's total.
proof fn lemma_click_area(area: Seq<Slot>, i: int, held: Slot, h2: Slot, s2: Slot, t: ItemType)
    requires
        0 <= i < area.len(),
        slot_count(h2, t) + slot_count(s2, t) == slot_count(held, t) + slot_count(area[i], t),
    ensures
        count_in(area.update(i, s2), t) + slot_count(h2, t) == count_in(area, t) + slot_count(held, t),
{
    lemma_count_in_update(area, i, s2, t);
}

/// The panel slot `idx` (backpack 0..18, then hotbar 0..8) as (hotbar?,
/// index).
pub open spec fn panel_slot(idx: usize) -> (bool, int) {
    if idx >= BACKPACK_SLOTS {
        (true, idx - BACKPACK_SLOTS)
    } else {
        (false, idx as int)
    }
}

/// Is grid cell `idx` (stride 3) inside the active `size x size` grid?
pub open spec fn grid_cell_active(idx: usize, size: usize) -> bool {
    idx < 9 && idx / 3 < size && idx % 3 < size
}

impl Inventory {
    /// The stack on the cursor.
    pub open spec fn held_slot(&self) -> Slot {
        (self.inv_held, self.inv_held_count)
    }

    /// How many of `t` the player has: hotbar, backpack, crafting grid and
    /// cursor together.
    pub open spec fn total_of(&self, t: ItemType) -> nat {
        count_in(self.inventory@, t) + count_in(self.backpack@, t) + count_in(self.craft_grid@, t) + slot_count(
            self.held_slot(),
            t,
        )
    }

    /// A left click on panel slot `idx` (0..18 backpack, 18..26 hotbar):
    /// pick up, put down, merge or swap (see [`spec_click`]).
    pub fn inv_slot_click(&mut self, idx: usize)
        requires
            old(self).wf(),
            idx < PANEL_SLOTS,
            click_fits(old(self).held_slot(), if idx >= BACKPACK_SLOTS {
                old(self).inventory@[idx - BACKPACK_SLOTS]
            } else {
                old(self).backpack@[idx as int]
            }),
        ensures
            ({
                let (hot, i) = panel_slot(idx);
                let slot = if hot { old(self).inventory@[i] } else { old(self).backpack@[i] };
                let (h2, s2) = spec_click(old(self).held_slot(), slot);
                &&& final(self).held_slot() == h2
                &&& hot ==> final(self).inventory@ == old(self).inventory@.update(i, s2)
                    && final(self).backpack == old(self).backpack
                &&& !hot ==> final(self).backpack@ == old(self).backpack@.update(i, s2)
                    && final(self).inventory == old(self).inventory
            }),
            final(self).wf(),
            forall|t: ItemType| #[trigger] final(self).total_of(t) == old(self).total_of(t),
            final(self).craft_grid == old(self).craft_grid,
            final(self).craft_size == old(self).craft_size,
            final(self).inv_open == old(self).inv_open,
            final(self).selected == old(self).selected,
    {
        let held: Slot = (self.inv_held, self.inv_held_count);
        if idx >= BACKPACK_SLOTS {
            let i = idx - BACKPACK_SLOTS;
            let slot = self.inventory[i];
            let (h2, s2) = click(held, slot);
            proof {
                assert(slot_ok(old(self).inventory@[i as int]));
                assert forall|t: ItemType| #[trigger] count_in(old(self).inventory@.update(i as int, s2), t) + slot_count(h2, t)
                    == count_in(old(self).inventory@, t) + slot_count(held, t) by {
                    lemma_click_conserves(held, slot, t);
                    lemma_click_area(old(self).inventory@, i as int, held, h2, s2, t);
                }
                lemma_click_conserves(held, slot, ItemType::Stick);
                lemma_update_ok(old(self).inventory@, i as int, s2);
            }
            self.inventory[i] = s2;
            self.inv_held = h2.0;
            self.inv_held_count = h2.1;
        } else {
            let slot = self.backpack[idx];
            let (h2, s2) = click(held, slot);
            proof {
                assert(slot_ok(old(self).backpack@[idx as int]));
                assert forall|t: ItemType| #[trigger] count_in(old(self).backpack@.update(idx as int, s2), t) + slot_count(h2, t)
                    == count_in(old(self).backpack@, t) + slot_count(held, t) by {
                    lemma_click_conserves(held, slot, t);
                    lemma_click_area(old(self).backpack@, idx as int, held, h2, s2, t);
                }
                lemma_click_conserves(held, slot, ItemType::Stick);
                lemma_update_ok(old(self).backpack@, idx as int, s2);
            }
            self.backpack[idx] = s2;
            self.inv_held = h2.0;
            self.inv_held_count = h2.1;
        }
    }

    /// A right click on panel slot `idx`: drop one held item, or pick up
    /// half the stack (see [`spec_right_click`]).
    pub fn inv_slot_right_click(&mut self, idx: usize)
        requires
            old(self).wf(),
            idx < PANEL_SLOTS,
            right_click_fits(old(self).held_slot(), if idx >= BACKPACK_SLOTS {
                old(self).inventory@[idx - BACKPACK_SLOTS]
            } else {
                old(self).backpack@[idx as int]
            }),
        ensures
            ({
                let (hot, i) = panel_slot(idx);
                let slot = if hot { old(self).inventory@[i] } else { old(self).backpack@[i] };
                let (h2, s2) = spec_right_click(old(self).held_slot(), slot);
                &&& final(self).held_slot() == h2
                &&& hot ==> final(self).inventory@ == old(self).inventory@.update(i, s2)
                    && final(self).backpack == old(self).backpack
                &&& !hot ==> final(self).backpack@ == old(self).backpack@.update(i, s2)
                    && final(self).inventory == old(self).inventory
            }),
            final(self).wf(),
            forall|t: ItemType| #[trigger] final(self).total_of(t) == old(self).total_of(t),
            final(self).craft_grid == old(self).craft_grid,
            final(self).craft_size == old(self).craft_size,
            final(self).inv_open == old(self).inv_open,
            final(self).selected == old(self).selected,
    {
        let held: Slot = (self.inv_held, self.inv_held_count);
        if idx >= BACKPACK_SLOTS {
            let i = idx - BACKPACK_SLOTS;
            let slot = self.inventory[i];
            let (h2, s2) = right_click(held, slot);
            proof {
                assert(slot_ok(old(self).inventory@[i as int]));
                assert forall|t: ItemType| #[trigger] count_in(old(self).inventory@.update(i as int, s2), t) + slot_count(h2, t)
                    == count_in(old(self).inventory@, t) + slot_count(held, t) by {
                    lemma_right_click_conserves(held, slot, t);
                    lemma_click_area(old(self).inventory@, i as int, held, h2, s2, t);
                }
                lemma_right_click_conserves(held, slot, ItemType::Stick);
                lemma_update_ok(old(self).inventory@, i as int, s2);
            }
            self.inventory[i] = s2;
            self.inv_held = h2.0;
            self.inv_held_count = h2.1;
        } else {
            let slot = self.backpack[idx];
            let (h2, s2) = right_click(held, slot);
            proof {
                assert(slot_ok(old(self).backpack@[idx as int]));
                assert forall|t: ItemType| #[trigger] count_in(old(self).backpack@.update(idx as int, s2), t) + slot_count(h2, t)
                    == count_in(old(self).backpack@, t) + slot_count(held, t) by {
                    lemma_right_click_conserves(held, slot, t);
                    lemma_click_area(old(self).backpack@, idx as int, held, h2, s2, t);
                }
                lemma_right_click_conserves(held, slot, ItemType::Stick);
                lemma_update_ok(old(self).backpack@, idx as int, s2);
            }
            self.backpack[idx] = s2;
            self.inv_held = h2.0;
            self.inv_held_count = h2.1;
        }
    }

    /// A left click on crafting-grid cell `idx` (stride 3); cells outside
    /// the active grid ignore clicks.
    pub fn craft_slot_click(&mut self, idx: usize)
        requires
            old(self).wf(),
            idx < 9 ==> click_fits(old(self).held_slot(), old(self).craft_grid@[idx as int]),
        ensures
            grid_cell_active(idx, old(self).craft_size) ==> ({
                let (h2, s2) = spec_click(old(self).held_slot(), old(self).craft_grid@[idx as int]);
                &&& final(self).held_slot() == h2
                &&& final(self).craft_grid@ == old(self).craft_grid@.update(idx as int, s2)
            }),
            !grid_cell_active(idx, old(self).craft_size) ==> *final(self) == *old(self),
            final(self).wf(),
            forall|t: ItemType| #[trigger] final(self).total_of(t) == old(self).total_of(t),
            final(self).inventory == old(self).inventory,
            final(self).backpack == old(self).backpack,
            final(self).craft_size == old(self).craft_size,
            final(self).inv_open == old(self).inv_open,
            final(self).selected == old(self).selected,
    {
        let (row, col) = (idx / 3, idx % 3);
        if row >= self.craft_size || col >= self.craft_size || idx >= 9 {
            return;
        }
        let held: Slot = (self.inv_held, self.inv_held_count);
        let slot = self.craft_grid[idx];
        let (h2, s2) = click(held, slot);
        proof {
            assert(slot_ok(old(self).craft_grid@[idx as int]));
            assert forall|t: ItemType| #[trigger] count_in(old(self).craft_grid@.update(idx as int, s2), t) + slot_count(h2, t)
                == count_in(old(self).craft_grid@, t) + slot_count(held, t) by {
                lemma_click_conserves(held, slot, t);
                lemma_click_area(old(self).craft_grid@, idx as int, held, h2, s2, t);
            }
            lemma_click_conserves(held, slot, ItemType::Stick);
            lemma_update_ok(old(self).craft_grid@, idx as int, s2);
        }
        self.craft_grid[idx] = s2;
        self.inv_held = h2.0;
        self.inv_held_count = h2.1;
    }

    /// A right click on crafting-grid cell `idx`: the single-item
    /// semantics, so a recipe can be loaded cell by cell.
    pub fn craft_slot_right_click(&mut self, idx: usize)
        requires
            old(self).wf(),
            idx < 9 ==> right_click_fits(old(self).held_slot(), old(self).craft_grid@[idx as int]),
        ensures
            grid_cell_active(idx, old(self).craft_size) ==> ({
                let (h2, s2) = spec_right_click(old(self).held_slot(), old(self).craft_grid@[idx as int]);
                &&& final(self).held_slot() == h2
                &&& final(self).craft_grid@ == old(self).craft_grid@.update(idx as int, s2)
            }),
            !grid_cell_active(idx, old(self).craft_size) ==> *final(self) == *old(self),
            final(self).wf(),
            forall|t: ItemType| #[trigger] final(self).total_of(t) == old(self).total_of(t),
            final(self).inventory == old(self).inventory,
            final(self).backpack == old(self).backpack,
            final(self).craft_size == old(self).craft_size,
            final(self).inv_open == old(self).inv_open,
            final(self).selected == old(self).selected,
    {
        let (row, col) = (idx / 3, idx % 3);
        if row >= self.craft_size || col >= self.craft_size || idx >= 9 {
            return;
        }
        let held: Slot = (self.inv_held, self.inv_held_count);
        let slot = self.craft_grid[idx];
        let (h2, s2) = right_click(held, slot);
        proof {
            assert(slot_ok(old(self).craft_grid@[idx as int]));
            assert forall|t: ItemType| #[trigger] count_in(old(self).craft_grid@.update(idx as int, s2), t) + slot_count(h2, t)
                == count_in(old(self).craft_grid@, t) + slot_count(held, t) by {
                lemma_right_click_conserves(held, slot, t);
                lemma_click_area(old(self).craft_grid@, idx as int, held, h2, s2, t);
            }
            lemma_right_click_conserves(held, slot, ItemType::Stick);
            lemma_update_ok(old(self).craft_grid@, idx as int, s2);
        }
        self.craft_grid[idx] = s2;
        self.inv_held = h2.0;
        self.inv_held_count = h2.1;
    }
}


/// Put a stack back into the slots: onto the first hotbar slot holding the
/// item, else the first such backpack slot, else the first empty hotbar
/// slot, else the first empty backpack slot. Returns the new hotbar and
/// backpack, whether the stack found a place, and whether the count stayed
/// within `u32` (a merge that would overflow is outside the domain).
pub open spec fn spec_stash(h: Seq<Slot>, b: Seq<Slot>, item: ItemType, n: u32) -> (Seq<Slot>, Seq<Slot>, bool, bool) {
    match find_item(h, item) {
        Some(i) => (h.update(i, (Some(item), (h[i].1 + n) as u32)), b, true, h[i].1 + n <= u32::MAX),
        None => match find_item(b, item) {
            Some(i) => (h, b.update(i, (Some(item), (b[i].1 + n) as u32)), true, b[i].1 + n <= u32::MAX),
            None => match find_empty(h) {
                Some(i) => (h.update(i, (Some(item), n)), b, true, true),
                None => match find_empty(b) {
                    Some(i) => (h, b.update(i, (Some(item), n)), true, true),
                    None => (h, b, false, true),
                },
            },
        },
    }
}

/// Stash the stacks of grid cells `0..k` in order; returns the new hotbar
/// and backpack and whether no merge overflowed.
pub open spec fn stash_grid(h: Seq<Slot>, b: Seq<Slot>, g: Seq<Slot>, k: int) -> (Seq<Slot>, Seq<Slot>, bool)
    decreases k,
{
    if k <= 0 {
        (h, b, true)
    } else {
        let (h1, b1, f1) = stash_grid(h, b, g, k - 1);
        match g[k - 1].0 {
            Some(item) => {
                let (h2, b2, _placed, f2) = spec_stash(h1, b1, item, g[k - 1].1);
                (h2, b2, f1 && f2)
            },
            None => (h1, b1, f1),
        }
    }
}

/// Closing the panel: the cursor stack, then every grid stack in cell
/// order, go back into the slots (see [`spec_stash`]). Returns the new
/// hotbar and backpack and whether no merge overflowed.
pub open spec fn spec_close(inv: Inventory) -> (Seq<Slot>, Seq<Slot>, bool) {
    let (h0, b0, f0) = match inv.inv_held {
        Some(item) => {
            let (h, b, _placed, f) = spec_stash(inv.inventory@, inv.backpack@, item, inv.inv_held_count);
            (h, b, f)
        },
        None => (inv.inventory@, inv.backpack@, true),
    };
    let (h1, b1, f1) = stash_grid(h0, b0, inv.craft_grid@, 9);
    (h1, b1, f0 && f1)
}

impl Inventory {
    /// Return a stack to the slots (see [`spec_stash`]); false when there
    /// was no room (the stack is lost).
    pub fn stash_back(&mut self, item: ItemType, n: u32) -> (placed: bool)
        requires
            spec_stash(old(self).inventory@, old(self).backpack@, item, n).3,
        ensures
            ({
                let (h, b, p, _f) = spec_stash(old(self).inventory@, old(self).backpack@, item, n);
                &&& final(self).inventory@ == h
                &&& final(self).backpack@ == b
                &&& placed == p
            }),
            final(self).craft_grid == old(self).craft_grid,
            final(self).craft_size == old(self).craft_size,
            final(self).inv_held == old(self).inv_held,
            final(self).inv_held_count == old(self).inv_held_count,
            final(self).inv_open == old(self).inv_open,
            final(self).selected == old(self).selected,
    {
        if let Some(i) = find_item_exec(&self.inventory, item) {
            let c = self.inventory[i].1;
            self.inventory[i] = (Some(item), c + n);
            return true;
        }
        if let Some(i) = find_item_exec(&self.backpack, item) {
            let c = self.backpack[i].1;
            self.backpack[i] = (Some(item), c + n);
            return true;
        }
        if let Some(i) = find_empty_exec(&self.inventory) {
            self.inventory[i] = (Some(item), n);
            return true;
        }
        if let Some(i) = find_empty_exec(&self.backpack) {
            self.backpack[i] = (Some(item), n);
            return true;
        }
        false
    }

    /// Close the panel, returning the cursor stack and every grid stack to
    /// the slots so no ingredient disappears; the grid goes back to 2x2.
    pub fn close_inventory(&mut self)
        requires
            old(self).wf(),
            spec_close(*old(self)).2,
        ensures
            ({
                let (h, b, _f) = spec_close(*old(self));
                &&& final(self).inventory@ == h
                &&& final(self).backpack@ == b
            }),
            forall|i: int| 0 <= i < 9 ==> #[trigger] final(self).craft_grid@[i] == (None::<ItemType>, 0u32),
            final(self).inv_held is None,
            final(self).inv_held_count == 0,
            !final(self).inv_open,
            final(self).craft_size == 2,
            final(self).selected == old(self).selected,
    {
        let ghost start = *old(self);
        if let Some(item) = self.inv_held {
            let count = self.inv_held_count;
            self.inv_held = None;
            self.inv_held_count = 0;
            self.stash_back(item, count);
        }
        let ghost h0 = self.inventory@;
        let ghost b0 = self.backpack@;
        let ghost g = self.craft_grid@;
        assert(g == start.craft_grid@);
        let mut i: usize = 0;
        while i < 9
            invariant
                i <= 9,
                g == start.craft_grid@,
                slots_ok(g),
                self.inv_held is None,
                self.inv_held_count == 0,
                self.selected == start.selected,
                stash_grid(h0, b0, g, 9).2,
                ({
                    let (h, b, f) = stash_grid(h0, b0, g, i as int);
                    &&& self.inventory@ == h
                    &&& self.backpack@ == b
                }),
                forall|j: int| 0 <= j < i ==> #[trigger] self.craft_grid@[j] == (None::<ItemType>, 0u32),
                forall|j: int| i <= j < 9 ==> #[trigger] self.craft_grid@[j] == g[j],
            decreases 9 - i,
        {
            proof {
                lemma_stash_grid_prefix_fits(h0, b0, g, i as int + 1, 9);
            }
            if let Some(item) = self.craft_grid[i].0 {
                let count = self.craft_grid[i].1;
                self.craft_grid[i] = (None, 0);
                self.stash_back(item, count);
            }
            i = i + 1;
        }
        self.inv_open = false;
        self.craft_size = 2;
    }

    /// Open the panel with a crafting grid of `size` (clamped to 2..=3).
    pub fn open_inventory(&mut self, size: usize)
        ensures
            *final(self) == (Inventory {
                inv_open: true,
                craft_size: if size < 2 {
                    2
                } else if size > 3 {
                    3
                } else {
                    size
                },
                ..*old(self)
            }),
    {
        self.inv_open = true;
        self.craft_size = if size < 2 {
            2
        } else if size > 3 {
            3
        } else {
            size
        };
    }

    /// Select hotbar slot `slot`.
    pub fn select_slot(&mut self, slot: usize)
        requires
            slot < NUM_SLOTS,
        ensures
            *final(self) == (Inventory { selected: slot, ..*old(self) }),
    {
        self.selected = slot;
    }
}

proof fn lemma_stash_grid_prefix_fits(h: Seq<Slot>, b: Seq<Slot>, g: Seq<Slot>, k: int, n: int)
    requires
        0 <= k <= n,
        stash_grid(h, b, g, n).2,
    ensures
        stash_grid(h, b, g, k).2,
    decreases n - k,
{
    if k < n {
        lemma_stash_grid_prefix_fits(h, b, g, k + 1, n);
    }
}


/// The first recipe (index from `i` on) whose pattern matches the grid.
pub open spec fn first_match_from(grid: Seq<Slot>, size: usize, table: bool, i: int) -> Option<int>
    decreases RECIPE_COUNT - i,
{
    if i >= RECIPE_COUNT || i < 0 {
        None
    } else if recipe_index_matches(i, grid, grid_side(size), table) {
        Some(i)
    } else {
        first_match_from(grid, size, table, i + 1)
    }
}

proof fn lemma_first_match(grid: Seq<Slot>, size: usize, table: bool, i: int, k: int)
    requires
        0 <= k <= i < RECIPE_COUNT,
        recipe_index_matches(i, grid, grid_side(size), table),
        forall|j: int| 0 <= j < i ==> !recipe_index_matches(j, grid, grid_side(size), table),
    ensures
        first_match_from(grid, size, table, k) == Some(i),
    decreases i - k,
{
    if k < i {
        lemma_first_match(grid, size, table, i, k + 1);
    }
}

proof fn lemma_no_match(grid: Seq<Slot>, size: usize, table: bool, k: int)
    requires
        0 <= k,
        forall|j: int| 0 <= j < RECIPE_COUNT ==> !#[trigger] recipe_index_matches(j, grid, grid_side(size), table),
    ensures
        first_match_from(grid, size, table, k) is None,
    decreases RECIPE_COUNT - k,
{
    if k < RECIPE_COUNT {
        lemma_no_match(grid, size, table, k + 1);
    }
}

/// A stack with one item taken (empty when it was the last).
pub open spec fn take_one(s: Slot) -> Slot {
    if s.1 <= 1 {
        (None, 0)
    } else {
        (s.0, (s.1 - 1) as u32)
    }
}

/// The grid after crafting once: one item taken from every occupied
/// active cell.
pub open spec fn consume_grid(g: Seq<Slot>, size: usize) -> Seq<Slot> {
    Seq::new(
        9,
        |i: int|
            if grid_cell_active(i as usize, size) && g[i].0 is Some {
                take_one(g[i])
            } else {
                g[i]
            },
    )
}

/// `b` is `a` after a click on the crafting output: when a recipe matches
/// the active grid (tool recipes only at a 3x3 table) and the cursor is
/// empty, one item is taken from every occupied active cell and the output
/// added to the slots; if the output finds no slot, or nothing matches, or
/// the cursor holds a stack, nothing changes.
pub open spec fn spec_output_click(a: Inventory, b: Inventory) -> bool {
    let g0 = a.craft_grid@;
    let size = a.craft_size;
    match first_match_from(g0, size, size == 3, 0) {
        Some(i) if a.inv_held is None => {
            let out = spec_recipe(i).3;
            let (h, bp, w) = spec_add_stack(a.inventory@, a.backpack@, out.0, out.1);
            if w is Some {
                &&& b.craft_grid@ == consume_grid(g0, size)
                &&& b.inventory@ == h
                &&& b.backpack@ == bp
            } else {
                b == a
            }
        },
        _ => b == a,
    }
}

impl Inventory {
    /// Click on the crafting output: when a recipe matches the active grid
    /// (tool recipes only at a 3x3 table) and the cursor is empty, take one
    /// item from every occupied active cell and add the output to the
    /// slots; if the output finds no slot, nothing changes.
    pub fn craft_grid_output(&mut self)
        requires
            old(self).wf(),
        ensures
            final(self).wf(),
            spec_output_click(*old(self), *final(self)),
            final(self).inv_held == old(self).inv_held,
            final(self).inv_held_count == old(self).inv_held_count,
            final(self).craft_size == old(self).craft_size,
            final(self).inv_open == old(self).inv_open,
            final(self).selected == old(self).selected,
    {
        let size = self.craft_size;
        let table: bool = size == 3;
        let found = matching_recipe(&self.craft_grid, size, table);
        proof {
            assert(grid_side(size) == size as int);
            match found {
                Some(rec) => {
                    let i = choose|i: int| {
                        &&& is_recipe(rec, i)
                        &&& #[trigger] recipe_index_matches(i, self.craft_grid@, grid_side(size), table)
                        &&& forall|j: int| 0 <= j < i ==> !recipe_index_matches(j, self.craft_grid@, grid_side(size), table)
                    };
                    lemma_first_match(self.craft_grid@, size, table, i, 0);
                },
                None => {
                    lemma_no_match(self.craft_grid@, size, table, 0);
                },
            }
        }
        let recipe = match found {
            Some(r) => r,
            None => return,
        };
        if self.inv_held.is_some() {
            return;
        }
        let ghost gi = choose|i: int| {
            &&& is_recipe(recipe, i)
            &&& #[trigger] recipe_index_matches(i, self.craft_grid@, grid_side(size), table)
            &&& forall|j: int| 0 <= j < i ==> !recipe_index_matches(j, self.craft_grid@, grid_side(size), table)
        };
        assert(recipe.output == spec_recipe(gi).3);
        let old_inventory = self.inventory;
        let old_backpack = self.backpack;
        let old_grid = self.craft_grid;
        let ghost g0 = self.craft_grid@;
        let mut i: usize = 0;
        while i < 9
            invariant
                i <= 9,
                size == self.craft_size,
                size == 2 || size == 3,
                slots_ok(g0),
                forall|j: int| 0 <= j < i ==> #[trigger] self.craft_grid@[j] == consume_grid(g0, size)[j],
                forall|j: int| i <= j < 9 ==> #[trigger] self.craft_grid@[j] == g0[j],
                self.inventory == old_inventory,
                self.backpack == old_backpack,
                old_inventory == old(self).inventory,
                old_backpack == old(self).backpack,
                old_grid == old(self).craft_grid,
                g0 == old(self).craft_grid@,
                self.inv_held == old(self).inv_held,
                self.inv_held_count == old(self).inv_held_count,
                self.inv_open == old(self).inv_open,
                self.selected == old(self).selected,
            decreases 9 - i,
        {
            if i / 3 < size && i % 3 < size && self.craft_grid[i].0.is_some() {
                let (it, c) = self.craft_grid[i];
                if c <= 1 {
                    self.craft_grid[i] = (None, 0);
                } else {
                    self.craft_grid[i] = (it, c - 1);
                }
            }
            i = i + 1;
        }
        assert(self.craft_grid@ =~= consume_grid(g0, size));
        let (out_item, out_count) = recipe.output;
        if self.inv_add_n(out_item, out_count).is_none() {
            self.inventory = old_inventory;
            self.backpack = old_backpack;
            self.craft_grid = old_grid;
            return;
        }
        proof {
            assert(slots_ok(self.craft_grid@)) by {
                assert forall|j: int| 0 <= j < 9 implies slot_ok(#[trigger] self.craft_grid@[j]) by {
                    assert(slot_ok(g0[j]));
                }
            }
            assert(out_count >= 1);
            let (h, b, w) = spec_add_stack(old_inventory@, old_backpack@, out_item, out_count);
            assert(slots_ok(h)) by {
                assert forall|j: int| 0 <= j < h.len() implies slot_ok(#[trigger] h[j]) by {
                    assert(slot_ok(old_inventory@[j]));
                }
            }
            assert(slots_ok(b)) by {
                assert forall|j: int| 0 <= j < b.len() implies slot_ok(#[trigger] b[j]) by {
                    assert(slot_ok(old_backpack@[j]));
                }
            }
        }
    }
}


/// Take up to `count` of `item` from slots `0..k` in order; returns the
/// slots and how many are still owed.
pub open spec fn consume_slots(s: Seq<Slot>, item: ItemType, count: u32, k: int) -> (Seq<Slot>, u32)
    decreases k,
{
    if k <= 0 {
        (s, count)
    } else {
        let (s1, c1) = consume_slots(s, item, count, k - 1);
        if c1 == 0 || s1[k - 1].0 != Some(item) {
            (s1, c1)
        } else {
            let have = s1[k - 1].1;
            let taken = if have < c1 {
                have
            } else {
                c1
            };
            let left = (have - taken) as u32;
            (s1.update(k - 1, if left == 0 {
                (None, 0)
            } else {
                (Some(item), left)
            }), (c1 - taken) as u32)
        }
    }
}

/// Removing `count` of `item`: hotbar slots first, then the backpack, each
/// in slot order; returns the new hotbar and backpack.
pub open spec fn spec_consume(h: Seq<Slot>, b: Seq<Slot>, item: ItemType, count: u32) -> (Seq<Slot>, Seq<Slot>) {
    let (h1, c1) = consume_slots(h, item, count, h.len() as int);
    let (b1, _c2) = consume_slots(b, item, c1, b.len() as int);
    (h1, b1)
}

/// Consuming every ingredient stack `ings[0..k]` in order.
pub open spec fn consume_all(h: Seq<Slot>, b: Seq<Slot>, ings: Seq<(ItemType, nat)>, k: int) -> (Seq<Slot>, Seq<Slot>)
    decreases k,
{
    if k <= 0 {
        (h, b)
    } else {
        let (h1, b1) = consume_all(h, b, ings, k - 1);
        spec_consume(h1, b1, ings[k - 1].0, ings[k - 1].1 as u32)
    }
}

/// The slots hold at least the needed count of every ingredient.
pub open spec fn has_ingredients(h: Seq<Slot>, b: Seq<Slot>, ings: Seq<(ItemType, nat)>) -> bool {
    forall|k: int| 0 <= k < ings.len() ==> count_in(h, (#[trigger] ings[k]).0) + count_in(b, ings[k].0) >= ings[k].1
}

fn consume_from(s: &mut [Slot], item: ItemType, count: u32) -> (left: u32)
    ensures
        (final(s)@, left) == consume_slots(old(s)@, item, count, old(s)@.len() as int),
        final(s)@.len() == old(s)@.len(),
{
    let mut c = count;
    let mut i: usize = 0;
    while i < s.len()
        invariant
            i <= s.len(),
            s@.len() == old(s)@.len(),
            (s@, c) == consume_slots(old(s)@, item, count, i as int),
        decreases s.len() - i,
    {
        let (ty, have) = s[i];
        let hit = match ty {
            Some(x) => x == item,
            None => false,
        };
        if c != 0 && hit {
            let taken = if have < c {
                have
            } else {
                c
            };
            let left = have - taken;
            s[i] = if left == 0 {
                (None, 0)
            } else {
                (Some(item), left)
            };
            c = c - taken;
        }
        i = i + 1;
    }
    c
}

fn count_exec(s: &[Slot], item: ItemType) -> (r: u64)
    requires
        s.len() <= 64,
    ensures
        r == count_in(s@, item),
        r <= s.len() * 0xFFFF_FFFFu64,
{
    let mut sum: u64 = 0;
    let mut i: usize = 0;
    while i < s.len()
        invariant
            i <= s.len(),
            s.len() <= 64,
            sum == count_in(s@.take(i as int), item),
            sum <= i * 0xFFFF_FFFFu64,
        decreases s.len() - i,
    {
        assert(s@.take(i + 1).drop_last() =~= s@.take(i as int));
        let hit = match s[i].0 {
            Some(x) => x == item,
            None => false,
        };
        if hit {
            sum = sum + s[i].1 as u64;
        }
        i = i + 1;
    }
    assert(s@.take(s.len() as int) =~= s@);
    sum
}

impl Inventory {
    /// Remove `count` of `item`: hotbar slots first, then the backpack
    /// (see [`spec_consume`]).
    pub fn consume_inventory_item(&mut self, item: ItemType, count: u32)
        ensures
            (final(self).inventory@, final(self).backpack@) == spec_consume(
                old(self).inventory@,
                old(self).backpack@,
                item,
                count,
            ),
            final(self).craft_grid == old(self).craft_grid,
            final(self).craft_size == old(self).craft_size,
            final(self).inv_held == old(self).inv_held,
            final(self).inv_held_count == old(self).inv_held_count,
            final(self).inv_open == old(self).inv_open,
            final(self).selected == old(self).selected,
    {
        let c = consume_from(&mut self.inventory, item, count);
        consume_from(&mut self.backpack, item, c);
    }
}


impl Inventory {
    /// Quick-craft the recipe with key `key` from the hotbar and backpack:
    /// tool recipes need the 3x3 table panel open; every ingredient must be
    /// available; the ingredients are consumed (see [`consume_all`]) and
    /// the output added; if the output finds no slot nothing changes.
    /// Returns whether the item was crafted.
    pub fn craft(&mut self, key: char) -> (crafted: bool)
        requires
            old(self).wf(),
        ensures
            final(self).craft_grid == old(self).craft_grid,
            final(self).craft_size == old(self).craft_size,
            final(self).inv_held == old(self).inv_held,
            final(self).inv_held_count == old(self).inv_held_count,
            final(self).inv_open == old(self).inv_open,
            final(self).selected == old(self).selected,
            ({
                let h0 = old(self).inventory@;
                let b0 = old(self).backpack@;
                match key_index_from(key, 0) {
                    None => !crafted && final(self).inventory == old(self).inventory && final(self).backpack
                        == old(self).backpack,
                    Some(i) => {
                        let out = spec_recipe(i).3;
                        let ings = index_ingredients(i);
                        if spec_recipe(i).5 && !(old(self).inv_open && old(self).craft_size == 3) || !has_ingredients(
                            h0,
                            b0,
                            ings,
                        ) {
                            !crafted && final(self).inventory == old(self).inventory && final(self).backpack
                                == old(self).backpack
                        } else {
                            let (h1, b1) = consume_all(h0, b0, ings, ings.len() as int);
                            let (h2, b2, w) = spec_add_stack(h1, b1, out.0, out.1);
                            if w is Some {
                                crafted && final(self).inventory@ == h2 && final(self).backpack@ == b2
                            } else {
                                !crafted && final(self).inventory == old(self).inventory && final(self).backpack
                                    == old(self).backpack
                            }
                        }
                    },
                }
            }),
    {
        let found = recipe_by_key(key);
        proof {
            match found {
                Some(rec) => {
                    let i = choose|i: int| #[trigger] is_recipe(rec, i) && forall|j: int| 0 <= j < i ==> (#[trigger] spec_recipe(j)).4 != key;
                    crate::items::lemma_key_index(key, i, 0);
                },
                None => {
                    crate::items::lemma_no_key(key, 0);
                },
            }
        }
        let recipe = match found {
            Some(r) => r,
            None => return false,
        };
        let ghost gi = choose|i: int| #[trigger] is_recipe(recipe, i) && forall|j: int| 0 <= j < i ==> (#[trigger] spec_recipe(j)).4 != key;
        if recipe.requires_table && !(self.inv_open && self.craft_size == 3) {
            return false;
        }
        let ingredients = recipe_ingredients(&recipe);
        let ghost ings = index_ingredients(gi);
        proof {
            crate::items::lemma_ingredient_counts_small(recipe);
            assert(spec_ingredients(recipe) =~= ings);
        }
        let mut k: usize = 0;
        while k < ingredients.len()
            invariant
                k <= ingredients.len(),
                ingredients.len() == ings.len(),
                forall|j: int| 0 <= j < ingredients.len() ==> (#[trigger] ingredients[j]).0 == ings[j].0 && ingredients[j].1 == ings[j].1,
                forall|j: int| 0 <= j < k ==> count_in(self.inventory@, (#[trigger] ings[j]).0) + count_in(self.backpack@, ings[j].0) >= ings[j].1,
                *self == *old(self),
                key_index_from(key, 0) == Some(gi),
                ings == index_ingredients(gi),
                !(spec_recipe(gi).5 && !(self.inv_open && self.craft_size == 3)),
            decreases ingredients.len() - k,
        {
            let (item, needed) = ingredients[k];
            let have = count_exec(&self.inventory, item) + count_exec(&self.backpack, item);
            if have < needed as u64 {
                assert(!has_ingredients(self.inventory@, self.backpack@, ings)) by {
                    assert(count_in(self.inventory@, ings[k as int].0) + count_in(self.backpack@, ings[k as int].0) < ings[k as int].1);
                }
                return false;
            }
            k = k + 1;
        }
        let old_inventory = self.inventory;
        let old_backpack = self.backpack;
        let mut j: usize = 0;
        while j < ingredients.len()
            invariant
                j <= ingredients.len(),
                ingredients.len() == ings.len(),
                forall|m: int| 0 <= m < ingredients.len() ==> (#[trigger] ingredients[m]).0 == ings[m].0 && ingredients[m].1 == ings[m].1,
                (self.inventory@, self.backpack@) == consume_all(old_inventory@, old_backpack@, ings, j as int),
                self.craft_grid == old(self).craft_grid,
                self.craft_size == old(self).craft_size,
                self.inv_held == old(self).inv_held,
                self.inv_held_count == old(self).inv_held_count,
                self.inv_open == old(self).inv_open,
                self.selected == old(self).selected,
            decreases ingredients.len() - j,
        {
            let (item, needed) = ingredients[j];
            self.consume_inventory_item(item, needed);
            j = j + 1;
        }
        let (out_item, out_count) = recipe.output;
        if self.inv_add_n(out_item, out_count).is_none() {
            self.inventory = old_inventory;
            self.backpack = old_backpack;
            return false;
        }
        true
    }

    /// The block type the selected hotbar slot would place, or `None` when
    /// it holds no block (tools and sticks are not placeable) or is empty.
    pub fn selected_block(&self) -> (r: Option<BlockType>)
        requires
            self.wf(),
        ensures
            r == (match self.inventory@[self.selected as int] {
                (Some(ItemType::Block(t)), n) => if n > 0 {
                    Some(t)
                } else {
                    None
                },
                _ => None,
            }),
    {
        match self.inventory[self.selected] {
            (Some(ItemType::Block(t)), n) => if n > 0 {
                Some(t)
            } else {
                None
            },
            _ => None,
        }
    }

    /// Use up one item of the selected slot after a successful place (the
    /// slot empties at zero).
    pub fn take_one_selected(&mut self)
        requires
            old(self).wf(),
        ensures
            final(self).wf(),
            final(self).inventory@ == old(self).inventory@.update(
                old(self).selected as int,
                take_one(old(self).inventory@[old(self).selected as int]),
            ),
            final(self).backpack == old(self).backpack,
            final(self).craft_grid == old(self).craft_grid,
            final(self).craft_size == old(self).craft_size,
            final(self).inv_held == old(self).inv_held,
            final(self).inv_held_count == old(self).inv_held_count,
            final(self).inv_open == old(self).inv_open,
            final(self).selected == old(self).selected,
    {
        let s = self.selected;
        let (it, n) = self.inventory[s];
        self.inventory[s] = if n <= 1 {
            (None, 0)
        } else {
            (it, n - 1)
        };
        assert(slots_ok(self.inventory@)) by {
            assert forall|j: int| 0 <= j < NUM_SLOTS implies slot_ok(#[trigger] self.inventory@[j]) by {
                assert(slot_ok(old(self).inventory@[j]));
            }
        }
    }
}


impl Inventory {
    /// Turn the hotbar selection by `notches` wheel notches, wrapping
    /// around the slots.
    pub fn scroll_hotbar(&mut self, notches: i32)
        requires
            old(self).wf(),
        ensures
            final(self).wf(),
            *final(self) == (Inventory {
                selected: ((old(self).selected + notches) % (NUM_SLOTS as int)) as usize,
                ..*old(self)
            }),
    {
        let shifted: u64 = (self.selected as u64 + 2147483648u64) as u64;
        let y: u64 = if notches >= 0 {
            shifted + notches as u64
        } else {
            shifted - ((-(notches as i64)) as u64)
        };
        assert(y == self.selected + notches + 2147483648);
        assert(y % 8 == (self.selected + notches) % 8);
        let r: usize = (y % 8) as usize;
        self.selected = r;
    }
}


/// One hotbar slot in the window title: its 1-based number, then
/// `name:count`, or an em dash when empty.
pub open spec fn slot_text(i: nat, s: Slot) -> Seq<char> {
    decimal(i + 1) + "."@ + match s.0 {
        Some(t) => crate::items::spec_item_name(t) + ":"@ + decimal(s.1 as nat),
        None => "—"@,
    }
}

/// The first `n` slots' texts, separated by spaces.
pub open spec fn slots_text(slots: Seq<Slot>, n: nat) -> Seq<char>
    decreases n,
{
    if n == 0 {
        seq![]
    } else if n == 1 {
        slot_text(0, slots[0])
    } else {
        slots_text(slots, (n - 1) as nat) + " "@ + slot_text((n - 1) as nat, slots[n - 1])
    }
}

impl Inventory {
    /// The hotbar as the window title lists it (see [`slot_text`]).
    pub fn hotbar_summary(&self) -> (r: String)
        ensures
            r@ == slots_text(self.inventory@, NUM_SLOTS as nat),
    {
        let mut out: Vec<char> = Vec::new();
        let mut i: usize = 0;
        while i < NUM_SLOTS
            invariant
                i <= NUM_SLOTS,
                out@ == slots_text(self.inventory@, i as nat),
            decreases NUM_SLOTS - i,
        {
            let ghost before = out@;
            if i > 0 {
                push_str_chars(&mut out, " ");
            }
            push_decimal(&mut out, (i + 1) as u64);
            push_str_chars(&mut out, ".");
            let (kind, n) = self.inventory[i];
            match kind {
                Some(t) => {
                    push_str_chars(&mut out, t.name());
                    push_str_chars(&mut out, ":");
                    push_decimal(&mut out, n as u64);
                },
                None => {
                    push_str_chars(&mut out, "—");
                },
            }
            proof {
                let s = self.inventory@[i as int];
                if i == 0 {
                    assert(out@ =~= slot_text(0, s));
                } else {
                    assert(out@ =~= before + " "@ + slot_text(i as nat, s));
                }
            }
            i = i + 1;
        }
        chars_to_string(&out)
    }

    /// The selected slot's item name, or `empty`.
    pub fn selected_name(&self) -> (r: &'static str)
        requires
            self.wf(),
        ensures
            r@ == (match self.inventory@[self.selected as int].0 {
                Some(t) => crate::items::spec_item_name(t),
                None => "empty"@,
            }),
    {
        match self.inventory[self.selected].0 {
            Some(t) => t.name(),
            None => "empty",
        }
    }
}

/// The stacks an inventory holds: hotbar, backpack, crafting grid and the
/// cursor stack.
pub open spec fn stacks_of(inv: Inventory) -> (Seq<Slot>, Seq<Slot>, Seq<Slot>, Slot) {
    (inv.inventory@, inv.backpack@, inv.craft_grid@, inv.held_slot())
}

/// The slot a one-index click `idx` lands on: backpack `0..18`, hotbar
/// `18..26`, then crafting cell `idx - 26`.
pub open spec fn slot_at(m: (Seq<Slot>, Seq<Slot>, Seq<Slot>, Slot), idx: usize) -> Slot {
    if idx < BACKPACK_SLOTS {
        m.1[idx as int]
    } else if idx < PANEL_SLOTS {
        m.0[idx - BACKPACK_SLOTS]
    } else if idx - PANEL_SLOTS < 9 {
        m.2[idx - PANEL_SLOTS]
    } else {
        (None, 0)
    }
}

/// A left click on one-index slot `idx` with a `size` grid (see
/// [`spec_click`]); inactive grid cells ignore it.
pub open spec fn spec_panel_click(
    m: (Seq<Slot>, Seq<Slot>, Seq<Slot>, Slot),
    size: usize,
    idx: usize,
) -> (Seq<Slot>, Seq<Slot>, Seq<Slot>, Slot) {
    let (h, b, g, held) = m;
    let (h2, s2) = spec_click(held, slot_at(m, idx));
    if idx < BACKPACK_SLOTS {
        (h, b.update(idx as int, s2), g, h2)
    } else if idx < PANEL_SLOTS {
        (h.update(idx - BACKPACK_SLOTS, s2), b, g, h2)
    } else if grid_cell_active((idx - PANEL_SLOTS) as usize, size) {
        (h, b, g.update(idx - PANEL_SLOTS, s2), h2)
    } else {
        m
    }
}

/// Dragging from `origin` and releasing over `target`: the origin is
/// clicked, then the target when it is another slot.
pub open spec fn spec_drag(
    m: (Seq<Slot>, Seq<Slot>, Seq<Slot>, Slot),
    size: usize,
    origin: usize,
    target: Option<usize>,
) -> (Seq<Slot>, Seq<Slot>, Seq<Slot>, Slot) {
    let m1 = spec_panel_click(m, size, origin);
    match target {
        Some(t) if t != origin => spec_panel_click(m1, size, t),
        _ => m1,
    }
}

/// Neither click of a drag overflows a stack.
pub open spec fn drag_fits(
    m: (Seq<Slot>, Seq<Slot>, Seq<Slot>, Slot),
    size: usize,
    origin: usize,
    target: Option<usize>,
) -> bool {
    &&& click_fits(m.3, slot_at(m, origin))
    &&& match target {
        Some(t) if t != origin => {
            let m1 = spec_panel_click(m, size, origin);
            click_fits(m1.3, slot_at(m1, t))
        },
        _ => true,
    }
}

/// The slot under the cursor as one index: the hovered panel slot, else
/// the hovered crafting cell after the panel's slots.
pub fn hovered_slot(inv_hover: Option<usize>, craft_hover: Option<usize>) -> (r: Option<usize>)
    requires
        craft_hover matches Some(g) ==> g <= usize::MAX - PANEL_SLOTS,
    ensures
        r == (match inv_hover {
            Some(i) => Some(i),
            None => match craft_hover {
                Some(g) => Some((g + PANEL_SLOTS) as usize),
                None => None,
            },
        }),
{
    match inv_hover {
        Some(i) => Some(i),
        None => match craft_hover {
            Some(g) => Some(g + PANEL_SLOTS),
            None => None,
        },
    }
}

impl Inventory {
    /// A left click on one-index slot `idx` (see [`spec_panel_click`]).
    pub fn panel_click(&mut self, idx: usize)
        requires
            old(self).wf(),
            click_fits(old(self).held_slot(), slot_at(stacks_of(*old(self)), idx)),
        ensures
            stacks_of(*final(self)) == spec_panel_click(stacks_of(*old(self)), old(self).craft_size, idx),
            final(self).wf(),
            forall|t: ItemType| #[trigger] final(self).total_of(t) == old(self).total_of(t),
            final(self).craft_size == old(self).craft_size,
            final(self).inv_open == old(self).inv_open,
            final(self).selected == old(self).selected,
    {
        if idx < PANEL_SLOTS {
            self.inv_slot_click(idx);
        } else {
            self.craft_slot_click(idx - PANEL_SLOTS);
        }
    }

    /// Release of a drag that began on `origin` (see [`hovered_slot`]) over
    /// `target`: with an origin, the origin is clicked, then the target when
    /// it is another slot; with none, a release over the crafting output
    /// crafts, and anywhere else the cursor stack goes back into the slots.
    pub fn drag_release(&mut self, origin: Option<usize>, target: Option<usize>, output_hover: bool)
        requires
            old(self).wf(),
            origin matches Some(o) ==> drag_fits(stacks_of(*old(self)), old(self).craft_size, o, target),
            (origin is None && !output_hover) ==> (old(self).inv_held matches Some(item) ==> spec_stash(
                old(self).inventory@,
                old(self).backpack@,
                item,
                old(self).inv_held_count,
            ).3),
        ensures
            final(self).wf(),
            final(self).craft_size == old(self).craft_size,
            final(self).inv_open == old(self).inv_open,
            final(self).selected == old(self).selected,
            origin matches Some(o) ==> stacks_of(*final(self)) == spec_drag(
                stacks_of(*old(self)),
                old(self).craft_size,
                o,
                target,
            ),
            origin is Some ==> forall|t: ItemType| #[trigger] final(self).total_of(t) == old(self).total_of(t),
            (origin is None && output_hover) ==> spec_output_click(*old(self), *final(self)),
            (origin is None && !output_hover) ==> match old(self).inv_held {
                Some(item) => {
                    let (h, b, _p, _f) = spec_stash(old(self).inventory@, old(self).backpack@, item, old(self).inv_held_count);
                    &&& final(self).inventory@ == h
                    &&& final(self).backpack@ == b
                    &&& final(self).craft_grid == old(self).craft_grid
                    &&& final(self).inv_held is None
                    &&& final(self).inv_held_count == 0
                },
                None => *final(self) == *old(self),
            },
    {
        match origin {
            Some(o) => {
                self.panel_click(o);
                if let Some(t) = target {
                    if t != o {
                        self.panel_click(t);
                    }
                }
            },
            None => {
                if output_hover {
                    self.craft_grid_output();
                } else if let Some(item) = self.inv_held {
                    let n = self.inv_held_count;
                    self.inv_held = None;
                    self.inv_held_count = 0;
                    self.stash_back(item, n);
                }
            },
        }
    }
}

/// Would a block placed at `cell` overlap the player standing in column
/// (`px`, `pz`) whose body spans from the cell row `feet` (rounded down)
/// up to below `head` (rounded up)?
pub open spec fn spec_overlaps_player(cell: [i32; 3], px: i32, pz: i32, feet: i32, head: i32) -> bool {
    px == cell[0] && pz == cell[2] && cell[1] + 1 > feet && cell[1] < head
}

pub fn overlaps_player(cell: [i32; 3], px: i32, pz: i32, feet: i32, head: i32) -> (r: bool)
    ensures
        r == spec_overlaps_player(cell, px, pz, feet, head),
{
    px == cell[0] && pz == cell[2] && cell[1] as i64 + 1 > feet as i64 && cell[1] < head
}


/// Turning the hotbar wheel `n` notches and then `n` notches back selects
/// the slot selected before.
pub proof fn lemma_scroll_undo(selected: usize, n: int)
    requires
        selected < NUM_SLOTS,
    ensures
        ((((selected + n) % (NUM_SLOTS as int)) + (-n)) % (NUM_SLOTS as int)) == selected,
{
    let m = NUM_SLOTS as int;
    let a = selected + n;
    vstd::arithmetic::div_mod::lemma_add_mod_noop_right(-n, a, m);
    assert(-n + a == selected as int);
}


/// What a left click does in every case: with an empty cursor the slot's
/// whole stack is picked up; a held stack goes down whole onto an empty
/// slot; onto a stack of the same item it merges (counts add, cursor
/// empties); onto a different item the two stacks swap.
pub proof fn lemma_click_cases(held: Slot, slot: Slot)
    ensures
        (held.0 is None && slot.0 is Some) ==> spec_click(held, slot) == ((slot.0, slot.1), (None::<ItemType>, 0u32)),
        (held.0 is Some && slot.0 is None) ==> spec_click(held, slot) == ((None::<ItemType>, 0u32), (held.0, held.1)),
        (held.0 is Some && held.0 == slot.0 && held.1 + slot.1 <= u32::MAX) ==> spec_click(held, slot) == (
            (None::<ItemType>, 0u32),
            (slot.0, (held.1 + slot.1) as u32),
        ),
        (held.0 is Some && slot.0 is Some && held.0 != slot.0) ==> spec_click(held, slot) == (slot, held),
        (held.0 is None && slot.0 is None) ==> spec_click(held, slot) == (held, slot),
{
}

/// What a right click does in every case: a held stack drops exactly one
/// item onto an empty slot or a slot of the same item (the cursor empties
/// when that was its last item); onto a different item nothing moves; with
/// an empty cursor it picks up the larger half (rounded up) of the slot's
/// stack, leaving the rest.
pub proof fn lemma_right_click_cases(held: Slot, slot: Slot)
    requires
        slot_ok(held),
        slot_ok(slot),
        right_click_fits(held, slot),
    ensures
        (held.0 is Some && (slot.0 is None || slot.0 == held.0)) ==> {
            let (h2, s2) = spec_right_click(held, slot);
            &&& s2 == (held.0, (slot.1 + 1) as u32)
            &&& h2.1 == held.1 - 1
            &&& (h2.1 == 0 ==> h2.0 is None)
            &&& (h2.1 > 0 ==> h2.0 == held.0)
        },
        (held.0 is Some && slot.0 is Some && slot.0 != held.0) ==> spec_right_click(held, slot) == (held, slot),
        (held.0 is None && slot.0 is Some) ==> {
            let (h2, s2) = spec_right_click(held, slot);
            &&& h2.0 == slot.0
            &&& h2.1 + s2.1 == slot.1
            &&& h2.1 >= s2.1
            &&& h2.1 <= s2.1 + 1
            &&& (s2.1 == 0 ==> s2.0 is None)
            &&& (s2.1 > 0 ==> s2.0 == slot.0)
        },
        (held.0 is None && slot.0 is None) ==> spec_right_click(held, slot) == (held, slot),
{
}
} // verus!
