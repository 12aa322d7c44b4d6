//! Decisions of the game's interface that carry no geometry: the movement
//! mode, the settings page's rows and what input on them does, what keys
//! and mouse buttons do on each screen, and the GPU facts the debug overlay
//! lists.
use vstd::prelude::*;

use crate::inventory::NUM_SLOTS;
use crate::settings::{clamp_int, Settings};
use crate::text::{chars_to_string, push_signed_decimal, push_str_chars, signed_decimal};

verus! {

/// How the player moves: walking under gravity, or flying.
#[derive(Clone, Copy, Debug, PartialEq, Eq, Structural)]
pub enum MoveMode {
    Walk,
    Fly,
}

impl MoveMode {
    /// The other mode (the fly toggle).
    pub fn toggled(self) -> (r: MoveMode)
        ensures
            r == (match self {
                MoveMode::Walk => MoveMode::Fly,
                MoveMode::Fly => MoveMode::Walk,
            }),
    {
        match self {
            MoveMode::Walk => MoveMode::Fly,
            MoveMode::Fly => MoveMode::Walk,
        }
    }

    pub fn is_flying(self) -> (r: bool)
        ensures
            r == (self == MoveMode::Fly),
    {
        match self {
            MoveMode::Fly => true,
            MoveMode::Walk => false,
        }
    }
}

/// Slider/toggle rows on the settings page, in draw order.
#[derive(Clone, Copy, Debug, PartialEq, Eq, Structural)]
pub enum SettingsRow {
    RenderDistance,
    CloudDistance,
    Shadows,
    Clouds,
    RtShadows,
    RtAo,
    GodRays,
}

/// Number of rows on the settings page.
pub const SETTINGS_ROWS: usize = 7;

/// The row drawn at position `i` (top first).
pub open spec fn spec_settings_row(i: int) -> Option<SettingsRow> {
    if i == 0 {
        Some(SettingsRow::RenderDistance)
    } else if i == 1 {
        Some(SettingsRow::CloudDistance)
    } else if i == 2 {
        Some(SettingsRow::Shadows)
    } else if i == 3 {
        Some(SettingsRow::Clouds)
    } else if i == 4 {
        Some(SettingsRow::RtShadows)
    } else if i == 5 {
        Some(SettingsRow::RtAo)
    } else if i == 6 {
        Some(SettingsRow::GodRays)
    } else {
        None
    }
}

/// The row drawn at position `i` (top first), if there is one.
pub fn settings_row(i: usize) -> (r: Option<SettingsRow>)
    ensures
        r == spec_settings_row(i as int),
{
    match i {
        0 => Some(SettingsRow::RenderDistance),
        1 => Some(SettingsRow::CloudDistance),
        2 => Some(SettingsRow::Shadows),
        3 => Some(SettingsRow::Clouds),
        4 => Some(SettingsRow::RtShadows),
        5 => Some(SettingsRow::RtAo),
        6 => Some(SettingsRow::GodRays),
        _ => None,
    }
}

/// All rows in draw order.
pub fn settings_row_list() -> (r: [SettingsRow; 7])
    ensures
        forall|i: int| 0 <= i < 7 ==> spec_settings_row(i) == Some(#[trigger] r@[i]),
{
    [
        SettingsRow::RenderDistance,
        SettingsRow::CloudDistance,
        SettingsRow::Shadows,
        SettingsRow::Clouds,
        SettingsRow::RtShadows,
        SettingsRow::RtAo,
        SettingsRow::GodRays,
    ]
}

/// Rows that act on a live setting (the others are planned features).
pub open spec fn spec_row_enabled(row: SettingsRow) -> bool {
    match row {
        SettingsRow::RenderDistance | SettingsRow::CloudDistance | SettingsRow::Shadows
        | SettingsRow::Clouds => true,
        _ => false,
    }
}

pub fn row_enabled(row: SettingsRow) -> (r: bool)
    ensures
        r == spec_row_enabled(row),
{
    match row {
        SettingsRow::RenderDistance | SettingsRow::CloudDistance | SettingsRow::Shadows
        | SettingsRow::Clouds => true,
        _ => false,
    }
}

pub open spec fn spec_row_label(row: SettingsRow) -> Seq<char> {
    match row {
        SettingsRow::RenderDistance => "RENDER DISTANCE"@,
        SettingsRow::CloudDistance => "CLOUD DISTANCE"@,
        SettingsRow::Shadows => "SHADOWS"@,
        SettingsRow::Clouds => "CLOUDS"@,
        SettingsRow::RtShadows => "RT SHADOWS"@,
        SettingsRow::RtAo => "RT AMB. OCCLUSION"@,
        SettingsRow::GodRays => "GOD RAYS"@,
    }
}

/// The label in a row's left column.
pub fn row_label(row: SettingsRow) -> (r: &'static str)
    ensures
        r@ == spec_row_label(row),
{
    match row {
        SettingsRow::RenderDistance => "RENDER DISTANCE",
        SettingsRow::CloudDistance => "CLOUD DISTANCE",
        SettingsRow::Shadows => "SHADOWS",
        SettingsRow::Clouds => "CLOUDS",
        SettingsRow::RtShadows => "RT SHADOWS",
        SettingsRow::RtAo => "RT AMB. OCCLUSION",
        SettingsRow::GodRays => "GOD RAYS",
    }
}

pub open spec fn on_off(b: bool) -> Seq<char> {
    if b {
        "ON"@
    } else {
        "OFF"@
    }
}

pub open spec fn spec_row_value(row: SettingsRow, s: Settings) -> Seq<char> {
    match row {
        SettingsRow::RenderDistance => signed_decimal(s.render_distance as int) + " CHUNKS"@,
        SettingsRow::CloudDistance => signed_decimal(s.cloud_distance as int) + " CELLS"@,
        SettingsRow::Shadows => on_off(s.shadows),
        SettingsRow::Clouds => on_off(s.clouds),
        _ => "SOON"@,
    }
}

/// The value text in a row's right column.
pub fn row_value(row: SettingsRow, s: &Settings) -> (r: String)
    ensures
        r@ == spec_row_value(row, *s),
{
    let mut out: Vec<char> = Vec::new();
    match row {
        SettingsRow::RenderDistance => {
            push_signed_decimal(&mut out, s.render_distance as i64);
            push_str_chars(&mut out, " CHUNKS");
        },
        SettingsRow::CloudDistance => {
            push_signed_decimal(&mut out, s.cloud_distance as i64);
            push_str_chars(&mut out, " CELLS");
        },
        SettingsRow::Shadows => {
            push_str_chars(&mut out, if s.shadows { "ON" } else { "OFF" });
        },
        SettingsRow::Clouds => {
            push_str_chars(&mut out, if s.clouds { "ON" } else { "OFF" });
        },
        _ => {
            push_str_chars(&mut out, "SOON");
        },
    }
    assert(out@ =~= spec_row_value(row, *s));
    chars_to_string(&out)
}

/// `n` single notches on the render-distance slider, each clamped.
pub open spec fn render_steps(v: int, n: int) -> int
    decreases (if n < 0 { -n } else { n }),
{
    if n == 0 {
        v
    } else if n > 0 {
        render_steps(clamp_int(v + 1, 1, 32), n - 1)
    } else {
        render_steps(clamp_int(v - 1, 1, 32), n + 1)
    }
}

/// `n` single notches on the cloud-distance slider, each clamped.
pub open spec fn cloud_steps(v: int, n: int) -> int
    decreases (if n < 0 { -n } else { n }),
{
    if n == 0 {
        v
    } else if n > 0 {
        cloud_steps(clamp_int(v + 1, 2, 10), n - 1)
    } else {
        cloud_steps(clamp_int(v - 1, 2, 10), n + 1)
    }
}

/// What `notches` whole wheel notches over settings row `row` (by position)
/// do: sliders step once per notch, the shadows and clouds toggles flip
/// once per notch, other rows ignore the wheel.
pub open spec fn spec_wheel(s: Settings, row: Option<usize>, notches: int) -> Settings {
    match row {
        Some(0) => Settings { render_distance: render_steps(s.render_distance as int, notches) as i32, ..s },
        Some(1) => Settings { cloud_distance: cloud_steps(s.cloud_distance as int, notches) as i32, ..s },
        Some(2) => Settings { shadows: if notches % 2 == 0 { s.shadows } else { !s.shadows }, ..s },
        Some(3) => Settings { clouds: if notches % 2 == 0 { s.clouds } else { !s.clouds }, ..s },
        _ => s,
    }
}

impl Settings {
    /// Apply `notches` whole wheel notches (negative: toward the user) to
    /// the hovered row `row`. Returns whether any setting was touched (the
    /// settings file then needs writing).
    pub fn wheel(&mut self, row: Option<usize>, notches: i32) -> (dirty: bool)
        ensures
            *final(self) == spec_wheel(*old(self), row, notches as int),
            dirty == (notches != 0 && (row == Some(0usize) || row == Some(1usize) || row == Some(2usize)
                || row == Some(3usize))),
    {
        let ghost s0 = *self;
        let mut left: i32 = notches;
        let mut dirty = false;
        match row {
            Some(0) => {
                while left != 0
                    invariant
                        render_steps(s0.render_distance as int, notches as int) == render_steps(
                            self.render_distance as int,
                            left as int,
                        ),
                        *self == (Settings { render_distance: self.render_distance, ..s0 }),
                        dirty == (left != notches),
                        notches >= 0 ==> 0 <= left <= notches,
                        notches < 0 ==> notches <= left <= 0,
                    decreases (if left < 0 { -(left as int) } else { left as int }),
                {
                    if left > 0 {
                        self.step_render_distance(1);
                        left = left - 1;
                    } else {
                        self.step_render_distance(-1);
                        left = left + 1;
                    }
                    dirty = true;
                }
            },
            Some(1) => {
                while left != 0
                    invariant
                        cloud_steps(s0.cloud_distance as int, notches as int) == cloud_steps(
                            self.cloud_distance as int,
                            left as int,
                        ),
                        *self == (Settings { cloud_distance: self.cloud_distance, ..s0 }),
                        dirty == (left != notches),
                        notches >= 0 ==> 0 <= left <= notches,
                        notches < 0 ==> notches <= left <= 0,
                    decreases (if left < 0 { -(left as int) } else { left as int }),
                {
                    if left > 0 {
                        self.step_cloud_distance(1);
                        left = left - 1;
                    } else {
                        self.step_cloud_distance(-1);
                        left = left + 1;
                    }
                    dirty = true;
                }
            },
            Some(2) | Some(3) => {
                let shadows_row = row == Some(2usize);
                while left != 0
                    invariant
                        (if shadows_row {
                            *self == (Settings {
                                shadows: if (notches - left) % 2 == 0 { s0.shadows } else { !s0.shadows },
                                ..s0
                            })
                        } else {
                            *self == (Settings {
                                clouds: if (notches - left) % 2 == 0 { s0.clouds } else { !s0.clouds },
                                ..s0
                            })
                        }),
                        shadows_row == (row == Some(2usize)),
                        row == Some(2usize) || row == Some(3usize),
                        dirty == (left != notches),
                        notches >= 0 ==> 0 <= left <= notches,
                        notches < 0 ==> notches <= left <= 0,
                    decreases (if left < 0 { -(left as int) } else { left as int }),
                {
                    if left > 0 {
                        left = left - 1;
                    } else {
                        left = left + 1;
                    }
                    if shadows_row {
                        self.toggle_shadows();
                    } else {
                        self.toggle_clouds();
                    }
                    dirty = true;
                }
            },
            _ => {},
        }
        dirty
    }

    /// A slider dragged or clicked to value `v` on row `row` (0: render
    /// distance, otherwise cloud distance). Returns whether the value
    /// differed from the current one; only then is it set (clamped).
    pub fn set_slider(&mut self, row: usize, v: i32) -> (changed: bool)
        ensures
            changed == (if row == 0 { old(self).render_distance != v } else { old(self).cloud_distance != v }),
            *final(self) == (if !changed {
                *old(self)
            } else if row == 0 {
                Settings { render_distance: clamp_int(v as int, 1, 32) as i32, ..*old(self) }
            } else {
                Settings { cloud_distance: clamp_int(v as int, 2, 10) as i32, ..*old(self) }
            }),
    {
        let changed = if row == 0 {
            self.render_distance != v
        } else {
            self.cloud_distance != v
        };
        if changed {
            if row == 0 {
                self.set_render_distance(v);
            } else {
                self.set_cloud_distance(v);
            }
        }
        changed
    }

    /// A left click on the toggle row `row` (by position): row 2 flips
    /// shadows, row 3 flips clouds, others change nothing here. Returns
    /// whether a setting changed.
    pub fn click_toggle(&mut self, row: usize) -> (changed: bool)
        ensures
            changed == (row == 2 || row == 3),
            *final(self) == (if row == 2 {
                Settings { shadows: !old(self).shadows, ..*old(self) }
            } else if row == 3 {
                Settings { clouds: !old(self).clouds, ..*old(self) }
            } else {
                *old(self)
            }),
    {
        if row == 2 {
            self.toggle_shadows();
            true
        } else if row == 3 {
            self.toggle_clouds();
            true
        } else {
            false
        }
    }
}

/// Keys the game acts on when they go down.
#[derive(Clone, Copy, Debug, PartialEq, Eq, Structural)]
pub enum GameKey {
    /// G: walk/fly.
    ToggleMode,
    /// E: the inventory panel.
    Inventory,
    /// O: the settings page.
    Settings,
    Escape,
    /// F3: the debug panel.
    DebugPanel,
    /// Digit keys 1..8, as hotbar slot 0..7.
    Hotbar(usize),
    /// F: capture the mouse again.
    RetryGrab,
    /// `[` and `]`: mouse sensitivity down / up.
    SensitivityDown,
    SensitivityUp,
}

/// Which screens are up, as the key handler sees them.
#[derive(Clone, Copy, Debug, PartialEq, Eq, Structural)]
pub struct Screens {
    pub inv_open: bool,
    pub settings_open: bool,
    pub debug_visible: bool,
    /// A settings slider is being dragged.
    pub dragging_slider: bool,
}

/// What the host does for a key, in order.
#[derive(Clone, Copy, Debug, PartialEq, Eq, Structural)]
pub enum ScreenAction {
    ToggleMode,
    /// Open the inventory panel with the 2x2 grid.
    OpenInventory,
    /// Close the panel, returning every held and grid stack.
    CloseInventory,
    GrabCursor,
    ReleaseCursor,
    SelectSlot(usize),
    /// Scale mouse sensitivity (true: up).
    ScaleSensitivity(bool),
    /// Save the world and exit.
    Quit,
}

/// The screens and the actions after `key` goes down with the mouse
/// captured or not. E toggles the inventory; O toggles the settings page;
/// ESC quits from the settings page, closes the inventory, and in game
/// opens the settings page (so ESC twice quits); O and ESC end a slider
/// drag. The cursor is released while a screen opens and captured again
/// when one closes.
pub open spec fn spec_key_pressed(s: Screens, key: GameKey, grabbed: bool) -> (Screens, Seq<ScreenAction>) {
    match key {
        GameKey::ToggleMode => (s, seq![ScreenAction::ToggleMode]),
        GameKey::Inventory => if s.inv_open {
            (Screens { inv_open: false, ..s }, seq![ScreenAction::CloseInventory, ScreenAction::GrabCursor])
        } else {
            (Screens { inv_open: true, ..s }, seq![ScreenAction::OpenInventory, ScreenAction::ReleaseCursor])
        },
        GameKey::Settings => if s.settings_open {
            (Screens { settings_open: false, dragging_slider: false, ..s }, seq![ScreenAction::GrabCursor])
        } else {
            (Screens { settings_open: true, dragging_slider: false, ..s }, seq![ScreenAction::ReleaseCursor])
        },
        GameKey::Escape => if s.settings_open {
            (Screens { dragging_slider: false, ..s }, seq![ScreenAction::Quit])
        } else if s.inv_open {
            (
                Screens { inv_open: false, dragging_slider: false, ..s },
                seq![ScreenAction::CloseInventory, ScreenAction::GrabCursor],
            )
        } else {
            (Screens { settings_open: true, dragging_slider: false, ..s }, seq![ScreenAction::ReleaseCursor])
        },
        GameKey::DebugPanel => (Screens { debug_visible: !s.debug_visible, ..s }, Seq::empty()),
        GameKey::Hotbar(i) => if i < NUM_SLOTS {
            (s, seq![ScreenAction::SelectSlot(i)])
        } else {
            (s, Seq::empty())
        },
        GameKey::RetryGrab => if grabbed {
            (s, Seq::empty())
        } else {
            (s, seq![ScreenAction::GrabCursor])
        },
        GameKey::SensitivityDown => (s, seq![ScreenAction::ScaleSensitivity(false)]),
        GameKey::SensitivityUp => (s, seq![ScreenAction::ScaleSensitivity(true)]),
    }
}

/// Decide what a key press does (see [`spec_key_pressed`]); `grabbed`
/// says whether the mouse is captured now.
pub fn key_pressed(s: Screens, key: GameKey, grabbed: bool) -> (r: (Screens, Vec<ScreenAction>))
    ensures
        r.0 == spec_key_pressed(s, key, grabbed).0,
        r.1@ == spec_key_pressed(s, key, grabbed).1,
{
    let mut next = s;
    let mut acts: Vec<ScreenAction> = Vec::new();
    match key {
        GameKey::ToggleMode => {
            acts.push(ScreenAction::ToggleMode);
        },
        GameKey::Inventory => {
            if s.inv_open {
                next.inv_open = false;
                acts.push(ScreenAction::CloseInventory);
                acts.push(ScreenAction::GrabCursor);
            } else {
                next.inv_open = true;
                acts.push(ScreenAction::OpenInventory);
                acts.push(ScreenAction::ReleaseCursor);
            }
        },
        GameKey::Settings => {
            next.settings_open = !s.settings_open;
            next.dragging_slider = false;
            if next.settings_open {
                acts.push(ScreenAction::ReleaseCursor);
            } else {
                acts.push(ScreenAction::GrabCursor);
            }
        },
        GameKey::Escape => {
            next.dragging_slider = false;
            if s.settings_open {
                acts.push(ScreenAction::Quit);
            } else if s.inv_open {
                next.inv_open = false;
                acts.push(ScreenAction::CloseInventory);
                acts.push(ScreenAction::GrabCursor);
            } else {
                next.settings_open = true;
                acts.push(ScreenAction::ReleaseCursor);
            }
        },
        GameKey::DebugPanel => {
            next.debug_visible = !s.debug_visible;
        },
        GameKey::Hotbar(i) => {
            if i < NUM_SLOTS {
                acts.push(ScreenAction::SelectSlot(i));
            }
        },
        GameKey::RetryGrab => {
            if !grabbed {
                acts.push(ScreenAction::GrabCursor);
            }
        },
        GameKey::SensitivityDown => {
            acts.push(ScreenAction::ScaleSensitivity(false));
        },
        GameKey::SensitivityUp => {
            acts.push(ScreenAction::ScaleSensitivity(true));
        },
    }
    proof {
        assert(acts@ == spec_key_pressed(s, key, grabbed).1);
    }
    (next, acts)
}

/// Mouse buttons the game reads.
#[derive(Clone, Copy, Debug, PartialEq, Eq, Structural)]
pub enum MouseButton {
    Left,
    Right,
}

/// What a mouse button change asks of the host.
#[derive(Clone, Copy, Debug, PartialEq, Eq, Structural)]
pub enum ClickAction {
    /// Start dragging slider row 0 or 1, jumping it to the cursor.
    StartDrag(usize),
    /// Flip toggle row 2 (shadows) or 3 (clouds).
    ToggleRow(usize),
    /// A slider drag ended: write the settings.
    EndDrag,
    /// Inventory panel: remember the pressed slot as a drag origin.
    PanelPress,
    /// Inventory panel: finish the drag over the hovered slot.
    PanelRelease,
    /// Inventory panel: right click on the hovered slot.
    PanelRightClick,
    GrabCursor,
    /// Begin / stop holding to mine.
    MineStart,
    MineStop,
    /// Open a targeted crafting table, else place the selected block.
    UseTarget,
}

/// The screens and the action after `button` goes down (`pressed`) or up.
/// On the settings page a left press grabs a slider (rows 0, 1) or flips a
/// toggle (rows 2, 3), and any release ends a drag; the inventory panel
/// takes left press/release and right press; in game, a left press with the
/// mouse free captures it, and with the mouse captured the left button
/// mines while held and the right button uses the target.
pub open spec fn spec_mouse_button(
    s: Screens,
    button: MouseButton,
    pressed: bool,
    hover: Option<usize>,
    grabbed: bool,
) -> (Screens, Option<ClickAction>) {
    if s.settings_open {
        if pressed {
            if button == MouseButton::Left {
                match hover {
                    Some(r) => if r == 0 || r == 1 {
                        (Screens { dragging_slider: true, ..s }, Some(ClickAction::StartDrag(r)))
                    } else if r == 2 || r == 3 {
                        (s, Some(ClickAction::ToggleRow(r)))
                    } else {
                        (s, None)
                    },
                    None => (s, None),
                }
            } else {
                (s, None)
            }
        } else if s.dragging_slider {
            (Screens { dragging_slider: false, ..s }, Some(ClickAction::EndDrag))
        } else {
            (s, None)
        }
    } else if s.inv_open {
        match button {
            MouseButton::Left => (s, Some(if pressed { ClickAction::PanelPress } else { ClickAction::PanelRelease })),
            MouseButton::Right => (s, if pressed { Some(ClickAction::PanelRightClick) } else { None }),
        }
    } else if pressed && button == MouseButton::Left && !grabbed {
        (s, Some(ClickAction::GrabCursor))
    } else if grabbed {
        match button {
            MouseButton::Left => (s, Some(if pressed { ClickAction::MineStart } else { ClickAction::MineStop })),
            MouseButton::Right => (s, if pressed { Some(ClickAction::UseTarget) } else { None }),
        }
    } else {
        (s, None)
    }
}

/// Decide what a mouse button change does (see [`spec_mouse_button`]);
/// `hover` is the settings row under the cursor.
pub fn mouse_button(s: Screens, button: MouseButton, pressed: bool, hover: Option<usize>, grabbed: bool) -> (r: (
    Screens,
    Option<ClickAction>,
))
    ensures
        r == spec_mouse_button(s, button, pressed, hover, grabbed),
{
    let left = match button {
        MouseButton::Left => true,
        MouseButton::Right => false,
    };
    if s.settings_open {
        if pressed {
            if left {
                match hover {
                    Some(r) => {
                        if r == 0 || r == 1 {
                            (Screens { dragging_slider: true, ..s }, Some(ClickAction::StartDrag(r)))
                        } else if r == 2 || r == 3 {
                            (s, Some(ClickAction::ToggleRow(r)))
                        } else {
                            (s, None)
                        }
                    },
                    None => (s, None),
                }
            } else {
                (s, None)
            }
        } else if s.dragging_slider {
            (Screens { dragging_slider: false, ..s }, Some(ClickAction::EndDrag))
        } else {
            (s, None)
        }
    } else if s.inv_open {
        if left {
            (s, Some(if pressed { ClickAction::PanelPress } else { ClickAction::PanelRelease }))
        } else {
            (s, if pressed { Some(ClickAction::PanelRightClick) } else { None })
        }
    } else if pressed && left && !grabbed {
        (s, Some(ClickAction::GrabCursor))
    } else if grabbed {
        if left {
            (s, Some(if pressed { ClickAction::MineStart } else { ClickAction::MineStop }))
        } else {
            (s, if pressed { Some(ClickAction::UseTarget) } else { None })
        }
    } else {
        (s, None)
    }
}

/// E twice leaves the inventory as it was; O twice leaves the settings
/// page as it was (ending any drag); in game, ESC twice quits.
pub proof fn lemma_screen_keys_undo(s: Screens, grabbed: bool)
    ensures
        (!s.inv_open && !s.settings_open) ==> spec_key_pressed(
            spec_key_pressed(s, GameKey::Escape, grabbed).0,
            GameKey::Escape,
            grabbed,
        ).1 == seq![ScreenAction::Quit],
        spec_key_pressed(spec_key_pressed(s, GameKey::Inventory, grabbed).0, GameKey::Inventory, grabbed).0 == s,
        spec_key_pressed(spec_key_pressed(s, GameKey::Settings, grabbed).0, GameKey::Settings, grabbed).0
            == (Screens { dragging_slider: false, ..s }),
{
}

/// GPU/driver facts captured at start-up for the debug overlay.
#[derive(Clone, Debug, Default)]
pub struct GpuInfo {
    pub name: String,
    pub vulkan_api: String,
    pub driver_version: u32,
    pub device_id: u32,
    pub vendor_id: u32,
    pub swapchain_format: String,
    pub msaa: String,
}


proof fn lemma_render_steps_range(v: int, n: int)
    requires
        1 <= v <= 32,
    ensures
        1 <= render_steps(v, n) <= 32,
    decreases (if n < 0 { -n } else { n }),
{
    if n > 0 {
        lemma_render_steps_range(clamp_int(v + 1, 1, 32), n - 1);
    } else if n < 0 {
        lemma_render_steps_range(clamp_int(v - 1, 1, 32), n + 1);
    }
}

proof fn lemma_cloud_steps_range(v: int, n: int)
    requires
        2 <= v <= 10,
    ensures
        2 <= cloud_steps(v, n) <= 10,
    decreases (if n < 0 { -n } else { n }),
{
    if n > 0 {
        lemma_cloud_steps_range(clamp_int(v + 1, 2, 10), n - 1);
    } else if n < 0 {
        lemma_cloud_steps_range(clamp_int(v - 1, 2, 10), n + 1);
    }
}

/// Wheel notches never push a slider out of its range.
pub proof fn lemma_wheel_in_range(s: Settings, row: Option<usize>, notches: int)
    requires
        s.in_range(),
    ensures
        spec_wheel(s, row, notches).in_range(),
{
    lemma_render_steps_range(s.render_distance as int, notches);
    lemma_cloud_steps_range(s.cloud_distance as int, notches);
}

/// Toggling a row twice with the wheel (two notches) leaves it as it was;
/// in range, one notch up and one back down returns a slider to its value.
pub proof fn lemma_wheel_round_trip(s: Settings, row: usize)
    requires
        s.in_range(),
        row < 4,
    ensures
        row >= 2 ==> spec_wheel(s, Some(row), 2) == s,
        (row == 0 && s.render_distance < 32) ==> spec_wheel(spec_wheel(s, Some(row), 1), Some(row), -1) == s,
        (row == 1 && s.cloud_distance < 10) ==> spec_wheel(spec_wheel(s, Some(row), 1), Some(row), -1) == s,
{
    assert(render_steps(s.render_distance as int, 1) == render_steps(clamp_int(s.render_distance + 1, 1, 32), 0));
    assert(cloud_steps(s.cloud_distance as int, 1) == cloud_steps(clamp_int(s.cloud_distance + 1, 2, 10), 0));
    let r1 = render_steps(s.render_distance as int, 1);
    let c1 = cloud_steps(s.cloud_distance as int, 1);
    assert(render_steps(r1, -1) == render_steps(clamp_int(r1 - 1, 1, 32), 0));
    assert(cloud_steps(c1, -1) == cloud_steps(clamp_int(c1 - 1, 2, 10), 0));
}

} // verus!
