use vstd::prelude::*;

pub mod block;
pub mod items;
pub mod text;
pub mod settings;
pub mod save;
pub mod terrain;
pub mod world;
pub mod inventory;
pub mod sysinfo;
pub mod ui;
pub mod textures;
pub mod tree_blocks;
pub mod mesh;

verus! {
}
