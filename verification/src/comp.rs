use vstd::prelude::*;

use crate::storage::StorageFlavor;

verus! {

/// Identifies a component kind: its process-wide unique string id — a
/// collision with another registration is a fatal configuration error —
/// and the storage flavor that backs it.
pub trait Component: Sized {
    /// The id the component is registered under in the world.
    fn id() -> String;

    /// Which storage flavor holds this component's values.
    fn flavor() -> StorageFlavor;
}

/// Free-form string tags attached to an entity.
pub struct Tags {
    pub inner: Vec<String>,
}

impl Component for Tags {
    fn id() -> String {
        "Tags".to_owned()
    }

    fn flavor() -> StorageFlavor {
        StorageFlavor::Hashed
    }
}

/// A terminal sprite: its size and, per cell, the symbol with foreground
/// and background color channels.
pub struct CMDSprite {
    pub size_x: u8,
    pub size_y: u8,
    pub data: Vec<(char, (u8, u8, u8), (u8, u8, u8))>,
}

impl Component for CMDSprite {
    fn id() -> String {
        "CMDSprite".to_owned()
    }

    fn flavor() -> StorageFlavor {
        StorageFlavor::Hashed
    }
}

/// Marks an entity as driven by a player.
pub struct PlayerController {
    pub pid: u16,
    pub active: bool,
}

impl Component for PlayerController {
    fn id() -> String {
        "PlayerController".to_owned()
    }

    fn flavor() -> StorageFlavor {
        StorageFlavor::Dense
    }
}

/// The component value type the core registers its worlds with: one
/// variant per core component kind.
pub enum CoreComp {
    Sprite(CMDSprite),
    Player(PlayerController),
    Tag(Tags),
}

} // verus!
