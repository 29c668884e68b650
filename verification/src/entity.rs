use vstd::prelude::*;

use crate::arena::Arena;

verus! {

/// A game-entity component slot.
#[derive(Debug, Clone)]
pub struct EntitySlot {
    /// Bitmask of attached components.
    pub component_mask: u64,
    /// Whether the entity is active.
    pub active: bool,
}

impl Default for EntitySlot {
    /// An inactive slot with no components.
    fn default() -> (slot: Self)
        ensures
            slot.component_mask == 0,
            !slot.active,
    {
        EntitySlot { component_mask: 0, active: false }
    }
}

/// An arena of entity slots.
pub type EntityArena = Arena<EntitySlot>;

} // verus!
