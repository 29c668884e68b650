//! Pre-allocated, generation-checked arenas for game entities.
//!
//! An [`Arena`] hands out [`ArenaId`]s made of a slot index and the slot's
//! generation. Freeing a slot, or moving its entry away during compaction,
//! bumps its generation, so the ids handed out for the old occupant stop
//! resolving. A [`SlotMap`] offers the same arena behind a map-style
//! interface.
//!
//! The behaviour of every operation is stated over the abstract state of
//! [`Arena`] (its slots, generations, occupancy, free list and never-used
//! mark); the module `laws` proves the properties that hold across
//! operations.

mod id;
pub mod model;
mod arena;
mod entity;
mod slot_map;
pub mod laws;
pub mod history;

pub use id::ArenaId;
pub use arena::Arena;
pub use entity::{EntityArena, EntitySlot};
pub use slot_map::SlotMap;
