use vstd::prelude::*;

verus! {

/// A generation-based handle for an arena entry.
///
/// `index` is the slot position; `generation` is the slot's generation at the
/// time the handle was issued. Two handles are equal exactly when both fields
/// are equal.
#[derive(Debug, Copy, Clone, Hash, PartialEq, Eq, Structural)]
pub struct ArenaId {
    pub index: usize,
    pub generation: u64,
}

impl ArenaId {
    /// Builds a handle from its two parts.
    pub fn new(index: usize, generation: u64) -> (id: Self)
        ensures
            id.index == index,
            id.generation == generation,
    {
        ArenaId { index, generation }
    }
}

} // verus!
