use vstd::prelude::*;

verus! {

/// Opaque, stable handle identifying one logical record in the host store.
///
/// The numeric `index` names the record's storage cell; the `generation`
/// counter distinguishes reuses of the same cell, so a stale handle to a
/// destroyed record never compares equal to the handle of its successor.
#[derive(Clone, Copy, PartialEq, Eq, Structural, Debug, Hash)]
pub struct EntityId {
    pub index: u32,
    pub generation: u32,
}

impl EntityId {
    /// Builds the handle for storage cell `index` at reuse count `generation`.
    pub fn new(index: u32, generation: u32) -> (r: EntityId)
        ensures
            r.index == index,
            r.generation == generation,
    {
        EntityId { index, generation }
    }
}

} // verus!
