//! Entity identities and order reports.
use vstd::prelude::*;

verus! {

/// Stable external identity of an entity: a slot index plus the generation of that slot.
///
/// An id stays valid while the entity lives. After it is despawned the same `index` may be
/// reused with a higher `generation`, and the old id no longer resolves.
#[derive(Clone, Copy, Debug, PartialEq, Eq, Hash, Structural)]
pub struct EntityId {
    /// Transiently unique slot; reused after despawn.
    pub index: u32,
    /// Counter incremented each time the index is reused.
    pub generation: u32,
}

impl EntityId {
    /// Builds an id from its two parts.
    pub fn new(index: u32, generation: u32) -> (id: EntityId)
        ensures
            id.index == index,
            id.generation == generation,
    {
        EntityId { index, generation }
    }
}

/// `true` when `index` can name an ECS slot at all: the ECS reserves `u32::MAX`.
///
/// Calls `bevy_ecs::entity::EntityIndex::from_raw_u32`, whose source returns `None` exactly when
/// the index is `u32::MAX` (the index is stored as a `NonMaxU32`).
#[verifier::external_body]
pub(crate) fn index_is_valid(index: u32) -> (valid: bool)
    ensures
        valid == (index != u32::MAX),
{
    bevy_ecs::entity::EntityIndex::from_raw_u32(index).is_some()
}

/// What an order did with the ids it was given.
#[derive(Clone, Copy, Debug, PartialEq, Eq, Structural)]
pub struct OrderReport {
    /// Entities that received the order.
    pub ordered: usize,
    /// Ids that were unknown, duplicated, immobile, or otherwise unable to take it.
    pub skipped: usize,
}

impl Default for OrderReport {
    fn default() -> (report: OrderReport)
        ensures
            report.ordered == 0,
            report.skipped == 0,
    {
        OrderReport { ordered: 0, skipped: 0 }
    }
}

} // verus!
