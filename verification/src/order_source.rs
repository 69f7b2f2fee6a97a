//! Who set the move target an entity is following, and which orders may replace it.
use vstd::prelude::*;

verus! {

/// Who set the move target an entity is currently following.
///
/// The ranking is the point: a personal order outranks group steering, which outranks a mission.
#[derive(Clone, Copy, Debug, PartialEq, Eq, Hash, PartialOrd, Ord, Structural)]
pub enum OrderSource {
    /// Automatic steering along a mission — the weakest claim.
    MissionSteering,
    /// A manual order given to the whole group.
    GroupSteering,
    /// A manual order given to this unit alone — never overwritten while it stands.
    PlayerUnit,
}

impl OrderSource {
    /// Position on the ladder: higher ranks win.
    pub open spec fn rank(self) -> int {
        match self {
            OrderSource::MissionSteering => 0,
            OrderSource::GroupSteering => 1,
            OrderSource::PlayerUnit => 2,
        }
    }

    /// `true` when an order from `self` may replace one already set by `current`.
    pub fn may_override(self, current: OrderSource) -> (allowed: bool)
        ensures
            allowed == (self.rank() >= current.rank()),
    {
        let mine: u8 = match self {
            OrderSource::MissionSteering => 0,
            OrderSource::GroupSteering => 1,
            OrderSource::PlayerUnit => 2,
        };
        let theirs: u8 = match current {
            OrderSource::MissionSteering => 0,
            OrderSource::GroupSteering => 1,
            OrderSource::PlayerUnit => 2,
        };
        mine >= theirs
    }
}

/// The override relation is a total preorder: every source may replace its own kind, the
/// relation chains, and of any two sources one may always replace the other.
pub proof fn lemma_override_is_total_preorder(a: OrderSource, b: OrderSource, c: OrderSource)
    ensures
        a.rank() >= a.rank(),
        a.rank() >= b.rank() && b.rank() >= c.rank() ==> a.rank() >= c.rank(),
        a.rank() >= b.rank() || b.rank() >= a.rank(),
{
}

/// A personal order is never replaced by automation, and it may replace anything.
pub proof fn lemma_player_order_is_strongest(s: OrderSource)
    ensures
        OrderSource::PlayerUnit.rank() >= s.rank(),
        s.rank() >= OrderSource::PlayerUnit.rank() <==> s == OrderSource::PlayerUnit,
{
}

} // verus!
