//! Missions: a place the automation wants reached, and the groups sent to reach it.
//!
//! A mission is an entity carrying a [`Mission`] component; the groups working it carry
//! `assigned_to`, so a mission's roster is read the same way a group's is.
use vstd::prelude::*;

use crate::api::Api;
use crate::components::{Mission, MoveTarget};
use crate::errors::MissionError;
use crate::groups::is_group;
use crate::ids::{index_is_valid, EntityId};
use crate::queries::{query_of, Query};
use crate::world::{EntityRecord, World};

verus! {

/// `id` names a live mission.
pub open spec fn is_mission(w: World, id: EntityId) -> bool {
    w.alive(id) && w.rec(id).mission is Some
}

impl Api {
    /// Creates a mission: a point to reach, and the arrival radius (an `f32` bit pattern; the
    /// host clamps a negative radius to zero before handing it in).
    pub fn create_mission(&mut self, target: MoveTarget, radius_bits: u32) -> (mission: EntityId)
        requires
            old(self).wf(),
            old(self).world.capacity() >= 1,
        ensures
            final(self).wf(),
            old(self).keeps_history(final(self)),
            final(self).world.capacity() == old(self).world.capacity() - 1,
            !old(self).world.alive(mission),
            !old(self).world.spent(mission),
            final(self).world.alive(mission),
            final(self).world.rec(mission) == (EntityRecord {
                mission: Some(Mission { target, radius_bits }),
                ..EntityRecord::spec_empty()
            }),
            forall|x: EntityId|
                x != mission ==> (final(self).world.alive(x) == old(self).world.alive(x) && (old(self).world.alive(x) ==> final(self).world.rec(x) == old(self).world.rec(x))),
            final(self).templates == old(self).templates,
            final(self).map_bounds == old(self).map_bounds,
            final(self).arrived == old(self).arrived,
    {
        let r = EntityRecord { mission: Some(Mission { target, radius_bits }), ..EntityRecord::empty() };
        self.spawn(r, None)
    }

    /// Sends a group to a mission, taking it off whatever it was working before.
    ///
    /// Several groups can work the same mission. Fails, changing nothing, when `mission` is not a
    /// mission, when it is already completed, or when `group` is not a group.
    pub fn assign_group(&mut self, mission: EntityId, group: EntityId) -> (res: Result<(), MissionError>)
        requires
            old(self).wf(),
        ensures
            final(self).wf(),
            old(self).keeps_history(final(self)),
            !is_mission(old(self).world, mission) ==> res == Err::<(), MissionError>(
                MissionError::UnknownMission(mission),
            ),
            is_mission(old(self).world, mission) && old(self).world.rec(mission).mission_completed
                ==> res == Err::<(), MissionError>(MissionError::AlreadyCompleted(mission)),
            is_mission(old(self).world, mission) && !old(self).world.rec(mission).mission_completed
                && !is_group(old(self).world, group) ==> res == Err::<(), MissionError>(
                MissionError::UnknownGroup(group),
            ),
            res is Ok <==> (is_mission(old(self).world, mission) && !old(self).world.rec(
                mission,
            ).mission_completed && is_group(old(self).world, group)),
            res is Ok ==> old(self).world.only_changed(
                &final(self).world,
                group,
                EntityRecord { assigned_to: Some(mission), ..old(self).world.rec(group) },
            ) && old(self).world.same_lifecycle(&final(self).world),
            res is Err ==> final(self).world == old(self).world,
            final(self).templates == old(self).templates,
            final(self).map_bounds == old(self).map_bounds,
            final(self).arrived == old(self).arrived,
    {
        if !index_is_valid(mission.index) {
            return Err(MissionError::UnknownMission(mission));
        }
        let m = match self.world.get(mission) {
            Some(r) => r,
            None => return Err(MissionError::UnknownMission(mission)),
        };
        if m.mission.is_none() {
            return Err(MissionError::UnknownMission(mission));
        }
        if m.mission_completed {
            return Err(MissionError::AlreadyCompleted(mission));
        }
        if !index_is_valid(group.index) {
            return Err(MissionError::UnknownGroup(group));
        }
        let g = match self.world.get(group) {
            Some(r) => r,
            None => return Err(MissionError::UnknownGroup(group)),
        };
        if g.group.is_none() {
            return Err(MissionError::UnknownGroup(group));
        }
        self.world.set(group, EntityRecord { assigned_to: Some(mission), ..g });
        Ok(())
    }

    /// Takes a group off its mission. `true` when it was on one.
    pub fn unassign_group(&mut self, group: EntityId) -> (was_assigned: bool)
        requires
            old(self).wf(),
        ensures
            final(self).wf(),
            old(self).keeps_history(final(self)),
            was_assigned == (old(self).world.alive(group) && old(self).world.rec(group).assigned_to is Some),
            was_assigned ==> old(self).world.only_changed(
                &final(self).world,
                group,
                EntityRecord { assigned_to: None, ..old(self).world.rec(group) },
            ) && old(self).world.same_lifecycle(&final(self).world),
            !was_assigned ==> final(self).world == old(self).world,
            final(self).templates == old(self).templates,
            final(self).map_bounds == old(self).map_bounds,
            final(self).arrived == old(self).arrived,
    {
        if !index_is_valid(group.index) {
            return false;
        }
        match self.world.get(group) {
            Some(r) => {
                if r.assigned_to.is_none() {
                    return false;
                }
                self.world.set(group, EntityRecord { assigned_to: None, ..r });
                true
            },
            None => false,
        }
    }

    /// The mission this group is working, if any.
    pub fn mission_of(&self, group: EntityId) -> (mission: Option<EntityId>)
        requires
            self.wf(),
        ensures
            mission == (if self.world.alive(group) {
                self.world.rec(group).assigned_to
            } else {
                None
            }),
    {
        if !index_is_valid(group.index) {
            return None;
        }
        match self.world.get(group) {
            Some(r) => r.assigned_to,
            None => None,
        }
    }

    /// Every group currently working this mission, in slot order.
    pub fn mission_assignees(&self, mission: EntityId) -> (groups: Vec<EntityId>)
        requires
            self.wf(),
        ensures
            groups@ == if mission.index == u32::MAX {
                Seq::empty()
            } else {
                query_of(self.world, Query::AssignedTo(mission))
            },
    {
        if !index_is_valid(mission.index) {
            return Vec::new();
        }
        self.world.query(Query::AssignedTo(mission))
    }

    /// `true` once somebody reached the mission.
    pub fn is_mission_completed(&self, mission: EntityId) -> (done: bool)
        requires
            self.wf(),
        ensures
            done == (self.world.alive(mission) && self.world.rec(mission).mission_completed),
    {
        if !index_is_valid(mission.index) {
            return false;
        }
        match self.world.get(mission) {
            Some(r) => r.mission_completed,
            None => false,
        }
    }
}

} // verus!
