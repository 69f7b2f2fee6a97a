//! The structural steps of a simulation tick.
//!
//! A tick runs, in order: boarding approach, mission steering, seek, movement, passenger sync,
//! mission completion and replanning. Each step has a part that decides who is affected and how
//! their components change, and — for some — a floating-point part (distances, headings, slot
//! layouts, integration) that the host computes. This module is the first part: the host asks
//! which entities a step covers, does its arithmetic, and hands the outcome back here.
use vstd::prelude::*;

use crate::api::Api;
use crate::boarding::{aboard, board_outcome};
use crate::groups::{lemma_group_orders_reach_only_movable_units, lemma_movable_members, movable_members};
use crate::orders::{overridable, steer_count, steered};
use crate::components::{MoveTarget, Position, Velocity};
use crate::ids::EntityId;
use crate::order_source::OrderSource;
use crate::queries::{lemma_query_of, query_of, Query};
use crate::world::{EntityRecord, World};

verus! {

/// What a boarding step did with a unit's order.
#[derive(Clone, Copy, Debug, PartialEq, Eq, Structural)]
pub enum Approach {
    /// The id has no live entity with a boarding order: nothing happened.
    NoOrder,
    /// The order ended without boarding; the unit stopped where it is.
    Dropped,
    /// The unit got in.
    Boarded,
    /// The unit keeps walking toward where the vehicle is now.
    Walking,
}

/// The unit once its boarding order ends without boarding: it stops where it is.
pub open spec fn order_dropped(r: EntityRecord) -> EntityRecord {
    EntityRecord {
        boarding_target: None,
        move_target: None,
        order_source: None,
        velocity: if r.velocity is Some {
            Some(Velocity::spec_zero())
        } else {
            None
        },
        ..r
    }
}

/// `v` still names something with seats and a place in the world.
pub open spec fn usable_vehicle(w: World, v: EntityId) -> bool {
    w.alive(v) && w.rec(v).position is Some && w.rec(v).boardable is Some
}

/// The unit walking toward `p` on its own order, carrying a velocity so seek can steer it.
pub open spec fn walking_to(r: EntityRecord, p: Position) -> EntityRecord {
    EntityRecord {
        velocity: if r.velocity is Some {
            r.velocity
        } else {
            Some(Velocity::spec_zero())
        },
        move_target: Some(MoveTarget { x_bits: p.x_bits, y_bits: p.y_bits }),
        order_source: Some(OrderSource::PlayerUnit),
        ..r
    }
}

/// What one boarding step does to a unit with a boarding order, and the record it leaves.
///
/// `in_range` is whether the unit stands within boarding range of its vehicle; it only matters
/// when both have a position.
pub open spec fn approach_step(w: World, unit: EntityId, in_range: bool) -> (Approach, EntityRecord) {
    let r = w.rec(unit);
    let v = r.boarding_target->Some_0;
    if r.position is None || !usable_vehicle(w, v) || r.passenger_of is Some {
        (Approach::Dropped, order_dropped(r))
    } else if in_range {
        if board_outcome(w, unit, v) is Ok {
            (Approach::Boarded, aboard(r, v))
        } else {
            (Approach::Dropped, order_dropped(r))
        }
    } else {
        (Approach::Walking, walking_to(r, w.rec(v).position->Some_0))
    }
}

/// The entity once it reached its move target: put exactly on it, stopped, and no longer
/// following any order.
pub open spec fn arrived_at_target(r: EntityRecord) -> EntityRecord {
    EntityRecord {
        position: Some(
            Position { x_bits: r.move_target->Some_0.x_bits, y_bits: r.move_target->Some_0.y_bits },
        ),
        velocity: Some(Velocity::spec_zero()),
        move_target: None,
        order_source: None,
        ..r
    }
}

/// The ids of `s` that are not in `skip`, in order.
pub open spec fn without(s: Seq<EntityId>, skip: Seq<EntityId>) -> Seq<EntityId>
    decreases s.len(),
{
    if s.len() == 0 {
        Seq::empty()
    } else {
        let prev = without(s.drop_last(), skip);
        if skip.contains(s.last()) {
            prev
        } else {
            prev.push(s.last())
        }
    }
}

/// `v` can carry passengers this tick: it is alive, placed, and not itself riding anything.
pub open spec fn carries(w: World, v: EntityId) -> bool {
    w.alive(v) && w.rec(v).position is Some && w.rec(v).passenger_of is None
}

/// A passenger after the sync: on its vehicle's position with a zero velocity, or let go where
/// it stands when the vehicle can no longer carry it. Anything else is unchanged.
pub open spec fn synced(w: World, r: EntityRecord) -> EntityRecord {
    match r.passenger_of {
        Some(v) => if r.position is None {
            r
        } else if carries(w, v) {
            EntityRecord {
                position: w.rec(v).position,
                velocity: if r.velocity is Some {
                    Some(Velocity::spec_zero())
                } else {
                    None
                },
                ..r
            }
        } else {
            EntityRecord { passenger_of: None, ..r }
        },
        None => r,
    }
}

/// The target of the open mission a group works under automation, if it has one.
pub open spec fn mission_target_of(w: World, g: EntityId) -> Option<MoveTarget> {
    if w.alive(g) && Query::SteeredGroup.holds(w.rec(g)) && w.alive(w.rec(g).assigned_to->Some_0)
        && Query::OpenMission.holds(w.rec(w.rec(g).assigned_to->Some_0)) {
        Some(w.rec(w.rec(g).assigned_to->Some_0).mission->Some_0.target)
    } else {
        None
    }
}

/// The group holds an open mission but has no member left to walk to it.
pub open spec fn holds_empty(w: World, g: EntityId) -> bool {
    mission_target_of(w, g) is Some && query_of(w, Query::MemberOf(g)).len() == 0
}

/// The groups among `gs` that mission steering moves, in order.
pub open spec fn steered_groups(w: World, gs: Seq<EntityId>) -> Seq<EntityId>
    decreases gs.len(),
{
    if gs.len() == 0 {
        Seq::empty()
    } else {
        let prev = steered_groups(w, gs.drop_last());
        let g = gs.last();
        if mission_target_of(w, g) is Some && query_of(w, Query::MemberOf(g)).len() > 0 {
            prev.push(g)
        } else {
            prev
        }
    }
}

/// `g` is a group working mission `m`.
pub open spec fn is_assignee(w: World, m: EntityId, g: EntityId) -> bool {
    w.alive(g) && Query::AssigneeOf(m).holds(w.rec(g))
}

/// The unit counts toward mission `m`'s arrival test: it belongs to a group working `m` and has
/// a position.
pub open spec fn in_roster(w: World, m: EntityId, r: EntityRecord) -> bool {
    r.member_of is Some && is_assignee(w, m, r.member_of->Some_0) && r.position is Some
}

/// The positioned members of the groups working `m` among the first `n` slots, in slot order,
/// each with its position.
pub open spec fn roster_upto(w: World, m: EntityId, n: int) -> Seq<(EntityId, Position)>
    decreases n,
{
    if n <= 0 {
        Seq::empty()
    } else {
        let prev = roster_upto(w, m, n - 1);
        match w.slots@[n - 1].record {
            Some(r) => if in_roster(w, m, r) {
                prev.push(
                    (
                        EntityId { index: (n - 1) as u32, generation: w.slots@[n - 1].generation },
                        r.position->Some_0,
                    ),
                )
            } else {
                prev
            },
            None => prev,
        }
    }
}

/// The roster holds exactly the live positioned members of the groups working `m` among the
/// first `n` slots, each once, with its own position.
pub proof fn lemma_roster(w: World, m: EntityId, n: int)
    requires
        w.wf(),
        0 <= n <= w.slots@.len(),
    ensures
        forall|k: int|
            0 <= k < roster_upto(w, m, n).len() ==> {
                let (x, p) = #[trigger] roster_upto(w, m, n)[k];
                &&& x.index < n
                &&& w.alive(x)
                &&& in_roster(w, m, w.rec(x))
                &&& p == w.rec(x).position->Some_0
            },
        forall|x: EntityId|
            x.index < n && w.alive(x) && in_roster(w, m, w.rec(x)) ==> exists|k: int|
                0 <= k < roster_upto(w, m, n).len() && (#[trigger] roster_upto(w, m, n)[k]).0 == x,
        forall|a: int, b: int|
            0 <= a < b < roster_upto(w, m, n).len() ==> (#[trigger] roster_upto(w, m, n)[a]).0.index
                < (#[trigger] roster_upto(w, m, n)[b]).0.index,
    decreases n,
{
    if n > 0 {
        lemma_roster(w, m, n - 1);
        let prev = roster_upto(w, m, n - 1);
        let cur = roster_upto(w, m, n);
        let slot = w.slots@[n - 1];
        if slot.record is Some && in_roster(w, m, slot.record->Some_0) {
            let id = EntityId { index: (n - 1) as u32, generation: slot.generation };
            assert(cur == prev.push((id, slot.record->Some_0.position->Some_0)));
            assert forall|k: int| 0 <= k < cur.len() implies {
                let (x, p) = #[trigger] cur[k];
                &&& x.index < n
                &&& w.alive(x)
                &&& in_roster(w, m, w.rec(x))
                &&& p == w.rec(x).position->Some_0
            } by {
                if k < prev.len() {
                    assert(cur[k] == prev[k]);
                }
            }
            assert forall|x: EntityId|
                x.index < n && w.alive(x) && in_roster(w, m, w.rec(x)) implies exists|k: int|
                0 <= k < cur.len() && (#[trigger] cur[k]).0 == x by {
                if x.index < n - 1 {
                    let k = choose|k: int| 0 <= k < prev.len() && (#[trigger] prev[k]).0 == x;
                    assert(cur[k] == prev[k]);
                } else {
                    assert(cur[prev.len() as int].0 == x);
                }
            }
            assert forall|a: int, b: int| 0 <= a < b < cur.len() implies (#[trigger] cur[a]).0.index
                < (#[trigger] cur[b]).0.index by {
                if b < prev.len() {
                    assert(cur[a] == prev[a] && cur[b] == prev[b]);
                } else {
                    assert(cur[a] == prev[a]);
                }
            }
        } else {
            assert(cur == prev);
            assert forall|x: EntityId|
                x.index < n && w.alive(x) && in_roster(w, m, w.rec(x)) implies exists|k: int|
                0 <= k < cur.len() && (#[trigger] cur[k]).0 == x by {
                assert(x.index != n - 1);
            }
        }
    }
}

/// Mission `m` is open and some group works it, so a unit's arrival closes it.
pub open spec fn completable(w: World, m: EntityId) -> bool {
    w.alive(m) && Query::OpenMission.holds(w.rec(m)) && query_of(w, Query::AssigneeOf(m)).len() > 0
}

/// The unit follows a steering order of mission `m`: it belongs to a group working `m`, and its
/// move target was set by mission steering.
pub open spec fn released_by(w: World, m: EntityId, r: EntityRecord) -> bool {
    r.member_of is Some && is_assignee(w, m, r.member_of->Some_0) && r.order_source == Some(
        OrderSource::MissionSteering,
    )
}

/// An entity once mission `m` closes: a group working it is freed and owed a new mission, and
/// a unit walking to it under mission steering stops following that order.
pub open spec fn closed(w: World, m: EntityId, r: EntityRecord) -> EntityRecord {
    EntityRecord {
        assigned_to: if Query::AssigneeOf(m).holds(r) {
            None
        } else {
            r.assigned_to
        },
        needs_mission: if Query::AssigneeOf(m).holds(r) {
            true
        } else {
            r.needs_mission
        },
        move_target: if released_by(w, m, r) {
            None
        } else {
            r.move_target
        },
        order_source: if released_by(w, m, r) {
            None
        } else {
            r.order_source
        },
        ..r
    }
}

/// The ids of `s` whose group is not under manual control, in order.
pub open spec fn automatic_only(w: World, s: Seq<EntityId>) -> Seq<EntityId>
    decreases s.len(),
{
    if s.len() == 0 {
        Seq::empty()
    } else {
        let prev = automatic_only(w, s.drop_last());
        if w.rec(s.last()).manual_active {
            prev
        } else {
            prev.push(s.last())
        }
    }
}

/// A group's marker for a new mission, once the planner has looked at it.
pub open spec fn planner_seen(r: EntityRecord) -> EntityRecord {
    if Query::NeedsMission.holds(r) {
        EntityRecord { needs_mission: false, ..r }
    } else {
        r
    }
}

/// One group that mission steering moves this tick: where its mission is, and the members that
/// can take the order, in slot order. The `k`-th of them walks to slot `k` of a grid around the
/// target, laid out for `members.len()` slots.
pub struct MissionSteer {
    pub group: EntityId,
    pub target: MoveTarget,
    pub members: Vec<EntityId>,
}

/// The world after a step applied `f` to the record of every live entity.
pub open spec fn mapped(w: World, next: Seq<Option<EntityRecord>>, f: spec_fn(EntityRecord) -> EntityRecord, n: int) -> bool {
    &&& next.len() == n
    &&& forall|i: int|
        0 <= i < n ==> #[trigger] next[i] == match w.slots@[i].record {
            Some(r) => Some(f(r)),
            None => None::<EntityRecord>,
        }
}

/// Closing mission `m` frees exactly the groups working it: a group working it loses its
/// assignment and is owed a new mission, while anything on another mission, or on none, keeps
/// both its assignment and its marker. The only orders it drops are mission-steering orders of
/// members of groups working `m`; position, membership and manual control never change.
pub proof fn lemma_closing_frees_only_its_groups(w: World, m: EntityId, r: EntityRecord)
    ensures
        r.assigned_to != Some(m) ==> closed(w, m, r).assigned_to == r.assigned_to
            && closed(w, m, r).needs_mission == r.needs_mission,
        r.group is Some && r.assigned_to == Some(m) ==> closed(w, m, r).assigned_to is None
            && closed(w, m, r).needs_mission,
        closed(w, m, r).order_source != r.order_source || closed(w, m, r).move_target != r.move_target
            ==> r.order_source == Some(OrderSource::MissionSteering) && r.member_of is Some
            && w.alive(r.member_of->Some_0) && w.rec(r.member_of->Some_0).group is Some
            && w.rec(r.member_of->Some_0).assigned_to == Some(m),
        closed(w, m, r).position == r.position,
        closed(w, m, r).member_of == r.member_of,
        closed(w, m, r).group == r.group,
        closed(w, m, r).manual_active == r.manual_active,
{
}

/// The planner's pass leaves no group owed a mission: the marker comes off every group, and
/// nothing else of any entity changes.
pub proof fn lemma_planner_clears_every_group_marker(r: EntityRecord)
    ensures
        r.group is Some ==> !planner_seen(r).needs_mission,
        r.group is None ==> planner_seen(r).needs_mission == r.needs_mission,
        planner_seen(r) == (EntityRecord { needs_mission: planner_seen(r).needs_mission, ..r }),
{
}

/// A boarding order that ends without boarding leaves the unit with no order of any kind, so
/// any later order, from a player or from automation, can take it; it stays where it is.
pub proof fn lemma_dropping_clears_the_order(r: EntityRecord)
    ensures
        order_dropped(r).boarding_target is None,
        order_dropped(r).move_target is None,
        order_dropped(r).order_source is None,
        order_dropped(r).position == r.position,
        order_dropped(r).passenger_of == r.passenger_of,
        order_dropped(r).velocity is Some == r.velocity is Some,
        order_dropped(r).velocity is Some ==> order_dropped(r).velocity == Some(Velocity::spec_zero()),
{
}

/// The automatic steps of a tick never hand a group back to automation or take it from the
/// player: no step changes whether a group is under manual control.
pub proof fn lemma_tick_steps_keep_manual_control(w: World, m: EntityId, r: EntityRecord, p: Position)
    ensures
        order_dropped(r).manual_active == r.manual_active,
        walking_to(r, p).manual_active == r.manual_active,
        arrived_at_target(r).manual_active == r.manual_active,
        synced(w, r).manual_active == r.manual_active,
        closed(w, m, r).manual_active == r.manual_active,
        planner_seen(r).manual_active == r.manual_active,
        (EntityRecord { assigned_to: None, ..r }).manual_active == r.manual_active,
{
}

impl Api {
    /// Every unit with a boarding order, in slot order.
    pub fn boarding_orders(&self) -> (units: Vec<EntityId>)
        requires
            self.wf(),
        ensures
            units@ == query_of(self.world, Query::Boarding),
    {
        self.world.query(Query::Boarding)
    }

    /// Carries out one tick of a unit's boarding order.
    ///
    /// The order is dropped, and the unit stopped, when the unit has no position, is already
    /// riding something, or its vehicle is gone or has lost its seats or its position. Within
    /// range the unit boards; if no seat is left the order is dropped instead. Otherwise the
    /// unit is pointed at where the vehicle is now, on its own order, so group and mission
    /// steering cannot pull it away.
    pub fn boarding_step(&mut self, unit: EntityId, in_range: bool) -> (step: Approach)
        requires
            old(self).wf(),
        ensures
            final(self).wf(),
            old(self).keeps_history(final(self)),
            old(self).world.same_lifecycle(&final(self).world),
            !(old(self).world.alive(unit) && old(self).world.rec(unit).boarding_target is Some) ==> step
                == Approach::NoOrder && final(self).world == old(self).world,
            old(self).world.alive(unit) && old(self).world.rec(unit).boarding_target is Some ==> {
                let (kind, next) = approach_step(old(self).world, unit, in_range);
                &&& step == kind
                &&& old(self).world.only_changed(&final(self).world, unit, next)
            },
            step == Approach::Dropped ==> {
                let r = final(self).world.rec(unit);
                &&& r.boarding_target is None
                &&& r.move_target is None
                &&& r.order_source is None
                &&& r.position == old(self).world.rec(unit).position
                &&& r.passenger_of == old(self).world.rec(unit).passenger_of
            },
            step == Approach::Boarded ==> {
                let r = final(self).world.rec(unit);
                &&& r.passenger_of == old(self).world.rec(unit).boarding_target
                &&& r.boarding_target is None
                &&& r.move_target is None
                &&& r.order_source is None
            },
            final(self).templates == old(self).templates,
            final(self).map_bounds == old(self).map_bounds,
            final(self).arrived == old(self).arrived,
    {
        let r = match self.world.get(unit) {
            Some(r) => r,
            None => return Approach::NoOrder,
        };
        let v = match r.boarding_target {
            Some(v) => v,
            None => return Approach::NoOrder,
        };
        let vehicle_position = match self.world.get(v) {
            Some(vr) => if vr.boardable.is_some() {
                vr.position
            } else {
                None
            },
            None => None,
        };
        let dropped = EntityRecord {
            boarding_target: None,
            move_target: None,
            order_source: None,
            velocity: match r.velocity {
                Some(_) => Some(Velocity::zero()),
                None => None,
            },
            ..r
        };
        let p = match vehicle_position {
            Some(p) => p,
            None => {
                self.world.set(unit, dropped);
                return Approach::Dropped;
            },
        };
        if r.position.is_none() || r.passenger_of.is_some() {
            self.world.set(unit, dropped);
            return Approach::Dropped;
        }
        if in_range {
            match self.board_now(unit, v) {
                Ok(()) => return Approach::Boarded,
                Err(_) => {
                    self.world.set(unit, dropped);
                    return Approach::Dropped;
                },
            }
        }
        let velocity = match r.velocity {
            Some(vel) => Some(vel),
            None => Some(Velocity::zero()),
        };
        let walking = EntityRecord {
            velocity,
            move_target: Some(MoveTarget { x_bits: p.x_bits, y_bits: p.y_bits }),
            order_source: Some(OrderSource::PlayerUnit),
            ..r
        };
        self.world.set(unit, walking);
        Approach::Walking
    }

    /// Every entity seek steers, in slot order: placed, with a move target, a base move speed and
    /// a velocity, and not riding anything.
    pub fn seekers(&self) -> (ids: Vec<EntityId>)
        requires
            self.wf(),
        ensures
            ids@ == query_of(self.world, Query::Seeker),
    {
        self.world.query(Query::Seeker)
    }

    /// Records that a seeking entity reached its move target this tick: it is put exactly on the
    /// target, stopped, released from the order and its claim, and skipped by movement for the
    /// rest of the tick. `false`, changing nothing, when `id` is not a seeking entity.
    pub fn arrive(&mut self, id: EntityId) -> (done: bool)
        requires
            old(self).wf(),
        ensures
            final(self).wf(),
            old(self).keeps_history(final(self)),
            old(self).world.same_lifecycle(&final(self).world),
            done == (old(self).world.alive(id) && Query::Seeker.holds(old(self).world.rec(id))),
            done ==> old(self).world.only_changed(
                &final(self).world,
                id,
                arrived_at_target(old(self).world.rec(id)),
            ) && final(self).arrived@ == old(self).arrived@.push(id),
            !done ==> final(self).world == old(self).world && final(self).arrived == old(self).arrived,
            final(self).templates == old(self).templates,
            final(self).map_bounds == old(self).map_bounds,
    {
        let r = match self.world.get(id) {
            Some(r) => r,
            None => return false,
        };
        if !Query::Seeker.check(&r) {
            return false;
        }
        let t = r.move_target.unwrap();
        let next = EntityRecord {
            position: Some(Position { x_bits: t.x_bits, y_bits: t.y_bits }),
            velocity: Some(Velocity::zero()),
            move_target: None,
            order_source: None,
            ..r
        };
        self.world.set(id, next);
        self.arrived.push(id);
        true
    }

    /// Sets the velocity seek chose for an entity still on its way. `false`, changing nothing,
    /// when `id` is not a seeking entity.
    pub fn set_seek_velocity(&mut self, id: EntityId, velocity: Velocity) -> (done: bool)
        requires
            old(self).wf(),
        ensures
            final(self).wf(),
            old(self).keeps_history(final(self)),
            old(self).world.same_lifecycle(&final(self).world),
            done == (old(self).world.alive(id) && Query::Seeker.holds(old(self).world.rec(id))),
            done ==> old(self).world.only_changed(
                &final(self).world,
                id,
                EntityRecord { velocity: Some(velocity), ..old(self).world.rec(id) },
            ),
            !done ==> final(self).world == old(self).world,
            final(self).templates == old(self).templates,
            final(self).map_bounds == old(self).map_bounds,
            final(self).arrived == old(self).arrived,
    {
        let r = match self.world.get(id) {
            Some(r) => r,
            None => return false,
        };
        if !Query::Seeker.check(&r) {
            return false;
        }
        self.world.set(id, EntityRecord { velocity: Some(velocity), ..r });
        true
    }

    /// Every entity movement integrates this tick, in slot order: placed, with a velocity and
    /// not riding anything, except those that arrived this tick. A passenger's position belongs
    /// to its vehicle, so movement skips it entirely.
    pub fn movers(&self) -> (ids: Vec<EntityId>)
        requires
            self.wf(),
        ensures
            ids@ == without(query_of(self.world, Query::Mover), self.arrived@),
    {
        let all = self.world.query(Query::Mover);
        let mut out: Vec<EntityId> = Vec::new();
        let mut i: usize = 0;
        while i < all.len()
            invariant
                i <= all@.len(),
                out@ == without(all@.take(i as int), self.arrived@),
            decreases all@.len() - i,
        {
            let id = all[i];
            proof {
                assert(all@.take(i as int + 1).drop_last() =~= all@.take(i as int));
                assert(all@.take(i as int + 1).last() == id);
            }
            if !crate::orders::contains_id(&self.arrived, id) {
                out.push(id);
            }
            i += 1;
        }
        proof {
            assert(all@.take(all@.len() as int) =~= all@);
        }
        out
    }

    /// Moves an entity to the position movement integrated for it. `false`, changing nothing,
    /// when `id` is not one movement integrates this tick: a passenger, an entity without a
    /// position or velocity, or one that arrived this tick.
    pub fn set_position(&mut self, id: EntityId, position: Position) -> (done: bool)
        requires
            old(self).wf(),
        ensures
            final(self).wf(),
            old(self).keeps_history(final(self)),
            old(self).world.same_lifecycle(&final(self).world),
            done == (old(self).world.alive(id) && Query::Mover.holds(old(self).world.rec(id))
                && !old(self).arrived@.contains(id)),
            old(self).world.rec(id).passenger_of is Some ==> !done,
            done ==> old(self).world.only_changed(
                &final(self).world,
                id,
                EntityRecord { position: Some(position), ..old(self).world.rec(id) },
            ),
            !done ==> final(self).world == old(self).world,
            final(self).templates == old(self).templates,
            final(self).map_bounds == old(self).map_bounds,
            final(self).arrived == old(self).arrived,
    {
        let r = match self.world.get(id) {
            Some(r) => r,
            None => return false,
        };
        if !Query::Mover.check(&r) || crate::orders::contains_id(&self.arrived, id) {
            return false;
        }
        self.world.set(id, EntityRecord { position: Some(position), ..r });
        true
    }

    /// Puts every passenger where its vehicle ended the tick, with a zero velocity.
    ///
    /// A passenger whose vehicle is gone, has no position, or is itself riding something is
    /// let go where it stands instead of being left pointing at nothing. Every decision is
    /// taken on the world as it was before the sync.
    pub fn sync_passengers(&mut self)
        requires
            old(self).wf(),
        ensures
            final(self).wf(),
            old(self).keeps_history(final(self)),
            old(self).world.same_lifecycle(&final(self).world),
            forall|x: EntityId| final(self).world.alive(x) == old(self).world.alive(x),
            forall|x: EntityId|
                #![trigger final(self).world.rec(x)]
                old(self).world.alive(x) ==> final(self).world.rec(x) == synced(
                    old(self).world,
                    old(self).world.rec(x),
                ),
            final(self).templates == old(self).templates,
            final(self).map_bounds == old(self).map_bounds,
            final(self).arrived == old(self).arrived,
    {
        let ghost w0 = self.world;
        let ghost f = |r: EntityRecord| synced(w0, r);
        let mut next: Vec<Option<EntityRecord>> = Vec::new();
        let mut i: usize = 0;
        while i < self.world.slots.len()
            invariant
                i <= self.world.slots@.len(),
                self.wf(),
                self.world == w0,
                f == (|r: EntityRecord| synced(w0, r)),
                mapped(self.world, next@, f, i as int),
            decreases self.world.slots@.len() - i,
        {
            let entry = match self.world.slots[i].record {
                Some(r) => Some(self.synced_record(r)),
                None => None,
            };
            next.push(entry);
            proof {
                assert forall|j: int| 0 <= j < i + 1 implies #[trigger] next@[j] == match self.world.slots@[j].record {
                    Some(r) => Some(f(r)),
                    None => None::<EntityRecord>,
                } by {
                    if j < i {
                        assert(next@[j] == next@.drop_last()[j]);
                    }
                }
            }
            i += 1;
        }
        let ghost start = self.world;
        self.world.rewrite(&next);
        proof {
            assert forall|x: EntityId| #![trigger self.world.rec(x)] start.alive(x) implies self.world.rec(x)
                == synced(start, start.rec(x)) by {
                assert(next@[x.index as int] == Some(f(start.rec(x))));
            }
        }
    }

    fn mission_target(&self, g: EntityId) -> (t: Option<MoveTarget>)
        requires
            self.wf(),
        ensures
            t == mission_target_of(self.world, g),
    {
        let r = match self.world.get(g) {
            Some(r) => r,
            None => return None,
        };
        if !Query::SteeredGroup.check(&r) {
            return None;
        }
        let m = r.assigned_to.unwrap();
        match self.world.get(m) {
            Some(mr) => if Query::OpenMission.check(&mr) {
                Some(mr.mission.unwrap().target)
            } else {
                None
            },
            None => None,
        }
    }

    /// Decides this tick's mission steering: which groups walk to their mission and which
    /// members each can send.
    ///
    /// A group under manual control, or whose mission is gone or already completed, is left
    /// alone. A group with no member left is taken off its mission, so it stops holding a
    /// mission nobody is walking to. The host lays out one destination per member and hands
    /// them to [`Api::steer_mission_group`].
    pub fn mission_steering_plan(&mut self) -> (plan: Vec<MissionSteer>)
        requires
            old(self).wf(),
        ensures
            final(self).wf(),
            old(self).keeps_history(final(self)),
            old(self).world.same_lifecycle(&final(self).world),
            ({
                let sg = steered_groups(old(self).world, query_of(old(self).world, Query::SteeredGroup));
                &&& plan@.len() == sg.len()
                &&& forall|k: int|
                    0 <= k < plan@.len() ==> {
                        &&& (#[trigger] plan@[k]).group == sg[k]
                        &&& plan@[k].target == mission_target_of(old(self).world, sg[k])->Some_0
                        &&& plan@[k].members@ == movable_members(
                            old(self).world,
                            query_of(old(self).world, Query::MemberOf(sg[k])),
                        )
                    }
            }),
            forall|k: int, j: int|
                0 <= k < plan@.len() && 0 <= j < plan@[k].members@.len() ==> {
                    let r = old(self).world.rec(#[trigger] plan@[k].members@[j]);
                    &&& r.position is Some
                    &&& r.base_move_speed is Some
                    &&& r.passenger_of is None
                },
            forall|x: EntityId|
                #![trigger final(self).world.rec(x)]
                old(self).world.alive(x) ==> final(self).world.rec(x) == if holds_empty(old(self).world, x) {
                    EntityRecord { assigned_to: None, ..old(self).world.rec(x) }
                } else {
                    old(self).world.rec(x)
                },
            final(self).templates == old(self).templates,
            final(self).map_bounds == old(self).map_bounds,
            final(self).arrived == old(self).arrived,
    {
        let gs = self.world.query(Query::SteeredGroup);
        proof {
            lemma_query_of(self.world, Query::SteeredGroup);
        }
        let ghost start = self.world;
        let mut plan: Vec<MissionSteer> = Vec::new();
        let mut empties: Vec<EntityId> = Vec::new();
        let mut i: usize = 0;
        while i < gs.len()
            invariant
                i <= gs@.len(),
                self.wf(),
                self.world == start,
                gs@ == query_of(start, Query::SteeredGroup),
                plan@.len() == steered_groups(start, gs@.take(i as int)).len(),
                forall|k: int|
                    0 <= k < plan@.len() ==> {
                        &&& (#[trigger] plan@[k]).group == steered_groups(start, gs@.take(i as int))[k]
                        &&& plan@[k].target == mission_target_of(start, plan@[k].group)->Some_0
                        &&& plan@[k].members@ == movable_members(
                            start,
                            query_of(start, Query::MemberOf(plan@[k].group)),
                        )
                    },
                forall|x: EntityId|
                    #![trigger empties@.contains(x)]
                    empties@.contains(x) <==> (gs@.take(i as int).contains(x) && holds_empty(start, x)),
            decreases gs@.len() - i,
        {
            let g = gs[i];
            proof {
                assert(gs@.take(i as int + 1).drop_last() =~= gs@.take(i as int));
                assert(gs@.take(i as int + 1).last() == g);
            }
            let ghost before_plan = plan@;
            let ghost before_empties = empties@;
            match self.mission_target(g) {
                Some(t) => {
                    let members = self.world.query(Query::MemberOf(g));
                    proof {
                        lemma_query_of(self.world, Query::MemberOf(g));
                    }
                    if members.len() == 0 {
                        empties.push(g);
                    } else {
                        let movable = self.filter_movable(&members);
                        plan.push(MissionSteer { group: g, target: t, members: movable });
                        proof {
                            assert forall|k: int| 0 <= k < plan@.len() implies (#[trigger] plan@[k]).group
                                == steered_groups(start, gs@.take(i as int + 1))[k] by {
                                if k < before_plan.len() {
                                    assert(plan@[k] == before_plan[k]);
                                }
                            }
                        }
                    }
                },
                None => {},
            }
            proof {
                assert forall|x: EntityId| #![trigger empties@.contains(x)]
                    empties@.contains(x) <==> (gs@.take(i as int + 1).contains(x) && holds_empty(start, x)) by {
                    if gs@.take(i as int + 1).contains(x) && x != g {
                        let pre = gs@.take(i as int + 1);
                        let j = choose|j: int| 0 <= j < pre.len() && pre[j] == x;
                        assert(gs@.take(i as int)[j] == x);
                    }
                    if gs@.take(i as int).contains(x) {
                        let pre = gs@.take(i as int);
                        let j = choose|j: int| 0 <= j < pre.len() && pre[j] == x;
                        assert(gs@.take(i as int + 1)[j] == x);
                    }
                    assert(gs@.take(i as int + 1)[i as int] == g);
                    if empties@.contains(x) && x != g {
                        let j = choose|j: int| 0 <= j < empties@.len() && empties@[j] == x;
                        if j < before_empties.len() {
                            assert(before_empties[j] == x);
                        }
                    }
                    if before_empties.contains(x) {
                        let j = choose|j: int| 0 <= j < before_empties.len() && before_empties[j] == x;
                        assert(empties@[j] == x);
                    }
                    if x == g && holds_empty(start, x) {
                        assert(empties@[before_empties.len() as int] == x);
                    }
                }
            }
            i += 1;
        }
        proof {
            assert(gs@.take(gs@.len() as int) =~= gs@);
        }
        let mut j: usize = 0;
        while j < empties.len()
            invariant
                j <= empties@.len(),
                self.wf(),
                start.wf(),
                start.same_lifecycle(&self.world),
                start.moves_forward_to(&self.world),
                forall|x: EntityId| start.spent(x) == self.world.spent(x),
                forall|x: EntityId| start.alive(x) == self.world.alive(x),
                forall|x: EntityId|
                    #![trigger empties@.contains(x)]
                    empties@.contains(x) ==> holds_empty(start, x),
                forall|x: EntityId|
                    #![trigger self.world.rec(x)]
                    start.alive(x) ==> self.world.rec(x) == if empties@.take(j as int).contains(x) {
                        EntityRecord { assigned_to: None, ..start.rec(x) }
                    } else {
                        start.rec(x)
                    },
                self.templates == old(self).templates,
                self.map_bounds == old(self).map_bounds,
                self.arrived == old(self).arrived,
                start == old(self).world,
            decreases empties@.len() - j,
        {
            let g = empties[j];
            proof {
                assert(empties@.contains(g));
                assert(empties@.take(j as int + 1) =~= empties@.take(j as int).push(g));
            }
            let r = self.world.get(g).unwrap();
            let ghost mid = self.world;
            self.world.set(g, EntityRecord { assigned_to: None, ..r });
            proof {
                assert forall|x: EntityId| #![trigger self.world.rec(x)]
                    start.alive(x) implies self.world.rec(x) == if empties@.take(j as int + 1).contains(x) {
                    EntityRecord { assigned_to: None, ..start.rec(x) }
                } else {
                    start.rec(x)
                } by {
                    if x != g {
                        assert(self.world.rec(x) == mid.rec(x));
                        if empties@.take(j as int + 1).contains(x) {
                            let pre = empties@.take(j as int + 1);
                            let k = choose|k: int| 0 <= k < pre.len() && pre[k] == x;
                            assert(empties@.take(j as int)[k] == x);
                        }
                        if empties@.take(j as int).contains(x) {
                            let pre = empties@.take(j as int);
                            let k = choose|k: int| 0 <= k < pre.len() && pre[k] == x;
                            assert(empties@.take(j as int + 1)[k] == x);
                        }
                    } else {
                        assert(empties@.take(j as int + 1)[j as int] == x);
                    }
                }
            }
            j += 1;
        }
        proof {
            assert(empties@.take(empties@.len() as int) =~= empties@);
            assert forall|x: EntityId| #![trigger self.world.rec(x)]
                start.alive(x) implies self.world.rec(x) == if holds_empty(start, x) {
                EntityRecord { assigned_to: None, ..start.rec(x) }
            } else {
                start.rec(x)
            } by {
                if holds_empty(start, x) {
                    assert(gs@.contains(x));
                    assert(empties@.contains(x));
                }
            }
            assert forall|k: int, j: int|
                0 <= k < plan@.len() && 0 <= j < plan@[k].members@.len() implies {
                let r = start.rec(#[trigger] plan@[k].members@[j]);
                &&& r.position is Some
                &&& r.base_move_speed is Some
                &&& r.passenger_of is None
            } by {
                lemma_group_orders_reach_only_movable_units(
                    start,
                    query_of(start, Query::MemberOf(plan@[k].group)),
                );
            }
        }
        plan
    }

    /// Sends the members of a group that can take the order toward its mission, the `k`-th one
    /// to `targets[k]`, under [`OrderSource::MissionSteering`].
    ///
    /// Members already following a stronger order keep it. Nothing happens, and 0 is returned,
    /// when the group has no open mission to steer to under automation. Returns how many members
    /// took the order.
    pub fn steer_mission_group(&mut self, group: EntityId, targets: &[MoveTarget]) -> (ordered: usize)
        requires
            old(self).wf(),
            targets@.len() >= movable_members(
                old(self).world,
                query_of(old(self).world, Query::MemberOf(group)),
            ).len(),
        ensures
            final(self).wf(),
            old(self).keeps_history(final(self)),
            old(self).world.same_lifecycle(&final(self).world),
            mission_target_of(old(self).world, group) is None ==> ordered == 0 && final(self).world
                == old(self).world,
            mission_target_of(old(self).world, group) is Some ==> ({
                let movable = movable_members(
                    old(self).world,
                    query_of(old(self).world, Query::MemberOf(group)),
                );
                &&& ordered == steer_count(old(self).world, movable, OrderSource::MissionSteering)
                &&& forall|k: int|
                    0 <= k < movable.len() ==> final(self).world.rec(#[trigger] movable[k]) == if overridable(
                        old(self).world.rec(movable[k]),
                        OrderSource::MissionSteering,
                    ) {
                        steered(old(self).world.rec(movable[k]), targets@[k], OrderSource::MissionSteering)
                    } else {
                        old(self).world.rec(movable[k])
                    }
                &&& forall|x: EntityId|
                    #![trigger final(self).world.rec(x)]
                    old(self).world.alive(x) && !movable.contains(x) ==> final(self).world.rec(x)
                        == old(self).world.rec(x)
            }),
            forall|x: EntityId|
                #![trigger final(self).world.rec(x)]
                old(self).world.alive(x) && final(self).world.rec(x) != old(self).world.rec(x)
                    ==> old(self).world.rec(x).position is Some && old(self).world.rec(x).base_move_speed is Some
                    && old(self).world.rec(x).passenger_of is None,
            final(self).templates == old(self).templates,
            final(self).map_bounds == old(self).map_bounds,
            final(self).arrived == old(self).arrived,
    {
        if self.mission_target(group).is_none() {
            return 0;
        }
        let members = self.world.query(Query::MemberOf(group));
        proof {
            lemma_query_of(self.world, Query::MemberOf(group));
        }
        let movable = self.filter_movable(&members);
        proof {
            lemma_movable_members(self.world, members@);
            assert forall|k: int| 0 <= k < movable@.len() implies self.world.alive(#[trigger] movable@[k]) by {
                assert(movable@.contains(movable@[k]));
                assert(members@.contains(movable@[k]));
            }
        }
        let ghost before = self.world;
        let ordered = self.steer(&movable, targets, OrderSource::MissionSteering);
        proof {
            lemma_group_orders_reach_only_movable_units(before, members@);
            assert forall|x: EntityId| #![trigger self.world.rec(x)]
                before.alive(x) && self.world.rec(x) != before.rec(x) implies before.rec(x).position is Some
                && before.rec(x).base_move_speed is Some && before.rec(x).passenger_of is None by {
                if movable@.contains(x) {
                    let k = choose|k: int| 0 <= k < movable@.len() && movable@[k] == x;
                }
            }
        }
        ordered
    }

    /// Every mission nobody has reached yet, in slot order.
    pub fn open_missions(&self) -> (missions: Vec<EntityId>)
        requires
            self.wf(),
        ensures
            missions@ == query_of(self.world, Query::OpenMission),
    {
        self.world.query(Query::OpenMission)
    }

    /// The members of the groups working a mission that have a position, in slot order, each
    /// with its position: the units whose arrival the host tests against the mission's radius.
    pub fn mission_roster(&self, mission: EntityId) -> (units: Vec<(EntityId, Position)>)
        requires
            self.wf(),
        ensures
            units@ == roster_upto(self.world, mission, self.world.slots@.len() as int),
            forall|k: int|
                0 <= k < units@.len() ==> {
                    let (x, p) = #[trigger] units@[k];
                    &&& self.world.alive(x)
                    &&& in_roster(self.world, mission, self.world.rec(x))
                    &&& p == self.world.rec(x).position->Some_0
                },
            forall|x: EntityId|
                self.world.alive(x) && in_roster(self.world, mission, self.world.rec(x)) ==> exists|k: int|
                    0 <= k < units@.len() && (#[trigger] units@[k]).0 == x,
    {
        let assignees = self.world.query(Query::AssigneeOf(mission));
        proof {
            lemma_query_of(self.world, Query::AssigneeOf(mission));
        }
        let mut units: Vec<(EntityId, Position)> = Vec::new();
        let mut i: usize = 0;
        while i < self.world.slots.len()
            invariant
                i <= self.world.slots@.len(),
                self.wf(),
                forall|x: EntityId|
                    #![trigger assignees@.contains(x)]
                    assignees@.contains(x) <==> (self.world.alive(x) && Query::AssigneeOf(mission).holds(
                        self.world.rec(x),
                    )),
                units@ == roster_upto(self.world, mission, i as int),
            decreases self.world.slots@.len() - i,
        {
            let slot = self.world.slots[i];
            match slot.record {
                Some(r) => {
                    match (r.member_of, r.position) {
                        (Some(g), Some(p)) => {
                            let member = crate::orders::contains_id(&assignees, g);
                            proof {
                                assert(member == is_assignee(self.world, mission, g));
                            }
                            if member {
                                units.push((EntityId { index: i as u32, generation: slot.generation }, p));
                            }
                        },
                        _ => {},
                    }
                },
                None => {},
            }
            i += 1;
        }
        proof {
            lemma_roster(self.world, mission, self.world.slots@.len() as int);
            assert forall|x: EntityId| self.world.alive(x) implies x.index < self.world.slots@.len() by {}
        }
        units
    }

    /// Closes a mission because a unit of a group working it arrived.
    ///
    /// The first arrival finishes the mission for everyone, including groups still walking:
    /// it is marked completed, every group working it is freed and owed a new mission, and every
    /// member of those groups walking to it under mission steering stops following that order.
    /// Orders a player gave by hand are left alone. `false`, changing nothing, when the mission
    /// is not open or nobody works it.
    pub fn complete_mission(&mut self, mission: EntityId) -> (done: bool)
        requires
            old(self).wf(),
        ensures
            final(self).wf(),
            old(self).keeps_history(final(self)),
            old(self).world.same_lifecycle(&final(self).world),
            done == completable(old(self).world, mission),
            !done ==> final(self).world == old(self).world,
            done ==> forall|x: EntityId|
                #![trigger final(self).world.rec(x)]
                old(self).world.alive(x) ==> final(self).world.rec(x) == if x == mission {
                    EntityRecord {
                        mission_completed: true,
                        ..closed(old(self).world, mission, old(self).world.rec(x))
                    }
                } else {
                    closed(old(self).world, mission, old(self).world.rec(x))
                },
            forall|x: EntityId|
                #![trigger final(self).world.rec(x)]
                old(self).world.alive(x) && old(self).world.rec(x).assigned_to != Some(mission)
                    ==> final(self).world.rec(x).assigned_to == old(self).world.rec(x).assigned_to
                    && final(self).world.rec(x).needs_mission == old(self).world.rec(x).needs_mission,
            done ==> forall|x: EntityId|
                #![trigger final(self).world.rec(x)]
                old(self).world.alive(x) && old(self).world.rec(x).group is Some && old(self).world.rec(
                    x,
                ).assigned_to == Some(mission) ==> final(self).world.rec(x).assigned_to is None
                    && final(self).world.rec(x).needs_mission,
            final(self).templates == old(self).templates,
            final(self).map_bounds == old(self).map_bounds,
            final(self).arrived == old(self).arrived,
    {
        let m = match self.world.get(mission) {
            Some(m) => m,
            None => return false,
        };
        if !Query::OpenMission.check(&m) {
            return false;
        }
        let assignees = self.world.query(Query::AssigneeOf(mission));
        if assignees.len() == 0 {
            return false;
        }
        proof {
            lemma_query_of(self.world, Query::AssigneeOf(mission));
        }
        let ghost w0 = self.world;
        let ghost f = |r: EntityRecord| closed(w0, mission, r);
        let mut next: Vec<Option<EntityRecord>> = Vec::new();
        let mut i: usize = 0;
        while i < self.world.slots.len()
            invariant
                i <= self.world.slots@.len(),
                self.wf(),
                self.world == w0,
                assignees@ == query_of(w0, Query::AssigneeOf(mission)),
                forall|x: EntityId|
                    #![trigger assignees@.contains(x)]
                    assignees@.contains(x) <==> (w0.alive(x) && Query::AssigneeOf(mission).holds(w0.rec(x))),
                f == (|r: EntityRecord| closed(w0, mission, r)),
                mapped(self.world, next@, f, i as int),
            decreases self.world.slots@.len() - i,
        {
            let entry = match self.world.slots[i].record {
                Some(r) => Some(close_record(&assignees, mission, r, Ghost(w0))),
                None => None,
            };
            next.push(entry);
            proof {
                assert forall|j: int| 0 <= j < i + 1 implies #[trigger] next@[j] == match self.world.slots@[j].record {
                    Some(r) => Some(f(r)),
                    None => None::<EntityRecord>,
                } by {
                    if j < i {
                        assert(next@[j] == next@.drop_last()[j]);
                    }
                }
            }
            i += 1;
        }
        self.world.rewrite(&next);
        let ghost mid = self.world;
        let r = self.world.get(mission).unwrap();
        self.world.set(mission, EntityRecord { mission_completed: true, ..r });
        proof {
            assert forall|x: EntityId| #![trigger self.world.rec(x)] w0.alive(x) implies self.world.rec(x)
                == if x == mission {
                EntityRecord { mission_completed: true, ..closed(w0, mission, w0.rec(x)) }
            } else {
                closed(w0, mission, w0.rec(x))
            } by {
                assert(next@[x.index as int] == Some(f(w0.rec(x))));
                assert(mid.rec(x) == closed(w0, mission, w0.rec(x)));
            }
        }
        true
    }

    /// Takes the marker off every group owed a new mission, and returns those the planner should
    /// place, in slot order: the ones not under manual control.
    ///
    /// The host picks each returned group's next mission — the open mission nearest to the
    /// centre of its placed members, ties to the lower index — and assigns it with
    /// [`Api::assign_group`]; a group with no placed member stays idle.
    pub fn groups_needing_mission(&mut self) -> (groups: Vec<EntityId>)
        requires
            old(self).wf(),
        ensures
            final(self).wf(),
            old(self).keeps_history(final(self)),
            old(self).world.same_lifecycle(&final(self).world),
            groups@ == automatic_only(old(self).world, query_of(old(self).world, Query::NeedsMission)),
            forall|x: EntityId|
                #![trigger final(self).world.rec(x)]
                old(self).world.alive(x) ==> final(self).world.rec(x) == planner_seen(old(self).world.rec(x)),
            forall|x: EntityId|
                #![trigger final(self).world.rec(x)]
                final(self).world.alive(x) && final(self).world.rec(x).group is Some
                    ==> !final(self).world.rec(x).needs_mission,
            query_of(final(self).world, Query::NeedsMission).len() == 0,
            final(self).templates == old(self).templates,
            final(self).map_bounds == old(self).map_bounds,
            final(self).arrived == old(self).arrived,
    {
        let all = self.world.query(Query::NeedsMission);
        proof {
            lemma_query_of(self.world, Query::NeedsMission);
        }
        let ghost w0 = self.world;
        let mut groups: Vec<EntityId> = Vec::new();
        let mut i: usize = 0;
        while i < all.len()
            invariant
                i <= all@.len(),
                self.wf(),
                self.world == w0,
                forall|k: int| 0 <= k < all@.len() ==> w0.alive(#[trigger] all@[k]),
                groups@ == automatic_only(w0, all@.take(i as int)),
            decreases all@.len() - i,
        {
            let g = all[i];
            proof {
                assert(all@.take(i as int + 1).drop_last() =~= all@.take(i as int));
                assert(all@.take(i as int + 1).last() == g);
            }
            let r = self.world.get(g).unwrap();
            if !r.manual_active {
                groups.push(g);
            }
            i += 1;
        }
        proof {
            assert(all@.take(all@.len() as int) =~= all@);
        }
        let ghost f = |r: EntityRecord| planner_seen(r);
        let mut next: Vec<Option<EntityRecord>> = Vec::new();
        let mut k: usize = 0;
        while k < self.world.slots.len()
            invariant
                k <= self.world.slots@.len(),
                self.wf(),
                self.world == w0,
                f == (|r: EntityRecord| planner_seen(r)),
                mapped(self.world, next@, f, k as int),
            decreases self.world.slots@.len() - k,
        {
            let entry = match self.world.slots[k].record {
                Some(r) => if Query::NeedsMission.check(&r) {
                    Some(EntityRecord { needs_mission: false, ..r })
                } else {
                    Some(r)
                },
                None => None,
            };
            next.push(entry);
            proof {
                assert forall|j: int| 0 <= j < k + 1 implies #[trigger] next@[j] == match self.world.slots@[j].record {
                    Some(r) => Some(f(r)),
                    None => None::<EntityRecord>,
                } by {
                    if j < k {
                        assert(next@[j] == next@.drop_last()[j]);
                    }
                }
            }
            k += 1;
        }
        self.world.rewrite(&next);
        proof {
            assert forall|x: EntityId| #![trigger self.world.rec(x)] w0.alive(x) implies self.world.rec(x)
                == planner_seen(w0.rec(x)) by {
                assert(next@[x.index as int] == Some(f(w0.rec(x))));
            }
            lemma_query_of(self.world, Query::NeedsMission);
            let q = query_of(self.world, Query::NeedsMission);
            if q.len() > 0 {
                let x = q[0];
                assert(self.world.alive(x) && Query::NeedsMission.holds(self.world.rec(x)));
                assert(w0.alive(x));
                assert(self.world.rec(x) == planner_seen(w0.rec(x)));
            }
        }
        groups
    }

    fn synced_record(&self, r: EntityRecord) -> (out: EntityRecord)
        requires
            self.wf(),
        ensures
            out == synced(self.world, r),
    {
        let v = match r.passenger_of {
            Some(v) => v,
            None => return r,
        };
        if r.position.is_none() {
            return r;
        }
        match self.world.get(v) {
            Some(vr) => {
                if vr.position.is_some() && vr.passenger_of.is_none() {
                    let velocity = match r.velocity {
                        Some(_) => Some(Velocity::zero()),
                        None => None,
                    };
                    return EntityRecord { position: vr.position, velocity, ..r };
                }
            },
            None => {},
        }
        EntityRecord { passenger_of: None, ..r }
    }
}

/// The record once mission `m` closes, with the groups working it listed in `assignees`.
fn close_record(assignees: &Vec<EntityId>, m: EntityId, r: EntityRecord, Ghost(w): Ghost<World>) -> (out: EntityRecord)
    requires
        forall|x: EntityId|
            #![trigger assignees@.contains(x)]
            assignees@.contains(x) <==> (w.alive(x) && Query::AssigneeOf(m).holds(w.rec(x))),
    ensures
        out == closed(w, m, r),
{
    let assignee = Query::AssigneeOf(m).check(&r);
    let released = match r.member_of {
        Some(g) => crate::orders::contains_id(assignees, g) && r.order_source == Some(
            OrderSource::MissionSteering,
        ),
        None => false,
    };
    proof {
        if r.member_of is Some {
            let g = r.member_of->Some_0;
            assert(assignees@.contains(g) == is_assignee(w, m, g));
        }
    }
    EntityRecord {
        assigned_to: if assignee {
            None
        } else {
            r.assigned_to
        },
        needs_mission: if assignee {
            true
        } else {
            r.needs_mission
        },
        move_target: if released {
            None
        } else {
            r.move_target
        },
        order_source: if released {
            None
        } else {
            r.order_source
        },
        ..r
    }
}

} // verus!
