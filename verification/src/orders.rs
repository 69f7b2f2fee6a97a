//! Gameplay commands issued from outside the simulation: move orders and stop orders.
//!
//! A move order spreads its destinations over a grid around the clicked point. That layout is
//! floating-point arithmetic, which the host does: it asks which entities take the order
//! (`movable_for_move_order`), computes one destination per slot, and hands them in.
use vstd::prelude::*;

use crate::api::Api;
use crate::components::{MoveTarget, Velocity};
use crate::ids::{index_is_valid, EntityId, OrderReport};
use crate::order_source::OrderSource;
use crate::world::{EntityRecord, World};

verus! {

/// The entity can reach a move order: it has a place in the world, a speed to travel at, and it
/// is not riding in something else.
pub open spec fn can_take_a_move_order(r: EntityRecord) -> bool {
    r.position is Some && r.base_move_speed is Some && r.passenger_of is None
}

/// The ids of `ids` that pass `keep`, in order, each once.
pub open spec fn distinct_where(ids: Seq<EntityId>, keep: spec_fn(EntityId) -> bool) -> Seq<EntityId>
    decreases ids.len(),
{
    if ids.len() == 0 {
        Seq::empty()
    } else {
        let prev = distinct_where(ids.drop_last(), keep);
        let id = ids.last();
        if !prev.contains(id) && keep(id) {
            prev.push(id)
        } else {
            prev
        }
    }
}

/// What `distinct_where` holds: the ids of `ids` that pass `keep`, without repeats.
pub proof fn lemma_distinct_where(ids: Seq<EntityId>, keep: spec_fn(EntityId) -> bool)
    ensures
        distinct_where(ids, keep).no_duplicates(),
        distinct_where(ids, keep).len() <= ids.len(),
        forall|x: EntityId|
            #![trigger distinct_where(ids, keep).contains(x)]
            distinct_where(ids, keep).contains(x) <==> (ids.contains(x) && keep(x)),
    decreases ids.len(),
{
    if ids.len() > 0 {
        let prev = distinct_where(ids.drop_last(), keep);
        lemma_distinct_where(ids.drop_last(), keep);
        let cur = distinct_where(ids, keep);
        let id = ids.last();
        assert forall|x: EntityId| ids.drop_last().contains(x) implies ids.contains(x) by {
            let k = choose|k: int| 0 <= k < ids.drop_last().len() && ids.drop_last()[k] == x;
            assert(ids[k] == x);
        }
        assert(ids[ids.len() - 1] == id);
        assert forall|x: EntityId| ids.contains(x) && x != id implies ids.drop_last().contains(x) by {
            let k = choose|k: int| 0 <= k < ids.len() && ids[k] == x;
            assert(ids.drop_last()[k] == x);
        }
        if cur != prev {
            assert(cur == prev.push(id));
            assert forall|x: EntityId| #![trigger cur.contains(x)]
                cur.contains(x) <==> (ids.contains(x) && keep(x)) by {
                if cur.contains(x) && x != id {
                    let k = choose|k: int| 0 <= k < cur.len() && cur[k] == x;
                    assert(prev[k] == x);
                }
                if prev.contains(x) {
                    let k = choose|k: int| 0 <= k < prev.len() && prev[k] == x;
                    assert(cur[k] == x);
                }
                if x == id {
                    assert(cur[prev.len() as int] == x);
                }
            }
            assert forall|a: int, b: int|
                0 <= a < cur.len() && 0 <= b < cur.len() && a != b implies cur[a] != cur[b] by {
                if a < prev.len() && b < prev.len() {
                    assert(cur[a] == prev[a] && cur[b] == prev[b]);
                } else if a < prev.len() {
                    assert(cur[a] == prev[a]);
                    assert(prev.contains(prev[a]));
                } else if b < prev.len() {
                    assert(cur[b] == prev[b]);
                    assert(prev.contains(prev[b]));
                }
            }
        } else {
            assert forall|x: EntityId| #![trigger cur.contains(x)]
                cur.contains(x) <==> (ids.contains(x) && keep(x)) by {
                if x == id && ids.contains(x) && keep(x) {
                    assert(prev.contains(id));
                }
            }
        }
    }
}

/// The ids that take a move order, in order, each once.
pub open spec fn movable_prefix(w: World, ids: Seq<EntityId>) -> Seq<EntityId> {
    distinct_where(ids, movable_in(w))
}

/// A live entity that can take a move order.
pub open spec fn movable_in(w: World) -> spec_fn(EntityId) -> bool {
    |x: EntityId| w.alive(x) && can_take_a_move_order(w.rec(x))
}

/// An order from `s` may replace the one the entity follows.
pub open spec fn overridable(r: EntityRecord, s: OrderSource) -> bool {
    match r.order_source {
        None => true,
        Some(cur) => s.rank() >= cur.rank(),
    }
}

/// The entity after taking a move order to `t` from `s`.
///
/// It gets a zero velocity if it had none, so seek and integration can run. A personal order
/// replaces a boarding order.
pub open spec fn steered(r: EntityRecord, t: MoveTarget, s: OrderSource) -> EntityRecord {
    EntityRecord {
        velocity: if r.velocity is Some {
            r.velocity
        } else {
            Some(Velocity::spec_zero())
        },
        move_target: Some(t),
        order_source: Some(s),
        boarding_target: if s == OrderSource::PlayerUnit {
            None
        } else {
            r.boarding_target
        },
        ..r
    }
}

/// How many of `es` an order from `s` takes.
pub open spec fn steer_count(w: World, es: Seq<EntityId>, s: OrderSource) -> nat
    decreases es.len(),
{
    if es.len() == 0 {
        0
    } else {
        steer_count(w, es.drop_last(), s) + if overridable(w.rec(es.last()), s) {
            1nat
        } else {
            0nat
        }
    }
}

/// The entity after a stop order: velocity zeroed, target, claim and boarding order dropped.
pub open spec fn stopped(r: EntityRecord) -> EntityRecord {
    EntityRecord {
        velocity: Some(Velocity::spec_zero()),
        move_target: None,
        order_source: None,
        boarding_target: None,
        ..r
    }
}

/// The ids that a stop order reaches, in order, each once: live entities with a velocity.
pub open spec fn stop_prefix(w: World, ids: Seq<EntityId>) -> Seq<EntityId> {
    distinct_where(ids, stoppable_in(w))
}

/// A live entity with a velocity.
pub open spec fn stoppable_in(w: World) -> spec_fn(EntityId) -> bool {
    |x: EntityId| w.alive(x) && w.rec(x).velocity is Some
}

/// What `movable_prefix` holds: distinct live movable ids taken from `ids`.
pub proof fn lemma_movable_prefix(w: World, ids: Seq<EntityId>)
    ensures
        movable_prefix(w, ids).no_duplicates(),
        movable_prefix(w, ids).len() <= ids.len(),
        forall|k: int|
            0 <= k < movable_prefix(w, ids).len() ==> w.alive(#[trigger] movable_prefix(w, ids)[k])
                && can_take_a_move_order(w.rec(movable_prefix(w, ids)[k])) && ids.contains(
                movable_prefix(w, ids)[k],
            ),
        forall|x: EntityId|
            #![trigger movable_prefix(w, ids).contains(x)]
            movable_prefix(w, ids).contains(x) <==> (ids.contains(x) && w.alive(x)
                && can_take_a_move_order(w.rec(x))),
{
    lemma_distinct_where(ids, movable_in(w));
    let m = movable_prefix(w, ids);
    assert forall|k: int| 0 <= k < m.len() implies w.alive(#[trigger] m[k]) && can_take_a_move_order(
        w.rec(m[k]),
    ) && ids.contains(m[k]) by {
        assert(m.contains(m[k]));
    }
}

/// What `stop_prefix` holds: distinct live ids with a velocity, taken from `ids`.
pub proof fn lemma_stop_prefix(w: World, ids: Seq<EntityId>)
    ensures
        stop_prefix(w, ids).no_duplicates(),
        stop_prefix(w, ids).len() <= ids.len(),
        forall|x: EntityId|
            #![trigger stop_prefix(w, ids).contains(x)]
            stop_prefix(w, ids).contains(x) <==> (ids.contains(x) && w.alive(x)
                && w.rec(x).velocity is Some),
{
    lemma_distinct_where(ids, stoppable_in(w));
}

/// A personal order takes every entity it is given.
pub proof fn lemma_player_order_takes_all(w: World, es: Seq<EntityId>)
    ensures
        steer_count(w, es, OrderSource::PlayerUnit) == es.len(),
    decreases es.len(),
{
    if es.len() > 0 {
        lemma_player_order_takes_all(w, es.drop_last());
    }
}

pub proof fn lemma_steer_count_bound(w: World, es: Seq<EntityId>, s: OrderSource)
    ensures
        steer_count(w, es, s) <= es.len(),
    decreases es.len(),
{
    if es.len() > 0 {
        lemma_steer_count_bound(w, es.drop_last(), s);
    }
}

/// `true` when `x` is in `v`.
pub fn contains_id(v: &Vec<EntityId>, x: EntityId) -> (found: bool)
    ensures
        found == v@.contains(x),
{
    let mut i: usize = 0;
    while i < v.len()
        invariant
            i <= v.len(),
            forall|j: int| 0 <= j < i ==> v@[j] != x,
        decreases v.len() - i,
    {
        if v[i] == x {
            return true;
        }
        i += 1;
    }
    false
}

/// Sets `e.move_target` and `e.order_source` the way an order does, keeping the rest.
pub fn steered_record(r: EntityRecord, t: MoveTarget, s: OrderSource) -> (out: EntityRecord)
    ensures
        out == steered(r, t, s),
{
    let velocity = match r.velocity {
        Some(v) => Some(v),
        None => Some(Velocity::zero()),
    };
    let boarding_target = match s {
        OrderSource::PlayerUnit => None,
        _ => r.boarding_target,
    };
    EntityRecord {
        velocity,
        move_target: Some(t),
        order_source: Some(s),
        boarding_target,
        ..r
    }
}

/// `true` when an order from `s` may replace the one the entity follows.
pub fn may_take(r: &EntityRecord, s: OrderSource) -> (ok: bool)
    ensures
        ok == overridable(*r, s),
{
    match r.order_source {
        None => true,
        Some(cur) => s.may_override(cur),
    }
}

/// A unit following a personal order keeps it through group and mission steering: neither may
/// replace it, and steering leaves such a unit exactly as it was.
pub proof fn lemma_automation_keeps_personal_orders(r: EntityRecord, t: MoveTarget)
    requires
        r.order_source == Some(OrderSource::PlayerUnit),
    ensures
        !overridable(r, OrderSource::GroupSteering),
        !overridable(r, OrderSource::MissionSteering),
        overridable(r, OrderSource::PlayerUnit),
        steered(r, t, OrderSource::PlayerUnit).order_source == Some(OrderSource::PlayerUnit),
{
}

impl Api {
    /// Points entities at their slot destinations and records who gave the order.
    ///
    /// `entities[k]` is sent to `targets[k]`. An entity already following a stronger order keeps
    /// it: see [`OrderSource::may_override`]. Returns how many entities took the order.
    pub(crate) fn steer(&mut self, entities: &Vec<EntityId>, targets: &[MoveTarget], source: OrderSource) -> (ordered: usize)
        requires
            old(self).wf(),
            entities@.no_duplicates(),
            forall|k: int| 0 <= k < entities@.len() ==> old(self).world.alive(#[trigger] entities@[k]),
            targets@.len() >= entities@.len(),
        ensures
            final(self).wf(),
            old(self).world.same_lifecycle(&final(self).world),
            old(self).keeps_history(final(self)),
            ordered == steer_count(old(self).world, entities@, source),
            forall|k: int|
                0 <= k < entities@.len() ==> final(self).world.rec(#[trigger] entities@[k]) == if overridable(
                    old(self).world.rec(entities@[k]),
                    source,
                ) {
                    steered(old(self).world.rec(entities@[k]), targets@[k], source)
                } else {
                    old(self).world.rec(entities@[k])
                },
            forall|x: EntityId|
                #![trigger final(self).world.rec(x)]
                old(self).world.alive(x) && !entities@.contains(x) ==> final(self).world.rec(x) == old(self).world.rec(x),
            final(self).templates == old(self).templates,
            final(self).map_bounds == old(self).map_bounds,
            final(self).arrived == old(self).arrived,
    {
        let ghost start = self.world;
        let mut ordered: usize = 0;
        let mut i: usize = 0;
        while i < entities.len()
            invariant
                i <= entities@.len(),
                self.world.wf(),
                start.wf(),
                start.same_lifecycle(&self.world),
                forall|x: EntityId| start.spent(x) == self.world.spent(x),
                forall|x: EntityId| start.alive(x) == self.world.alive(x),
                entities@.no_duplicates(),
                forall|k: int| 0 <= k < entities@.len() ==> start.alive(#[trigger] entities@[k]),
                targets@.len() >= entities@.len(),
                ordered == steer_count(start, entities@.take(i as int), source),
                ordered <= i,
                forall|k: int|
                    0 <= k < i ==> self.world.rec(#[trigger] entities@[k]) == if overridable(
                        start.rec(entities@[k]),
                        source,
                    ) {
                        steered(start.rec(entities@[k]), targets@[k], source)
                    } else {
                        start.rec(entities@[k])
                    },
                forall|x: EntityId|
                    #![trigger self.world.rec(x)]
                    start.alive(x) && !entities@.take(i as int).contains(x) ==> self.world.rec(x)
                        == start.rec(x),
                self.templates == old(self).templates,
                self.map_bounds == old(self).map_bounds,
                self.arrived == old(self).arrived,
                start == old(self).world,
            decreases entities@.len() - i,
        {
            let id = entities[i];
            proof {
                assert(!entities@.take(i as int).contains(id)) by {
                    if entities@.take(i as int).contains(id) {
                        let j = choose|j: int|
                            0 <= j < entities@.take(i as int).len() && entities@.take(i as int)[j] == id;
                        assert(entities@[j] == entities@[i as int]);
                    }
                }
                assert(entities@.take(i as int + 1).drop_last() =~= entities@.take(i as int));
                assert(entities@.take(i as int + 1).last() == id);
            }
            let rec = self.world.get(id).unwrap();
            let ghost mid = self.world;
            if may_take(&rec, source) {
                let next = steered_record(rec, targets[i], source);
                self.world.set(id, next);
                ordered = ordered + 1;
            }
            proof {
                assert forall|k: int| 0 <= k < i + 1 implies self.world.rec(#[trigger] entities@[k])
                    == if overridable(start.rec(entities@[k]), source) {
                    steered(start.rec(entities@[k]), targets@[k], source)
                } else {
                    start.rec(entities@[k])
                } by {
                    if k < i {
                        assert(entities@[k] != id);
                        assert(mid.rec(entities@[k]) == self.world.rec(entities@[k]));
                    }
                }
                assert forall|x: EntityId| #![trigger self.world.rec(x)]
                    start.alive(x) && !entities@.take(i as int + 1).contains(x) implies self.world.rec(x)
                    == start.rec(x) by {
                    assert(entities@.take(i as int + 1)[i as int] == id);
                    if entities@.take(i as int).contains(x) {
                        let j = choose|j: int|
                            0 <= j < entities@.take(i as int).len() && entities@.take(i as int)[j] == x;
                        assert(entities@.take(i as int + 1)[j] == x);
                    }
                }
            }
            i += 1;
        }
        proof {
            assert(entities@.take(entities@.len() as int) =~= entities@);
        }
        ordered
    }

    /// The entities that take a move order given to `ids`, in order, each once.
    ///
    /// Ids without a position or a base move speed are skipped, and so are passengers: an
    /// immobile or carried entity cannot take a move order.
    pub fn movable_for_move_order(&self, ids: &[EntityId]) -> (movable: Vec<EntityId>)
        requires
            self.wf(),
        ensures
            movable@ == movable_prefix(self.world, ids@),
    {
        let mut movable: Vec<EntityId> = Vec::new();
        let mut i: usize = 0;
        while i < ids.len()
            invariant
                i <= ids@.len(),
                self.wf(),
                movable@ == movable_prefix(self.world, ids@.take(i as int)),
            decreases ids@.len() - i,
        {
            let id = ids[i];
            proof {
                assert(ids@.take(i as int + 1).drop_last() =~= ids@.take(i as int));
                assert(ids@.take(i as int + 1).last() == id);
            }
            if index_is_valid(id.index) && !contains_id(&movable, id) {
                match self.world.get(id) {
                    Some(r) => {
                        if r.position.is_some() && r.base_move_speed.is_some()
                            && r.passenger_of.is_none() {
                            movable.push(id);
                        }
                    },
                    None => {},
                }
            }
            i += 1;
        }
        proof {
            assert(ids@.take(ids@.len() as int) =~= ids@);
        }
        movable
    }

    /// Orders the given entities to move, the `k`-th one that can take the order to
    /// `targets[k]`.
    ///
    /// Ids without a position or a base move speed, passengers, and repeats are skipped: see
    /// [`Api::movable_for_move_order`]. Entities that take the order but carry no velocity get a
    /// zero one so seek and integration can run. The order is the unit's own
    /// ([`OrderSource::PlayerUnit`]), so it replaces any move or boarding order the unit had.
    pub fn order_move_to(&mut self, ids: &[EntityId], targets: &[MoveTarget]) -> (report: OrderReport)
        requires
            old(self).wf(),
            targets@.len() >= movable_prefix(old(self).world, ids@).len(),
        ensures
            final(self).wf(),
            old(self).world.same_lifecycle(&final(self).world),
            old(self).keeps_history(final(self)),
            report.ordered == movable_prefix(old(self).world, ids@).len(),
            report.skipped == ids@.len() - report.ordered,
            forall|k: int|
                0 <= k < movable_prefix(old(self).world, ids@).len() ==> final(self).world.rec(
                    #[trigger] movable_prefix(old(self).world, ids@)[k],
                ) == steered(
                    old(self).world.rec(movable_prefix(old(self).world, ids@)[k]),
                    targets@[k],
                    OrderSource::PlayerUnit,
                ),
            forall|x: EntityId|
                #![trigger final(self).world.rec(x)]
                old(self).world.alive(x) && !movable_prefix(old(self).world, ids@).contains(x)
                    ==> final(self).world.rec(x) == old(self).world.rec(x),
            final(self).templates == old(self).templates,
            final(self).map_bounds == old(self).map_bounds,
            final(self).arrived == old(self).arrived,
    {
        let movable = self.movable_for_move_order(ids);
        proof {
            lemma_movable_prefix(self.world, ids@);
            lemma_player_order_takes_all(self.world, movable@);
        }
        let ordered = self.steer(&movable, targets, OrderSource::PlayerUnit);
        OrderReport { ordered, skipped: ids.len() - ordered }
    }

    /// Stops the given entities: zeroes their velocity and drops any move target, the claim
    /// that set it, and any boarding order.
    ///
    /// Unlike [`Api::order_move_to`] this does not require a base move speed: in this engine a
    /// velocity is movement, so an entity that carries one drifts until something stops it.
    /// Ids without a velocity, and repeats, are reported as skipped.
    pub fn order_stop(&mut self, ids: &[EntityId]) -> (report: OrderReport)
        requires
            old(self).wf(),
        ensures
            final(self).wf(),
            old(self).world.same_lifecycle(&final(self).world),
            old(self).keeps_history(final(self)),
            report.ordered == stop_prefix(old(self).world, ids@).len(),
            report.skipped == ids@.len() - report.ordered,
            forall|x: EntityId|
                #![trigger final(self).world.rec(x)]
                old(self).world.alive(x) ==> final(self).world.rec(x) == if stop_prefix(
                    old(self).world,
                    ids@,
                ).contains(x) {
                    stopped(old(self).world.rec(x))
                } else {
                    old(self).world.rec(x)
                },
            final(self).templates == old(self).templates,
            final(self).map_bounds == old(self).map_bounds,
            final(self).arrived == old(self).arrived,
    {
        let ghost start = self.world;
        let mut done: Vec<EntityId> = Vec::new();
        let mut i: usize = 0;
        while i < ids.len()
            invariant
                i <= ids@.len(),
                self.world.wf(),
                start.wf(),
                start.same_lifecycle(&self.world),
                forall|x: EntityId| start.spent(x) == self.world.spent(x),
                forall|x: EntityId| start.alive(x) == self.world.alive(x),
                done@ == stop_prefix(start, ids@.take(i as int)),
                forall|x: EntityId|
                    #![trigger self.world.rec(x)]
                    start.alive(x) ==> self.world.rec(x) == if done@.contains(x) {
                        stopped(start.rec(x))
                    } else {
                        start.rec(x)
                    },
                self.templates == old(self).templates,
                self.map_bounds == old(self).map_bounds,
                self.arrived == old(self).arrived,
                start == old(self).world,
            decreases ids@.len() - i,
        {
            let id = ids[i];
            proof {
                assert(ids@.take(i as int + 1).drop_last() =~= ids@.take(i as int));
                assert(ids@.take(i as int + 1).last() == id);
            }
            if index_is_valid(id.index) && !contains_id(&done, id) {
                match self.world.get(id) {
                    Some(r) => {
                        if r.velocity.is_some() {
                            let next = EntityRecord {
                                velocity: Some(Velocity::zero()),
                                move_target: None,
                                order_source: None,
                                boarding_target: None,
                                ..r
                            };
                            let ghost mid = self.world;
                            let ghost before_done = done@;
                            self.world.set(id, next);
                            done.push(id);
                            proof {
                                assert forall|x: EntityId| #![trigger self.world.rec(x)]
                                    start.alive(x) implies self.world.rec(x) == if done@.contains(x) {
                                    stopped(start.rec(x))
                                } else {
                                    start.rec(x)
                                } by {
                                    if x != id {
                                        if done@.contains(x) {
                                            let j = choose|j: int| 0 <= j < done@.len() && done@[j] == x;
                                            assert(before_done[j] == x);
                                        }
                                        if before_done.contains(x) {
                                            let j = choose|j: int|
                                                0 <= j < before_done.len() && before_done[j] == x;
                                            assert(done@[j] == x);
                                        }
                                    } else {
                                        assert(done@[before_done.len() as int] == x);
                                    }
                                }
                            }
                        }
                    },
                    None => {},
                }
            }
            i += 1;
        }
        proof {
            assert(ids@.take(ids@.len() as int) =~= ids@);
            lemma_stop_prefix(start, ids@);
        }
        let ordered = done.len();
        OrderReport { ordered, skipped: ids.len() - ordered }
    }
}

} // verus!
