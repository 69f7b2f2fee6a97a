//! Boarding: putting units inside vehicles and letting them out again.
//!
//! A vehicle is any entity with [`Boardable`](crate::components::Boardable); a passenger carries
//! `passenger_of`. While that is present the movement steps skip the unit, so its position has
//! exactly one owner — the vehicle.
use vstd::prelude::*;

use crate::api::Api;
use crate::components::{Position, Velocity};
use crate::errors::BoardError;
use crate::ids::{index_is_valid, EntityId, OrderReport};
use crate::orders::{can_take_a_move_order, contains_id, distinct_where, lemma_distinct_where};
use crate::queries::{lemma_query_len_insert, lemma_query_of, query_of, Query};
use crate::world::{EntityRecord, World};

verus! {

/// How many units ride `vehicle`.
pub open spec fn passenger_count(w: World, vehicle: EntityId) -> nat {
    query_of(w, Query::PassengerOf(vehicle)).len()
}

/// `id` names a live entity with seats.
pub open spec fn is_vehicle(w: World, id: EntityId) -> bool {
    w.alive(id) && w.rec(id).boardable is Some
}

/// The seats of a vehicle.
pub open spec fn seats_of(w: World, id: EntityId) -> u8 {
    w.rec(id).boardable->Some_0.0
}

/// What boarding `unit` into `vehicle` answers in this world.
pub open spec fn board_outcome(w: World, unit: EntityId, vehicle: EntityId) -> Result<(), BoardError> {
    if !w.alive(unit) {
        Err(BoardError::UnknownUnit(unit))
    } else if w.rec(unit).passenger_of is Some {
        Err(BoardError::AlreadyAboard(unit))
    } else if !is_vehicle(w, vehicle) {
        Err(BoardError::NotBoardable(vehicle))
    } else if w.rec(unit).position is None {
        Err(BoardError::NoPosition(unit))
    } else if w.rec(vehicle).position is None {
        Err(BoardError::NoPosition(vehicle))
    } else if passenger_count(w, vehicle) >= seats_of(w, vehicle) {
        Err(BoardError::NoSeatsLeft { seats: seats_of(w, vehicle) })
    } else {
        Ok(())
    }
}

/// The unit once aboard: its own orders dropped, its velocity zeroed, riding `vehicle`.
pub open spec fn aboard(r: EntityRecord, vehicle: EntityId) -> EntityRecord {
    EntityRecord {
        move_target: None,
        order_source: None,
        boarding_target: None,
        passenger_of: Some(vehicle),
        velocity: if r.velocity is Some {
            Some(Velocity::spec_zero())
        } else {
            None
        },
        ..r
    }
}

/// The unit once told to board `vehicle`: its move order replaced by the boarding order.
pub open spec fn heading_for(r: EntityRecord, vehicle: EntityId) -> EntityRecord {
    EntityRecord { move_target: None, order_source: None, boarding_target: Some(vehicle), ..r }
}

/// The unit once let out: no longer a passenger, and put down at `beside` when given.
pub open spec fn let_out(r: EntityRecord, beside: Option<Position>) -> EntityRecord {
    EntityRecord {
        passenger_of: None,
        position: if beside is Some && r.position is Some {
            beside
        } else {
            r.position
        },
        ..r
    }
}

/// A passenger carries no order of its own: boarding drops its move target, the claim that set
/// it and any boarding order, and records the vehicle it rides. Its position is unchanged.
pub proof fn lemma_a_passenger_carries_no_order(r: EntityRecord, vehicle: EntityId)
    ensures
        aboard(r, vehicle).move_target is None,
        aboard(r, vehicle).order_source is None,
        aboard(r, vehicle).boarding_target is None,
        aboard(r, vehicle).passenger_of == Some(vehicle),
        aboard(r, vehicle).position == r.position,
        aboard(r, vehicle).velocity is Some ==> aboard(r, vehicle).velocity == Some(Velocity::spec_zero()),
{
}

/// The units of `units` that a boarding order to `vehicle` reaches, in order, each once.
pub open spec fn board_order_prefix(w: World, units: Seq<EntityId>, vehicle: EntityId) -> Seq<EntityId> {
    distinct_where(units, may_board(w, vehicle))
}

/// A unit other than `vehicle` that can take a move order.
pub open spec fn may_board(w: World, vehicle: EntityId) -> spec_fn(EntityId) -> bool {
    |x: EntityId| x != vehicle && w.alive(x) && can_take_a_move_order(w.rec(x))
}

proof fn lemma_board_order_prefix(w: World, units: Seq<EntityId>, vehicle: EntityId)
    ensures
        board_order_prefix(w, units, vehicle).len() <= units.len(),
        forall|x: EntityId|
            #![trigger board_order_prefix(w, units, vehicle).contains(x)]
            board_order_prefix(w, units, vehicle).contains(x) <==> (units.contains(x) && x != vehicle
                && w.alive(x) && can_take_a_move_order(w.rec(x))),
{
    lemma_distinct_where(units, may_board(w, vehicle));
}

impl Api {
    /// Puts `unit` inside `vehicle` right now, from wherever it stands.
    ///
    /// Shared by [`Api::board`] and the boarding step of a tick, so the two cannot drift apart
    /// on what "aboard" means.
    pub fn board_now(&mut self, unit: EntityId, vehicle: EntityId) -> (res: Result<(), BoardError>)
        requires
            old(self).wf(),
        ensures
            final(self).wf(),
            old(self).keeps_history(final(self)),
            res == board_outcome(old(self).world, unit, vehicle),
            res is Ok ==> old(self).world.only_changed(
                &final(self).world,
                unit,
                aboard(old(self).world.rec(unit), vehicle),
            ) && old(self).world.same_lifecycle(&final(self).world),
            res is Ok ==> passenger_count(final(self).world, vehicle) == passenger_count(
                old(self).world,
                vehicle,
            ) + 1,
            res is Ok ==> passenger_count(final(self).world, vehicle) <= seats_of(
                old(self).world,
                vehicle,
            ),
            res is Ok ==> {
                let r = final(self).world.rec(unit);
                &&& r.move_target is None
                &&& r.order_source is None
                &&& r.boarding_target is None
                &&& r.passenger_of == Some(vehicle)
                &&& r.position == old(self).world.rec(unit).position
            },
            res is Err ==> final(self).world == old(self).world,
            final(self).templates == old(self).templates,
            final(self).map_bounds == old(self).map_bounds,
            final(self).arrived == old(self).arrived,
    {
        let u = match self.world.get(unit) {
            Some(r) => r,
            None => return Err(BoardError::UnknownUnit(unit)),
        };
        if u.passenger_of.is_some() {
            return Err(BoardError::AlreadyAboard(unit));
        }
        let v = match self.world.get(vehicle) {
            Some(r) => r,
            None => return Err(BoardError::NotBoardable(vehicle)),
        };
        let seats = match v.boardable {
            Some(b) => b.0,
            None => return Err(BoardError::NotBoardable(vehicle)),
        };
        if u.position.is_none() {
            return Err(BoardError::NoPosition(unit));
        }
        if v.position.is_none() {
            return Err(BoardError::NoPosition(vehicle));
        }
        let riders = self.world.query(Query::PassengerOf(vehicle));
        if riders.len() >= seats as usize {
            return Err(BoardError::NoSeatsLeft { seats });
        }
        let velocity = match u.velocity {
            Some(_) => Some(Velocity::zero()),
            None => None,
        };
        let next = EntityRecord {
            move_target: None,
            order_source: None,
            boarding_target: None,
            passenger_of: Some(vehicle),
            velocity,
            ..u
        };
        let ghost before = self.world;
        self.world.set(unit, next);
        proof {
            lemma_query_of(before, Query::PassengerOf(vehicle));
            lemma_query_of(self.world, Query::PassengerOf(vehicle));
            assert forall|y: EntityId|
                query_of(self.world, Query::PassengerOf(vehicle)).contains(y) <==> (query_of(
                    before,
                    Query::PassengerOf(vehicle),
                ).contains(y) || y == unit) by {
                if y != unit && before.alive(y) {
                    assert(self.world.rec(y) == before.rec(y));
                }
            }
            lemma_query_len_insert(before, self.world, Query::PassengerOf(vehicle), unit);
        }
        Ok(())
    }

    /// Puts a unit aboard a vehicle at once, wherever the two stand.
    ///
    /// Distance is not checked: this is the primitive, for scenarios that start a vehicle loaded.
    /// The order a player gives is [`Api::order_board`].
    pub fn board(&mut self, unit: EntityId, vehicle: EntityId) -> (res: Result<(), BoardError>)
        requires
            old(self).wf(),
        ensures
            final(self).wf(),
            old(self).keeps_history(final(self)),
            res == if unit.index == u32::MAX {
                Err(BoardError::UnknownUnit(unit))
            } else if vehicle.index == u32::MAX {
                Err(BoardError::NotBoardable(vehicle))
            } else {
                board_outcome(old(self).world, unit, vehicle)
            },
            res is Ok ==> old(self).world.only_changed(
                &final(self).world,
                unit,
                aboard(old(self).world.rec(unit), vehicle),
            ) && old(self).world.same_lifecycle(&final(self).world),
            res is Ok ==> passenger_count(final(self).world, vehicle) <= seats_of(
                old(self).world,
                vehicle,
            ),
            res is Ok ==> {
                let r = final(self).world.rec(unit);
                &&& r.move_target is None
                &&& r.order_source is None
                &&& r.boarding_target is None
                &&& r.passenger_of == Some(vehicle)
                &&& r.position == old(self).world.rec(unit).position
            },
            res is Err ==> final(self).world == old(self).world,
            final(self).templates == old(self).templates,
            final(self).map_bounds == old(self).map_bounds,
            final(self).arrived == old(self).arrived,
    {
        if !index_is_valid(unit.index) {
            return Err(BoardError::UnknownUnit(unit));
        }
        if !index_is_valid(vehicle.index) {
            return Err(BoardError::NotBoardable(vehicle));
        }
        self.board_now(unit, vehicle)
    }

    /// Orders units to walk to a vehicle and get in.
    ///
    /// Each unit that can take a move order, other than the vehicle itself, gets the boarding
    /// order in place of its move order; the boarding step of each tick walks it over and boards
    /// it once in range. Fails, ordering nobody, when `vehicle` is not something with seats.
    pub fn order_board(&mut self, units: &[EntityId], vehicle: EntityId) -> (res: Result<
        OrderReport,
        BoardError,
    >)
        requires
            old(self).wf(),
        ensures
            final(self).wf(),
            old(self).keeps_history(final(self)),
            old(self).world.same_lifecycle(&final(self).world),
            !(vehicle.index != u32::MAX && is_vehicle(old(self).world, vehicle)) ==> res == Err::<
                OrderReport,
                BoardError,
            >(BoardError::NotBoardable(vehicle)) && final(self).world == old(self).world,
            vehicle.index != u32::MAX && is_vehicle(old(self).world, vehicle) ==> res == Ok::<
                OrderReport,
                BoardError,
            >(
                OrderReport {
                    ordered: board_order_prefix(old(self).world, units@, vehicle).len() as usize,
                    skipped: (units@.len() - board_order_prefix(
                        old(self).world,
                        units@,
                        vehicle,
                    ).len()) as usize,
                },
            ),
            res is Ok ==> forall|x: EntityId|
                #![trigger final(self).world.rec(x)]
                old(self).world.alive(x) ==> final(self).world.rec(x) == if board_order_prefix(
                    old(self).world,
                    units@,
                    vehicle,
                ).contains(x) {
                    heading_for(old(self).world.rec(x), vehicle)
                } else {
                    old(self).world.rec(x)
                },
            final(self).templates == old(self).templates,
            final(self).map_bounds == old(self).map_bounds,
            final(self).arrived == old(self).arrived,
    {
        if !index_is_valid(vehicle.index) {
            return Err(BoardError::NotBoardable(vehicle));
        }
        match self.world.get(vehicle) {
            Some(v) => {
                if v.boardable.is_none() {
                    return Err(BoardError::NotBoardable(vehicle));
                }
            },
            None => return Err(BoardError::NotBoardable(vehicle)),
        }
        let ghost start = self.world;
        let mut ordered: Vec<EntityId> = Vec::new();
        let mut i: usize = 0;
        while i < units.len()
            invariant
                i <= units@.len(),
                self.world.wf(),
                start.wf(),
                start.same_lifecycle(&self.world),
                forall|x: EntityId| start.spent(x) == self.world.spent(x),
                forall|x: EntityId| start.alive(x) == self.world.alive(x),
                ordered@ == board_order_prefix(start, units@.take(i as int), vehicle),
                forall|x: EntityId|
                    #![trigger self.world.rec(x)]
                    start.alive(x) ==> self.world.rec(x) == if ordered@.contains(x) {
                        heading_for(start.rec(x), vehicle)
                    } else {
                        start.rec(x)
                    },
                self.templates == old(self).templates,
                self.map_bounds == old(self).map_bounds,
                self.arrived == old(self).arrived,
                start == old(self).world,
            decreases units@.len() - i,
        {
            let id = units[i];
            proof {
                assert(units@.take(i as int + 1).drop_last() =~= units@.take(i as int));
                assert(units@.take(i as int + 1).last() == id);
            }
            if index_is_valid(id.index) && !contains_id(&ordered, id) && id != vehicle {
                match self.world.get(id) {
                    Some(r) => {
                        if r.position.is_some() && r.base_move_speed.is_some()
                            && r.passenger_of.is_none() {
                            let next = EntityRecord {
                                move_target: None,
                                order_source: None,
                                boarding_target: Some(vehicle),
                                ..r
                            };
                            let ghost before_ordered = ordered@;
                            self.world.set(id, next);
                            ordered.push(id);
                            proof {
                                assert forall|x: EntityId| #![trigger self.world.rec(x)]
                                    start.alive(x) implies self.world.rec(x) == if ordered@.contains(x) {
                                    heading_for(start.rec(x), vehicle)
                                } else {
                                    start.rec(x)
                                } by {
                                    if x != id {
                                        if ordered@.contains(x) {
                                            let j = choose|j: int| 0 <= j < ordered@.len() && ordered@[j] == x;
                                            assert(before_ordered[j] == x);
                                        }
                                        if before_ordered.contains(x) {
                                            let j = choose|j: int|
                                                0 <= j < before_ordered.len() && before_ordered[j] == x;
                                            assert(ordered@[j] == x);
                                        }
                                    } else {
                                        assert(ordered@[before_ordered.len() as int] == x);
                                    }
                                }
                            }
                        }
                    },
                    None => {},
                }
            }
            i += 1;
        }
        proof {
            assert(units@.take(units@.len() as int) =~= units@);
            lemma_board_order_prefix(start, units@, vehicle);
        }
        let n = ordered.len();
        Ok(OrderReport { ordered: n, skipped: units.len() - n })
    }

    /// Lets a unit out of the vehicle it rides, putting it down at `beside` when given.
    ///
    /// `beside` is where the host puts the unit down: the vehicle's position, offset by the
    /// unboarding distance, or `None` when the vehicle has no position. A unit without a
    /// position of its own keeps none.
    pub fn unboard(&mut self, unit: EntityId, beside: Option<Position>) -> (res: Result<(), BoardError>)
        requires
            old(self).wf(),
        ensures
            final(self).wf(),
            old(self).keeps_history(final(self)),
            unit.index == u32::MAX ==> res == Err::<(), BoardError>(BoardError::UnknownUnit(unit)),
            unit.index != u32::MAX && !(old(self).world.alive(unit) && old(self).world.rec(
                unit,
            ).passenger_of is Some) ==> res == Err::<(), BoardError>(BoardError::NotAboard(unit)),
            res is Ok <==> (unit.index != u32::MAX && old(self).world.alive(unit) && old(self).world.rec(unit).passenger_of is Some),
            res is Ok ==> old(self).world.only_changed(
                &final(self).world,
                unit,
                let_out(old(self).world.rec(unit), beside),
            ) && old(self).world.same_lifecycle(&final(self).world),
            res is Err ==> final(self).world == old(self).world,
            final(self).templates == old(self).templates,
            final(self).map_bounds == old(self).map_bounds,
            final(self).arrived == old(self).arrived,
    {
        if !index_is_valid(unit.index) {
            return Err(BoardError::UnknownUnit(unit));
        }
        let r = match self.world.get(unit) {
            Some(r) => r,
            None => return Err(BoardError::NotAboard(unit)),
        };
        if r.passenger_of.is_none() {
            return Err(BoardError::NotAboard(unit));
        }
        let position = match beside {
            Some(p) => if r.position.is_some() {
                Some(p)
            } else {
                r.position
            },
            None => r.position,
        };
        self.world.set(unit, EntityRecord { passenger_of: None, position, ..r });
        Ok(())
    }

    /// The vehicle this unit is riding, if any.
    pub fn vehicle_of(&self, unit: EntityId) -> (vehicle: Option<EntityId>)
        requires
            self.wf(),
        ensures
            vehicle == (if self.world.alive(unit) {
                self.world.rec(unit).passenger_of
            } else {
                None
            }),
    {
        if !index_is_valid(unit.index) {
            return None;
        }
        match self.world.get(unit) {
            Some(r) => r.passenger_of,
            None => None,
        }
    }

    /// The vehicle this unit is on its way to board, if it has such an order.
    pub fn boarding_target_of(&self, unit: EntityId) -> (vehicle: Option<EntityId>)
        requires
            self.wf(),
        ensures
            vehicle == (if self.world.alive(unit) {
                self.world.rec(unit).boarding_target
            } else {
                None
            }),
    {
        if !index_is_valid(unit.index) {
            return None;
        }
        match self.world.get(unit) {
            Some(r) => r.boarding_target,
            None => None,
        }
    }

    /// Everyone currently riding this vehicle, in slot order.
    pub fn passengers(&self, vehicle: EntityId) -> (riders: Vec<EntityId>)
        requires
            self.wf(),
        ensures
            riders@ == if vehicle.index == u32::MAX {
                Seq::empty()
            } else {
                query_of(self.world, Query::PassengerOf(vehicle))
            },
    {
        if !index_is_valid(vehicle.index) {
            return Vec::new();
        }
        self.world.query(Query::PassengerOf(vehicle))
    }

    /// Everyone on their way to board this vehicle, in slot order.
    pub fn approaching(&self, vehicle: EntityId) -> (units: Vec<EntityId>)
        requires
            self.wf(),
        ensures
            units@ == if vehicle.index == u32::MAX {
                Seq::empty()
            } else {
                query_of(self.world, Query::BoardingTarget(vehicle))
            },
    {
        if !index_is_valid(vehicle.index) {
            return Vec::new();
        }
        self.world.query(Query::BoardingTarget(vehicle))
    }

    /// Seats left on this vehicle, or `None` when it has none to begin with.
    pub fn free_seats(&self, vehicle: EntityId) -> (free: Option<u8>)
        requires
            self.wf(),
        ensures
            !(vehicle.index != u32::MAX && is_vehicle(self.world, vehicle)) ==> free is None,
            vehicle.index != u32::MAX && is_vehicle(self.world, vehicle) ==> free == Some(
                if passenger_count(self.world, vehicle) >= seats_of(self.world, vehicle) {
                    0u8
                } else {
                    (seats_of(self.world, vehicle) - passenger_count(self.world, vehicle)) as u8
                },
            ),
    {
        if !index_is_valid(vehicle.index) {
            return None;
        }
        let seats = match self.world.get(vehicle) {
            Some(r) => match r.boardable {
                Some(b) => b.0,
                None => return None,
            },
            None => return None,
        };
        let riders = self.world.query(Query::PassengerOf(vehicle));
        let taken: u8 = if riders.len() < 255 {
            riders.len() as u8
        } else {
            255
        };
        if taken >= seats {
            Some(0)
        } else {
            Some(seats - taken)
        }
    }
}

} // verus!
