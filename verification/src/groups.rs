//! Groups: the layer of command between the player and a single unit.
//!
//! A group is an entity carrying a [`Group`] component, and membership lives on the units, so
//! there is exactly one place to read it and one place to change it. A unit belongs to at most
//! one group, and a group takes only units of its own faction.
use vstd::prelude::*;

use crate::api::Api;
use crate::components::{Faction, Group, MoveTarget};
use crate::errors::GroupError;
use crate::ids::{index_is_valid, EntityId, OrderReport};
use crate::order_source::OrderSource;
use crate::orders::{can_take_a_move_order, overridable, steer_count, steered};
use crate::queries::{lemma_query_of, query_of, Query};
use crate::world::{EntityRecord, World};

verus! {

/// `id` names a live group.
pub open spec fn is_group(w: World, id: EntityId) -> bool {
    w.alive(id) && w.rec(id).group is Some
}

/// The faction a live group commands.
pub open spec fn group_faction_of(w: World, id: EntityId) -> u32 {
    w.rec(id).group->Some_0.faction
}

/// The members of `s` that can take a move order, in order.
pub open spec fn movable_members(w: World, s: Seq<EntityId>) -> Seq<EntityId>
    decreases s.len(),
{
    if s.len() == 0 {
        Seq::empty()
    } else {
        let prev = movable_members(w, s.drop_last());
        if can_take_a_move_order(w.rec(s.last())) {
            prev.push(s.last())
        } else {
            prev
        }
    }
}

/// A group order, and mission steering, reach only members that can move on their own: each
/// has a position and a base move speed and is not riding anything, and each comes from `s`.
pub proof fn lemma_group_orders_reach_only_movable_units(w: World, s: Seq<EntityId>)
    ensures
        forall|k: int|
            0 <= k < movable_members(w, s).len() ==> {
                let x = #[trigger] movable_members(w, s)[k];
                &&& w.rec(x).position is Some
                &&& w.rec(x).base_move_speed is Some
                &&& w.rec(x).passenger_of is None
                &&& s.contains(x)
            },
        forall|x: EntityId|
            s.contains(x) && w.rec(x).passenger_of is Some ==> !movable_members(w, s).contains(x),
    decreases s.len(),
{
    if s.len() > 0 {
        lemma_group_orders_reach_only_movable_units(w, s.drop_last());
        let prev = movable_members(w, s.drop_last());
        let cur = movable_members(w, s);
        assert forall|x: EntityId| s.drop_last().contains(x) implies s.contains(x) by {
            let k = choose|k: int| 0 <= k < s.drop_last().len() && s.drop_last()[k] == x;
            assert(s[k] == x);
        }
        assert(s[s.len() - 1] == s.last());
        assert forall|k: int| 0 <= k < cur.len() implies {
            let x = #[trigger] cur[k];
            &&& w.rec(x).position is Some
            &&& w.rec(x).base_move_speed is Some
            &&& w.rec(x).passenger_of is None
            &&& s.contains(x)
        } by {
            if k < prev.len() {
                assert(cur[k] == prev[k]);
            }
        }
        assert forall|x: EntityId| s.contains(x) && w.rec(x).passenger_of is Some implies !cur.contains(x) by {
            if cur.contains(x) {
                let k = choose|k: int| 0 <= k < cur.len() && cur[k] == x;
                assert(w.rec(cur[k]).passenger_of is None);
            }
        }
    }
}

/// Every live member of a group is of the group's faction.
pub open spec fn faction_rule(w: World) -> bool {
    forall|u: EntityId|
        #![trigger w.rec(u).member_of]
        w.alive(u) && w.rec(u).member_of is Some && is_group(w, w.rec(u).member_of->Some_0)
            ==> w.rec(u).faction == Some(Faction(group_faction_of(w, w.rec(u).member_of->Some_0)))
}

pub(crate) proof fn lemma_movable_members(w: World, s: Seq<EntityId>)
    ensures
        movable_members(w, s).len() <= s.len(),
        forall|x: EntityId|
            #![trigger movable_members(w, s).contains(x)]
            movable_members(w, s).contains(x) ==> s.contains(x),
        s.no_duplicates() ==> movable_members(w, s).no_duplicates(),
    decreases s.len(),
{
    if s.len() > 0 {
        lemma_movable_members(w, s.drop_last());
        let prev = movable_members(w, s.drop_last());
        let cur = movable_members(w, s);
        assert forall|x: EntityId| s.drop_last().contains(x) implies s.contains(x) by {
            let k = choose|k: int| 0 <= k < s.drop_last().len() && s.drop_last()[k] == x;
            assert(s[k] == x);
        }
        assert(s[s.len() - 1] == s.last());
        if can_take_a_move_order(w.rec(s.last())) {
            assert(cur == prev.push(s.last()));
            assert forall|x: EntityId| #![trigger cur.contains(x)] cur.contains(x) implies s.contains(x) by {
                let k = choose|k: int| 0 <= k < cur.len() && cur[k] == x;
                if k < prev.len() {
                    assert(prev[k] == x);
                    assert(prev.contains(x));
                    assert(s.drop_last().contains(x));
                } else {
                    assert(s[s.len() - 1] == x);
                }
            }
            if s.no_duplicates() {
                assert(s.drop_last().no_duplicates()) by {
                    assert forall|a: int, b: int|
                        0 <= a < s.drop_last().len() && 0 <= b < s.drop_last().len() && a != b implies s.drop_last()[a]
                        != s.drop_last()[b] by {
                        assert(s.drop_last()[a] == s[a] && s.drop_last()[b] == s[b]);
                    }
                }
                assert(!prev.contains(s.last())) by {
                    if prev.contains(s.last()) {
                        let k = choose|k: int| 0 <= k < s.drop_last().len() && s.drop_last()[k] == s.last();
                        assert(s[k] == s[s.len() - 1]);
                    }
                }
                assert forall|a: int, b: int|
                    0 <= a < cur.len() && 0 <= b < cur.len() && a != b implies cur[a] != cur[b] by {
                    if a < prev.len() && b < prev.len() {
                        assert(cur[a] == prev[a] && cur[b] == prev[b]);
                    } else if a < prev.len() {
                        assert(cur[a] == prev[a]);
                        assert(prev.contains(prev[a]));
                    } else if b < prev.len() {
                        assert(cur[b] == prev[b]);
                        assert(prev.contains(prev[b]));
                    }
                }
            }
        } else {
            if s.no_duplicates() {
                assert(s.drop_last().no_duplicates()) by {
                    assert forall|a: int, b: int|
                        0 <= a < s.drop_last().len() && 0 <= b < s.drop_last().len() && a != b implies s.drop_last()[a]
                        != s.drop_last()[b] by {
                        assert(s.drop_last()[a] == s[a] && s.drop_last()[b] == s[b]);
                    }
                }
            }
        }
    }
}

impl Api {
    /// Resolves an id that must be a group.
    fn resolve_group(&self, group: EntityId) -> (res: Result<EntityRecord, GroupError>)
        requires
            self.wf(),
        ensures
            res is Ok == is_group(self.world, group),
            res matches Ok(r) ==> r == self.world.rec(group),
            res matches Err(e) ==> e == GroupError::UnknownGroup(group),
    {
        if !index_is_valid(group.index) {
            return Err(GroupError::UnknownGroup(group));
        }
        match self.world.get(group) {
            Some(r) => {
                if r.group.is_some() {
                    Ok(r)
                } else {
                    Err(GroupError::UnknownGroup(group))
                }
            },
            None => Err(GroupError::UnknownGroup(group)),
        }
    }

    /// Creates an empty group for a faction.
    ///
    /// A group outlives its members: losing every unit leaves it in place, ready to be refilled.
    pub fn create_group(&mut self, faction: u32) -> (group: EntityId)
        requires
            old(self).wf(),
            old(self).world.capacity() >= 1,
        ensures
            final(self).wf(),
            old(self).keeps_history(final(self)),
            final(self).world.capacity() == old(self).world.capacity() - 1,
            !old(self).world.alive(group),
            !old(self).world.spent(group),
            final(self).world.alive(group),
            final(self).world.rec(group) == (EntityRecord {
                group: Some(Group { faction }),
                ..EntityRecord::spec_empty()
            }),
            forall|x: EntityId|
                x != group ==> (final(self).world.alive(x) == old(self).world.alive(x) && (old(self).world.alive(x) ==> final(self).world.rec(x) == old(self).world.rec(x))),
            final(self).templates == old(self).templates,
            final(self).map_bounds == old(self).map_bounds,
            final(self).arrived == old(self).arrived,
    {
        let r = EntityRecord { group: Some(Group { faction }), ..EntityRecord::empty() };
        self.spawn(r, None)
    }

    /// Puts a unit in a group, taking it out of its previous one.
    ///
    /// The move is one step: after it the unit is in exactly this group. Fails, changing
    /// nothing, when `group` is not a group, when the unit is gone, when it has no faction, or
    /// when its faction is not the group's.
    pub fn add_to_group(&mut self, group: EntityId, unit: EntityId) -> (res: Result<(), GroupError>)
        requires
            old(self).wf(),
        ensures
            final(self).wf(),
            old(self).keeps_history(final(self)),
            !is_group(old(self).world, group) ==> res == Err::<(), GroupError>(
                GroupError::UnknownGroup(group),
            ),
            is_group(old(self).world, group) && !old(self).world.alive(unit) ==> res == Err::<
                (),
                GroupError,
            >(GroupError::UnknownUnit(unit)),
            is_group(old(self).world, group) && old(self).world.alive(unit) && old(self).world.rec(
                unit,
            ).faction is None ==> res == Err::<(), GroupError>(GroupError::UnitHasNoFaction(unit)),
            is_group(old(self).world, group) && old(self).world.alive(unit) && old(self).world.rec(
                unit,
            ).faction is Some && old(self).world.rec(unit).faction->Some_0.0 != group_faction_of(
                old(self).world,
                group,
            ) ==> res == Err::<(), GroupError>(
                GroupError::FactionMismatch {
                    unit: old(self).world.rec(unit).faction->Some_0.0,
                    group: group_faction_of(old(self).world, group),
                },
            ),
            res is Ok <==> (is_group(old(self).world, group) && old(self).world.alive(unit) && old(self).world.rec(unit).faction == Some(Faction(group_faction_of(old(self).world, group)))),
            res is Ok ==> old(self).world.only_changed(
                &final(self).world,
                unit,
                EntityRecord { member_of: Some(group), ..old(self).world.rec(unit) },
            ),
            res is Ok ==> old(self).world.same_lifecycle(&final(self).world),
            res is Ok && faction_rule(old(self).world) ==> faction_rule(final(self).world),
            res is Err ==> final(self).world == old(self).world,
            final(self).templates == old(self).templates,
            final(self).map_bounds == old(self).map_bounds,
            final(self).arrived == old(self).arrived,
    {
        let g = match self.resolve_group(group) {
            Ok(r) => r,
            Err(e) => return Err(e),
        };
        let group_faction = match g.group {
            Some(gr) => gr.faction,
            None => 0,
        };
        if !index_is_valid(unit.index) {
            return Err(GroupError::UnknownUnit(unit));
        }
        let r = match self.world.get(unit) {
            Some(r) => r,
            None => return Err(GroupError::UnknownUnit(unit)),
        };
        let unit_faction = match r.faction {
            Some(f) => f.0,
            None => return Err(GroupError::UnitHasNoFaction(unit)),
        };
        if unit_faction != group_faction {
            return Err(GroupError::FactionMismatch { unit: unit_faction, group: group_faction });
        }
        let ghost before = self.world;
        self.world.set(unit, EntityRecord { member_of: Some(group), ..r });
        proof {
            assert forall|u: EntityId| #![trigger self.world.rec(u).member_of]
                faction_rule(before) && self.world.alive(u) && self.world.rec(u).member_of is Some
                    && is_group(self.world, self.world.rec(u).member_of->Some_0) implies self.world.rec(
                u,
            ).faction == Some(Faction(group_faction_of(self.world, self.world.rec(u).member_of->Some_0))) by {
                let g2 = self.world.rec(u).member_of->Some_0;
                if u != unit {
                    assert(self.world.rec(u) == before.rec(u));
                    if g2 == unit {
                        assert(self.world.rec(g2).group == before.rec(g2).group);
                    } else {
                        assert(self.world.rec(g2) == before.rec(g2));
                    }
                    assert(before.rec(u).member_of is Some);
                } else {
                    if group == unit {
                        assert(self.world.rec(group).group == before.rec(group).group);
                    } else {
                        assert(self.world.rec(group) == before.rec(group));
                    }
                }
            }
        }
        Ok(())
    }

    /// Takes a unit out of whatever group it is in. `true` when it was in one.
    pub fn remove_from_group(&mut self, unit: EntityId) -> (was_member: bool)
        requires
            old(self).wf(),
        ensures
            final(self).wf(),
            old(self).keeps_history(final(self)),
            was_member == (old(self).world.alive(unit) && old(self).world.rec(unit).member_of is Some),
            was_member ==> old(self).world.only_changed(
                &final(self).world,
                unit,
                EntityRecord { member_of: None, ..old(self).world.rec(unit) },
            ),
            was_member ==> old(self).world.same_lifecycle(&final(self).world),
            !was_member ==> final(self).world == old(self).world,
            final(self).templates == old(self).templates,
            final(self).map_bounds == old(self).map_bounds,
            final(self).arrived == old(self).arrived,
    {
        if !index_is_valid(unit.index) {
            return false;
        }
        match self.world.get(unit) {
            Some(r) => {
                if r.member_of.is_none() {
                    return false;
                }
                self.world.set(unit, EntityRecord { member_of: None, ..r });
                true
            },
            None => false,
        }
    }

    /// The group this unit belongs to, if any.
    pub fn group_of(&self, unit: EntityId) -> (group: Option<EntityId>)
        requires
            self.wf(),
        ensures
            group == (if self.world.alive(unit) {
                self.world.rec(unit).member_of
            } else {
                None
            }),
    {
        if !index_is_valid(unit.index) {
            return None;
        }
        match self.world.get(unit) {
            Some(r) => r.member_of,
            None => None,
        }
    }

    /// Every live member of a group, in slot order. An id whose index cannot name a slot has no
    /// members.
    pub fn group_members(&self, group: EntityId) -> (members: Vec<EntityId>)
        requires
            self.wf(),
        ensures
            members@ == if group.index == u32::MAX {
                Seq::empty()
            } else {
                query_of(self.world, Query::MemberOf(group))
            },
    {
        if !index_is_valid(group.index) {
            return Vec::new();
        }
        self.world.query(Query::MemberOf(group))
    }

    /// The members of a group that a group move order reaches, in slot order.
    pub fn group_movable(&self, group: EntityId) -> (movable: Vec<EntityId>)
        requires
            self.wf(),
        ensures
            movable@ == movable_members(self.world, query_of(self.world, Query::MemberOf(group))),
    {
        let members = self.world.query(Query::MemberOf(group));
        proof {
            lemma_query_of(self.world, Query::MemberOf(group));
        }
        self.filter_movable(&members)
    }

    pub(crate) fn filter_movable(&self, members: &Vec<EntityId>) -> (movable: Vec<EntityId>)
        requires
            self.wf(),
            forall|k: int| 0 <= k < members@.len() ==> self.world.alive(#[trigger] members@[k]),
        ensures
            movable@ == movable_members(self.world, members@),
    {
        let mut movable: Vec<EntityId> = Vec::new();
        let mut i: usize = 0;
        while i < members.len()
            invariant
                i <= members@.len(),
                self.wf(),
                forall|k: int| 0 <= k < members@.len() ==> self.world.alive(#[trigger] members@[k]),
                movable@ == movable_members(self.world, members@.take(i as int)),
            decreases members@.len() - i,
        {
            let id = members[i];
            proof {
                assert(members@.take(i as int + 1).drop_last() =~= members@.take(i as int));
                assert(members@.take(i as int + 1).last() == id);
            }
            let r = self.world.get(id).unwrap();
            if r.position.is_some() && r.base_move_speed.is_some() && r.passenger_of.is_none() {
                movable.push(id);
            }
            i += 1;
        }
        proof {
            assert(members@.take(members@.len() as int) =~= members@);
        }
        movable
    }

    /// Orders a whole group, the `k`-th member that can move to `targets[k]`, and marks the group
    /// as manually steered.
    ///
    /// Members already following a personal order keep it. The group is left under manual
    /// control, which only [`Api::clear_group_manual`] ends, and it is taken off any mission it
    /// was working.
    pub fn order_group_move_to(&mut self, group: EntityId, targets: &[MoveTarget]) -> (res: Result<
        OrderReport,
        GroupError,
    >)
        requires
            old(self).wf(),
            targets@.len() >= movable_members(
                old(self).world,
                query_of(old(self).world, Query::MemberOf(group)),
            ).len(),
        ensures
            final(self).wf(),
            old(self).world.same_lifecycle(&final(self).world),
            old(self).keeps_history(final(self)),
            !is_group(old(self).world, group) ==> res == Err::<OrderReport, GroupError>(
                GroupError::UnknownGroup(group),
            ) && final(self).world == old(self).world,
            is_group(old(self).world, group) ==> res is Ok,
            res matches Ok(report) ==> ({
                let members = query_of(old(self).world, Query::MemberOf(group));
                let movable = movable_members(old(self).world, members);
                &&& report.ordered == steer_count(old(self).world, movable, OrderSource::GroupSteering)
                &&& report.skipped == members.len() - report.ordered
                &&& final(self).world.rec(group).assigned_to is None
                &&& final(self).world.rec(group).manual_active
                &&& !movable.contains(group) ==> final(self).world.rec(group) == (EntityRecord {
                    assigned_to: None,
                    manual_active: true,
                    ..old(self).world.rec(group)
                })
                &&& forall|k: int|
                    0 <= k < movable.len() && movable[k] != group ==> final(self).world.rec(
                        #[trigger] movable[k],
                    ) == if overridable(old(self).world.rec(movable[k]), OrderSource::GroupSteering) {
                        steered(old(self).world.rec(movable[k]), targets@[k], OrderSource::GroupSteering)
                    } else {
                        old(self).world.rec(movable[k])
                    }
                &&& forall|x: EntityId|
                    #![trigger final(self).world.rec(x)]
                    old(self).world.alive(x) && !movable.contains(x) && x != group ==> final(self).world.rec(x) == old(self).world.rec(x)
            }),
            res is Ok ==> forall|x: EntityId|
                #![trigger final(self).world.rec(x)]
                old(self).world.alive(x) && x != group && final(self).world.rec(x) != old(self).world.rec(x)
                    ==> old(self).world.rec(x).position is Some && old(self).world.rec(x).base_move_speed is Some
                    && old(self).world.rec(x).passenger_of is None,
            final(self).templates == old(self).templates,
            final(self).map_bounds == old(self).map_bounds,
            final(self).arrived == old(self).arrived,
    {
        match self.resolve_group(group) {
            Ok(_) => {},
            Err(e) => return Err(e),
        };
        let members = self.world.query(Query::MemberOf(group));
        proof {
            lemma_query_of(self.world, Query::MemberOf(group));
        }
        let movable = self.filter_movable(&members);
        proof {
            lemma_movable_members(self.world, members@);
            assert forall|k: int| 0 <= k < movable@.len() implies self.world.alive(#[trigger] movable@[k]) by {
                assert(movable@.contains(movable@[k]));
                assert(members@.contains(movable@[k]));
            }
        }
        let ghost before = self.world;
        let ordered = self.steer(&movable, targets, OrderSource::GroupSteering);
        proof {
            crate::orders::lemma_steer_count_bound(before, movable@, OrderSource::GroupSteering);
        }
        let ghost mid = self.world;
        let g = self.world.get(group).unwrap();
        self.world.set(group, EntityRecord { assigned_to: None, manual_active: true, ..g });
        proof {
            assert forall|k: int| 0 <= k < movable@.len() && movable@[k] != group implies self.world.rec(
                #[trigger] movable@[k],
            ) == mid.rec(movable@[k]) by {
                assert(movable@.contains(movable@[k]));
            }
        }
        proof {
            lemma_group_orders_reach_only_movable_units(before, members@);
            assert forall|x: EntityId| #![trigger self.world.rec(x)]
                before.alive(x) && x != group && self.world.rec(x) != before.rec(x) implies before.rec(x).position is Some
                && before.rec(x).base_move_speed is Some && before.rec(x).passenger_of is None by {
                if !movable@.contains(x) {
                    assert(self.world.rec(x) == mid.rec(x));
                } else {
                    let k = choose|k: int| 0 <= k < movable@.len() && movable@[k] == x;
                }
            }
        }
        Ok(OrderReport { ordered, skipped: members.len() - ordered })
    }

    /// `true` while the group is under manual control.
    pub fn is_group_manual(&self, group: EntityId) -> (manual: bool)
        requires
            self.wf(),
        ensures
            manual == (self.world.alive(group) && self.world.rec(group).manual_active),
    {
        if !index_is_valid(group.index) {
            return false;
        }
        match self.world.get(group) {
            Some(r) => r.manual_active,
            None => false,
        }
    }

    /// Hands a group back to automation. `Ok(true)` when it was manual.
    ///
    /// Nothing else clears the flag: not a finished mission, not a new order.
    pub fn clear_group_manual(&mut self, group: EntityId) -> (res: Result<bool, GroupError>)
        requires
            old(self).wf(),
        ensures
            final(self).wf(),
            old(self).keeps_history(final(self)),
            !is_group(old(self).world, group) ==> res == Err::<bool, GroupError>(
                GroupError::UnknownGroup(group),
            ),
            is_group(old(self).world, group) ==> res == Ok::<bool, GroupError>(
                old(self).world.rec(group).manual_active,
            ),
            res == Ok::<bool, GroupError>(true) ==> old(self).world.only_changed(
                &final(self).world,
                group,
                EntityRecord { manual_active: false, ..old(self).world.rec(group) },
            ) && old(self).world.same_lifecycle(&final(self).world),
            res != Ok::<bool, GroupError>(true) ==> final(self).world == old(self).world,
            final(self).templates == old(self).templates,
            final(self).map_bounds == old(self).map_bounds,
            final(self).arrived == old(self).arrived,
    {
        let g = match self.resolve_group(group) {
            Ok(r) => r,
            Err(e) => return Err(e),
        };
        if !g.manual_active {
            return Ok(false);
        }
        self.world.set(group, EntityRecord { manual_active: false, ..g });
        Ok(true)
    }
}

} // verus!
