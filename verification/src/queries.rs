//! Reading the store by component: every live entity whose record passes a filter, in slot order.
use vstd::prelude::*;

use crate::ids::EntityId;
use crate::world::{EntityRecord, Slot, World};

verus! {

/// A filter over live entities.
#[derive(Clone, Copy, Debug, PartialEq, Eq, Structural)]
pub enum Query {
    /// Riding this vehicle.
    PassengerOf(EntityId),
    /// On the way to board this vehicle.
    BoardingTarget(EntityId),
    /// Member of this group.
    MemberOf(EntityId),
    /// Anything working this mission.
    AssignedTo(EntityId),
    /// Group working this mission.
    AssigneeOf(EntityId),
    /// Has a boarding order.
    Boarding,
    /// Steered by seek: position, move target, base move speed, velocity, and not a passenger.
    Seeker,
    /// Integrated by movement: position and velocity, and not riding anything.
    Mover,
    /// Riding some vehicle.
    Passenger,
    /// A group under automation that works a mission.
    SteeredGroup,
    /// A mission nobody has reached yet.
    OpenMission,
    /// A group owed a new mission.
    NeedsMission,
}

impl Query {
    /// `true` when a record passes the filter.
    pub open spec fn holds(self, r: EntityRecord) -> bool {
        match self {
            Query::PassengerOf(v) => r.passenger_of == Some(v),
            Query::BoardingTarget(v) => r.boarding_target == Some(v),
            Query::MemberOf(g) => r.member_of == Some(g),
            Query::AssignedTo(m) => r.assigned_to == Some(m),
            Query::AssigneeOf(m) => r.group is Some && r.assigned_to == Some(m),
            Query::Boarding => r.boarding_target is Some,
            Query::Seeker => r.position is Some && r.move_target is Some && r.base_move_speed is Some
                && r.velocity is Some && r.passenger_of is None,
            Query::Mover => r.position is Some && r.velocity is Some && r.passenger_of is None,
            Query::Passenger => r.passenger_of is Some,
            Query::SteeredGroup => r.group is Some && r.assigned_to is Some && !r.manual_active,
            Query::OpenMission => r.mission is Some && !r.mission_completed,
            Query::NeedsMission => r.group is Some && r.needs_mission,
        }
    }

    /// `true` when a record passes the filter.
    pub fn check(&self, r: &EntityRecord) -> (ok: bool)
        ensures
            ok == self.holds(*r),
    {
        match self {
            Query::PassengerOf(v) => r.passenger_of == Some(*v),
            Query::BoardingTarget(v) => r.boarding_target == Some(*v),
            Query::MemberOf(g) => r.member_of == Some(*g),
            Query::AssignedTo(m) => r.assigned_to == Some(*m),
            Query::AssigneeOf(m) => r.group.is_some() && r.assigned_to == Some(*m),
            Query::Boarding => r.boarding_target.is_some(),
            Query::Seeker => r.position.is_some() && r.move_target.is_some()
                && r.base_move_speed.is_some() && r.velocity.is_some() && r.passenger_of.is_none(),
            Query::Mover => r.position.is_some() && r.velocity.is_some() && r.passenger_of.is_none(),
            Query::Passenger => r.passenger_of.is_some(),
            Query::SteeredGroup => r.group.is_some() && r.assigned_to.is_some() && !r.manual_active,
            Query::OpenMission => r.mission.is_some() && !r.mission_completed,
            Query::NeedsMission => r.group.is_some() && r.needs_mission,
        }
    }
}

/// The live entities among the first `n` slots whose record passes `q`, in slot order.
pub open spec fn ids_where(slots: Seq<Slot>, n: int, q: Query) -> Seq<EntityId>
    decreases n,
{
    if n <= 0 {
        Seq::empty()
    } else {
        let prev = ids_where(slots, n - 1, q);
        let s = slots[n - 1];
        match s.record {
            Some(r) => if q.holds(r) {
                prev.push(EntityId { index: (n - 1) as u32, generation: s.generation })
            } else {
                prev
            },
            None => prev,
        }
    }
}

/// Every live entity whose record passes `q`, in slot order.
pub open spec fn query_of(w: World, q: Query) -> Seq<EntityId> {
    ids_where(w.slots@, w.slots@.len() as int, q)
}

/// The members of `ids_where` are exactly the live entities of the first `n` slots that pass
/// the filter, without repeats and in increasing slot order.
pub proof fn lemma_ids_where(w: World, n: int, q: Query)
    requires
        w.wf(),
        0 <= n <= w.slots@.len(),
    ensures
        forall|k: int|
            0 <= k < ids_where(w.slots@, n, q).len() ==> {
                let x = #[trigger] ids_where(w.slots@, n, q)[k];
                &&& x.index < n
                &&& w.alive(x)
                &&& q.holds(w.rec(x))
            },
        forall|x: EntityId|
            #![trigger ids_where(w.slots@, n, q).contains(x)]
            ids_where(w.slots@, n, q).contains(x) <==> (x.index < n && w.alive(x) && q.holds(
                w.rec(x),
            )),
        forall|a: int, b: int|
            0 <= a < b < ids_where(w.slots@, n, q).len() ==> (#[trigger] ids_where(w.slots@, n, q)[a]).index
                < (#[trigger] ids_where(w.slots@, n, q)[b]).index,
        ids_where(w.slots@, n, q).no_duplicates(),
    decreases n,
{
    if n > 0 {
        lemma_ids_where(w, n - 1, q);
        let prev = ids_where(w.slots@, n - 1, q);
        let cur = ids_where(w.slots@, n, q);
        let s = w.slots@[n - 1];
        let id = EntityId { index: (n - 1) as u32, generation: s.generation };
        if s.record is Some && q.holds(s.record->Some_0) {
            assert(cur == prev.push(id));
            assert forall|x: EntityId| #![trigger cur.contains(x)]
                cur.contains(x) <==> (x.index < n && w.alive(x) && q.holds(w.rec(x))) by {
                if cur.contains(x) {
                    let k = choose|k: int| 0 <= k < cur.len() && cur[k] == x;
                    if k < prev.len() {
                        assert(prev[k] == x);
                    }
                }
                if x.index < n && w.alive(x) && q.holds(w.rec(x)) {
                    if x.index < n - 1 {
                        assert(prev.contains(x));
                        let k = choose|k: int| 0 <= k < prev.len() && prev[k] == x;
                        assert(cur[k] == x);
                    } else {
                        assert(x == id);
                        assert(cur[prev.len() as int] == x);
                    }
                }
            }
            assert forall|a: int, b: int| 0 <= a < b < cur.len() implies (#[trigger] cur[a]).index
                < (#[trigger] cur[b]).index by {
                if b < prev.len() {
                    assert(cur[a] == prev[a] && cur[b] == prev[b]);
                } else {
                    assert(cur[a] == prev[a]);
                }
            }
            assert forall|a: int, b: int|
                0 <= a < cur.len() && 0 <= b < cur.len() && a != b implies cur[a] != cur[b] by {
                if a < b {
                    assert(cur[a].index < cur[b].index);
                } else {
                    assert(cur[b].index < cur[a].index);
                }
            }
        } else {
            assert(cur == prev);
            assert forall|x: EntityId| #![trigger cur.contains(x)]
                cur.contains(x) <==> (x.index < n && w.alive(x) && q.holds(w.rec(x))) by {
                if x.index < n && w.alive(x) && q.holds(w.rec(x)) {
                    assert(x.index != n - 1);
                    assert(prev.contains(x));
                }
            }
        }
    }
}

/// The members of a query are exactly the live entities that pass it, without repeats.
pub proof fn lemma_query_of(w: World, q: Query)
    requires
        w.wf(),
    ensures
        forall|x: EntityId|
            #![trigger query_of(w, q).contains(x)]
            query_of(w, q).contains(x) <==> (w.alive(x) && q.holds(w.rec(x))),
        forall|k: int|
            0 <= k < query_of(w, q).len() ==> w.alive(#[trigger] query_of(w, q)[k]) && q.holds(
                w.rec(query_of(w, q)[k]),
            ),
        query_of(w, q).no_duplicates(),
{
    lemma_ids_where(w, w.slots@.len() as int, q);
}

/// A query that gains exactly one new member grows by one.
pub proof fn lemma_query_len_insert(a: World, b: World, q: Query, x: EntityId)
    requires
        a.wf(),
        b.wf(),
        forall|y: EntityId|
            query_of(b, q).contains(y) <==> (query_of(a, q).contains(y) || y == x),
        !query_of(a, q).contains(x),
    ensures
        query_of(b, q).len() == query_of(a, q).len() + 1,
{
    lemma_query_of(a, q);
    lemma_query_of(b, q);
    query_of(a, q).unique_seq_to_set();
    query_of(b, q).unique_seq_to_set();
    assert(query_of(b, q).to_set() =~= query_of(a, q).to_set().insert(x));
}

impl World {
    /// Every live entity whose record passes `q`, in slot order.
    pub fn query(&self, q: Query) -> (ids: Vec<EntityId>)
        requires
            self.wf(),
        ensures
            ids@ == query_of(*self, q),
    {
        let mut out: Vec<EntityId> = Vec::new();
        let mut i: usize = 0;
        while i < self.slots.len()
            invariant
                i <= self.slots@.len(),
                out@ == ids_where(self.slots@, i as int, q),
            decreases self.slots@.len() - i,
        {
            let slot = self.slots[i];
            match slot.record {
                Some(r) => {
                    if q.check(&r) {
                        out.push(EntityId { index: i as u32, generation: slot.generation });
                    }
                },
                None => {},
            }
            i += 1;
        }
        out
    }
}

} // verus!
