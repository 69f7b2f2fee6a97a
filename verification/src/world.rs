//! The entity store: slots with generations, each holding a live entity's components.
//!
//! A slot is reused after its entity is despawned, with the next generation, so an id that
//! stopped resolving never resolves again. A slot whose generation cannot grow any further is
//! retired instead of reused.
use vstd::prelude::*;

use crate::components::{
    BaseMoveSpeed, Boardable, EntityComponents, EntityType, Faction, Group, Health, Mission,
    MoveTarget, Position, Velocity,
};
use crate::ids::EntityId;
use crate::order_source::OrderSource;

verus! {

/// Every component a live entity can carry, apart from its template name.
#[derive(Clone, Copy, Debug, PartialEq, Eq, Structural)]
pub struct EntityRecord {
    pub position: Option<Position>,
    pub velocity: Option<Velocity>,
    pub faction: Option<Faction>,
    pub move_target: Option<MoveTarget>,
    pub base_move_speed: Option<BaseMoveSpeed>,
    pub health: Option<Health>,
    pub boardable: Option<Boardable>,
    /// Marks a group entity.
    pub group: Option<Group>,
    /// On a group: the player steers it by hand.
    pub manual_active: bool,
    /// On a unit: the group it belongs to.
    pub member_of: Option<EntityId>,
    /// Who set the move target the entity follows.
    pub order_source: Option<OrderSource>,
    /// On a unit: the vehicle carrying it.
    pub passenger_of: Option<EntityId>,
    /// On a unit: the vehicle it has been told to get into.
    pub boarding_target: Option<EntityId>,
    /// On a group: the mission it is working.
    pub assigned_to: Option<EntityId>,
    /// Marks a mission entity.
    pub mission: Option<Mission>,
    /// On a mission: somebody reached it.
    pub mission_completed: bool,
    /// On a group: its mission ended under it and it is owed a new one.
    pub needs_mission: bool,
}

impl EntityRecord {
    /// A record with no component at all.
    pub open spec fn spec_empty() -> EntityRecord {
        EntityRecord {
            position: None,
            velocity: None,
            faction: None,
            move_target: None,
            base_move_speed: None,
            health: None,
            boardable: None,
            group: None,
            manual_active: false,
            member_of: None,
            order_source: None,
            passenger_of: None,
            boarding_target: None,
            assigned_to: None,
            mission: None,
            mission_completed: false,
            needs_mission: false,
        }
    }

    /// A record carrying exactly the registered components of `doc`.
    pub open spec fn spec_from_components(doc: EntityComponents) -> EntityRecord {
        EntityRecord {
            position: doc.position,
            velocity: doc.velocity,
            faction: doc.faction,
            move_target: doc.move_target,
            base_move_speed: doc.base_move_speed,
            health: doc.health,
            boardable: doc.boardable,
            ..EntityRecord::spec_empty()
        }
    }

    /// The registered components of this record.
    pub open spec fn spec_registered(self) -> EntityComponents {
        EntityComponents {
            position: self.position,
            velocity: self.velocity,
            faction: self.faction,
            move_target: self.move_target,
            base_move_speed: self.base_move_speed,
            health: self.health,
            boardable: self.boardable,
        }
    }

    /// A record with no component at all.
    pub fn empty() -> (r: EntityRecord)
        ensures
            r == EntityRecord::spec_empty(),
    {
        EntityRecord {
            position: None,
            velocity: None,
            faction: None,
            move_target: None,
            base_move_speed: None,
            health: None,
            boardable: None,
            group: None,
            manual_active: false,
            member_of: None,
            order_source: None,
            passenger_of: None,
            boarding_target: None,
            assigned_to: None,
            mission: None,
            mission_completed: false,
            needs_mission: false,
        }
    }

    /// A record carrying exactly the registered components of `doc`.
    pub fn from_components(doc: &EntityComponents) -> (r: EntityRecord)
        ensures
            r == EntityRecord::spec_from_components(*doc),
    {
        EntityRecord {
            position: doc.position,
            velocity: doc.velocity,
            faction: doc.faction,
            move_target: doc.move_target,
            base_move_speed: doc.base_move_speed,
            health: doc.health,
            boardable: doc.boardable,
            ..EntityRecord::empty()
        }
    }

    /// The registered components of this record.
    pub fn registered(&self) -> (doc: EntityComponents)
        ensures
            doc == self.spec_registered(),
    {
        EntityComponents {
            position: self.position,
            velocity: self.velocity,
            faction: self.faction,
            move_target: self.move_target,
            base_move_speed: self.base_move_speed,
            health: self.health,
            boardable: self.boardable,
        }
    }
}

/// One index of the store.
#[derive(Clone, Copy, Debug, PartialEq, Eq, Structural)]
pub struct Slot {
    /// Generation of the entity that lives, or will next live, at this index.
    pub generation: u32,
    /// The generation is exhausted: the index is never handed out again.
    pub retired: bool,
    /// The live entity's components, or `None` when the slot is free.
    pub record: Option<EntityRecord>,
}

impl Slot {
    /// The slot can take a new entity.
    pub open spec fn reusable(self) -> bool {
        self.record is None && !self.retired
    }
}

/// Number of reusable slots.
pub open spec fn count_reusable(s: Seq<Slot>) -> nat
    decreases s.len(),
{
    if s.len() == 0 {
        0
    } else {
        count_reusable(s.drop_last()) + if s.last().reusable() {
            1nat
        } else {
            0nat
        }
    }
}

proof fn lemma_count_push(s: Seq<Slot>, x: Slot)
    ensures
        count_reusable(s.push(x)) == count_reusable(s) + if x.reusable() {
            1nat
        } else {
            0nat
        },
{
    assert(s.push(x).drop_last() =~= s);
}

proof fn lemma_count_update(s: Seq<Slot>, i: int, x: Slot)
    requires
        0 <= i < s.len(),
    ensures
        count_reusable(s.update(i, x)) + (if s[i].reusable() {
            1int
        } else {
            0int
        }) == count_reusable(s) + (if x.reusable() {
            1int
        } else {
            0int
        }),
    decreases s.len(),
{
    if i == s.len() - 1 {
        assert(s.update(i, x).drop_last() =~= s.drop_last());
    } else {
        assert(s.update(i, x).drop_last() =~= s.drop_last().update(i, x));
        lemma_count_update(s.drop_last(), i, x);
    }
}

proof fn lemma_count_zero(s: Seq<Slot>)
    requires
        forall|i: int| 0 <= i < s.len() ==> !(#[trigger] s[i]).reusable(),
    ensures
        count_reusable(s) == 0,
    decreases s.len(),
{
    if s.len() > 0 {
        assert forall|i: int| 0 <= i < s.drop_last().len() implies !(
        #[trigger] s.drop_last()[i]).reusable() by {
            assert(s.drop_last()[i] == s[i]);
        }
        lemma_count_zero(s.drop_last());
    }
}

/// The highest index a slot may have, plus one: `u32::MAX` never names an entity.
pub open spec fn index_limit() -> int {
    u32::MAX as int
}

/// The entity store.
pub struct World {
    pub slots: Vec<Slot>,
    /// Template name of each live entity that was spawned from one.
    pub types: Vec<Option<EntityType>>,
}

impl World {
    /// The store's structural invariant.
    pub open spec fn wf(&self) -> bool {
        &&& self.slots@.len() == self.types@.len()
        &&& self.slots@.len() < index_limit()
        &&& forall|i: int|
            0 <= i < self.slots@.len() ==> (#[trigger] self.slots@[i]).retired ==> self.slots@[i].record is None
                && self.slots@[i].generation == u32::MAX
        &&& forall|i: int|
            0 <= i < self.slots@.len() ==> (#[trigger] self.types@[i]) is Some ==> self.slots@[i].record is Some
    }

    /// The entity behind `id` is spawned.
    pub open spec fn alive(&self, id: EntityId) -> bool {
        &&& id.index < self.slots@.len()
        &&& self.slots@[id.index as int].record is Some
        &&& self.slots@[id.index as int].generation == id.generation
    }

    /// The components of the entity behind `id`.
    pub open spec fn rec(&self, id: EntityId) -> EntityRecord {
        self.slots@[id.index as int].record->Some_0
    }

    /// The template name of the entity behind `id`, if it has one.
    pub open spec fn kind_name(&self, id: EntityId) -> Option<Seq<char>> {
        match self.types@[id.index as int] {
            Some(t) => Some(t.0@),
            None => None,
        }
    }

    /// `id` named an entity that is gone, and its slot has moved past it for good.
    pub open spec fn spent(&self, id: EntityId) -> bool {
        &&& id.index < self.slots@.len()
        &&& {
            ||| self.slots@[id.index as int].generation > id.generation
            ||| (self.slots@[id.index as int].retired && self.slots@[id.index as int].generation
                == id.generation)
        }
    }

    /// How many more entities can be spawned.
    pub open spec fn capacity(&self) -> int {
        count_reusable(self.slots@) + (index_limit() - 1 - self.slots@.len())
    }

    /// Each slot keeps its generation, retirement and liveness: only components changed.
    pub open spec fn same_lifecycle(&self, other: &World) -> bool {
        &&& self.slots@.len() == other.slots@.len()
        &&& self.types@ == other.types@
        &&& forall|i: int|
            0 <= i < self.slots@.len() ==> (#[trigger] self.slots@[i]).generation
                == other.slots@[i].generation && self.slots@[i].retired == other.slots@[i].retired
                && (self.slots@[i].record is Some <==> other.slots@[i].record is Some)
    }

    /// Generations never fall and retired slots stay retired.
    pub open spec fn moves_forward_to(&self, other: &World) -> bool {
        &&& self.slots@.len() <= other.slots@.len()
        &&& forall|i: int|
            0 <= i < self.slots@.len() ==> {
                &&& (#[trigger] self.slots@[i]).generation <= other.slots@[i].generation
                &&& self.slots@[i].retired ==> other.slots@[i].retired && other.slots@[i].generation
                    == self.slots@[i].generation
            }
    }

    /// Only the record of `id` changed, to `r`.
    pub open spec fn only_changed(&self, other: &World, id: EntityId, r: EntityRecord) -> bool {
        &&& other.slots@ == self.slots@.update(
            id.index as int,
            Slot { record: Some(r), ..self.slots@[id.index as int] },
        )
        &&& other.types@ == self.types@
    }

    /// An empty store.
    pub fn new() -> (w: World)
        ensures
            w.wf(),
            w.slots@.len() == 0,
            w.capacity() == index_limit() - 1,
            forall|id: EntityId| !w.alive(id),
    {
        World { slots: Vec::new(), types: Vec::new() }
    }

    /// The first slot that can take a new entity.
    fn find_reusable(&self) -> (found: Option<usize>)
        ensures
            found matches Some(i) ==> i < self.slots@.len() && self.slots@[i as int].reusable(),
            found is None ==> forall|j: int|
                0 <= j < self.slots@.len() ==> !(#[trigger] self.slots@[j]).reusable(),
    {
        let mut i: usize = 0;
        while i < self.slots.len()
            invariant
                i <= self.slots@.len(),
                forall|j: int| 0 <= j < i ==> !(#[trigger] self.slots@[j]).reusable(),
            decreases self.slots@.len() - i,
        {
            if self.slots[i].record.is_none() && !self.slots[i].retired {
                return Some(i);
            }
            i += 1;
        }
        None
    }

    /// `true` while the store can take another entity.
    pub fn has_room(&self) -> (room: bool)
        requires
            self.wf(),
        ensures
            room == (self.capacity() >= 1),
    {
        match self.find_reusable() {
            Some(i) => {
                proof {
                    lemma_count_positive(self.slots@, i as int);
                }
                true
            },
            None => {
                proof {
                    lemma_count_zero(self.slots@);
                }
                self.slots.len() < 4294967294
            },
        }
    }

    /// How many more entities can be spawned.
    pub fn room(&self) -> (n: u64)
        requires
            self.wf(),
        ensures
            n == self.capacity(),
    {
        let mut count: u64 = 0;
        let mut i: usize = 0;
        while i < self.slots.len()
            invariant
                i <= self.slots@.len(),
                self.wf(),
                count == count_reusable(self.slots@.take(i as int)),
                count <= i,
            decreases self.slots@.len() - i,
        {
            proof {
                assert(self.slots@.take(i as int + 1).drop_last() =~= self.slots@.take(i as int));
                assert(self.slots@.take(i as int + 1).last() == self.slots@[i as int]);
            }
            if self.slots[i].record.is_none() && !self.slots[i].retired {
                count = count + 1;
            }
            i += 1;
        }
        proof {
            assert(self.slots@.take(self.slots@.len() as int) =~= self.slots@);
        }
        count + (4294967294 - self.slots.len() as u64)
    }

    /// Puts a new entity in the store and returns its id.
    ///
    /// The id is fresh: it resolved to nothing before, and it was never spent.
    pub fn spawn(&mut self, record: EntityRecord, entity_type: Option<EntityType>) -> (id: EntityId)
        requires
            old(self).wf(),
            old(self).capacity() >= 1,
        ensures
            final(self).wf(),
            final(self).capacity() == old(self).capacity() - 1,
            old(self).moves_forward_to(final(self)),
            !old(self).alive(id),
            !old(self).spent(id),
            final(self).alive(id),
            final(self).rec(id) == record,
            final(self).kind_name(id) == match entity_type {
                Some(t) => Some(t.0@),
                None => None::<Seq<char>>,
            },
            forall|x: EntityId|
                x != id ==> (final(self).alive(x) == old(self).alive(x) && (old(self).alive(x)
                    ==> final(self).rec(x) == old(self).rec(x) && final(self).kind_name(x)
                    == old(self).kind_name(x))),
            forall|x: EntityId| old(self).spent(x) ==> final(self).spent(x),
    {
        match self.find_reusable() {
            Some(i) => {
                let generation = self.slots[i].generation;
                let slot = Slot { generation, retired: false, record: Some(record) };
                proof {
                    lemma_count_update(self.slots@, i as int, slot);
                }
                self.slots.set(i, slot);
                self.types.set(i, entity_type);
                let id = EntityId { index: i as u32, generation };
                proof {
                    assert forall|x: EntityId| x != id && old(self).alive(x) implies final(self).rec(x)
                        == old(self).rec(x) && final(self).kind_name(x) == old(self).kind_name(x) by {
                        assert(x.index != i);
                    }
                }
                id
            },
            None => {
                proof {
                    lemma_count_zero(self.slots@);
                }
                let slot = Slot { generation: 0, retired: false, record: Some(record) };
                let index = self.slots.len();
                proof {
                    lemma_count_push(self.slots@, slot);
                }
                self.slots.push(slot);
                self.types.push(entity_type);
                EntityId { index: index as u32, generation: 0 }
            },
        }
    }

    /// Removes the entity behind `id`. `true` when there was one.
    ///
    /// Afterwards the id is spent: it resolves to nothing, now and forever.
    pub fn despawn(&mut self, id: EntityId) -> (removed: bool)
        requires
            old(self).wf(),
        ensures
            final(self).wf(),
            removed == old(self).alive(id),
            final(self).capacity() >= old(self).capacity(),
            old(self).moves_forward_to(final(self)),
            final(self).slots@.len() == old(self).slots@.len(),
            removed ==> final(self).spent(id),
            !final(self).alive(id),
            forall|x: EntityId|
                x != id ==> (final(self).alive(x) == old(self).alive(x) && (old(self).alive(x)
                    ==> final(self).rec(x) == old(self).rec(x) && final(self).kind_name(x)
                    == old(self).kind_name(x))),
            forall|x: EntityId| old(self).spent(x) ==> final(self).spent(x),
            !removed ==> final(self).slots@ == old(self).slots@ && final(self).types@ == old(self).types@,
    {
        if !self.is_alive(id) {
            return false;
        }
        let i = id.index as usize;
        let generation = self.slots[i].generation;
        let slot = if generation < u32::MAX {
            Slot { generation: generation + 1, retired: false, record: None }
        } else {
            Slot { generation, retired: true, record: None }
        };
        proof {
            lemma_count_update(self.slots@, i as int, slot);
        }
        self.slots.set(i, slot);
        self.types.set(i, None);
        proof {
            assert forall|x: EntityId| x != id && old(self).alive(x) implies final(self).rec(x) == old(self).rec(x) && final(self).kind_name(x) == old(self).kind_name(x) by {
                assert(x.index != id.index);
            }
        }
        true
    }

    /// `true` while the entity behind `id` is spawned.
    pub fn is_alive(&self, id: EntityId) -> (alive: bool)
        ensures
            alive == self.alive(id),
    {
        let i = id.index as usize;
        i < self.slots.len() && self.slots[i].record.is_some() && self.slots[i].generation
            == id.generation
    }

    /// The components of the entity behind `id`, or `None` when it is not alive.
    pub fn get(&self, id: EntityId) -> (r: Option<EntityRecord>)
        ensures
            r is Some == self.alive(id),
            r matches Some(rec) ==> rec == self.rec(id),
    {
        let i = id.index as usize;
        if i < self.slots.len() && self.slots[i].generation == id.generation {
            self.slots[i].record
        } else {
            None
        }
    }

    /// Replaces the components of the live entity `id`.
    pub fn set(&mut self, id: EntityId, r: EntityRecord)
        requires
            old(self).wf(),
            old(self).alive(id),
        ensures
            final(self).wf(),
            old(self).only_changed(final(self), id, r),
            old(self).same_lifecycle(final(self)),
            final(self).capacity() == old(self).capacity(),
            final(self).rec(id) == r,
            forall|x: EntityId|
                final(self).alive(x) == old(self).alive(x) && (x != id && old(self).alive(x)
                    ==> final(self).rec(x) == old(self).rec(x)),
            forall|x: EntityId| old(self).spent(x) == final(self).spent(x),
            forall|x: EntityId| old(self).kind_name(x) == final(self).kind_name(x),
    {
        let i = id.index as usize;
        let slot = Slot { record: Some(r), ..self.slots[i] };
        proof {
            lemma_count_update(self.slots@, i as int, slot);
        }
        self.slots.set(i, slot);
        proof {
            assert forall|x: EntityId| x != id && old(self).alive(x) implies final(self).rec(x) == old(self).rec(x) by {
                assert(x.index != id.index);
            }
        }
    }

    /// Replaces the record of every live entity at once: slot `i` gets `next[i]`.
    ///
    /// The store keeps its shape: the same entities are alive, with the same ids and names.
    pub fn rewrite(&mut self, next: &Vec<Option<EntityRecord>>)
        requires
            old(self).wf(),
            next@.len() == old(self).slots@.len(),
            forall|i: int|
                0 <= i < next@.len() ==> (#[trigger] next@[i] is Some <==> old(self).slots@[i].record is Some),
        ensures
            final(self).wf(),
            old(self).same_lifecycle(final(self)),
            final(self).capacity() == old(self).capacity(),
            forall|x: EntityId| final(self).alive(x) == old(self).alive(x),
            forall|x: EntityId| old(self).spent(x) == final(self).spent(x),
            forall|x: EntityId| old(self).kind_name(x) == final(self).kind_name(x),
            forall|x: EntityId|
                #![trigger final(self).rec(x)]
                old(self).alive(x) ==> final(self).rec(x) == next@[x.index as int]->Some_0,
    {
        let ghost start = *self;
        let mut i: usize = 0;
        while i < self.slots.len()
            invariant
                i <= self.slots@.len(),
                self.wf(),
                start.wf(),
                start.same_lifecycle(self),
                count_reusable(self.slots@) == count_reusable(start.slots@),
                next@.len() == start.slots@.len(),
                forall|j: int|
                    0 <= j < next@.len() ==> (#[trigger] next@[j] is Some <==> start.slots@[j].record is Some),
                forall|j: int|
                    0 <= j < self.slots@.len() ==> (#[trigger] self.slots@[j]).record == if j < i {
                        next@[j]
                    } else {
                        start.slots@[j].record
                    },
            decreases self.slots@.len() - i,
        {
            match next[i] {
                Some(r) => {
                    let slot = Slot { record: Some(r), ..self.slots[i] };
                    proof {
                        lemma_count_update(self.slots@, i as int, slot);
                    }
                    self.slots.set(i, slot);
                },
                None => {},
            }
            i += 1;
        }
    }

    /// The template name of the live entity `id`, if it has one.
    pub fn type_of(&self, id: EntityId) -> (name: Option<EntityType>)
        requires
            self.wf(),
        ensures
            !self.alive(id) ==> name is None,
            self.alive(id) ==> match name {
                Some(t) => self.kind_name(id) == Some(t.0@),
                None => self.kind_name(id) is None,
            },
    {
        if !self.is_alive(id) {
            return None;
        }
        match &self.types[id.index as usize] {
            Some(t) => Some(EntityType(t.0.clone())),
            None => None,
        }
    }
}

proof fn lemma_count_positive(s: Seq<Slot>, i: int)
    requires
        0 <= i < s.len(),
        s[i].reusable(),
    ensures
        count_reusable(s) >= 1,
    decreases s.len(),
{
    if i < s.len() - 1 {
        assert(s.drop_last()[i] == s[i]);
        lemma_count_positive(s.drop_last(), i);
    }
}

} // verus!
