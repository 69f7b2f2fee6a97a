//! The facade: entity lifecycle and the per-tick bookkeeping.
use vstd::prelude::*;

use crate::components::{EntityComponents, EntityType};
use crate::errors::TickError;
use crate::ids::{index_is_valid, EntityId};
use crate::world::{EntityRecord, World};

verus! {

/// Maximum allowed tick delta (milliseconds); larger values are clamped.
pub const MAX_DT_MS: u32 = 100;

/// Extent of the playable area in world units, as `f32` bit patterns.
///
/// The simulation does not enforce these bounds; nothing stops an entity from leaving them.
#[derive(Clone, Copy, Debug, PartialEq, Eq, Structural)]
pub struct MapBounds {
    pub width_bits: u32,
    pub height_bits: u32,
}

/// Public facade over the entity store: lifecycle, orders, groups, missions, boarding,
/// templates and maps.
pub struct Api {
    pub world: World,
    /// Resolved templates by name, once a template set has loaded.
    pub templates: Option<Vec<(String, EntityComponents)>>,
    /// Bounds declared by the last loaded map.
    pub map_bounds: Option<MapBounds>,
    /// Entities that arrived at their target this tick; movement skips them.
    pub arrived: Vec<EntityId>,
}

/// The entities among `ids` that were alive.
pub open spec fn alive_among(w: World, ids: Seq<EntityId>) -> Set<EntityId> {
    Set::new(|x: EntityId| ids.contains(x) && w.alive(x))
}

impl Api {
    /// The facade's invariant.
    pub open spec fn wf(&self) -> bool {
        self.world.wf()
    }

    /// Every id that was spent is still spent, and no slot went back in time.
    pub open spec fn keeps_history(&self, other: &Api) -> bool {
        &&& self.world.moves_forward_to(&other.world)
        &&& forall|x: EntityId| self.world.spent(x) ==> other.world.spent(x)
    }

    /// Creates an empty simulation.
    pub fn new() -> (api: Api)
        ensures
            api.wf(),
            api.templates is None,
            api.map_bounds is None,
            api.arrived@.len() == 0,
            forall|id: EntityId| !api.world.alive(id),
            api.world.capacity() == crate::world::index_limit() - 1,
    {
        Api { world: World::new(), templates: None, map_bounds: None, arrived: Vec::new() }
    }

    /// `true` while another entity can be spawned.
    pub fn has_room(&self) -> (room: bool)
        requires
            self.wf(),
        ensures
            room == (self.world.capacity() >= 1),
    {
        self.world.has_room()
    }

    /// `true` while `n` more entities can be spawned.
    pub fn room_for(&self, n: usize) -> (room: bool)
        requires
            self.wf(),
        ensures
            room == (self.world.capacity() >= n),
    {
        self.world.room() >= n as u64
    }

    /// `true` while the entity behind this id is spawned.
    ///
    /// An id stops resolving once its entity is despawned, even after the same index is handed
    /// to a new entity: the generation differs.
    pub fn is_alive(&self, id: EntityId) -> (alive: bool)
        requires
            self.wf(),
        ensures
            alive == self.world.alive(id),
    {
        index_is_valid(id.index) && self.world.is_alive(id)
    }

    /// Spawns an entity with exactly these components, and the given template name if any, and
    /// returns its id.
    pub fn spawn(&mut self, record: EntityRecord, entity_type: Option<EntityType>) -> (id: EntityId)
        requires
            old(self).wf(),
            old(self).world.capacity() >= 1,
        ensures
            final(self).wf(),
            old(self).keeps_history(final(self)),
            final(self).world.capacity() == old(self).world.capacity() - 1,
            !old(self).world.alive(id),
            !old(self).world.spent(id),
            final(self).world.alive(id),
            final(self).world.rec(id) == record,
            final(self).world.kind_name(id) == match entity_type {
                Some(t) => Some(t.0@),
                None => None::<Seq<char>>,
            },
            forall|x: EntityId|
                x != id ==> (final(self).world.alive(x) == old(self).world.alive(x) && (old(self).world.alive(x) ==> final(self).world.rec(x) == old(self).world.rec(x)
                    && final(self).world.kind_name(x) == old(self).world.kind_name(x))),
            final(self).templates == old(self).templates,
            final(self).map_bounds == old(self).map_bounds,
            final(self).arrived == old(self).arrived,
    {
        self.world.spawn(record, entity_type)
    }

    /// The components of the entity behind `id`, or `None` when it is not alive.
    pub fn get(&self, id: EntityId) -> (r: Option<EntityRecord>)
        requires
            self.wf(),
        ensures
            r is Some == self.world.alive(id),
            r matches Some(rec) ==> rec == self.world.rec(id),
    {
        self.world.get(id)
    }

    /// The template name the entity behind `id` was spawned from, if any.
    pub fn entity_type(&self, id: EntityId) -> (name: Option<EntityType>)
        requires
            self.wf(),
        ensures
            !self.world.alive(id) ==> name is None,
            self.world.alive(id) ==> match name {
                Some(t) => self.world.kind_name(id) == Some(t.0@),
                None => self.world.kind_name(id) is None,
            },
    {
        self.world.type_of(id)
    }

    /// Replaces every component of a live entity. `false`, changing nothing, when `id` does not
    /// resolve.
    pub fn replace(&mut self, id: EntityId, record: EntityRecord) -> (done: bool)
        requires
            old(self).wf(),
        ensures
            final(self).wf(),
            done == old(self).world.alive(id),
            old(self).keeps_history(final(self)),
            done ==> old(self).world.only_changed(&final(self).world, id, record),
            !done ==> final(self).world == old(self).world,
            final(self).templates == old(self).templates,
            final(self).map_bounds == old(self).map_bounds,
            final(self).arrived == old(self).arrived,
    {
        if !self.world.is_alive(id) {
            return false;
        }
        self.world.set(id, record);
        true
    }

    /// Despawns the entities behind these ids, returning how many were removed.
    ///
    /// Unknown, stale and repeated ids are skipped, so the count is of entities actually
    /// removed, never of ids passed in. Every removed id is spent: it never resolves again.
    pub fn despawn(&mut self, ids: &[EntityId]) -> (removed: usize)
        requires
            old(self).wf(),
        ensures
            final(self).wf(),
            old(self).keeps_history(final(self)),
            removed == alive_among(old(self).world, ids@).len(),
            final(self).world.capacity() >= old(self).world.capacity(),
            forall|x: EntityId|
                #![trigger final(self).world.alive(x)]
                final(self).world.alive(x) == (old(self).world.alive(x) && !ids@.contains(x)),
            forall|x: EntityId|
                #![trigger final(self).world.rec(x)]
                final(self).world.alive(x) ==> final(self).world.rec(x) == old(self).world.rec(x)
                    && final(self).world.kind_name(x) == old(self).world.kind_name(x),
            forall|x: EntityId|
                #![trigger final(self).world.spent(x)]
                ids@.contains(x) && old(self).world.alive(x) ==> final(self).world.spent(x),
            final(self).templates == old(self).templates,
            final(self).map_bounds == old(self).map_bounds,
            final(self).arrived == old(self).arrived,
    {
        let ghost start = self.world;
        let ghost mut gone: Set<EntityId> = Set::empty();
        let mut removed: usize = 0;
        let mut i: usize = 0;
        while i < ids.len()
            invariant
                i <= ids@.len(),
                self.world.wf(),
                start.moves_forward_to(&self.world),
                forall|x: EntityId| start.spent(x) ==> self.world.spent(x),
                self.world.capacity() >= start.capacity(),
                gone.finite(),
                removed == gone.len(),
                removed <= i,
                forall|x: EntityId|
                    gone.contains(x) <==> (ids@.take(i as int).contains(x) && start.alive(x)),
                forall|x: EntityId|
                    #![trigger self.world.alive(x)]
                    self.world.alive(x) == (start.alive(x) && !ids@.take(i as int).contains(x)),
                forall|x: EntityId|
                    #![trigger self.world.rec(x)]
                    self.world.alive(x) ==> self.world.rec(x) == start.rec(x)
                        && self.world.kind_name(x) == start.kind_name(x),
                forall|x: EntityId| gone.contains(x) ==> #[trigger] self.world.spent(x),
                self.templates == old(self).templates,
                self.map_bounds == old(self).map_bounds,
                self.arrived == old(self).arrived,
                start == old(self).world,
            decreases ids@.len() - i,
        {
            let id = ids[i];
            let ghost mid = self.world;
            let was = self.world.despawn(id);
            proof {
                assert(ids@.take(i as int + 1) =~= ids@.take(i as int).push(id));
                if was {
                    assert(!gone.contains(id));
                    gone = gone.insert(id);
                } else {
                    assert forall|x: EntityId| gone.contains(x) <==> (ids@.take(i as int + 1).contains(x)
                        && start.alive(x)) by {
                        if x == id && start.alive(x) {
                            assert(ids@.take(i as int).contains(x));
                        }
                    }
                }
                assert forall|x: EntityId| #![trigger self.world.alive(x)]
                    self.world.alive(x) == (start.alive(x) && !ids@.take(i as int + 1).contains(x)) by {
                    if x != id {
                        if ids@.take(i as int + 1).contains(x) {
                            let pre = ids@.take(i as int + 1);
                            let j = choose|j: int| 0 <= j < pre.len() && pre[j] == x;
                            assert(j < i);
                            assert(ids@.take(i as int)[j] == x);
                        }
                        if ids@.take(i as int).contains(x) {
                            let pre = ids@.take(i as int);
                            let j = choose|j: int| 0 <= j < pre.len() && pre[j] == x;
                            assert(ids@.take(i as int + 1)[j] == x);
                        }
                    } else {
                        assert(ids@.take(i as int + 1)[i as int] == id);
                    }
                }
                assert forall|x: EntityId| gone.contains(x) implies #[trigger] self.world.spent(x) by {
                    if x != id {
                        assert(mid.spent(x));
                    }
                }
            }
            if was {
                removed = removed + 1;
            }
            i += 1;
        }
        proof {
            assert(ids@.take(ids@.len() as int) =~= ids@);
            assert(gone =~= alive_among(start, ids@));
        }
        removed
    }

    /// Validates and clamps a tick delta, and clears the record of this tick's arrivals.
    ///
    /// The movement of the tick itself is floating-point work, done by the host between the
    /// structural steps this library provides.
    pub fn begin_tick(&mut self, dt_ms: u32) -> (res: Result<u32, TickError>)
        requires
            old(self).wf(),
        ensures
            final(self).wf(),
            dt_ms == 0 ==> res == Err::<u32, TickError>(TickError::ZeroDeltaTime) && *final(self)
                == *old(self),
            dt_ms != 0 ==> res == Ok::<u32, TickError>(if dt_ms < MAX_DT_MS {
                dt_ms
            } else {
                MAX_DT_MS
            }) && final(self).arrived@.len() == 0,
            final(self).world == old(self).world,
            final(self).templates == old(self).templates,
            final(self).map_bounds == old(self).map_bounds,
    {
        if dt_ms == 0 {
            return Err(TickError::ZeroDeltaTime);
        }
        let clamped = if dt_ms < MAX_DT_MS {
            dt_ms
        } else {
            MAX_DT_MS
        };
        self.arrived = Vec::new();
        Ok(clamped)
    }
}

impl Default for Api {
    /// An empty simulation, as [`Api::new`].
    fn default() -> (api: Api)
        ensures
            api.wf(),
            api.templates is None,
            api.map_bounds is None,
            api.arrived@.len() == 0,
            forall|id: EntityId| !api.world.alive(id),
            api.world.capacity() == crate::world::index_limit() - 1,
    {
        Api::new()
    }
}

/// Keeping history chains: two steps that each keep it keep it together.
pub proof fn lemma_history_chains(a: Api, b: Api, c: Api)
    requires
        a.keeps_history(&b),
        b.keeps_history(&c),
    ensures
        a.keeps_history(&c),
{
    assert forall|i: int| 0 <= i < a.world.slots@.len() implies {
        &&& (#[trigger] a.world.slots@[i]).generation <= c.world.slots@[i].generation
        &&& a.world.slots@[i].retired ==> c.world.slots@[i].retired && c.world.slots@[i].generation
            == a.world.slots@[i].generation
    } by {
        assert(b.world.slots@[i] == b.world.slots@[i]);
    }
}

/// A despawned entity stays gone: once its id is spent, no state reached while keeping history
/// resolves it again, even after its slot is reused.
pub proof fn lemma_spent_stays_dead(before: Api, after: Api, id: EntityId)
    requires
        before.world.spent(id),
        before.keeps_history(&after),
        after.wf(),
    ensures
        !after.world.alive(id),
        after.world.spent(id),
{
}

} // verus!
