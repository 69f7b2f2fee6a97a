//! Initial map layout: world bounds plus the entities a world starts with.
//!
//! A map entry names a template and carries the same override fields as
//! [`Api::spawn_entity`]. Every entry's template is checked before anything is spawned, so a
//! typo leaves the world untouched instead of half-populated.
use vstd::prelude::*;

use crate::api::{Api, MapBounds};
use crate::components::EntityComponents;
use crate::errors::MapError;
use crate::ids::EntityId;
use crate::import::{lookup_template, table_lookup};
use crate::world::EntityRecord;

verus! {

/// One entry of a map: a template name plus override fields.
pub struct MapSpawn {
    pub template: String,
    pub overrides: EntityComponents,
}

/// A map: optional bounds and the entities to spawn, in order.
pub struct MapFile {
    pub map: Option<MapBounds>,
    pub spawns: Vec<MapSpawn>,
}

/// The first entry at or after `i` whose template is not in `t`.
pub open spec fn first_unknown(t: Seq<(String, EntityComponents)>, spawns: Seq<MapSpawn>, i: int) -> Option<int>
    decreases spawns.len() - i,
{
    if i < 0 || i >= spawns.len() {
        None
    } else if table_lookup(t, spawns[i].template@) is None {
        Some(i)
    } else {
        first_unknown(t, spawns, i + 1)
    }
}

proof fn lemma_first_unknown(t: Seq<(String, EntityComponents)>, spawns: Seq<MapSpawn>, i: int)
    requires
        0 <= i,
    ensures
        first_unknown(t, spawns, i) matches Some(k) ==> i <= k < spawns.len() && table_lookup(
            t,
            spawns[k].template@,
        ) is None && forall|m: int| i <= m < k ==> table_lookup(t, spawns[m].template@) is Some,
        first_unknown(t, spawns, i) is None ==> forall|m: int|
            i <= m < spawns.len() ==> table_lookup(t, #[trigger] spawns[m].template@) is Some,
    decreases spawns.len() - i,
{
    if i < spawns.len() && table_lookup(t, spawns[i].template@) is Some {
        lemma_first_unknown(t, spawns, i + 1);
    }
}

/// The first entry of `spawns` whose template is not in `t`, if any.
pub open spec fn map_problem(t: Seq<(String, EntityComponents)>, spawns: Seq<MapSpawn>) -> Option<int> {
    first_unknown(t, spawns, 0)
}

/// Finds the first entry whose template is missing from `table`.
fn find_unknown(table: &Vec<(String, EntityComponents)>, spawns: &Vec<MapSpawn>) -> (r: Option<usize>)
    ensures
        match r {
            Some(i) => i < spawns@.len() && map_problem(table@, spawns@) == Some(i as int),
            None => map_problem(table@, spawns@) is None,
        },
        r is None ==> forall|m: int|
            0 <= m < spawns@.len() ==> table_lookup(table@, #[trigger] spawns@[m].template@) is Some,
{
    let mut i: usize = 0;
    while i < spawns.len()
        invariant
            i <= spawns@.len(),
            forall|m: int| 0 <= m < i ==> table_lookup(table@, #[trigger] spawns@[m].template@) is Some,
        decreases spawns@.len() - i,
    {
        if lookup_template(table, &spawns[i].template).is_none() {
            proof {
                lemma_first_unknown(table@, spawns@, 0);
                if first_unknown(table@, spawns@, 0) != Some(i as int) {
                    if first_unknown(table@, spawns@, 0) is Some {
                        let k = first_unknown(table@, spawns@, 0)->Some_0;
                        if k < i {
                            assert(table_lookup(table@, spawns@[k].template@) is Some);
                        }
                    }
                }
            }
            return Some(i);
        }
        i += 1;
    }
    proof {
        lemma_first_unknown(table@, spawns@, 0);
    }
    None
}

/// The record a map entry spawns with.
pub open spec fn entry_record(t: Seq<(String, EntityComponents)>, e: MapSpawn) -> EntityRecord {
    EntityRecord::spec_from_components(
        EntityComponents::spec_merge(table_lookup(t, e.template@)->Some_0, e.overrides),
    )
}

impl Api {
    /// Spawns a starting layout and records its bounds. Returns the spawned entities in file
    /// order.
    ///
    /// Fails, spawning nothing and keeping the old bounds, when no templates are loaded or when
    /// an entry names a template that does not exist (the first such entry is reported).
    pub fn load_map(&mut self, file: MapFile) -> (res: Result<Vec<EntityId>, MapError>)
        requires
            old(self).wf(),
            old(self).world.capacity() >= file.spawns@.len(),
        ensures
            final(self).wf(),
            old(self).keeps_history(final(self)),
            old(self).templates is None ==> res matches Err(MapError::TemplatesNotLoaded),
            old(self).templates is Some && map_problem(old(self).templates->Some_0@, file.spawns@) is Some
                ==> (res matches Err(MapError::UnknownTemplate { index, name })
                && index == map_problem(old(self).templates->Some_0@, file.spawns@)->Some_0
                && name@ == file.spawns@[index as int].template@),
            res is Ok <==> (old(self).templates is Some && map_problem(old(self).templates->Some_0@, file.spawns@) is None),
            res is Err ==> final(self).world == old(self).world && final(self).map_bounds == old(self).map_bounds,
            res matches Ok(ids) ==> {
                let t = old(self).templates->Some_0@;
                &&& ids@.len() == file.spawns@.len()
                &&& ids@.no_duplicates()
                &&& final(self).map_bounds == file.map
                &&& forall|k: int|
                    0 <= k < ids@.len() ==> {
                        &&& !old(self).world.alive(#[trigger] ids@[k])
                        &&& final(self).world.alive(ids@[k])
                        &&& final(self).world.rec(ids@[k]) == entry_record(t, file.spawns@[k])
                        &&& final(self).world.kind_name(ids@[k]) == Some(file.spawns@[k].template@)
                    }
                &&& forall|x: EntityId|
                    #![trigger final(self).world.alive(x)]
                    final(self).world.alive(x) <==> (old(self).world.alive(x) || ids@.contains(x))
                &&& forall|x: EntityId|
                    #![trigger final(self).world.rec(x)]
                    old(self).world.alive(x) ==> final(self).world.rec(x) == old(self).world.rec(x)
            },
            final(self).templates == old(self).templates,
            final(self).arrived == old(self).arrived,
    {
        let table = match &self.templates {
            None => return Err(MapError::TemplatesNotLoaded),
            Some(t) => t,
        };
        let ghost t = table@;
        if let Some(i) = find_unknown(table, &file.spawns) {
            return Err(MapError::UnknownTemplate { index: i, name: file.spawns[i].template.clone() });
        }
        proof {
            lemma_first_unknown(t, file.spawns@, 0);
        }
        let ghost start = self.world;
        let ghost old_templates = self.templates;
        let mut ids: Vec<EntityId> = Vec::new();
        let mut k: usize = 0;
        while k < file.spawns.len()
            invariant
                k <= file.spawns@.len(),
                self.wf(),
                start.wf(),
                self.templates == old_templates,
                old_templates == old(self).templates,
                old_templates matches Some(tv) && tv@ == t,
                forall|m: int| 0 <= m < file.spawns@.len() ==> table_lookup(t, #[trigger] file.spawns@[m].template@) is Some,
                self.world.capacity() == start.capacity() - k,
                start.capacity() >= file.spawns@.len(),
                start.moves_forward_to(&self.world),
                forall|x: EntityId| start.spent(x) ==> self.world.spent(x),
                ids@.len() == k,
                ids@.no_duplicates(),
                forall|j: int|
                    0 <= j < k ==> {
                        &&& !start.alive(#[trigger] ids@[j])
                        &&& self.world.alive(ids@[j])
                        &&& self.world.rec(ids@[j]) == entry_record(t, file.spawns@[j])
                        &&& self.world.kind_name(ids@[j]) == Some(file.spawns@[j].template@)
                    },
                forall|x: EntityId|
                    #![trigger self.world.alive(x)]
                    self.world.alive(x) <==> (start.alive(x) || ids@.contains(x)),
                forall|x: EntityId|
                    #![trigger self.world.rec(x)]
                    start.alive(x) ==> self.world.rec(x) == start.rec(x),
                self.map_bounds == old(self).map_bounds,
                self.arrived == old(self).arrived,
                start == old(self).world,
            decreases file.spawns@.len() - k,
        {
            let name = file.spawns[k].template.clone();
            let base = match &self.templates {
                Some(tb) => lookup_template(tb, &name),
                None => None,
            };
            let base = match base {
                Some(b) => b,
                None => {
                    proof {
                        assert(table_lookup(t, file.spawns@[k as int].template@) is Some);
                    }
                    return Err(MapError::TemplatesNotLoaded);
                },
            };
            let ghost mid = self.world;
            let ghost before_ids = ids@;
            let id = self.spawn_from(name, &base, &file.spawns[k].overrides);
            ids.push(id);
            proof {
                assert(!before_ids.contains(id)) by {
                    if before_ids.contains(id) {
                        let j = choose|j: int| 0 <= j < before_ids.len() && before_ids[j] == id;
                        assert(mid.alive(before_ids[j]));
                    }
                }
                assert forall|a: int, b: int|
                    0 <= a < ids@.len() && 0 <= b < ids@.len() && a != b implies ids@[a] != ids@[b] by {
                    if a < before_ids.len() && b < before_ids.len() {
                        assert(ids@[a] == before_ids[a] && ids@[b] == before_ids[b]);
                    } else if a < before_ids.len() {
                        assert(ids@[a] == before_ids[a]);
                        assert(before_ids.contains(before_ids[a]));
                    } else if b < before_ids.len() {
                        assert(ids@[b] == before_ids[b]);
                        assert(before_ids.contains(before_ids[b]));
                    }
                }
                assert forall|j: int| 0 <= j < k + 1 implies {
                    &&& !start.alive(#[trigger] ids@[j])
                    &&& self.world.alive(ids@[j])
                    &&& self.world.rec(ids@[j]) == entry_record(t, file.spawns@[j])
                    &&& self.world.kind_name(ids@[j]) == Some(file.spawns@[j].template@)
                } by {
                    if j < k {
                        assert(ids@[j] == before_ids[j]);
                        assert(before_ids.contains(before_ids[j]));
                        assert(ids@[j] != id);
                    } else {
                        assert(ids@[j] == id);
                    }
                }
                assert forall|x: EntityId| #![trigger self.world.alive(x)]
                    self.world.alive(x) <==> (start.alive(x) || ids@.contains(x)) by {
                    if ids@.contains(x) && x != id {
                        let j = choose|j: int| 0 <= j < ids@.len() && ids@[j] == x;
                        assert(before_ids[j] == x);
                    }
                    if before_ids.contains(x) {
                        let j = choose|j: int| 0 <= j < before_ids.len() && before_ids[j] == x;
                        assert(ids@[j] == x);
                    }
                    if x == id {
                        assert(ids@[before_ids.len() as int] == x);
                    }
                }
            }
            k += 1;
        }
        self.map_bounds = file.map;
        Ok(ids)
    }

    /// Bounds from the last loaded map, or `None` when no map declared them.
    pub fn map_bounds(&self) -> (bounds: Option<MapBounds>)
        ensures
            bounds == self.map_bounds,
    {
        self.map_bounds
    }
}

} // verus!
