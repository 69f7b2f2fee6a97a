//! World snapshots: which entities an export lists, and what each row carries.
//!
//! The JSON text itself is written by the host from these rows, under [`SCHEMA_VERSION`].
use vstd::prelude::*;

use crate::api::Api;
use crate::components::{EntityComponents, EntityType};
use crate::ids::EntityId;
use crate::world::World;

verus! {

/// Version of the snapshot layout.
pub const SCHEMA_VERSION: u32 = 3;

/// One exported entity: its id, its registered components (absent ones are `None`) and the
/// template it was spawned from, if any.
pub struct ExportRow {
    pub id: EntityId,
    pub components: EntityComponents,
    pub entity_type: Option<EntityType>,
}

/// The slot holds an entity, so it shows in an export.
pub open spec fn exported_slot(w: World, i: int) -> bool {
    w.slots@[i].record is Some
}

/// The entity behind `x` shows in an export: every live entity does.
pub open spec fn exported(w: World, x: EntityId) -> bool {
    w.alive(x)
}

/// The exported entities among the first `n` slots, in slot order.
pub open spec fn export_ids(w: World, n: int) -> Seq<EntityId>
    decreases n,
{
    if n <= 0 {
        Seq::empty()
    } else {
        let prev = export_ids(w, n - 1);
        if exported_slot(w, n - 1) {
            prev.push(EntityId { index: (n - 1) as u32, generation: w.slots@[n - 1].generation })
        } else {
            prev
        }
    }
}

/// The rows of `export_ids` are exactly the exported entities of the first `n` slots, each once.
pub proof fn lemma_export_ids(w: World, n: int)
    requires
        w.wf(),
        0 <= n <= w.slots@.len(),
    ensures
        forall|k: int|
            0 <= k < export_ids(w, n).len() ==> (#[trigger] export_ids(w, n)[k]).index < n
                && exported(w, export_ids(w, n)[k]),
        forall|x: EntityId|
            #![trigger export_ids(w, n).contains(x)]
            export_ids(w, n).contains(x) <==> (x.index < n && exported(w, x)),
        export_ids(w, n).no_duplicates(),
        forall|a: int, b: int|
            0 <= a < b < export_ids(w, n).len() ==> (#[trigger] export_ids(w, n)[a]).index
                < (#[trigger] export_ids(w, n)[b]).index,
    decreases n,
{
    if n > 0 {
        lemma_export_ids(w, n - 1);
        let prev = export_ids(w, n - 1);
        let cur = export_ids(w, n);
        let id = EntityId { index: (n - 1) as u32, generation: w.slots@[n - 1].generation };
        if exported_slot(w, n - 1) {
            assert(cur == prev.push(id));
            assert(exported(w, id));
            assert forall|x: EntityId| #![trigger cur.contains(x)]
                cur.contains(x) <==> (x.index < n && exported(w, x)) by {
                if cur.contains(x) {
                    let k = choose|k: int| 0 <= k < cur.len() && cur[k] == x;
                    if k < prev.len() {
                        assert(prev[k] == x);
                    }
                }
                if x.index < n && exported(w, x) {
                    if x.index < n - 1 {
                        assert(prev.contains(x));
                        let k = choose|k: int| 0 <= k < prev.len() && prev[k] == x;
                        assert(cur[k] == x);
                    } else {
                        assert(x == id);
                        assert(cur[prev.len() as int] == x);
                    }
                }
            }
            assert forall|k: int| 0 <= k < cur.len() implies (#[trigger] cur[k]).index < n && exported(
                w,
                cur[k],
            ) by {
                if k < prev.len() {
                    assert(cur[k] == prev[k]);
                }
            }
            assert forall|a: int, b: int| 0 <= a < b < cur.len() implies (#[trigger] cur[a]).index
                < (#[trigger] cur[b]).index by {
                if b < prev.len() {
                    assert(cur[a] == prev[a] && cur[b] == prev[b]);
                } else {
                    assert(cur[a] == prev[a]);
                }
            }
            assert forall|a: int, b: int|
                0 <= a < cur.len() && 0 <= b < cur.len() && a != b implies cur[a] != cur[b] by {
                if a < prev.len() && b < prev.len() {
                    assert(cur[a] == prev[a] && cur[b] == prev[b]);
                } else if a < prev.len() {
                    assert(cur[a] == prev[a]);
                } else if b < prev.len() {
                    assert(cur[b] == prev[b]);
                }
            }
        } else {
            assert(cur == prev);
            assert forall|x: EntityId| #![trigger cur.contains(x)]
                cur.contains(x) <==> (x.index < n && exported(w, x)) by {
                if x.index < n && exported(w, x) {
                    assert(x.index != n - 1);
                    assert(prev.contains(x));
                }
            }
        }
    }
}

impl Api {
    /// The rows of a world snapshot: one row for every live entity, in slot order, each with its
    /// registered components (absent ones `None`) and its template name, if any. Entities with
    /// neither, such as groups and missions, still get a row.
    pub fn export_rows(&self) -> (rows: Vec<ExportRow>)
        requires
            self.wf(),
        ensures
            ({
                let ids = export_ids(self.world, self.world.slots@.len() as int);
                &&& rows@.len() == ids.len()
                &&& forall|k: int|
                    0 <= k < rows@.len() ==> {
                        &&& (#[trigger] rows@[k]).id == ids[k]
                        &&& rows@[k].components == self.world.rec(ids[k]).spec_registered()
                        &&& match rows@[k].entity_type {
                            Some(t) => self.world.kind_name(ids[k]) == Some(t.0@),
                            None => self.world.kind_name(ids[k]) is None,
                        }
                    }
            }),
            forall|x: EntityId|
                #![trigger export_ids(self.world, self.world.slots@.len() as int).contains(x)]
                export_ids(self.world, self.world.slots@.len() as int).contains(x) <==> exported(
                    self.world,
                    x,
                ),
            export_ids(self.world, self.world.slots@.len() as int).no_duplicates(),
            forall|a: int, b: int|
                0 <= a < b < rows@.len() ==> (#[trigger] rows@[a]).id.index < (#[trigger] rows@[b]).id.index,
    {
        let mut rows: Vec<ExportRow> = Vec::new();
        let mut i: usize = 0;
        while i < self.world.slots.len()
            invariant
                i <= self.world.slots@.len(),
                self.wf(),
                rows@.len() == export_ids(self.world, i as int).len(),
                forall|k: int|
                    0 <= k < rows@.len() ==> {
                        &&& (#[trigger] rows@[k]).id == export_ids(self.world, i as int)[k]
                        &&& rows@[k].components == self.world.rec(rows@[k].id).spec_registered()
                        &&& match rows@[k].entity_type {
                            Some(t) => self.world.kind_name(rows@[k].id) == Some(t.0@),
                            None => self.world.kind_name(rows@[k].id) is None,
                        }
                    },
            decreases self.world.slots@.len() - i,
        {
            let slot = self.world.slots[i];
            match slot.record {
                Some(r) => {
                    let entity_type = match &self.world.types[i] {
                        Some(t) => Some(EntityType(t.0.clone())),
                        None => None,
                    };
                    let components = r.registered();
                    let ghost before = rows@;
                    let id = EntityId { index: i as u32, generation: slot.generation };
                    rows.push(ExportRow { id, components, entity_type });
                    proof {
                        assert forall|k: int| 0 <= k < rows@.len() implies (#[trigger] rows@[k]).id
                            == export_ids(self.world, i as int + 1)[k] by {
                            if k < before.len() {
                                assert(rows@[k] == before[k]);
                            }
                        }
                    }
                },
                None => {},
            }
            i += 1;
        }
        proof {
            lemma_export_ids(self.world, self.world.slots@.len() as int);
            let ids = export_ids(self.world, self.world.slots@.len() as int);
            assert forall|a: int, b: int| 0 <= a < b < rows@.len() implies (#[trigger] rows@[a]).id.index
                < (#[trigger] rows@[b]).id.index by {
                assert(rows@[a].id == ids[a] && rows@[b].id == ids[b]);
            }
        }
        rows
    }
}

} // verus!
