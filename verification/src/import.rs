//! Loading a template set and spawning entities from it.
use vstd::prelude::*;

use crate::api::Api;
use crate::components::{merge_components, EntityComponents, EntityType};
use crate::errors::ImportError;
use crate::ids::EntityId;
use crate::templates::{
    error_explains, first_failure, is_resolved_table, reports, never_resolves, resolve_all_templates, templates_well_formed,
    RawTemplate,
};
use crate::world::EntityRecord;

verus! {

/// The bundle stored under `name` (the first entry with that name).
pub open spec fn table_lookup(t: Seq<(String, EntityComponents)>, name: Seq<char>) -> Option<EntityComponents>
    decreases t.len(),
{
    if t.len() == 0 {
        None
    } else if t.last().0@ == name {
        match table_lookup(t.drop_last(), name) {
            Some(c) => Some(c),
            None => Some(t.last().1),
        }
    } else {
        table_lookup(t.drop_last(), name)
    }
}

/// What spawning `name` would start from, given the loaded set.
pub open spec fn template_of(templates: Option<Vec<(String, EntityComponents)>>, name: Seq<char>) -> Option<EntityComponents> {
    match templates {
        Some(t) => table_lookup(t@, name),
        None => None,
    }
}

/// Looks a template up by name.
pub fn lookup_template(t: &Vec<(String, EntityComponents)>, name: &String) -> (found: Option<EntityComponents>)
    ensures
        found == table_lookup(t@, name@),
{
    let mut i: usize = 0;
    let mut found: Option<EntityComponents> = None;
    while i < t.len()
        invariant
            i <= t@.len(),
            found == table_lookup(t@.take(i as int), name@),
        decreases t@.len() - i,
    {
        proof {
            assert(t@.take(i as int + 1).drop_last() =~= t@.take(i as int));
            assert(t@.take(i as int + 1).last() == t@[i as int]);
        }
        if t[i].0 == *name && found.is_none() {
            found = Some(t[i].1);
        }
        i += 1;
    }
    proof {
        assert(t@.take(t@.len() as int) =~= t@);
    }
    found
}

impl Api {
    /// Resolves a template set and stores it for later spawns.
    ///
    /// Replaces any previously loaded templates on success. On failure — a missing parent or an
    /// inheritance cycle — the previous templates stay as they were.
    pub fn load_templates(&mut self, raw: Vec<RawTemplate>) -> (res: Result<(), ImportError>)
        requires
            old(self).wf(),
        ensures
            final(self).wf(),
            res is Ok <==> templates_well_formed(raw@),
            res is Ok ==> (final(self).templates matches Some(t) && is_resolved_table(raw@, t@)),
            res is Err ==> final(self).templates == old(self).templates,
            res matches Err(e) ==> exists|k: int|
                0 <= k < raw@.len() && error_explains(raw@, (#[trigger] raw@[k]).name@, e)
                    && first_failure(raw@, Seq::empty(), raw@[k].name@) is Some && reports(
                        e,
                        raw@[k].name@,
                        first_failure(raw@, Seq::empty(), raw@[k].name@)->Some_0,
                    ) && never_resolves(raw@, raw@[k].name@) && forall|a: int|
                    0 <= a < k ==> !never_resolves(raw@, #[trigger] raw@[a].name@),
            final(self).world == old(self).world,
            final(self).map_bounds == old(self).map_bounds,
            final(self).arrived == old(self).arrived,
    {
        match resolve_all_templates(&raw) {
            Ok(table) => {
                self.templates = Some(table);
                Ok(())
            },
            Err(e) => Err(e),
        }
    }

    /// Spawns an entity from a resolved template, merged with `overrides` (each `Some` field
    /// replaces the template's), and tags it with the template's name.
    pub(crate) fn spawn_from(&mut self, name: String, base: &EntityComponents, overrides: &EntityComponents) -> (id: EntityId)
        requires
            old(self).wf(),
            old(self).world.capacity() >= 1,
        ensures
            final(self).wf(),
            old(self).keeps_history(final(self)),
            final(self).world.capacity() == old(self).world.capacity() - 1,
            !old(self).world.alive(id),
            !old(self).world.spent(id),
            final(self).world.alive(id),
            final(self).world.rec(id) == EntityRecord::spec_from_components(
                EntityComponents::spec_merge(*base, *overrides),
            ),
            final(self).world.kind_name(id) == Some(name@),
            forall|x: EntityId|
                x != id ==> (final(self).world.alive(x) == old(self).world.alive(x) && (old(self).world.alive(x) ==> final(self).world.rec(x) == old(self).world.rec(x)
                    && final(self).world.kind_name(x) == old(self).world.kind_name(x))),
            final(self).templates == old(self).templates,
            final(self).map_bounds == old(self).map_bounds,
            final(self).arrived == old(self).arrived,
    {
        let doc = merge_components(base, overrides);
        let r = EntityRecord::from_components(&doc);
        self.world.spawn(r, Some(EntityType(name)))
    }

    /// Spawns one entity from a loaded template, applying optional component overrides.
    ///
    /// Each `Some` field in `overrides` replaces the template value; `None` fields leave the
    /// template unchanged. The entity is tagged with the template's name.
    pub fn spawn_entity(&mut self, template_name: &str, overrides: EntityComponents) -> (res: Result<
        EntityId,
        ImportError,
    >)
        requires
            old(self).wf(),
            old(self).world.capacity() >= 1,
        ensures
            final(self).wf(),
            old(self).keeps_history(final(self)),
            old(self).templates is None ==> res matches Err(ImportError::TemplatesNotLoaded),
            old(self).templates is Some && template_of(old(self).templates, template_name@) is None
                ==> (res matches Err(ImportError::UnknownTemplate(n)) && n@ == template_name@),
            res is Ok <==> template_of(old(self).templates, template_name@) is Some,
            res is Err ==> final(self).world == old(self).world,
            res matches Ok(id) ==> {
                &&& !old(self).world.alive(id)
                &&& !old(self).world.spent(id)
                &&& final(self).world.alive(id)
                &&& final(self).world.rec(id) == EntityRecord::spec_from_components(
                    EntityComponents::spec_merge(
                        template_of(old(self).templates, template_name@)->Some_0,
                        overrides,
                    ),
                )
                &&& final(self).world.kind_name(id) == Some(template_name@)
                &&& forall|x: EntityId|
                    x != id ==> (final(self).world.alive(x) == old(self).world.alive(x) && (old(self).world.alive(x) ==> final(self).world.rec(x) == old(self).world.rec(x)))
            },
            final(self).templates == old(self).templates,
            final(self).map_bounds == old(self).map_bounds,
            final(self).arrived == old(self).arrived,
    {
        let name = template_name.to_owned();
        let base = match &self.templates {
            None => return Err(ImportError::TemplatesNotLoaded),
            Some(t) => match lookup_template(t, &name) {
                Some(b) => b,
                None => return Err(ImportError::UnknownTemplate(name)),
            },
        };
        Ok(self.spawn_from(name, &base, &overrides))
    }
}

} // verus!
