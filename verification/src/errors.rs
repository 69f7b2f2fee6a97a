//! Error types of the library's operations.
use vstd::prelude::*;

use crate::ids::EntityId;
use crate::text::{decimal, joined, push_decimal, push_joined, push_text};

verus! {

#[verifier::external_type_specification]
#[verifier::external_body]
pub struct ExTemplateYamlError(serde_yaml::Error);

#[verifier::external_type_specification]
#[verifier::external_body]
pub struct ExMapYamlError(yaml_serde::Error);

/// Errors from `Api::begin_tick`.
#[derive(Clone, Copy, Debug, PartialEq, Eq, Structural)]
pub enum TickError {
    ZeroDeltaTime,
}

/// Errors from boarding and unboarding.
#[derive(Clone, Copy, Debug, PartialEq, Eq, Structural)]
pub enum BoardError {
    /// The id does not resolve to a live entity.
    UnknownUnit(EntityId),
    /// The id does not resolve, or resolves to something without seats.
    NotBoardable(EntityId),
    /// The unit is already riding something.
    AlreadyAboard(EntityId),
    /// Every seat is taken.
    NoSeatsLeft { seats: u8 },
    /// The unit or the vehicle has no position, so it has no place in the world to board from.
    NoPosition(EntityId),
    /// The unit is not riding anything.
    NotAboard(EntityId),
}

/// Errors from the group operations.
#[derive(Clone, Copy, Debug, PartialEq, Eq, Structural)]
pub enum GroupError {
    /// The id does not resolve, or resolves to an entity that is not a group.
    UnknownGroup(EntityId),
    /// The id does not resolve to a live entity.
    UnknownUnit(EntityId),
    /// A unit without a faction cannot join anything: the faction rule could not be checked.
    UnitHasNoFaction(EntityId),
    /// A group commands one faction only.
    FactionMismatch { unit: u32, group: u32 },
}

/// Errors from the mission operations.
#[derive(Clone, Copy, Debug, PartialEq, Eq, Structural)]
pub enum MissionError {
    /// The id does not resolve, or resolves to an entity that is not a mission.
    UnknownMission(EntityId),
    /// The id does not resolve, or resolves to an entity that is not a group.
    UnknownGroup(EntityId),
    /// The mission is done; nobody else is sent to it.
    AlreadyCompleted(EntityId),
}

/// Errors while loading templates or spawning from them.
#[derive(Debug)]
pub enum ImportError {
    /// YAML syntax, type mismatch, or unknown field.
    Yaml(serde_yaml::Error),
    /// `spawn_entity` called before a successful template load.
    TemplatesNotLoaded,
    /// No template with this name in the loaded set.
    UnknownTemplate(String),
    /// A referenced parent name is missing from the template set.
    UnknownTemplateParent { child: String, parent: String },
    /// Circular `template` chain detected during load.
    TemplateCycle { chain: Vec<String> },
}

/// Errors while loading a map layout.
#[derive(Debug)]
pub enum MapError {
    /// YAML syntax, type mismatch, or unknown field.
    Yaml(yaml_serde::Error),
    /// A map was loaded before any templates.
    TemplatesNotLoaded,
    /// An entry names a template that was not loaded; nothing was spawned.
    UnknownTemplate { index: usize, name: String },
    /// A spawn failed after validation passed.
    Spawn(ImportError),
}

/// Errors while loading a map layout from a file into a world, with the cause as text.
#[derive(Debug, PartialEq, Eq)]
pub enum MapLoadError {
    /// Reading the file failed; `path` names it when known.
    Io { op: String, path: Option<String>, source: String },
    /// The text is not a valid map.
    Yaml { op: String, source: String },
    /// Spawning one entry failed.
    Spawn { entity_type: String, source: String },
}

/// An id as messages print it: `index:generation`.
pub open spec fn id_text(id: EntityId) -> Seq<char> {
    decimal(id.index as nat) + ":"@ + decimal(id.generation as nat)
}

fn push_id(s: &mut String, id: EntityId)
    ensures
        final(s)@ == old(s)@ + id_text(id),
{
    let ghost start = s@;
    push_decimal(s, id.index as u64);
    push_text(s, ":");
    push_decimal(s, id.generation as u64);
    proof {
        assert(s@ =~= start + id_text(id));
    }
}

/// `prefix`, then the id, then `suffix`.
fn around_id(prefix: &str, id: EntityId, suffix: &str) -> (msg: String)
    ensures
        msg@ == prefix@ + id_text(id) + suffix@,
{
    let mut s = String::new();
    push_text(&mut s, prefix);
    push_id(&mut s, id);
    push_text(&mut s, suffix);
    proof {
        assert(s@ =~= prefix@ + id_text(id) + suffix@);
    }
    s
}

/// The display text of a template parser error.
///
/// Calls `serde_yaml::Error`'s `Display` (through `to_string`); what it prints is not stated.
#[verifier::external_body]
fn template_yaml_text(e: &serde_yaml::Error) -> String {
    e.to_string()
}

/// The display text of a map parser error.
///
/// Calls `yaml_serde::Error`'s `Display` (through `to_string`); what it prints is not stated.
#[verifier::external_body]
fn map_yaml_text(e: &yaml_serde::Error) -> String {
    e.to_string()
}

impl TickError {
    /// What the error says.
    pub open spec fn text(self) -> Seq<char> {
        "tick delta must be greater than zero"@
    }

    /// The error's message.
    pub fn message(&self) -> (msg: String)
        ensures
            msg@ == self.text(),
    {
        "tick delta must be greater than zero".to_owned()
    }
}

impl BoardError {
    /// What the error says.
    pub open spec fn text(self) -> Seq<char> {
        match self {
            BoardError::UnknownUnit(id) => "no entity with id "@ + id_text(id) + ""@,
            BoardError::NotBoardable(id) => "entity "@ + id_text(id) + " has no seats to board"@,
            BoardError::AlreadyAboard(id) => "entity "@ + id_text(id) + " is already aboard a vehicle"@,
            BoardError::NoSeatsLeft { seats } => "all "@ + decimal(seats as nat) + " seats are taken"@,
            BoardError::NoPosition(id) => "entity "@ + id_text(id) + " has no position, so it cannot board"@,
            BoardError::NotAboard(id) => "entity "@ + id_text(id) + " is not aboard anything"@,
        }
    }

    /// The error's message.
    pub fn message(&self) -> (msg: String)
        ensures
            msg@ == self.text(),
    {
        match *self {
            BoardError::UnknownUnit(id) => around_id("no entity with id ", id, ""),
            BoardError::NotBoardable(id) => around_id("entity ", id, " has no seats to board"),
            BoardError::AlreadyAboard(id) => around_id("entity ", id, " is already aboard a vehicle"),
            BoardError::NoSeatsLeft { seats } => {
                let mut s = String::new();
                push_text(&mut s, "all ");
                push_decimal(&mut s, seats as u64);
                push_text(&mut s, " seats are taken");
                proof {
                    assert(s@ =~= self.text());
                }
                s
            },
            BoardError::NoPosition(id) => around_id("entity ", id, " has no position, so it cannot board"),
            BoardError::NotAboard(id) => around_id("entity ", id, " is not aboard anything"),
        }
    }
}

impl GroupError {
    /// What the error says.
    pub open spec fn text(self) -> Seq<char> {
        match self {
            GroupError::UnknownGroup(id) => "no group with id "@ + id_text(id) + ""@,
            GroupError::UnknownUnit(id) => "no entity with id "@ + id_text(id) + ""@,
            GroupError::UnitHasNoFaction(id) => "entity "@ + id_text(id)
                + " has no faction, so it cannot join a group"@,
            GroupError::FactionMismatch { unit, group } => "unit belongs to faction "@ + decimal(
                unit as nat,
            ) + ", group commands faction "@ + decimal(group as nat),
        }
    }

    /// The error's message.
    pub fn message(&self) -> (msg: String)
        ensures
            msg@ == self.text(),
    {
        match *self {
            GroupError::UnknownGroup(id) => around_id("no group with id ", id, ""),
            GroupError::UnknownUnit(id) => around_id("no entity with id ", id, ""),
            GroupError::UnitHasNoFaction(id) => around_id(
                "entity ",
                id,
                " has no faction, so it cannot join a group",
            ),
            GroupError::FactionMismatch { unit, group } => {
                let mut s = String::new();
                push_text(&mut s, "unit belongs to faction ");
                push_decimal(&mut s, unit as u64);
                push_text(&mut s, ", group commands faction ");
                push_decimal(&mut s, group as u64);
                proof {
                    assert(s@ =~= self.text());
                }
                s
            },
        }
    }
}

impl MissionError {
    /// What the error says.
    pub open spec fn text(self) -> Seq<char> {
        match self {
            MissionError::UnknownMission(id) => "no mission with id "@ + id_text(id) + ""@,
            MissionError::UnknownGroup(id) => "no group with id "@ + id_text(id) + ""@,
            MissionError::AlreadyCompleted(id) => "mission "@ + id_text(id) + " is already completed"@,
        }
    }

    /// The error's message.
    pub fn message(&self) -> (msg: String)
        ensures
            msg@ == self.text(),
    {
        match *self {
            MissionError::UnknownMission(id) => around_id("no mission with id ", id, ""),
            MissionError::UnknownGroup(id) => around_id("no group with id ", id, ""),
            MissionError::AlreadyCompleted(id) => around_id("mission ", id, " is already completed"),
        }
    }
}

impl ImportError {
    /// What the error says; for a parser error, the words before the parser's own text.
    pub open spec fn text(&self) -> Seq<char> {
        match self {
            ImportError::Yaml(_) => "YAML import failed: "@,
            ImportError::TemplatesNotLoaded => "templates not loaded; call load_templates_yaml first"@,
            ImportError::UnknownTemplate(name) => "unknown template name: "@ + name@,
            ImportError::UnknownTemplateParent { child, parent } => "template \""@ + parent@
                + "\" not found (referenced from \""@ + child@ + "\")"@,
            ImportError::TemplateCycle { chain } => "template inheritance cycle: "@ + joined(
                chain@,
                " -> "@,
            ),
        }
    }

    /// The error's message. A parser error's message is [`ImportError::text`] followed by the
    /// parser's own text.
    pub fn message(&self) -> (msg: String)
        ensures
            self is Yaml ==> exists|rest: Seq<char>| msg@ == self.text() + rest,
            !(self is Yaml) ==> msg@ == self.text(),
    {
        let mut s = String::new();
        match self {
            ImportError::Yaml(e) => {
                push_text(&mut s, "YAML import failed: ");
                let detail = template_yaml_text(e);
                push_text(&mut s, detail.as_str());
                proof {
                    assert(s@ == self.text() + detail@);
                }
            },
            ImportError::TemplatesNotLoaded => {
                push_text(&mut s, "templates not loaded; call load_templates_yaml first");
            },
            ImportError::UnknownTemplate(name) => {
                push_text(&mut s, "unknown template name: ");
                push_text(&mut s, name.as_str());
            },
            ImportError::UnknownTemplateParent { child, parent } => {
                push_text(&mut s, "template \"");
                push_text(&mut s, parent.as_str());
                push_text(&mut s, "\" not found (referenced from \"");
                push_text(&mut s, child.as_str());
                push_text(&mut s, "\")");
            },
            ImportError::TemplateCycle { chain } => {
                push_text(&mut s, "template inheritance cycle: ");
                push_joined(&mut s, chain, " -> ");
            },
        }
        proof {
            if !(self is Yaml) {
                assert(s@ =~= self.text());
            }
        }
        s
    }
}

impl MapError {
    /// What the error says; for a parser error, the words before the parser's own text.
    pub open spec fn text(&self) -> Seq<char> {
        match self {
            MapError::Yaml(_) => "map load failed: "@,
            MapError::TemplatesNotLoaded => "templates not loaded; call load_templates_yaml first"@,
            MapError::UnknownTemplate { index, name } => "spawn #"@ + decimal(index as nat)
                + " names unknown template: "@ + name@,
            MapError::Spawn(err) => "map spawn failed: "@ + err.text(),
        }
    }

    /// The error's message. A parser error's message, and that of a failed spawn caused by one,
    /// is [`MapError::text`] followed by the parser's own text.
    pub fn message(&self) -> (msg: String)
        ensures
            (self is Yaml || (self is Spawn && self->Spawn_0 is Yaml)) ==> exists|rest: Seq<char>|
                msg@ == self.text() + rest,
            !(self is Yaml || (self is Spawn && self->Spawn_0 is Yaml)) ==> msg@ == self.text(),
    {
        let mut s = String::new();
        match self {
            MapError::Yaml(e) => {
                push_text(&mut s, "map load failed: ");
                let detail = map_yaml_text(e);
                push_text(&mut s, detail.as_str());
                proof {
                    assert(s@ == self.text() + detail@);
                }
            },
            MapError::TemplatesNotLoaded => {
                push_text(&mut s, "templates not loaded; call load_templates_yaml first");
            },
            MapError::UnknownTemplate { index, name } => {
                push_text(&mut s, "spawn #");
                push_decimal(&mut s, *index as u64);
                push_text(&mut s, " names unknown template: ");
                push_text(&mut s, name.as_str());
            },
            MapError::Spawn(err) => {
                push_text(&mut s, "map spawn failed: ");
                let inner = err.message();
                push_text(&mut s, inner.as_str());
                proof {
                    if err is Yaml {
                        let rest = choose|rest: Seq<char>| inner@ == err.text() + rest;
                        assert(s@ =~= self.text() + rest);
                    } else {
                        assert(s@ =~= self.text());
                    }
                }
            },
        }
        proof {
            if !(self is Yaml || self is Spawn) {
                assert(s@ =~= self.text());
            }
        }
        s
    }
}

impl MapLoadError {
    /// What the error says.
    pub open spec fn text(&self) -> Seq<char> {
        match self {
            MapLoadError::Io { op, path, source } => match path {
                Some(p) => "IO error during "@ + op@ + " for '"@ + p@ + "': "@ + source@,
                None => "IO error during "@ + op@ + ": "@ + source@,
            },
            MapLoadError::Yaml { op, source } => "YAML parse error during "@ + op@ + ": "@
                + source@,
            MapLoadError::Spawn { entity_type, source } => "Map spawn failed for entity type '"@
                + entity_type@ + "': "@ + source@,
        }
    }

    /// The error's message.
    pub fn message(&self) -> (msg: String)
        ensures
            msg@ == self.text(),
    {
        let mut s = String::new();
        match self {
            MapLoadError::Io { op, path, source } => {
                push_text(&mut s, "IO error during ");
                push_text(&mut s, op.as_str());
                match path {
                    Some(p) => {
                        push_text(&mut s, " for '");
                        push_text(&mut s, p.as_str());
                        push_text(&mut s, "': ");
                    },
                    None => {
                        push_text(&mut s, ": ");
                    },
                }
                push_text(&mut s, source.as_str());
            },
            MapLoadError::Yaml { op, source } => {
                push_text(&mut s, "YAML parse error during ");
                push_text(&mut s, op.as_str());
                push_text(&mut s, ": ");
                push_text(&mut s, source.as_str());
            },
            MapLoadError::Spawn { entity_type, source } => {
                push_text(&mut s, "Map spawn failed for entity type '");
                push_text(&mut s, entity_type.as_str());
                push_text(&mut s, "': ");
                push_text(&mut s, source.as_str());
            },
        }
        proof {
            assert(s@ =~= self.text());
        }
        s
    }
}

} // verus!
