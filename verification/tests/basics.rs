use open_entities::api::{Api, MAX_DT_MS};
use open_entities::components::{
    merge_components, EntityComponents, EntityType, Faction, Position, Velocity,
};
use open_entities::errors::{
    BoardError, GroupError, ImportError, MapError, MapLoadError, MissionError, TickError,
};
use open_entities::world::EntityRecord;
use open_entities::{hello, EntityId, OrderSource};

fn spawn_marker(api: &mut Api, x: f32) -> EntityId {
    let record = EntityRecord {
        position: Some(Position { x_bits: x.to_bits(), y_bits: 0.0f32.to_bits() }),
        ..EntityRecord::empty()
    };
    api.spawn(record, Some(EntityType("marker".to_owned())))
}

fn velocity(vx: f32, vy: f32) -> Velocity {
    Velocity { vx_bits: vx.to_bits(), vy_bits: vy.to_bits() }
}

#[test]
fn hello_returns_greeting() {
    assert_eq!(hello(), "Hello, world!");
}

#[test]
fn a_personal_order_outranks_everything() {
    assert!(OrderSource::PlayerUnit.may_override(OrderSource::GroupSteering));
    assert!(OrderSource::PlayerUnit.may_override(OrderSource::MissionSteering));
    assert!(OrderSource::PlayerUnit.may_override(OrderSource::PlayerUnit));
}

#[test]
fn automation_does_not_touch_a_personal_order() {
    assert!(!OrderSource::GroupSteering.may_override(OrderSource::PlayerUnit));
    assert!(!OrderSource::MissionSteering.may_override(OrderSource::PlayerUnit));
    assert!(!OrderSource::MissionSteering.may_override(OrderSource::GroupSteering));
}

#[test]
fn a_group_order_replaces_an_older_group_order() {
    assert!(OrderSource::GroupSteering.may_override(OrderSource::GroupSteering));
}

#[test]
fn mission_steering_may_replace_mission_steering_only() {
    assert!(OrderSource::MissionSteering.may_override(OrderSource::MissionSteering));
    assert!(OrderSource::GroupSteering.may_override(OrderSource::MissionSteering));
}

#[test]
fn merge_child_wins_over_parent() {
    let parent = EntityComponents {
        faction: Some(Faction(1)),
        velocity: Some(velocity(1.0, 0.0)),
        ..Default::default()
    };
    let child = EntityComponents { faction: Some(Faction(2)), ..Default::default() };
    let merged = merge_components(&parent, &child);
    assert_eq!(merged.faction, Some(Faction(2)));
    assert_eq!(merged.velocity, Some(velocity(1.0, 0.0)));
}

#[test]
fn merge_fills_missing_from_parent() {
    let parent = EntityComponents { faction: Some(Faction(1)), ..Default::default() };
    let child = EntityComponents { velocity: Some(velocity(2.0, 0.0)), ..Default::default() };
    let merged = merge_components(&parent, &child);
    assert_eq!(merged.faction, Some(Faction(1)));
    assert_eq!(merged.velocity, Some(velocity(2.0, 0.0)));
}

#[test]
fn merging_with_nothing_changes_nothing() {
    let a = EntityComponents {
        faction: Some(Faction(4)),
        velocity: Some(velocity(1.5, -2.0)),
        ..Default::default()
    };
    assert_eq!(merge_components(&EntityComponents::default(), &a), a);
    assert_eq!(merge_components(&a, &EntityComponents::default()), a);
    assert_eq!(merge_components(&a, &a), a);
}

#[test]
fn despawn_removes_entities_and_counts_them() {
    let mut api = Api::new();
    let first = spawn_marker(&mut api, 1.0);
    let second = spawn_marker(&mut api, 2.0);

    assert_eq!(api.despawn(&[first]), 1);

    assert!(!api.is_alive(first));
    assert!(api.is_alive(second));
    assert_eq!(api.export_rows().len(), 1);
}

#[test]
fn despawn_counts_entities_not_ids() {
    let mut api = Api::new();
    let id = spawn_marker(&mut api, 1.0);
    let stale = EntityId::new(id.index, id.generation.wrapping_add(3));

    // The same id twice plus one that never resolved: one entity goes away.
    assert_eq!(api.despawn(&[id, id, stale]), 1);
    assert_eq!(api.despawn(&[id]), 0);
}

#[test]
fn a_reused_index_does_not_revive_an_old_id() {
    let mut api = Api::new();
    let old = spawn_marker(&mut api, 1.0);
    api.despawn(&[old]);

    let fresh = spawn_marker(&mut api, 2.0);

    assert!(api.is_alive(fresh));
    assert!(!api.is_alive(old), "an id must not resolve again once its entity is gone");
}

#[test]
fn a_reused_index_gets_the_next_generation() {
    let mut api = Api::new();
    let old = spawn_marker(&mut api, 1.0);
    api.despawn(&[old]);
    let fresh = spawn_marker(&mut api, 2.0);
    assert_eq!(fresh.index, old.index);
    assert_eq!(fresh.generation, old.generation + 1);
}

#[test]
fn is_alive_rejects_an_unspawned_id() {
    let api = Api::new();
    assert!(!api.is_alive(EntityId::new(7, 0)));
}

#[test]
fn the_reserved_index_never_resolves() {
    let mut api = Api::new();
    spawn_marker(&mut api, 1.0);
    assert!(!api.is_alive(EntityId::new(u32::MAX, 0)));
}

#[test]
fn entity_type_is_kept_until_despawn() {
    let mut api = Api::new();
    let id = spawn_marker(&mut api, 1.0);
    assert_eq!(api.entity_type(id).map(|t| t.0), Some("marker".to_owned()));
    api.despawn(&[id]);
    assert!(api.entity_type(id).is_none());
    assert!(api.get(id).is_none());
}

#[test]
fn tick_zero_delta_fails() {
    let mut api = Api::new();
    let err = api.begin_tick(0).unwrap_err();
    assert_eq!(err, TickError::ZeroDeltaTime);
}

#[test]
fn tick_delta_is_clamped() {
    let mut api = Api::new();
    assert_eq!(api.begin_tick(500), Ok(MAX_DT_MS));
    assert_eq!(api.begin_tick(100), Ok(100));
    assert_eq!(api.begin_tick(16), Ok(16));
}

#[test]
fn tick_error_message() {
    assert_eq!(TickError::ZeroDeltaTime.message(), "tick delta must be greater than zero");
}

#[test]
fn import_error_unknown_template_parent_display() {
    let err = ImportError::UnknownTemplateParent {
        child: "scout".to_owned(),
        parent: "ghost".to_owned(),
    };
    assert_eq!(err.message(), r#"template "ghost" not found (referenced from "scout")"#);
}

#[test]
fn import_error_template_cycle_display() {
    let err = ImportError::TemplateCycle {
        chain: vec!["scout".to_owned(), "unit".to_owned(), "scout".to_owned()],
    };
    assert_eq!(err.message(), "template inheritance cycle: scout -> unit -> scout");
}

#[test]
fn import_error_other_messages() {
    assert_eq!(
        ImportError::TemplatesNotLoaded.message(),
        "templates not loaded; call load_templates_yaml first"
    );
    assert_eq!(
        ImportError::UnknownTemplate("nope".to_owned()).message(),
        "unknown template name: nope"
    );
}

#[test]
fn map_error_messages() {
    let err = MapError::UnknownTemplate { index: 1, name: "ghost".to_owned() };
    assert_eq!(err.message(), "spawn #1 names unknown template: ghost");
    assert!(err.message().contains("ghost"));
    assert_eq!(
        MapError::Spawn(ImportError::UnknownTemplate("x".to_owned())).message(),
        "map spawn failed: unknown template name: x"
    );
}

#[test]
fn board_error_messages() {
    let id = EntityId::new(12, 3);
    assert_eq!(BoardError::UnknownUnit(id).message(), "no entity with id 12:3");
    assert_eq!(BoardError::NotBoardable(id).message(), "entity 12:3 has no seats to board");
    assert_eq!(BoardError::AlreadyAboard(id).message(), "entity 12:3 is already aboard a vehicle");
    assert_eq!(BoardError::NoSeatsLeft { seats: 4 }.message(), "all 4 seats are taken");
    assert_eq!(
        BoardError::NoPosition(id).message(),
        "entity 12:3 has no position, so it cannot board"
    );
    assert_eq!(BoardError::NotAboard(id).message(), "entity 12:3 is not aboard anything");
}

#[test]
fn group_and_mission_error_messages() {
    let id = EntityId::new(0, 10);
    assert_eq!(GroupError::UnknownGroup(id).message(), "no group with id 0:10");
    assert_eq!(GroupError::UnknownUnit(id).message(), "no entity with id 0:10");
    assert_eq!(
        GroupError::UnitHasNoFaction(id).message(),
        "entity 0:10 has no faction, so it cannot join a group"
    );
    assert_eq!(
        GroupError::FactionMismatch { unit: 2, group: 1 }.message(),
        "unit belongs to faction 2, group commands faction 1"
    );
    assert_eq!(MissionError::UnknownMission(id).message(), "no mission with id 0:10");
    assert_eq!(MissionError::UnknownGroup(id).message(), "no group with id 0:10");
    assert_eq!(MissionError::AlreadyCompleted(id).message(), "mission 0:10 is already completed");
}

#[test]
fn large_numbers_print_in_full() {
    let id = EntityId::new(4_294_967_294, 1_000_000_007);
    assert_eq!(BoardError::UnknownUnit(id).message(), "no entity with id 4294967294:1000000007");
}

#[test]
fn map_load_error_messages() {
    let io = MapLoadError::Io { op: "read".to_owned(), path: Some("map.yaml".to_owned()), source: "denied".to_owned() };
    assert_eq!(io.message(), "IO error during read for 'map.yaml': denied");
    let io = MapLoadError::Io { op: "read".to_owned(), path: None, source: "denied".to_owned() };
    assert_eq!(io.message(), "IO error during read: denied");
    let yaml = MapLoadError::Yaml { op: "parse".to_owned(), source: "bad".to_owned() };
    assert_eq!(yaml.message(), "YAML parse error during parse: bad");
    let spawn = MapLoadError::Spawn { entity_type: "scout".to_owned(), source: "unknown".to_owned() };
    assert_eq!(spawn.message(), "Map spawn failed for entity type 'scout': unknown");
}
