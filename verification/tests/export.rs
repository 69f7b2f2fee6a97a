use open_entities::api::Api;
use open_entities::components::{EntityType, Faction, Health, Position, Velocity};
use open_entities::export::SCHEMA_VERSION;
use open_entities::world::EntityRecord;

fn pos(x: f32, y: f32) -> Position {
    Position { x_bits: x.to_bits(), y_bits: y.to_bits() }
}

fn spawn(api: &mut Api, record: EntityRecord) {
    api.spawn(record, None);
}

#[test]
fn world_json_empty_world() {
    let api = Api::new();
    assert_eq!(SCHEMA_VERSION, 3);
    assert_eq!(api.export_rows().len(), 0);
}

#[test]
fn world_json_v3_version() {
    assert_eq!(SCHEMA_VERSION, 3);
}

#[test]
fn world_json_includes_positioned_entities() {
    let mut api = Api::new();
    spawn(&mut api, EntityRecord { position: Some(pos(1.0, 2.0)), ..EntityRecord::empty() });

    let rows = api.export_rows();
    assert_eq!(rows.len(), 1);
    let p = rows[0].components.position.expect("position");
    assert_eq!(f32::from_bits(p.x_bits), 1.0);
    assert_eq!(f32::from_bits(p.y_bits), 2.0);
    assert!(api.is_alive(rows[0].id));
}

#[test]
fn world_json_faction_only_entity() {
    let mut api = Api::new();
    spawn(&mut api, EntityRecord { faction: Some(Faction(2)), ..EntityRecord::empty() });

    let rows = api.export_rows();
    assert_eq!(rows.len(), 1);
    assert_eq!(rows[0].components.faction, Some(Faction(2)));
    assert!(rows[0].components.position.is_none());
}

#[test]
fn world_json_partial_components() {
    let mut api = Api::new();
    spawn(
        &mut api,
        EntityRecord {
            position: Some(pos(1.0, 2.0)),
            velocity: Some(Velocity { vx_bits: 0.5f32.to_bits(), vy_bits: (-0.5f32).to_bits() }),
            ..EntityRecord::empty()
        },
    );

    let rows = api.export_rows();
    assert_eq!(rows.len(), 1);
    assert_eq!(rows[0].components.position.map(|p| f32::from_bits(p.x_bits)), Some(1.0));
    assert_eq!(rows[0].components.velocity.map(|v| f32::from_bits(v.vx_bits)), Some(0.5));
    assert!(rows[0].components.faction.is_none());
    assert!(rows[0].components.move_target.is_none());
}

#[test]
fn world_json_entity_type_only_entity() {
    let mut api = Api::new();
    api.spawn(EntityRecord::empty(), Some(EntityType("marker".to_owned())));

    let rows = api.export_rows();
    assert_eq!(rows.len(), 1);
    assert_eq!(rows[0].entity_type.as_ref().map(|t| t.0.as_str()), Some("marker"));
}

#[test]
fn world_json_omits_entity_type_when_absent() {
    let mut api = Api::new();
    spawn(&mut api, EntityRecord { position: Some(pos(1.0, 2.0)), ..EntityRecord::empty() });

    let rows = api.export_rows();
    assert_eq!(rows.len(), 1);
    assert!(rows[0].entity_type.is_none());
}

#[test]
fn world_json_v3_health_only_entity() {
    let mut api = Api::new();
    spawn(&mut api, EntityRecord { health: Some(Health { current: 80, max: 100 }), ..EntityRecord::empty() });

    let rows = api.export_rows();
    assert_eq!(rows.len(), 1);
    assert_eq!(rows[0].components.health, Some(Health { current: 80, max: 100 }));
    assert!(rows[0].components.position.is_none());
}

#[test]
fn world_json_v3_optional_keys() {
    let mut api = Api::new();
    spawn(&mut api, EntityRecord { position: Some(pos(1.0, 2.0)), ..EntityRecord::empty() });

    let rows = api.export_rows();
    assert_eq!(rows.len(), 1);
    assert_eq!(rows[0].components.position.map(|p| f32::from_bits(p.x_bits)), Some(1.0));
    assert!(rows[0].components.health.is_none());
}

#[test]
fn every_entity_appears_even_a_bare_group_or_mission() {
    let mut api = Api::new();
    let group = api.create_group(1);
    let mission = api.create_mission(
        open_entities::components::MoveTarget { x_bits: 0, y_bits: 0 },
        1.0f32.to_bits(),
    );
    spawn(&mut api, EntityRecord { faction: Some(Faction(1)), ..EntityRecord::empty() });
    spawn(&mut api, EntityRecord::empty());

    let rows = api.export_rows();
    assert_eq!(rows.len(), 4);
    assert_eq!(rows[0].id, group);
    assert_eq!(rows[1].id, mission);
    assert_eq!(rows[0].components, open_entities::components::EntityComponents::default());
    assert!(rows[0].entity_type.is_none());
    assert!(rows[3].components.faction.is_none());
}

#[test]
fn rows_come_in_slot_order_with_their_ids() {
    let mut api = Api::new();
    let a = api.spawn(EntityRecord { faction: Some(Faction(1)), ..EntityRecord::empty() }, None);
    let b = api.spawn(EntityRecord { faction: Some(Faction(2)), ..EntityRecord::empty() }, None);
    api.despawn(&[a]);
    let c = api.spawn(EntityRecord { faction: Some(Faction(3)), ..EntityRecord::empty() }, None);

    let rows = api.export_rows();
    let ids: Vec<_> = rows.iter().map(|row| row.id).collect();
    assert_eq!(ids, vec![c, b], "the freed slot is reused first");
    assert_eq!(rows[0].components.faction, Some(Faction(3)));
    assert_eq!(c.index, a.index);
    assert_ne!(c.generation, a.generation);
}
