use open_entities::api::Api;
use open_entities::components::{
    BaseMoveSpeed, EntityComponents, EntityType, Faction, Health, MoveTarget, Position, Velocity,
};
use open_entities::world::EntityRecord;

/// Spawns one entity with exactly these registered components and reads every stored bundle
/// back.
fn round_trip(components: EntityComponents) -> Vec<EntityComponents> {
    let mut api = Api::new();
    api.spawn(EntityRecord::from_components(&components), None);
    api.export_rows().into_iter().map(|row| row.components).collect()
}

#[test]
fn position_component_round_trip() {
    let stored = round_trip(EntityComponents {
        position: Some(Position { x_bits: 1.0f32.to_bits(), y_bits: 2.0f32.to_bits() }),
        ..Default::default()
    });
    assert_eq!(stored.len(), 1);
    let p = stored[0].position.expect("position");
    assert_eq!(f32::from_bits(p.x_bits), 1.0);
    assert_eq!(f32::from_bits(p.y_bits), 2.0);
}

#[test]
fn velocity_component_round_trip() {
    let stored = round_trip(EntityComponents {
        velocity: Some(Velocity { vx_bits: 3.0f32.to_bits(), vy_bits: (-1.5f32).to_bits() }),
        ..Default::default()
    });
    assert_eq!(stored.len(), 1);
    let v = stored[0].velocity.expect("velocity");
    assert_eq!(f32::from_bits(v.vx_bits), 3.0);
    assert_eq!(f32::from_bits(v.vy_bits), -1.5);
}

#[test]
fn move_target_component_round_trip() {
    let stored = round_trip(EntityComponents {
        move_target: Some(MoveTarget { x_bits: 10.0f32.to_bits(), y_bits: 20.0f32.to_bits() }),
        ..Default::default()
    });
    assert_eq!(stored.len(), 1);
    let t = stored[0].move_target.expect("move target");
    assert_eq!(f32::from_bits(t.x_bits), 10.0);
    assert_eq!(f32::from_bits(t.y_bits), 20.0);
}

#[test]
fn base_move_speed_component_round_trip() {
    let stored = round_trip(EntityComponents {
        base_move_speed: Some(BaseMoveSpeed(5.5f32.to_bits())),
        ..Default::default()
    });
    assert_eq!(stored.len(), 1);
    assert_eq!(stored[0].base_move_speed.map(|s| f32::from_bits(s.0)), Some(5.5));
}

#[test]
fn faction_component_round_trip() {
    let stored = round_trip(EntityComponents { faction: Some(Faction(7)), ..Default::default() });
    assert_eq!(stored.len(), 1);
    assert_eq!(stored[0].faction, Some(Faction(7)));
}

#[test]
fn health_component_round_trip() {
    let stored = round_trip(EntityComponents {
        health: Some(Health { current: 80, max: 100 }),
        ..Default::default()
    });
    assert_eq!(stored.len(), 1);
    let h = stored[0].health.expect("health");
    assert_eq!(h.current, 80);
    assert_eq!(h.max, 100);
}

#[test]
fn entity_type_component_round_trip() {
    let mut api = Api::new();
    api.spawn(EntityRecord::empty(), Some(EntityType("scout".to_owned())));
    let rows = api.export_rows();
    assert_eq!(rows.len(), 1);
    assert_eq!(rows[0].entity_type.as_ref().map(|t| t.0.as_str()), Some("scout"));
}

#[test]
fn a_record_keeps_exactly_the_components_it_was_given() {
    let components = EntityComponents {
        position: Some(Position { x_bits: 1, y_bits: 2 }),
        health: Some(Health { current: 1, max: 2 }),
        ..Default::default()
    };
    let record = EntityRecord::from_components(&components);
    assert_eq!(record.registered(), components);
    assert!(record.member_of.is_none());
    assert!(!record.manual_active);
}
