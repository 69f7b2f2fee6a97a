use open_entities::api::{Api, MapBounds};
use open_entities::components::{EntityComponents, Faction, Health, MoveTarget, Position, Velocity};
use open_entities::errors::{ImportError, MapError};
use open_entities::export::SCHEMA_VERSION;
use open_entities::map::{MapFile, MapSpawn};
use open_entities::templates::{resolve_all_templates, RawTemplate, TemplateParents};

fn pos(x: f32, y: f32) -> Position {
    Position { x_bits: x.to_bits(), y_bits: y.to_bits() }
}

fn vel(vx: f32, vy: f32) -> Velocity {
    Velocity { vx_bits: vx.to_bits(), vy_bits: vy.to_bits() }
}

fn raw(name: &str, template: TemplateParents, components: EntityComponents) -> RawTemplate {
    RawTemplate { name: name.to_owned(), template, components }
}

fn one(parent: &str) -> TemplateParents {
    TemplateParents::One(parent.to_owned())
}

fn many(parents: &[&str]) -> TemplateParents {
    TemplateParents::Many(parents.iter().map(|p| (*p).to_owned()).collect())
}

fn faction(f: u32) -> EntityComponents {
    EntityComponents { faction: Some(Faction(f)), ..Default::default() }
}

/// The template set every spawn test starts from, in name order:
/// `scout` is placed at the origin, moves at (2, 0) and fights for faction 1; `base` is
/// faction 2; `marker` carries nothing.
fn fixture() -> Vec<RawTemplate> {
    vec![
        raw("base", TemplateParents::Absent, faction(2)),
        raw("marker", TemplateParents::Absent, EntityComponents::default()),
        raw(
            "scout",
            TemplateParents::Absent,
            EntityComponents {
                position: Some(pos(0.0, 0.0)),
                velocity: Some(vel(2.0, 0.0)),
                faction: Some(Faction(1)),
                ..Default::default()
            },
        ),
    ]
}

fn load_fixture(api: &mut Api) {
    api.load_templates(fixture()).expect("fixture should load");
}

fn template_names(api: &Api) -> Vec<String> {
    api.templates.as_ref().map(|t| t.iter().map(|(n, _)| n.clone()).collect()).unwrap_or_default()
}

fn resolved(table: &[(String, EntityComponents)], name: &str) -> EntityComponents {
    table.iter().find(|(n, _)| n == name).map(|(_, c)| *c).expect("resolved template")
}

#[test]
fn resolve_single_parent() {
    let table = resolve_all_templates(&vec![
        raw("scout", one("unit"), EntityComponents { velocity: Some(vel(2.0, 0.0)), ..Default::default() }),
        raw("unit", TemplateParents::Absent, faction(1)),
    ])
    .expect("resolve");
    let scout = resolved(&table, "scout");
    assert_eq!(scout.faction, Some(Faction(1)));
    assert_eq!(scout.velocity, Some(vel(2.0, 0.0)));
}

#[test]
fn resolve_unknown_parent() {
    let err = resolve_all_templates(&vec![raw("scout", one("ghost"), EntityComponents::default())])
        .unwrap_err();
    assert!(matches!(
        err,
        ImportError::UnknownTemplateParent { child, parent }
        if child == "scout" && parent == "ghost"
    ));
}

#[test]
fn resolve_cycle() {
    let err = resolve_all_templates(&vec![
        raw("scout", one("unit"), EntityComponents::default()),
        raw("unit", one("scout"), EntityComponents::default()),
    ])
    .unwrap_err();
    assert!(matches!(
        err,
        ImportError::TemplateCycle { chain }
        if chain == ["scout", "unit", "scout"]
    ));
}

#[test]
fn a_template_naming_itself_is_a_cycle() {
    let err = resolve_all_templates(&vec![raw("loop", one("loop"), EntityComponents::default())])
        .unwrap_err();
    assert!(matches!(err, ImportError::TemplateCycle { chain } if chain == ["loop", "loop"]));
}

#[test]
fn parents_are_merged_left_to_right() {
    assert_eq!(one("unit").into_vec(), vec!["unit".to_owned()]);
    assert_eq!(TemplateParents::Absent.into_vec(), Vec::<String>::new());
    assert_eq!(many(&["a", "b"]).into_vec(), vec!["a".to_owned(), "b".to_owned()]);
}

#[test]
fn spawn_entity_overrides_faction() {
    let mut api = Api::new();
    load_fixture(&mut api);
    let id = api
        .spawn_entity("scout", EntityComponents { faction: Some(Faction(99)), ..Default::default() })
        .expect("spawn with faction override");
    let r = api.get(id).expect("live");
    assert_eq!(r.faction, Some(Faction(99)));
    assert_eq!(r.velocity, Some(vel(2.0, 0.0)));
}

#[test]
fn spawn_entity_overrides_position() {
    let mut api = Api::new();
    load_fixture(&mut api);
    let id = api
        .spawn_entity("scout", EntityComponents { position: Some(pos(100.0, 200.0)), ..Default::default() })
        .expect("spawn with position override");
    let r = api.get(id).expect("live");
    assert_eq!(r.position, Some(pos(100.0, 200.0)));
    assert_eq!(r.faction, Some(Faction(1)), "faction still from template");
}

#[test]
fn spawn_entity_no_overrides_matches_template() {
    let mut api = Api::new();
    load_fixture(&mut api);
    let id = api.spawn_entity("scout", EntityComponents::default()).expect("spawn scout");
    let r = api.get(id).expect("live");
    assert_eq!(r.position, Some(pos(0.0, 0.0)));
    assert_eq!(r.velocity, Some(vel(2.0, 0.0)));
    assert_eq!(r.faction, Some(Faction(1)));
}

#[test]
fn spawn_entity_without_load() {
    let mut api = Api::new();
    let err = api.spawn_entity("scout", EntityComponents::default()).unwrap_err();
    assert!(matches!(err, ImportError::TemplatesNotLoaded));
}

#[test]
fn spawn_entity_unknown_template() {
    let mut api = Api::new();
    load_fixture(&mut api);
    let err = api.spawn_entity("nope", EntityComponents::default()).unwrap_err();
    assert!(matches!(err, ImportError::UnknownTemplate(name) if name == "nope"));
}

#[test]
fn spawn_entity_scout() {
    let mut api = Api::new();
    load_fixture(&mut api);
    let id = api.spawn_entity("scout", EntityComponents::default()).expect("spawn scout");
    let r = api.get(id).expect("live");
    assert_eq!(r.position, Some(pos(0.0, 0.0)));
    assert_eq!(r.velocity, Some(vel(2.0, 0.0)));
    assert_eq!(r.faction, Some(Faction(1)));
    assert!(r.move_target.is_none());
    assert_eq!(api.entity_type(id).map(|t| t.0), Some("scout".to_owned()));
}

#[test]
fn spawn_entity_base() {
    let mut api = Api::new();
    load_fixture(&mut api);
    let id = api.spawn_entity("base", EntityComponents::default()).expect("spawn base");
    let r = api.get(id).expect("live");
    assert!(r.position.is_none());
    assert!(r.velocity.is_none());
    assert_eq!(r.faction, Some(Faction(2)));
    assert_eq!(api.entity_type(id).map(|t| t.0), Some("base".to_owned()));
}

#[test]
fn spawn_entity_marker() {
    let mut api = Api::new();
    load_fixture(&mut api);
    let id = api.spawn_entity("marker", EntityComponents::default()).expect("spawn marker");
    let r = api.get(id).expect("live");
    assert!(r.position.is_none());
    assert!(r.velocity.is_none());
    assert!(r.faction.is_none());
    assert!(r.move_target.is_none());
    assert_eq!(api.entity_type(id).map(|t| t.0), Some("marker".to_owned()));
}

#[test]
fn spawn_entity_twice_same_name() {
    let mut api = Api::new();
    load_fixture(&mut api);
    let e1 = api.spawn_entity("scout", EntityComponents::default()).expect("first scout");
    let e2 = api.spawn_entity("scout", EntityComponents::default()).expect("second scout");
    assert_ne!(e1, e2);
    assert!(api.get(e1).expect("live").position.is_some());
    assert!(api.get(e2).expect("live").position.is_some());
    assert_eq!(api.entity_type(e1).map(|t| t.0), Some("scout".to_owned()));
    assert_eq!(api.entity_type(e2).map(|t| t.0), Some("scout".to_owned()));
}

#[test]
fn spawn_entity_inserts_every_component_it_names() {
    let mut api = Api::new();
    load_fixture(&mut api);
    let id = api
        .spawn_entity(
            "marker",
            EntityComponents {
                health: Some(Health { current: 80, max: 100 }),
                move_target: Some(MoveTarget { x_bits: 3.0f32.to_bits(), y_bits: 4.0f32.to_bits() }),
                ..Default::default()
            },
        )
        .expect("spawn");
    let r = api.get(id).expect("live");
    assert_eq!(r.health, Some(Health { current: 80, max: 100 }));
    assert_eq!(r.move_target, Some(MoveTarget { x_bits: 3.0f32.to_bits(), y_bits: 4.0f32.to_bits() }));
}

#[test]
fn load_templates_yaml_replaces() {
    let mut api = Api::new();
    api.load_templates(vec![raw("a", TemplateParents::Absent, faction(1))]).expect("load A");
    api.load_templates(vec![raw("b", TemplateParents::Absent, faction(2))]).expect("load B");
    assert!(api.spawn_entity("a", EntityComponents::default()).is_err());
    let id = api.spawn_entity("b", EntityComponents::default()).expect("only B remains");
    assert_eq!(api.get(id).expect("live").faction, Some(Faction(2)));
    assert_eq!(api.entity_type(id).map(|t| t.0), Some("b".to_owned()));
}

#[test]
fn spawn_entity_exports_entity_type_in_world_json() {
    let mut api = Api::new();
    load_fixture(&mut api);
    api.spawn_entity("scout", EntityComponents::default()).expect("spawn scout");
    api.spawn_entity("marker", EntityComponents::default()).expect("spawn marker");

    let rows = api.export_rows();
    assert_eq!(SCHEMA_VERSION, 3);
    assert_eq!(rows.len(), 2);
    let scout = rows
        .iter()
        .find(|row| row.entity_type.as_ref().map(|t| t.0.as_str()) == Some("scout"))
        .expect("scout row");
    assert_eq!(scout.components.position, Some(pos(0.0, 0.0)));
    assert_eq!(scout.components.faction, Some(Faction(1)));
    let marker = rows
        .iter()
        .find(|row| row.entity_type.as_ref().map(|t| t.0.as_str()) == Some("marker"))
        .expect("marker row");
    assert!(marker.components.position.is_none());
    assert!(marker.components.faction.is_none());
}

fn load_and_spawn(templates: Vec<RawTemplate>, name: &str) -> EntityComponents {
    let mut api = Api::new();
    api.load_templates(templates).expect("load");
    let id = api.spawn_entity(name, EntityComponents::default()).expect("spawn");
    api.get(id).expect("live").registered()
}

#[test]
fn inherit_single_level() {
    let c = load_and_spawn(
        vec![
            raw("scout", one("unit"), EntityComponents { velocity: Some(vel(2.0, 0.0)), ..Default::default() }),
            raw("unit", TemplateParents::Absent, faction(1)),
        ],
        "scout",
    );
    assert_eq!(c.faction, Some(Faction(1)));
    assert_eq!(c.velocity, Some(vel(2.0, 0.0)));
}

#[test]
fn inherit_chain() {
    let c = load_and_spawn(
        vec![
            raw("a", TemplateParents::Absent, faction(1)),
            raw("b", one("a"), EntityComponents { velocity: Some(vel(1.0, 0.0)), ..Default::default() }),
            raw("c", one("b"), EntityComponents { position: Some(pos(0.0, 0.0)), ..Default::default() }),
        ],
        "c",
    );
    assert_eq!(c.faction, Some(Faction(1)));
    assert_eq!(c.velocity.map(|v| f32::from_bits(v.vx_bits)), Some(1.0));
    assert_eq!(c.position, Some(pos(0.0, 0.0)));
}

#[test]
fn inherit_override_component() {
    let c = load_and_spawn(
        vec![
            raw("scout", one("unit"), EntityComponents { position: Some(pos(9.0, 9.0)), ..Default::default() }),
            raw("unit", TemplateParents::Absent, EntityComponents { position: Some(pos(1.0, 1.0)), ..Default::default() }),
        ],
        "scout",
    );
    assert_eq!(c.position, Some(pos(9.0, 9.0)));
}

#[test]
fn inherit_child_only_template() {
    let templates = vec![
        raw("clone", one("unit"), EntityComponents::default()),
        raw(
            "unit",
            TemplateParents::Absent,
            EntityComponents { faction: Some(Faction(1)), velocity: Some(vel(0.5, 0.0)), ..Default::default() },
        ),
    ];
    let mut api = Api::new();
    api.load_templates(templates).expect("load");
    let unit = api.spawn_entity("unit", EntityComponents::default()).expect("spawn unit");
    let clone = api.spawn_entity("clone", EntityComponents::default()).expect("spawn clone");
    assert_eq!(api.get(unit).expect("live").faction, Some(Faction(1)));
    assert_eq!(api.get(clone).expect("live").faction, Some(Faction(1)));
    assert!(api.get(clone).expect("live").velocity.is_some());
}

#[test]
fn inherit_multiple_templates() {
    let c = load_and_spawn(
        vec![
            raw("heavy_tank", many(&["unit", "tank"]), faction(3)),
            raw("tank", one("unit"), EntityComponents { velocity: Some(vel(0.5, 0.0)), ..Default::default() }),
            raw("unit", TemplateParents::Absent, faction(1)),
        ],
        "heavy_tank",
    );
    assert_eq!(c.faction, Some(Faction(3)));
    assert_eq!(c.velocity, Some(vel(0.5, 0.0)), "velocity from tank");
}

#[test]
fn inherit_multiple_string_equivalent() {
    let with_one = load_and_spawn(
        vec![
            raw("scout", one("unit"), EntityComponents { velocity: Some(vel(2.0, 0.0)), ..Default::default() }),
            raw("unit", TemplateParents::Absent, faction(1)),
        ],
        "scout",
    );
    let with_many = load_and_spawn(
        vec![
            raw("scout", many(&["unit"]), EntityComponents { velocity: Some(vel(2.0, 0.0)), ..Default::default() }),
            raw("unit", TemplateParents::Absent, faction(1)),
        ],
        "scout",
    );
    assert_eq!(with_one.faction, with_many.faction);
    assert_eq!(with_one.velocity, with_many.velocity);
}

#[test]
fn inherit_multiple_then_child_override() {
    let c = load_and_spawn(
        vec![
            raw("hybrid", many(&["unit", "tank"]), faction(9)),
            raw("tank", one("unit"), faction(2)),
            raw("unit", TemplateParents::Absent, faction(1)),
        ],
        "hybrid",
    );
    assert_eq!(c.faction, Some(Faction(9)));
}

#[test]
fn later_parents_win_over_earlier_ones() {
    let c = load_and_spawn(
        vec![
            raw("a", TemplateParents::Absent, faction(1)),
            raw("b", TemplateParents::Absent, faction(2)),
            raw("c", many(&["a", "b"]), EntityComponents::default()),
        ],
        "c",
    );
    assert_eq!(c.faction, Some(Faction(2)));
}

#[test]
fn inherit_empty_template_list() {
    let with_list = load_and_spawn(
        vec![raw("bare", many(&[]), EntityComponents::default()), raw("unit", TemplateParents::Absent, faction(1))],
        "bare",
    );
    let without = load_and_spawn(
        vec![
            raw("bare", TemplateParents::Absent, EntityComponents::default()),
            raw("unit", TemplateParents::Absent, faction(1)),
        ],
        "bare",
    );
    assert!(with_list.faction.is_none());
    assert!(without.faction.is_none());
}

#[test]
fn load_unknown_template_parent() {
    let mut api = Api::new();
    let err = api.load_templates(vec![raw("scout", one("ghost"), EntityComponents::default())]).unwrap_err();
    assert!(matches!(
        err,
        ImportError::UnknownTemplateParent { child, parent }
        if child == "scout" && parent == "ghost"
    ));
    assert!(api.templates.is_none());
}

#[test]
fn load_template_cycle() {
    let mut api = Api::new();
    let err = api
        .load_templates(vec![
            raw("scout", one("unit"), EntityComponents::default()),
            raw("unit", one("scout"), EntityComponents::default()),
        ])
        .unwrap_err();
    assert!(matches!(
        err,
        ImportError::TemplateCycle { chain }
        if chain == ["scout", "unit", "scout"]
    ));
    assert!(api.templates.is_none());
}

#[test]
fn load_failed_resolve_keeps_previous() {
    let mut api = Api::new();
    api.load_templates(vec![raw("a", TemplateParents::Absent, faction(1))]).expect("first load");
    let err = api.load_templates(vec![raw("bad", one("missing"), EntityComponents::default())]).unwrap_err();
    assert!(matches!(err, ImportError::UnknownTemplateParent { .. }));
    let names = template_names(&api);
    assert!(names.contains(&"a".to_owned()));
    assert!(!names.contains(&"bad".to_owned()));
}

#[test]
fn spawn_base_template() {
    let mut api = Api::new();
    api.load_templates(vec![
        raw("scout", one("unit"), EntityComponents { velocity: Some(vel(2.0, 0.0)), ..Default::default() }),
        raw("unit", TemplateParents::Absent, faction(1)),
    ])
    .expect("load");
    let id = api.spawn_entity("unit", EntityComponents::default()).expect("spawn base");
    assert_eq!(api.get(id).expect("live").faction, Some(Faction(1)));
    assert_eq!(api.entity_type(id).map(|t| t.0), Some("unit".to_owned()));
}

fn entry(template: &str, overrides: EntityComponents) -> MapSpawn {
    MapSpawn { template: template.to_owned(), overrides }
}

fn bounds(width: f32, height: f32) -> MapBounds {
    MapBounds { width_bits: width.to_bits(), height_bits: height.to_bits() }
}

fn named_count(api: &Api) -> usize {
    api.export_rows().iter().filter(|row| row.entity_type.is_some()).count()
}

#[test]
fn map_spawns_entities_with_overrides() {
    let mut api = Api::new();
    load_fixture(&mut api);

    let spawned = api
        .load_map(MapFile {
            map: Some(bounds(200.0, 120.0)),
            spawns: vec![
                entry(
                    "marker",
                    EntityComponents { position: Some(pos(20.0, 20.0)), faction: Some(Faction(1)), ..Default::default() },
                ),
                entry("scout", EntityComponents { position: Some(pos(30.0, 20.0)), ..Default::default() }),
            ],
        })
        .expect("load map");

    assert_eq!(spawned.len(), 2);
    assert_eq!(api.map_bounds(), Some(bounds(200.0, 120.0)));

    let marker = api.get(spawned[0]).expect("live");
    assert_eq!(marker.position, Some(pos(20.0, 20.0)));
    assert_eq!(marker.faction, Some(Faction(1)));

    let scout = api.get(spawned[1]).expect("live");
    assert_eq!(scout.position.map(|p| f32::from_bits(p.x_bits)), Some(30.0));
    // Not overridden, so the template's own faction survives.
    assert_eq!(scout.faction, Some(Faction(1)));
}

#[test]
fn loader_does_not_invent_velocity() {
    let mut api = Api::new();
    load_fixture(&mut api);
    let spawned = api
        .load_map(MapFile {
            map: None,
            spawns: vec![entry("marker", EntityComponents { position: Some(pos(1.0, 1.0)), ..Default::default() })],
        })
        .expect("load map");
    assert!(api.get(spawned[0]).expect("live").velocity.is_none());
}

#[test]
fn unknown_template_spawns_nothing() {
    let mut api = Api::new();
    load_fixture(&mut api);
    let err = api
        .load_map(MapFile {
            map: Some(bounds(10.0, 10.0)),
            spawns: vec![
                entry("marker", EntityComponents { position: Some(pos(1.0, 1.0)), ..Default::default() }),
                entry("ghost", EntityComponents { position: Some(pos(2.0, 2.0)), ..Default::default() }),
            ],
        })
        .expect_err("unknown template");
    match err {
        MapError::UnknownTemplate { index, ref name } => {
            assert_eq!(index, 1);
            assert_eq!(name, "ghost");
        },
        other => panic!("expected UnknownTemplate, got {other:?}"),
    }
    assert!(err.message().contains("ghost"));
    assert_eq!(named_count(&api), 0, "map must not half-populate");
    assert_eq!(api.map_bounds(), None, "bounds are not taken from a failed map");
}

#[test]
fn templates_must_be_loaded_first() {
    let mut api = Api::new();
    let err = api.load_map(MapFile { map: None, spawns: Vec::new() }).expect_err("no templates loaded");
    assert!(matches!(err, MapError::TemplatesNotLoaded));
}

#[test]
fn bounds_are_optional() {
    let mut api = Api::new();
    load_fixture(&mut api);
    let spawned = api
        .load_map(MapFile { map: None, spawns: vec![entry("marker", EntityComponents::default())] })
        .expect("load map without bounds");
    assert_eq!(spawned.len(), 1);
    assert_eq!(api.map_bounds(), None);
}

#[test]
fn the_first_missing_parent_in_order_is_reported() {
    let err = resolve_all_templates(&vec![raw("scout", many(&["ghost", "phantom"]), EntityComponents::default())])
        .unwrap_err();
    assert!(matches!(
        err,
        ImportError::UnknownTemplateParent { child, parent }
        if child == "scout" && parent == "ghost"
    ));
}

#[test]
fn the_first_failing_template_in_order_is_reported() {
    let err = resolve_all_templates(&vec![
        raw("a", TemplateParents::Absent, EntityComponents::default()),
        raw("b", one("ghost"), EntityComponents::default()),
        raw("c", one("phantom"), EntityComponents::default()),
    ])
    .unwrap_err();
    assert!(matches!(
        err,
        ImportError::UnknownTemplateParent { child, parent }
        if child == "b" && parent == "ghost"
    ));
}

#[test]
fn a_cycle_below_a_template_is_reported_from_that_template() {
    let err = resolve_all_templates(&vec![
        raw("top", one("x"), EntityComponents::default()),
        raw("x", one("y"), EntityComponents::default()),
        raw("y", one("x"), EntityComponents::default()),
    ])
    .unwrap_err();
    assert!(matches!(err, ImportError::TemplateCycle { chain } if chain == ["top", "x", "y", "x"]));
}
