//! Multi-tick scenarios. The floating-point half of each step (distances, headings, slot grids,
//! integration) is done here the way a host does it; every structural decision is the library's.

use open_entities::api::Api;
use open_entities::components::{BaseMoveSpeed, Boardable, Faction, MoveTarget, Position, Velocity};
use open_entities::errors::{BoardError, GroupError, MissionError, TickError};
use open_entities::world::EntityRecord;
use open_entities::{EntityId, OrderReport, OrderSource};

const MOVE_GROUP_GRID_SPACING: f32 = 5.0;
const ARRIVAL_THRESHOLD: f32 = 0.1;
const BOARDING_RANGE: f32 = 3.0;
const UNBOARD_OFFSET: f32 = 1.5;

fn f(bits: u32) -> f32 {
    f32::from_bits(bits)
}

fn target(x: f32, y: f32) -> MoveTarget {
    MoveTarget { x_bits: x.to_bits(), y_bits: y.to_bits() }
}

fn group_slot(t: MoveTarget, index: usize, count: usize) -> MoveTarget {
    if count <= 1 {
        return t;
    }
    let cols = ((count as f32).sqrt().ceil() as usize).max(1);
    let rows = count.div_ceil(cols);
    let row = index / cols;
    let col = index % cols;
    let offset_x = (col as f32 - (cols.saturating_sub(1) as f32) / 2.0) * MOVE_GROUP_GRID_SPACING;
    let offset_y = (row as f32 - (rows.saturating_sub(1) as f32) / 2.0) * MOVE_GROUP_GRID_SPACING;
    target(f(t.x_bits) + offset_x, f(t.y_bits) + offset_y)
}

fn slots(t: MoveTarget, count: usize) -> Vec<MoveTarget> {
    (0..count).map(|k| group_slot(t, k, count)).collect()
}

fn order_move_to(api: &mut Api, ids: &[EntityId], t: MoveTarget) -> OrderReport {
    let n = api.movable_for_move_order(ids).len();
    api.order_move_to(ids, &slots(t, n))
}

fn order_group_move_to(api: &mut Api, group: EntityId, t: MoveTarget) -> Result<OrderReport, GroupError> {
    let n = api.group_movable(group).len();
    api.order_group_move_to(group, &slots(t, n))
}

fn unboard(api: &mut Api, unit: EntityId) -> Result<(), BoardError> {
    let beside = api
        .vehicle_of(unit)
        .and_then(|v| api.get(v))
        .and_then(|r| r.position)
        .map(|p| Position { x_bits: (f(p.x_bits) + UNBOARD_OFFSET).to_bits(), y_bits: p.y_bits });
    api.unboard(unit, beside)
}

fn create_mission(api: &mut Api, t: MoveTarget, radius: f32) -> EntityId {
    api.create_mission(t, radius.max(0.0).to_bits())
}

fn seek(api: &mut Api, dt: f32) {
    for id in api.seekers() {
        let r = api.get(id).expect("seeker is alive");
        let (p, t, speed) = (r.position.unwrap(), r.move_target.unwrap(), r.base_move_speed.unwrap());
        let dx = f(t.x_bits) - f(p.x_bits);
        let dy = f(t.y_bits) - f(p.y_bits);
        let dist = dx.hypot(dy);
        let speed = f(speed.0).max(0.0);
        let step = speed * dt;
        if dist <= ARRIVAL_THRESHOLD || step >= dist {
            api.arrive(id);
        } else {
            let inv = speed / dist;
            api.set_seek_velocity(id, Velocity { vx_bits: (dx * inv).to_bits(), vy_bits: (dy * inv).to_bits() });
        }
    }
}

fn movement(api: &mut Api, dt: f32) {
    for id in api.movers() {
        let r = api.get(id).expect("mover is alive");
        let (p, v) = (r.position.unwrap(), r.velocity.unwrap());
        let x = f(p.x_bits) + f(v.vx_bits) * dt;
        let y = f(p.y_bits) + f(v.vy_bits) * dt;
        api.set_position(id, Position { x_bits: x.to_bits(), y_bits: y.to_bits() });
    }
}

fn distance(a: Position, x: u32, y: u32) -> f32 {
    (f(x) - f(a.x_bits)).hypot(f(y) - f(a.y_bits))
}

fn tick(api: &mut Api, dt_ms: u32) -> Result<(), TickError> {
    let dt_ms = api.begin_tick(dt_ms)?;
    let dt = dt_ms as f32 / 1000.0;

    for unit in api.boarding_orders() {
        let in_range = api.get(unit).is_some_and(|r| {
            let vehicle = r.boarding_target.and_then(|v| api.get(v)).and_then(|v| v.position);
            match (r.position, vehicle) {
                (Some(a), Some(b)) => distance(a, b.x_bits, b.y_bits) <= BOARDING_RANGE,
                _ => false,
            }
        });
        api.boarding_step(unit, in_range);
    }

    for order in api.mission_steering_plan() {
        let targets = slots(order.target, order.members.len());
        api.steer_mission_group(order.group, &targets);
    }

    seek(api, dt);
    movement(api, dt);
    api.sync_passengers();

    for mission in api.open_missions() {
        let m = api.get(mission).and_then(|r| r.mission).expect("open mission");
        let radius = f(m.radius_bits);
        let arrived = api
            .mission_roster(mission)
            .into_iter()
            .any(|(_, p)| distance(p, m.target.x_bits, m.target.y_bits) <= radius);
        if arrived {
            api.complete_mission(mission);
        }
    }

    for group in api.groups_needing_mission() {
        let (mut sx, mut sy, mut count) = (0.0f32, 0.0f32, 0u32);
        for unit in api.group_members(group) {
            if let Some(p) = api.get(unit).and_then(|r| r.position) {
                sx += f(p.x_bits);
                sy += f(p.y_bits);
                count += 1;
            }
        }
        if count == 0 {
            continue;
        }
        let (cx, cy) = (sx / count as f32, sy / count as f32);
        let pick = api
            .open_missions()
            .into_iter()
            .filter_map(|m| api.get(m).and_then(|r| r.mission).map(|mm| (m, mm.target)))
            .map(|(m, t)| (m, (f(t.x_bits) - cx).hypot(f(t.y_bits) - cy)))
            .min_by(|(lm, l), (rm, r)| l.total_cmp(r).then_with(|| lm.index.cmp(&rm.index)));
        if let Some((mission, _)) = pick {
            let _ = api.assign_group(mission, group);
        }
    }
    Ok(())
}

fn position_of(api: &Api, id: EntityId) -> (f32, f32) {
    let p = api.get(id).and_then(|r| r.position).expect("position");
    (f(p.x_bits), f(p.y_bits))
}

fn move_target_of(api: &Api, id: EntityId) -> Option<(f32, f32)> {
    api.get(id).and_then(|r| r.move_target).map(|t| (f(t.x_bits), f(t.y_bits)))
}

fn velocity_of(api: &Api, id: EntityId) -> (f32, f32) {
    let v = api.get(id).and_then(|r| r.velocity).expect("velocity");
    (f(v.vx_bits), f(v.vy_bits))
}

fn source_of(api: &Api, id: EntityId) -> Option<OrderSource> {
    api.get(id).and_then(|r| r.order_source)
}

fn spawn(api: &mut Api, record: EntityRecord) -> EntityId {
    api.spawn(record, None)
}

fn place(x: f32, y: f32) -> Option<Position> {
    Some(Position { x_bits: x.to_bits(), y_bits: y.to_bits() })
}

fn moving(vx: f32, vy: f32) -> Option<Velocity> {
    Some(Velocity { vx_bits: vx.to_bits(), vy_bits: vy.to_bits() })
}

fn speed(s: f32) -> Option<BaseMoveSpeed> {
    Some(BaseMoveSpeed(s.to_bits()))
}

fn spawn_mover(api: &mut Api, x: f32, y: f32) -> EntityId {
    spawn(
        api,
        EntityRecord { position: place(x, y), base_move_speed: speed(10.0), velocity: moving(0.0, 0.0), ..EntityRecord::empty() },
    )
}

fn spawn_unit(api: &mut Api, x: f32) -> EntityId {
    spawn_mover(api, x, 0.0)
}

fn spawn_vehicle(api: &mut Api, x: f32, seats: u8) -> EntityId {
    spawn(
        api,
        EntityRecord {
            position: place(x, 0.0),
            base_move_speed: speed(30.0),
            velocity: moving(0.0, 0.0),
            boardable: Some(Boardable(seats)),
            ..EntityRecord::empty()
        },
    )
}

fn spawn_soldier(api: &mut Api, faction: u32, x: f32, y: f32, s: f32) -> EntityId {
    spawn(
        api,
        EntityRecord {
            position: place(x, y),
            base_move_speed: speed(s),
            velocity: moving(0.0, 0.0),
            faction: Some(Faction(faction)),
            ..EntityRecord::empty()
        },
    )
}

// ---- orders ----

#[test]
fn single_unit_targets_the_exact_point() {
    let mut api = Api::new();
    let id = spawn_mover(&mut api, 0.0, 0.0);
    let report = order_move_to(&mut api, &[id], target(7.0, -3.0));
    assert_eq!(report.ordered, 1);
    assert_eq!(report.skipped, 0);
    assert_eq!(move_target_of(&api, id), Some((7.0, -3.0)));
}

#[test]
fn group_members_get_distinct_slots_around_the_point() {
    let mut api = Api::new();
    let ids: Vec<EntityId> = (0..4_u8).map(|i| spawn_mover(&mut api, f32::from(i), 0.0)).collect();
    let report = order_move_to(&mut api, &ids, target(50.0, 50.0));
    assert_eq!(report.ordered, 4);
    let targets: Vec<(f32, f32)> = ids.iter().map(|id| move_target_of(&api, *id).expect("move target")).collect();
    for (i, a) in targets.iter().enumerate() {
        for b in targets.iter().skip(i + 1) {
            assert!(a != b, "group members share a destination: {a:?}");
        }
        assert!((a.0 - 50.0).abs() <= MOVE_GROUP_GRID_SPACING);
        assert!((a.1 - 50.0).abs() <= MOVE_GROUP_GRID_SPACING);
    }
}

#[test]
fn immobile_and_unknown_ids_are_skipped() {
    let mut api = Api::new();
    let statue = spawn(&mut api, EntityRecord { position: place(1.0, 1.0), ..EntityRecord::empty() });
    let stale = EntityId::new(statue.index, statue.generation.wrapping_add(7));
    let mover = spawn_mover(&mut api, 0.0, 0.0);
    let report = order_move_to(&mut api, &[statue, stale, mover], target(5.0, 5.0));
    assert_eq!(report.ordered, 1);
    assert_eq!(report.skipped, 2);
    assert!(move_target_of(&api, statue).is_none());
    assert!(move_target_of(&api, mover).is_some());
}

#[test]
fn repeated_ids_count_once() {
    let mut api = Api::new();
    let id = spawn_mover(&mut api, 0.0, 0.0);
    let report = order_move_to(&mut api, &[id, id, id], target(2.0, 2.0));
    assert_eq!(report.ordered, 1);
    assert_eq!(report.skipped, 2);
    assert_eq!(move_target_of(&api, id), Some((2.0, 2.0)));
}

#[test]
fn movable_entity_without_velocity_gets_a_zero_one() {
    let mut api = Api::new();
    let id = spawn(&mut api, EntityRecord { position: place(0.0, 0.0), base_move_speed: speed(4.0), ..EntityRecord::empty() });
    let report = order_move_to(&mut api, &[id], target(9.0, 0.0));
    assert_eq!(report.ordered, 1);
    assert_eq!(velocity_of(&api, id), (0.0, 0.0));
}

#[test]
fn stop_zeroes_velocity_and_drops_the_target() {
    let mut api = Api::new();
    let id = spawn_mover(&mut api, 0.0, 0.0);
    order_move_to(&mut api, &[id], target(30.0, 0.0));
    tick(&mut api, 16).expect("tick");
    let report = api.order_stop(&[id]);
    assert_eq!(report.ordered, 1);
    assert_eq!(velocity_of(&api, id), (0.0, 0.0));
    assert!(move_target_of(&api, id).is_none());
}

#[test]
fn stop_catches_a_drifting_entity_without_base_move_speed() {
    let mut api = Api::new();
    // No base move speed: a move order cannot reach it, and nothing else would ever stop it.
    let id = spawn(&mut api, EntityRecord { position: place(0.0, 0.0), velocity: moving(0.5, 0.0), ..EntityRecord::empty() });
    tick(&mut api, 100).expect("tick");
    let drifted = position_of(&api, id).0;
    assert!(drifted > 0.0, "entity should have drifted");
    assert_eq!(order_move_to(&mut api, &[id], target(0.0, 0.0)).ordered, 0);
    assert_eq!(api.order_stop(&[id]).ordered, 1);
    tick(&mut api, 100).expect("tick");
    let after = position_of(&api, id).0;
    assert!((after - drifted).abs() < 1e-6, "entity should stay put after stop");
}

#[test]
fn stop_skips_entities_without_velocity() {
    let mut api = Api::new();
    let statue = spawn(&mut api, EntityRecord { position: place(1.0, 1.0), ..EntityRecord::empty() });
    let report = api.order_stop(&[statue]);
    assert_eq!(report.ordered, 0);
    assert_eq!(report.skipped, 1);
}

#[test]
fn ordered_unit_reaches_its_destination() {
    let mut api = Api::new();
    let id = spawn_mover(&mut api, 0.0, 0.0);
    order_move_to(&mut api, &[id], target(12.0, 0.0));
    for _ in 0..200 {
        tick(&mut api, 100).expect("tick");
        if move_target_of(&api, id).is_none() {
            break;
        }
    }
    let (x, y) = position_of(&api, id);
    assert!((x - 12.0).abs() < 1e-4);
    assert!((y - 0.0).abs() < 1e-4);
}

#[test]
fn a_stopped_unit_is_free_for_automation_again() {
    let mut api = Api::new();
    let id = spawn_mover(&mut api, 0.0, 0.0);
    order_move_to(&mut api, &[id], target(30.0, 0.0));
    assert_eq!(source_of(&api, id), Some(OrderSource::PlayerUnit));
    api.order_stop(&[id]);
    assert_eq!(source_of(&api, id), None);
}

// ---- tick ----

#[test]
fn tick_zero_delta_fails_before_anything_moves() {
    let mut api = Api::new();
    let id = spawn(&mut api, EntityRecord { position: place(0.0, 0.0), velocity: moving(1.0, 0.0), ..EntityRecord::empty() });
    assert_eq!(tick(&mut api, 0), Err(TickError::ZeroDeltaTime));
    assert_eq!(position_of(&api, id), (0.0, 0.0));
}

#[test]
fn tick_clamps_large_dt() {
    let mut api = Api::new();
    let e1 = spawn(&mut api, EntityRecord { position: place(0.0, 0.0), velocity: moving(1.0, 0.0), ..EntityRecord::empty() });
    tick(&mut api, 500).expect("tick with clamp");
    let after_500 = position_of(&api, e1).0;

    let mut api2 = Api::new();
    let e2 = spawn(&mut api2, EntityRecord { position: place(0.0, 0.0), velocity: moving(1.0, 0.0), ..EntityRecord::empty() });
    tick(&mut api2, 100).expect("tick at cap");
    let after_100 = position_of(&api2, e2).0;

    assert!((after_500 - after_100).abs() < 1e-5);
}

#[test]
fn movement_skips_arrived_same_frame() {
    let mut api = Api::new();
    let id = spawn(
        &mut api,
        EntityRecord {
            position: place(19.95, 0.0),
            move_target: Some(target(20.0, 0.0)),
            base_move_speed: speed(2.0),
            velocity: moving(100.0, 0.0),
            ..EntityRecord::empty()
        },
    );
    tick(&mut api, 16).expect("tick");
    let (x, y) = position_of(&api, id);
    assert!((x - 20.0).abs() < 1e-4);
    assert!((y - 0.0).abs() < 1e-4);
    assert!(move_target_of(&api, id).is_none());
}

#[test]
fn movement_integrates_velocity() {
    let mut api = Api::new();
    let id = spawn(&mut api, EntityRecord { position: place(0.0, 0.0), velocity: moving(10.0, 0.0), ..EntityRecord::empty() });
    api.begin_tick(100).expect("delta");
    movement(&mut api, 0.1);
    let (x, y) = position_of(&api, id);
    assert!((x - 1.0).abs() < 1e-5);
    assert!((y - 0.0).abs() < 1e-5);
}

fn seeker(api: &mut Api, from: (f32, f32), to: (f32, f32), s: f32, v: (f32, f32)) -> EntityId {
    spawn(
        api,
        EntityRecord {
            position: place(from.0, from.1),
            move_target: Some(target(to.0, to.1)),
            base_move_speed: speed(s),
            velocity: moving(v.0, v.1),
            ..EntityRecord::empty()
        },
    )
}

fn run_seek(api: &mut Api, dt_ms: u32) {
    let dt_ms = api.begin_tick(dt_ms).expect("delta");
    seek(api, dt_ms as f32 / 1000.0);
}

#[test]
fn seek_sets_velocity_toward_target() {
    let mut api = Api::new();
    let id = seeker(&mut api, (0.0, 0.0), (3.0, 4.0), 10.0, (0.0, 0.0));
    run_seek(&mut api, 16);
    let (vx, vy) = velocity_of(&api, id);
    assert!((vx - 6.0).abs() < 1e-5);
    assert!((vy - 8.0).abs() < 1e-5);
}

#[test]
fn seek_arrival_snaps_and_removes_target() {
    let mut api = Api::new();
    let id = seeker(&mut api, (19.95, 0.0), (20.0, 0.0), 2.0, (1.0, 0.0));
    run_seek(&mut api, 16);
    assert_eq!(position_of(&api, id), (20.0, 0.0));
    assert_eq!(velocity_of(&api, id), (0.0, 0.0));
    assert!(move_target_of(&api, id).is_none());
}

#[test]
fn seek_arrives_when_step_would_overshoot() {
    let mut api = Api::new();
    let id = seeker(&mut api, (0.0, 0.0), (1.0, 0.0), 45.0, (0.0, 0.0));
    // step = 45 * 0.1 = 4.5 world units, far past the target 1.0 away.
    run_seek(&mut api, 100);
    assert_eq!(position_of(&api, id), (1.0, 0.0));
    assert_eq!(velocity_of(&api, id), (0.0, 0.0));
    assert!(move_target_of(&api, id).is_none());
    assert!(api.arrived.contains(&id));
}

#[test]
fn seek_keeps_full_speed_while_step_is_short_of_target() {
    let mut api = Api::new();
    let id = seeker(&mut api, (0.0, 0.0), (20.0, 0.0), 45.0, (0.0, 0.0));
    run_seek(&mut api, 100);
    let (vx, vy) = velocity_of(&api, id);
    assert!((vx - 45.0).abs() < 1e-5);
    assert!((vy - 0.0).abs() < 1e-5);
}

#[test]
fn arrival_releases_the_claim() {
    let mut api = Api::new();
    let id = seeker(&mut api, (0.0, 0.0), (0.05, 0.0), 1.0, (0.0, 0.0));
    order_move_to(&mut api, &[id], target(0.05, 0.0));
    assert_eq!(source_of(&api, id), Some(OrderSource::PlayerUnit));
    tick(&mut api, 16).expect("tick");
    assert_eq!(source_of(&api, id), None);
}

// ---- boarding ----

#[test]
fn a_passenger_rides_along() {
    let mut api = Api::new();
    let truck = spawn_vehicle(&mut api, 0.0, 2);
    let rider = spawn_unit(&mut api, 1.0);
    api.board(rider, truck).expect("board");
    order_move_to(&mut api, &[truck], target(40.0, 0.0));
    for _ in 0..50 {
        tick(&mut api, 100).expect("tick");
    }
    let truck_position = position_of(&api, truck);
    let rider_position = position_of(&api, rider);
    assert!((truck_position.0 - 40.0).abs() < 1e-3, "the truck arrives");
    assert_eq!(rider_position.0, truck_position.0, "and carries the rider");
    assert_eq!(rider_position.1, truck_position.1);
}

#[test]
fn a_passenger_ignores_its_own_orders() {
    let mut api = Api::new();
    let truck = spawn_vehicle(&mut api, 0.0, 2);
    let rider = spawn_unit(&mut api, 1.0);
    api.board(rider, truck).expect("board");
    order_move_to(&mut api, &[rider], target(100.0, 0.0));
    for _ in 0..20 {
        tick(&mut api, 100).expect("tick");
    }
    assert_eq!(position_of(&api, rider).0, 0.0, "it stays with the parked truck");
}

#[test]
fn a_move_order_does_not_stick_to_a_passenger() {
    let mut api = Api::new();
    let truck = spawn_vehicle(&mut api, 0.0, 2);
    let rider = spawn_unit(&mut api, 1.0);
    api.board(rider, truck).expect("board");
    let report = order_move_to(&mut api, &[truck, rider], target(40.0, 0.0));
    assert_eq!(report.ordered, 1, "only the vehicle can take a move order");
    assert_eq!(report.skipped, 1);

    unboard(&mut api, rider).expect("step off");
    let dropped = position_of(&api, rider);
    for _ in 0..30 {
        tick(&mut api, 16).expect("tick");
    }
    assert_eq!(position_of(&api, rider), dropped, "a unit that just stepped off stays where it was put");
}

#[test]
fn boarding_works_from_across_the_map() {
    let mut api = Api::new();
    let truck = spawn_vehicle(&mut api, 0.0, 2);
    let rider = spawn_unit(&mut api, 50.0);
    api.board(rider, truck).expect("distance is the game's concern, not the core's");
    assert_eq!(api.vehicle_of(rider), Some(truck));
    tick(&mut api, 16).expect("tick");
    assert_eq!(position_of(&api, rider).0, 0.0, "it is inside the truck now");
}

#[test]
fn seats_run_out() {
    let mut api = Api::new();
    let truck = spawn_vehicle(&mut api, 0.0, 1);
    let first = spawn_unit(&mut api, 1.0);
    let second = spawn_unit(&mut api, 1.0);
    api.board(first, truck).expect("first aboard");
    assert_eq!(api.free_seats(truck), Some(0));
    assert_eq!(api.board(second, truck), Err(BoardError::NoSeatsLeft { seats: 1 }));
    assert_eq!(api.passengers(truck), vec![first]);
}

#[test]
fn a_unit_rides_one_vehicle_at_a_time() {
    let mut api = Api::new();
    let first = spawn_vehicle(&mut api, 0.0, 2);
    let second = spawn_vehicle(&mut api, 1.0, 2);
    let rider = spawn_unit(&mut api, 0.5);
    api.board(rider, first).expect("board");
    assert_eq!(api.board(rider, second), Err(BoardError::AlreadyAboard(rider)));
}

#[test]
fn a_rock_cannot_be_boarded() {
    let mut api = Api::new();
    let rock = spawn(&mut api, EntityRecord { position: place(0.0, 0.0), ..EntityRecord::empty() });
    let rider = spawn_unit(&mut api, 1.0);
    assert_eq!(api.board(rider, rock), Err(BoardError::NotBoardable(rock)));
    assert_eq!(api.free_seats(rock), None);
}

#[test]
fn unboarding_puts_the_unit_beside_the_vehicle() {
    let mut api = Api::new();
    let truck = spawn_vehicle(&mut api, 0.0, 2);
    let rider = spawn_unit(&mut api, 1.0);
    api.board(rider, truck).expect("board");
    order_move_to(&mut api, &[truck], target(20.0, 0.0));
    for _ in 0..50 {
        tick(&mut api, 100).expect("tick");
    }
    unboard(&mut api, rider).expect("unboard");
    assert_eq!(api.vehicle_of(rider), None);
    assert!((position_of(&api, rider).0 - (20.0 + UNBOARD_OFFSET)).abs() < 1e-3, "it steps off next to where the truck stopped");
}

#[test]
fn a_unit_that_is_not_aboard_cannot_step_off() {
    let mut api = Api::new();
    let rider = spawn_unit(&mut api, 0.0);
    assert_eq!(unboard(&mut api, rider), Err(BoardError::NotAboard(rider)));
}

#[test]
fn losing_the_vehicle_lets_the_passenger_go() {
    let mut api = Api::new();
    let truck = spawn_vehicle(&mut api, 0.0, 2);
    let rider = spawn_unit(&mut api, 1.0);
    api.board(rider, truck).expect("board");
    assert_eq!(api.despawn(&[truck]), 1);
    tick(&mut api, 16).expect("tick");
    assert_eq!(api.vehicle_of(rider), None, "no dangling passenger");
}

#[test]
fn a_boarded_unit_moves_again_after_stepping_off() {
    let mut api = Api::new();
    let truck = spawn_vehicle(&mut api, 0.0, 2);
    let rider = spawn_unit(&mut api, 1.0);
    api.board(rider, truck).expect("board");
    unboard(&mut api, rider).expect("unboard");
    order_move_to(&mut api, &[rider], target(10.0, 0.0));
    for _ in 0..50 {
        tick(&mut api, 100).expect("tick");
    }
    assert!((position_of(&api, rider).0 - 10.0).abs() < 1e-3);
}

#[test]
fn an_ordered_unit_walks_over_and_gets_in() {
    let mut api = Api::new();
    let truck = spawn_vehicle(&mut api, 0.0, 2);
    let rider = spawn_unit(&mut api, 50.0);
    let report = api.order_board(&[rider], truck).expect("order");
    assert_eq!(report, OrderReport { ordered: 1, skipped: 0 });
    assert_eq!(api.boarding_target_of(rider), Some(truck));
    assert_eq!(api.approaching(truck), vec![rider]);

    // One tick: it has not teleported, it has taken a step toward the truck.
    tick(&mut api, 100).expect("tick");
    assert_eq!(api.vehicle_of(rider), None);
    let after_one = position_of(&api, rider);
    assert!(after_one.0 < 50.0 && after_one.0 > 40.0, "walking, at {}", after_one.0);

    for _ in 0..60 {
        tick(&mut api, 100).expect("tick");
    }
    assert_eq!(api.vehicle_of(rider), Some(truck), "aboard once within range");
    assert_eq!(api.boarding_target_of(rider), None, "the order is spent");
    assert_eq!(api.approaching(truck), Vec::<EntityId>::new());
    assert_eq!(position_of(&api, rider).0, 0.0, "and it is inside the truck");
}

#[test]
fn an_ordered_unit_follows_a_vehicle_that_drives_off() {
    let mut api = Api::new();
    let truck = spawn_vehicle(&mut api, 20.0, 2);
    let rider = spawn_unit(&mut api, 0.0);
    api.order_board(&[rider], truck).expect("order");
    // The truck (30/s) pulls away from the rider (10/s), then parks at 60.
    order_move_to(&mut api, &[truck], target(60.0, 0.0));
    for _ in 0..30 {
        tick(&mut api, 100).expect("tick");
    }
    assert_eq!(api.vehicle_of(rider), None, "still chasing");
    assert!(position_of(&api, rider).0 > 20.0, "past where the truck used to be");
    for _ in 0..60 {
        tick(&mut api, 100).expect("tick");
    }
    assert_eq!(api.vehicle_of(rider), Some(truck), "caught up at the new spot");
    assert!((position_of(&api, rider).0 - 60.0).abs() < 1e-3);
}

#[test]
fn no_seat_on_arrival_leaves_the_unit_outside_with_no_order() {
    let mut api = Api::new();
    let truck = spawn_vehicle(&mut api, 0.0, 1);
    let first = spawn_unit(&mut api, 1.0);
    let second = spawn_unit(&mut api, 20.0);
    api.board(first, truck).expect("first aboard");
    api.order_board(&[second], truck).expect("order");
    for _ in 0..40 {
        tick(&mut api, 100).expect("tick");
    }
    assert_eq!(api.vehicle_of(second), None);
    assert_eq!(api.boarding_target_of(second), None, "the order is dropped, not retried");
    let stood = position_of(&api, second);
    assert!(stood.0 <= BOARDING_RANGE + 1e-3 && stood.0 > 0.0, "stopped at the door, at {}", stood.0);
    tick(&mut api, 100).expect("tick");
    assert_eq!(position_of(&api, second).0, stood.0, "and stays there");
}

#[test]
fn losing_the_vehicle_drops_the_boarding_order() {
    let mut api = Api::new();
    let truck = spawn_vehicle(&mut api, 0.0, 2);
    let rider = spawn_unit(&mut api, 30.0);
    api.order_board(&[rider], truck).expect("order");
    tick(&mut api, 100).expect("tick");
    assert_eq!(api.despawn(&[truck]), 1);
    tick(&mut api, 100).expect("tick");
    assert_eq!(api.boarding_target_of(rider), None);
    let stood = position_of(&api, rider);
    tick(&mut api, 100).expect("tick");
    assert_eq!(position_of(&api, rider).0, stood.0, "it stops where it was");
}

#[test]
fn stop_and_a_new_move_order_both_cancel_boarding() {
    let mut api = Api::new();
    let truck = spawn_vehicle(&mut api, 0.0, 2);
    let a = spawn_unit(&mut api, 30.0);
    let b = spawn_unit(&mut api, 30.0);
    api.order_board(&[a, b], truck).expect("order");
    tick(&mut api, 100).expect("tick");
    api.order_stop(&[a]);
    order_move_to(&mut api, &[b], target(60.0, 0.0));
    assert_eq!(api.boarding_target_of(a), None);
    assert_eq!(api.boarding_target_of(b), None);
    for _ in 0..50 {
        tick(&mut api, 100).expect("tick");
    }
    assert_eq!(api.vehicle_of(a), None);
    assert_eq!(api.vehicle_of(b), None);
    assert!((position_of(&api, b).0 - 60.0).abs() < 1e-3, "b went where it was last told");
}

#[test]
fn a_boarding_order_is_the_units_own_and_automation_does_not_take_it() {
    let mut api = Api::new();
    let truck = spawn_vehicle(&mut api, 0.0, 2);
    let rider = spawn_unit(&mut api, 30.0);
    let mut r = api.get(rider).expect("live");
    r.faction = Some(Faction(1));
    assert!(api.replace(rider, r));
    let group = api.create_group(1);
    api.add_to_group(group, rider).expect("member");
    api.order_board(&[rider], truck).expect("order");
    tick(&mut api, 100).expect("tick");

    // Group steering is weaker than a personal order and must not pull the rider off course.
    order_group_move_to(&mut api, group, target(100.0, 0.0)).expect("group order");
    for _ in 0..60 {
        tick(&mut api, 100).expect("tick");
    }
    assert_eq!(api.vehicle_of(rider), Some(truck));
}

#[test]
fn ordering_units_into_a_rock_is_refused_up_front() {
    let mut api = Api::new();
    let rock = spawn(&mut api, EntityRecord { position: place(0.0, 0.0), ..EntityRecord::empty() });
    let rider = spawn_unit(&mut api, 10.0);
    assert_eq!(api.order_board(&[rider], rock), Err(BoardError::NotBoardable(rock)));
    assert_eq!(api.boarding_target_of(rider), None);
}

#[test]
fn a_passenger_and_the_vehicle_itself_are_skipped_by_the_order() {
    let mut api = Api::new();
    let truck = spawn_vehicle(&mut api, 0.0, 2);
    let aboard = spawn_unit(&mut api, 1.0);
    let walker = spawn_unit(&mut api, 10.0);
    api.board(aboard, truck).expect("aboard");
    let report = api.order_board(&[truck, aboard, walker], truck).expect("order");
    assert_eq!(report, OrderReport { ordered: 1, skipped: 2 });
    assert_eq!(api.approaching(truck), vec![walker]);
}

#[test]
fn a_full_vehicle_never_takes_another_passenger() {
    let mut api = Api::new();
    let truck = spawn_vehicle(&mut api, 0.0, 2);
    let riders: Vec<EntityId> = (0..4).map(|i| spawn_unit(&mut api, 1.0 + i as f32)).collect();
    api.order_board(&riders, truck).expect("order");
    for _ in 0..20 {
        tick(&mut api, 100).expect("tick");
        assert!(api.passengers(truck).len() <= 2);
    }
    assert_eq!(api.passengers(truck).len(), 2);
    assert_eq!(api.free_seats(truck), Some(0));
}

// ---- groups ----

#[test]
fn a_new_group_is_empty_and_automatic() {
    let mut api = Api::new();
    let group = api.create_group(1);
    assert!(api.group_members(group).is_empty());
    assert!(!api.is_group_manual(group));
}

#[test]
fn a_unit_belongs_to_one_group_at_a_time() {
    let mut api = Api::new();
    let first = api.create_group(1);
    let second = api.create_group(1);
    let unit = spawn_soldier(&mut api, 1, 0.0, 0.0, 10.0);
    api.add_to_group(first, unit).expect("join first");
    api.add_to_group(second, unit).expect("move to second");
    assert_eq!(api.group_of(unit), Some(second));
    assert!(api.group_members(first).is_empty());
    assert_eq!(api.group_members(second), vec![unit]);
}

#[test]
fn a_group_commands_its_own_faction_only() {
    let mut api = Api::new();
    let group = api.create_group(1);
    let enemy = spawn_soldier(&mut api, 2, 0.0, 0.0, 10.0);
    let err = api.add_to_group(group, enemy).expect_err("faction mismatch");
    assert_eq!(err, GroupError::FactionMismatch { unit: 2, group: 1 });
    assert_eq!(api.group_of(enemy), None);
}

#[test]
fn a_unit_without_a_faction_cannot_join() {
    let mut api = Api::new();
    let group = api.create_group(1);
    let stray = spawn(&mut api, EntityRecord { position: place(0.0, 0.0), ..EntityRecord::empty() });
    assert_eq!(api.add_to_group(group, stray), Err(GroupError::UnitHasNoFaction(stray)));
}

#[test]
fn a_unit_id_is_not_a_group_id() {
    let mut api = Api::new();
    let unit = spawn_soldier(&mut api, 1, 0.0, 0.0, 10.0);
    assert_eq!(order_group_move_to(&mut api, unit, target(1.0, 1.0)), Err(GroupError::UnknownGroup(unit)));
}

#[test]
fn a_group_order_steers_members_and_turns_manual_on() {
    let mut api = Api::new();
    let group = api.create_group(1);
    let first = spawn_soldier(&mut api, 1, 0.0, 0.0, 10.0);
    let second = spawn_soldier(&mut api, 1, 1.0, 0.0, 10.0);
    api.add_to_group(group, first).expect("join");
    api.add_to_group(group, second).expect("join");
    let report = order_group_move_to(&mut api, group, target(50.0, 50.0)).expect("group order");
    assert_eq!(report.ordered, 2);
    assert!(api.is_group_manual(group));
    for unit in [first, second] {
        let t = move_target_of(&api, unit).expect("move target");
        assert!((t.0 - 50.0).abs() <= 5.0);
        assert_eq!(source_of(&api, unit), Some(OrderSource::GroupSteering));
    }
}

#[test]
fn a_personal_order_survives_a_group_order() {
    let mut api = Api::new();
    let group = api.create_group(1);
    let loyal = spawn_soldier(&mut api, 1, 0.0, 0.0, 10.0);
    let detached = spawn_soldier(&mut api, 1, 1.0, 0.0, 10.0);
    api.add_to_group(group, loyal).expect("join");
    api.add_to_group(group, detached).expect("join");
    order_move_to(&mut api, &[detached], target(5.0, 0.0));
    let report = order_group_move_to(&mut api, group, target(80.0, 80.0)).expect("group order");
    assert_eq!(report.ordered, 1, "only the unit without a personal order");
    assert_eq!(report.skipped, 1);
    assert_eq!(move_target_of(&api, detached).map(|t| t.0), Some(5.0));
    assert_eq!(source_of(&api, detached), Some(OrderSource::PlayerUnit));
}

#[test]
fn a_group_survives_losing_every_member() {
    let mut api = Api::new();
    let group = api.create_group(1);
    let unit = spawn_soldier(&mut api, 1, 0.0, 0.0, 10.0);
    api.add_to_group(group, unit).expect("join");
    assert_eq!(api.despawn(&[unit]), 1);
    assert!(api.group_members(group).is_empty());
    assert!(order_group_move_to(&mut api, group, target(1.0, 1.0)).is_ok(), "an empty group is still a group");
}

#[test]
fn manual_control_is_released_only_on_request() {
    let mut api = Api::new();
    let group = api.create_group(1);
    let unit = spawn_soldier(&mut api, 1, 0.0, 0.0, 10.0);
    api.add_to_group(group, unit).expect("join");
    order_group_move_to(&mut api, group, target(2.0, 0.0)).expect("group order");
    // Arriving does not hand the group back to automation.
    for _ in 0..50 {
        tick(&mut api, 100).expect("tick");
    }
    assert!(api.is_group_manual(group));
    assert_eq!(api.clear_group_manual(group), Ok(true));
    assert!(!api.is_group_manual(group));
    assert_eq!(api.clear_group_manual(group), Ok(false));
}

#[test]
fn leaving_a_group_is_reported() {
    let mut api = Api::new();
    let group = api.create_group(1);
    let unit = spawn_soldier(&mut api, 1, 0.0, 0.0, 10.0);
    api.add_to_group(group, unit).expect("join");
    assert!(api.remove_from_group(unit));
    assert!(!api.remove_from_group(unit));
    assert_eq!(api.group_of(unit), None);
}

// ---- missions ----

/// A group of one, standing at the origin.
fn group_with_one_unit(api: &mut Api) -> (EntityId, EntityId) {
    let group = api.create_group(1);
    let unit = spawn_soldier(api, 1, 0.0, 0.0, 20.0);
    api.add_to_group(group, unit).expect("join");
    (group, unit)
}

#[test]
fn an_assigned_group_walks_to_the_mission_and_closes_it() {
    let mut api = Api::new();
    let (group, unit) = group_with_one_unit(&mut api);
    let mission = create_mission(&mut api, target(30.0, 0.0), 1.0);
    api.assign_group(mission, group).expect("assign");
    for _ in 0..100 {
        tick(&mut api, 100).expect("tick");
        if api.is_mission_completed(mission) {
            break;
        }
    }
    assert!(api.is_mission_completed(mission));
    assert_eq!(api.mission_of(group), None, "assignees are released");
    assert!(api.mission_assignees(mission).is_empty());
    assert!(move_target_of(&api, unit).is_none());
    assert!(source_of(&api, unit).is_none());
}

#[test]
fn the_first_arrival_finishes_the_mission_for_everyone() {
    let mut api = Api::new();
    let near = api.create_group(1);
    let far = api.create_group(1);
    let near_unit = spawn_soldier(&mut api, 1, 28.0, 0.0, 20.0);
    let far_unit = spawn_soldier(&mut api, 1, -200.0, 0.0, 20.0);
    api.add_to_group(near, near_unit).expect("join");
    api.add_to_group(far, far_unit).expect("join");
    let mission = create_mission(&mut api, target(30.0, 0.0), 1.0);
    api.assign_group(mission, near).expect("assign");
    api.assign_group(mission, far).expect("assign");
    for _ in 0..100 {
        tick(&mut api, 100).expect("tick");
        if api.is_mission_completed(mission) {
            break;
        }
    }
    assert!(api.is_mission_completed(mission));
    assert_eq!(api.mission_of(far), None, "the group still walking is freed");
    assert!(move_target_of(&api, far_unit).is_none(), "and it stops where it is");
}

#[test]
fn a_manual_group_is_not_steered_by_its_mission() {
    let mut api = Api::new();
    let (group, unit) = group_with_one_unit(&mut api);
    let mission = create_mission(&mut api, target(500.0, 0.0), 1.0);
    api.assign_group(mission, group).expect("assign");
    order_group_move_to(&mut api, group, target(-10.0, 0.0)).expect("manual order");
    tick(&mut api, 16).expect("tick");
    assert_eq!(move_target_of(&api, unit).map(|t| t.0), Some(-10.0), "the manual order stands");
    assert_eq!(source_of(&api, unit), Some(OrderSource::GroupSteering));
}

#[test]
fn a_personal_order_outranks_mission_steering() {
    let mut api = Api::new();
    let (group, unit) = group_with_one_unit(&mut api);
    let mission = create_mission(&mut api, target(500.0, 0.0), 1.0);
    api.assign_group(mission, group).expect("assign");
    order_move_to(&mut api, &[unit], target(3.0, 0.0));
    tick(&mut api, 16).expect("tick");
    assert_eq!(source_of(&api, unit), Some(OrderSource::PlayerUnit));
}

#[test]
fn a_manual_order_takes_the_group_off_its_mission() {
    let mut api = Api::new();
    let (group, _) = group_with_one_unit(&mut api);
    let mission = create_mission(&mut api, target(300.0, 0.0), 1.0);
    api.assign_group(mission, group).expect("assign");
    order_group_move_to(&mut api, group, target(-5.0, 0.0)).expect("manual order");
    assert_eq!(api.mission_of(group), None);
    assert!(api.mission_assignees(mission).is_empty(), "the mission is free for another group");
}

#[test]
fn an_empty_group_releases_its_mission() {
    let mut api = Api::new();
    let (group, unit) = group_with_one_unit(&mut api);
    let mission = create_mission(&mut api, target(300.0, 0.0), 1.0);
    api.assign_group(mission, group).expect("assign");
    assert_eq!(api.despawn(&[unit]), 1);
    tick(&mut api, 16).expect("tick");
    assert_eq!(api.mission_of(group), None);
    assert!(!api.is_mission_completed(mission), "nobody arrived");
}

#[test]
fn a_completed_mission_takes_no_more_groups() {
    let mut api = Api::new();
    let (group, _) = group_with_one_unit(&mut api);
    let mission = create_mission(&mut api, target(0.0, 0.0), 1.0);
    api.assign_group(mission, group).expect("assign");
    tick(&mut api, 16).expect("tick"); // the unit is already standing on the target
    assert!(api.is_mission_completed(mission));
    let second = api.create_group(1);
    assert_eq!(api.assign_group(mission, second), Err(MissionError::AlreadyCompleted(mission)));
}

#[test]
fn a_group_works_one_mission_at_a_time() {
    let mut api = Api::new();
    let (group, _) = group_with_one_unit(&mut api);
    let first = create_mission(&mut api, target(100.0, 0.0), 1.0);
    let second = create_mission(&mut api, target(200.0, 0.0), 1.0);
    api.assign_group(first, group).expect("assign first");
    api.assign_group(second, group).expect("assign second");
    assert_eq!(api.mission_of(group), Some(second));
    assert!(api.mission_assignees(first).is_empty());
}

#[test]
fn ids_of_the_wrong_kind_are_refused() {
    let mut api = Api::new();
    let (group, unit) = group_with_one_unit(&mut api);
    let mission = create_mission(&mut api, target(1.0, 0.0), 1.0);
    assert_eq!(api.assign_group(group, group), Err(MissionError::UnknownMission(group)));
    assert_eq!(api.assign_group(mission, unit), Err(MissionError::UnknownGroup(unit)));
}

#[test]
fn unassigning_is_reported() {
    let mut api = Api::new();
    let (group, _) = group_with_one_unit(&mut api);
    let mission = create_mission(&mut api, target(100.0, 0.0), 1.0);
    api.assign_group(mission, group).expect("assign");
    assert!(api.unassign_group(group));
    assert!(!api.unassign_group(group));
    assert_eq!(api.mission_of(group), None);
}

#[test]
fn a_freed_group_takes_the_nearest_open_mission() {
    let mut api = Api::new();
    let (group, _) = group_with_one_unit(&mut api);
    let here = create_mission(&mut api, target(0.0, 0.0), 1.0);
    let far = create_mission(&mut api, target(400.0, 0.0), 1.0);
    let near = create_mission(&mut api, target(50.0, 0.0), 1.0);
    api.assign_group(here, group).expect("assign");
    tick(&mut api, 16).expect("tick");
    assert!(api.is_mission_completed(here));
    assert_eq!(api.mission_of(group), Some(near), "the planner picks the closest open mission");
    assert!(!api.is_mission_completed(far));
}

#[test]
fn a_manual_group_is_not_replanned() {
    let mut api = Api::new();
    let (group, unit) = group_with_one_unit(&mut api);
    let here = create_mission(&mut api, target(0.0, 0.0), 1.0);
    let other = create_mission(&mut api, target(50.0, 0.0), 1.0);
    api.assign_group(here, group).expect("assign");
    tick(&mut api, 16).expect("tick");
    assert_eq!(api.mission_of(group), Some(other));
    // Take it by hand, free it from its mission, and close nothing: the planner leaves it alone.
    order_group_move_to(&mut api, group, target(-5.0, 0.0)).expect("manual order");
    assert_eq!(api.mission_of(group), None);
    tick(&mut api, 16).expect("tick");
    assert_eq!(api.mission_of(group), None);
    assert_eq!(source_of(&api, unit), Some(OrderSource::GroupSteering));
}

#[test]
fn mission_steering_spreads_a_group_over_slots() {
    let mut api = Api::new();
    let group = api.create_group(1);
    let a = spawn_soldier(&mut api, 1, 0.0, 0.0, 20.0);
    let b = spawn_soldier(&mut api, 1, 1.0, 0.0, 20.0);
    api.add_to_group(group, a).expect("join");
    api.add_to_group(group, b).expect("join");
    let mission = create_mission(&mut api, target(100.0, 100.0), 1.0);
    api.assign_group(mission, group).expect("assign");

    let plan = api.mission_steering_plan();
    assert_eq!(plan.len(), 1);
    assert_eq!(plan[0].group, group);
    assert_eq!(plan[0].members, vec![a, b]);
    let targets = slots(plan[0].target, plan[0].members.len());
    assert_eq!(api.steer_mission_group(group, &targets), 2);
    assert_ne!(move_target_of(&api, a), move_target_of(&api, b));
    assert_eq!(source_of(&api, a), Some(OrderSource::MissionSteering));
}

#[test]
fn movement_skips_a_passenger_even_with_a_velocity() {
    let mut api = Api::new();
    let truck = spawn_vehicle(&mut api, 0.0, 2);
    let rider = spawn_unit(&mut api, 1.0);
    api.board(rider, truck).expect("board");
    let mut r = api.get(rider).expect("live");
    r.velocity = moving(5.0, 0.0);
    assert!(api.replace(rider, r));

    api.begin_tick(100).expect("delta");
    assert!(!api.movers().contains(&rider));
    assert!(api.movers().contains(&truck));
    assert!(!api.set_position(rider, Position { x_bits: 9.0f32.to_bits(), y_bits: 0 }));
    movement(&mut api, 0.1);
    assert_eq!(position_of(&api, rider), (1.0, 0.0), "its position belongs to the vehicle");
}

#[test]
fn the_mission_roster_lists_positioned_members_of_assigned_groups() {
    let mut api = Api::new();
    let (group, unit) = group_with_one_unit(&mut api);
    let other = api.create_group(1);
    let outsider = spawn_soldier(&mut api, 1, 5.0, 0.0, 20.0);
    api.add_to_group(other, outsider).expect("join");
    let mission = create_mission(&mut api, target(30.0, 0.0), 1.0);
    assert!(api.mission_roster(mission).is_empty(), "nobody works it yet");
    api.assign_group(mission, group).expect("assign");
    let roster = api.mission_roster(mission);
    assert_eq!(roster.len(), 1);
    assert_eq!(roster[0].0, unit);
    assert_eq!(roster[0].1, Position { x_bits: 0.0f32.to_bits(), y_bits: 0.0f32.to_bits() });
}
