//! Gameplay components.
//!
//! Coordinates, velocities, speeds and radii are IEEE-754 single-precision values. The library
//! never computes with them: it stores, copies and compares their bit patterns exactly, and the
//! host does the arithmetic. Each such field therefore holds the `f32` bit pattern (`to_bits`).
use vstd::prelude::*;

verus! {

/// 2D position in world space; fields are `f32` bit patterns.
#[derive(Clone, Copy, Debug, PartialEq, Eq, Structural)]
pub struct Position {
    pub x_bits: u32,
    pub y_bits: u32,
}

/// 2D velocity in world space; fields are `f32` bit patterns.
#[derive(Clone, Copy, Debug, PartialEq, Eq, Structural)]
pub struct Velocity {
    pub vx_bits: u32,
    pub vy_bits: u32,
}

impl Velocity {
    /// The zero velocity (`+0.0` in both components).
    pub open spec fn spec_zero() -> Velocity {
        Velocity { vx_bits: 0, vy_bits: 0 }
    }

    /// The zero velocity (`+0.0` in both components).
    pub fn zero() -> (v: Velocity)
        ensures
            v == Velocity::spec_zero(),
    {
        Velocity { vx_bits: 0, vy_bits: 0 }
    }
}

/// World-space movement goal point; fields are `f32` bit patterns.
#[derive(Clone, Copy, Debug, PartialEq, Eq, Structural)]
pub struct MoveTarget {
    pub x_bits: u32,
    pub y_bits: u32,
}

/// Maximum travel speed used by seek, as an `f32` bit pattern.
#[derive(Clone, Copy, Debug, PartialEq, Eq, Structural)]
pub struct BaseMoveSpeed(pub u32);

/// Numeric faction / side identifier.
#[derive(Clone, Copy, Debug, PartialEq, Eq, Hash, Structural)]
pub struct Faction(pub u32);

/// Hit points for a unit or structure.
#[derive(Clone, Copy, Debug, PartialEq, Eq, Structural)]
pub struct Health {
    pub current: u32,
    pub max: u32,
}

/// How many passengers a vehicle can carry. Without it an entity cannot be boarded at all.
#[derive(Clone, Copy, Debug, PartialEq, Eq, Structural)]
pub struct Boardable(pub u8);

/// Marks an entity as a group (squad) and fixes the faction it commands for.
#[derive(Clone, Copy, Debug, PartialEq, Eq, Hash, Structural)]
pub struct Group {
    pub faction: u32,
}

/// A place the automation wants reached, and how close counts as reached.
#[derive(Clone, Copy, Debug, PartialEq, Eq, Structural)]
pub struct Mission {
    pub target: MoveTarget,
    /// Arrival radius, as an `f32` bit pattern.
    pub radius_bits: u32,
}

/// Name of the template an entity was spawned from.
pub struct EntityType(pub String);

/// Gameplay components shared by templates, spawn overrides, and export rows.
#[derive(Clone, Copy, Debug, PartialEq, Eq, Structural)]
pub struct EntityComponents {
    pub position: Option<Position>,
    pub velocity: Option<Velocity>,
    pub faction: Option<Faction>,
    pub move_target: Option<MoveTarget>,
    pub base_move_speed: Option<BaseMoveSpeed>,
    pub health: Option<Health>,
    pub boardable: Option<Boardable>,
}

/// `child` if it is `Some`, else `parent`.
pub open spec fn prefer<T>(child: Option<T>, parent: Option<T>) -> Option<T> {
    match child {
        Some(v) => Some(v),
        None => parent,
    }
}

impl EntityComponents {
    /// No component at all.
    pub open spec fn spec_empty() -> EntityComponents {
        EntityComponents {
            position: None,
            velocity: None,
            faction: None,
            move_target: None,
            base_move_speed: None,
            health: None,
            boardable: None,
        }
    }

    /// Component-level merge: each field of `child` wins when `Some`.
    pub open spec fn spec_merge(parent: EntityComponents, child: EntityComponents) -> EntityComponents {
        EntityComponents {
            position: prefer(child.position, parent.position),
            velocity: prefer(child.velocity, parent.velocity),
            faction: prefer(child.faction, parent.faction),
            move_target: prefer(child.move_target, parent.move_target),
            base_move_speed: prefer(child.base_move_speed, parent.base_move_speed),
            health: prefer(child.health, parent.health),
            boardable: prefer(child.boardable, parent.boardable),
        }
    }

    /// `true` if any field is `Some`.
    pub open spec fn spec_has_any(self) -> bool {
        self.position is Some || self.velocity is Some || self.faction is Some
            || self.move_target is Some || self.base_move_speed is Some || self.health is Some
            || self.boardable is Some
    }
}

impl Default for EntityComponents {
    fn default() -> (empty: EntityComponents)
        ensures
            empty == EntityComponents::spec_empty(),
    {
        EntityComponents {
            position: None,
            velocity: None,
            faction: None,
            move_target: None,
            base_move_speed: None,
            health: None,
            boardable: None,
        }
    }
}

fn prefer_exec<T: Copy>(child: Option<T>, parent: Option<T>) -> (r: Option<T>)
    ensures
        r == prefer(child, parent),
{
    match child {
        Some(v) => Some(v),
        None => parent,
    }
}

/// Component-level merge: `child` wins when `Some`.
pub fn merge_components(parent: &EntityComponents, child: &EntityComponents) -> (merged: EntityComponents)
    ensures
        merged == EntityComponents::spec_merge(*parent, *child),
{
    EntityComponents {
        position: prefer_exec(child.position, parent.position),
        velocity: prefer_exec(child.velocity, parent.velocity),
        faction: prefer_exec(child.faction, parent.faction),
        move_target: prefer_exec(child.move_target, parent.move_target),
        base_move_speed: prefer_exec(child.base_move_speed, parent.base_move_speed),
        health: prefer_exec(child.health, parent.health),
        boardable: prefer_exec(child.boardable, parent.boardable),
    }
}

/// True if any registered field is `Some`.
pub fn entity_components_has_any(doc: &EntityComponents) -> (any: bool)
    ensures
        any == doc.spec_has_any(),
{
    doc.position.is_some() || doc.velocity.is_some() || doc.faction.is_some()
        || doc.move_target.is_some() || doc.base_move_speed.is_some() || doc.health.is_some()
        || doc.boardable.is_some()
}

/// Merging is associative: folding parents in one step or two gives the same bundle.
pub proof fn lemma_merge_associative(a: EntityComponents, b: EntityComponents, c: EntityComponents)
    ensures
        EntityComponents::spec_merge(EntityComponents::spec_merge(a, b), c)
            == EntityComponents::spec_merge(a, EntityComponents::spec_merge(b, c)),
{
}

/// The empty bundle is neutral on both sides, and merging a bundle with itself changes nothing.
pub proof fn lemma_merge_identity(a: EntityComponents)
    ensures
        EntityComponents::spec_merge(EntityComponents::spec_empty(), a) == a,
        EntityComponents::spec_merge(a, EntityComponents::spec_empty()) == a,
        EntityComponents::spec_merge(a, a) == a,
{
}

} // verus!
