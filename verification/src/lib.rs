//! Entity simulation core: entity lifecycle, orders, groups, missions, boarding,
//! template inheritance and map layouts, with every rule stated and proved.
use vstd::prelude::*;

pub mod api;
pub mod boarding;
pub mod components;
pub mod errors;
pub mod export;
pub mod groups;
pub mod ids;
pub mod import;
pub mod map;
pub mod missions;
pub mod order_source;
pub mod orders;
pub mod queries;
pub mod systems;
pub mod templates;
pub mod text;
pub mod world;

pub use ids::{EntityId, OrderReport};
pub use order_source::OrderSource;

verus! {

/// Returns the canonical hello-world greeting.
pub fn hello() -> (greeting: &'static str)
    ensures
        greeting@ == "Hello, world!"@,
{
    "Hello, world!"
}

} // verus!
