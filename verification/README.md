# open_entities

A small real-time-strategy entity simulation whose rules are proved with Verus: the entity
store with generational ids, move and stop orders with their priority ladder, groups,
missions, boarding vehicles, template inheritance, map layouts and world snapshots.

The entity store is the library's own (`src/world.rs`): slots with generations stand in for an
ECS world, so an id whose entity was despawned never resolves again, even after its slot is
reused. Which indices can name an entity at all is asked of `bevy_ecs`'s `EntityIndex`.

## Layout

- `src/` — the verified library. `world.rs` is the store; `api.rs` the facade; `orders.rs`,
  `groups.rs`, `missions.rs`, `boarding.rs` the commands; `systems.rs` the structural steps of a
  tick; `templates.rs` and `import.rs` template resolution and spawning; `map.rs` map layouts;
  `export.rs` snapshot rows; `errors.rs` and `text.rs` error values and their messages.
- `app/` — the host: YAML and JSON formats, the floating-point half of each tick (slot grids,
  distances, headings, integration), and the WebAssembly bindings.
- `tests/` — scenarios run against the library; `tests/scenarios.rs` drives whole ticks the way
  the host does.

Coordinates are `f32` values. The library stores their bit patterns and never computes with
them; every arithmetic step on coordinates happens in the host, between library calls that
decide who is affected and how.
