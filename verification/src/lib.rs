//! Simulation core of a turn-based dungeon crawler: a fixed-size tile grid,
//! shortest-path distance fields, procedural level generation, field of view,
//! an entity store with deferred structural changes, and the per-turn systems
//! that a small state machine schedules.

pub mod geometry;
pub mod map;
pub mod distance;
pub mod rng;
pub mod map_builder;
pub mod components;
pub mod world;
pub mod camera;
pub mod turn_state;
pub mod visibility;
pub mod systems;
pub mod spawner;
pub mod state;
pub mod display;
