//! Simulation core of a small real-time-strategy battlefield.
//!
//! Everything is computed on integers: positions and ranges are whole world
//! units, times are milliseconds, velocities are thousandths of a world unit
//! per second.
//!
//! The units live in a [`world::World`]. Once per tick its driver runs
//! [`orders::order_system`], [`systems::ai_system`],
//! [`systems::attack_melee_system`], [`physics::mover_update`] and
//! [`systems::health_system`], in this order, or [`systems::run_tick`] for
//! all of them. Between two ticks it tells the world where its physics has
//! moved the units, and hands the units the orders of the player, which
//! [`commands`] makes from clicks and [`pathfinding`] leads round walls.

pub mod geometry;
pub mod components;
pub mod orders;
pub mod world;
pub mod systems;
pub mod physics;
pub mod priority_queue;
pub mod pathfinding;
pub mod map;
pub mod selection;
pub mod commands;
