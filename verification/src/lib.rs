//! A spatial query engine for a tick-driven simulation in the plane.
//!
//! Bodies are recorded in a uniform grid. The grid answers which bodies
//! overlap a shape and which bodies a ray meets, nearest first, and it drives
//! the collision pass of a tick. All geometry is in fixed point: coordinates
//! and lengths are whole steps, 1024 to the side of a grid cell, and a
//! direction is a cosine and a sine in units of 1/16384.
//!
//! - `geometry`: points, cells, shapes, and the cells that a shape covers.
//! - `collision`: the exact test of two shapes against each other.
//! - `entity`: what the grid records of a body, and the shape query's filter.
//! - `world`: the grid itself and the shape query.
//! - `ray`: where a ray meets a shape and which cells it passes through.
//! - `cover`: the cells of a ray's way are the cells that the ray passes.
//! - `raycast`: the ray query.
//! - `resolver`: the collision pass.
//! - `weapon`: guns, and what a shot hits.

pub mod geometry;
pub mod collision;
pub mod entity;
pub mod world;
pub mod ray;
pub mod cover;
pub mod raycast;
pub mod resolver;
pub mod weapon;
