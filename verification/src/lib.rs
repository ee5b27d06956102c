//! A deterministic two-dimensional particle simulator on fixed-point numbers.
//!
//! Lengths are integers counting millionths of a unit, velocities count
//! millionths of a unit per second, dimensionless coefficients count
//! thousandths, and time is counted in microseconds. Every function is a
//! total, exactly specified map on these integers: what leaves the range of
//! a particle's state is clipped to it, and quotients are rounded to the
//! nearest integer, but for the move that parts two overlapping particles,
//! which is rounded away from zero so that no overlap is left.
//!
//! - `arith`: saturation, rounded quotients, the integer square root.
//! - `vector`, `particle`: the state of a particle, and the store of them.
//! - `config`: bounds, pointer and constants, and what is refused.
//! - `grid`: the uniform grid and its forward neighbourhood.
//! - `forces`: gravity and the pointer over a time increment.
//! - `collision`: the collision of two particles, and the pass over the grid.
//! - `boundary`: the walls.
//! - `sim`: the simulation and its step through a frame.
//! - `meeting`: what a pass makes of two particles.
//! - `lone`: what a pass makes of one overlapping pair among many.

pub mod arith;
pub mod vector;
pub mod particle;
pub mod config;
pub mod boundary;
pub mod grid;
pub mod forces;
pub mod collision;
pub mod sim;
pub mod meeting;
pub mod lone;
