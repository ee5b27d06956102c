//! What a simulation is configured with, and what is refused.
//!
//! Lengths are in millionths of a unit, velocities in millionths of a unit
//! per second, accelerations in millionths of a unit per second squared,
//! and coefficients in thousandths.

use vstd::prelude::*;
use crate::arith::{in_range, LIMIT};
use crate::vector::Vec2;

verus! {

/// Largest particle radius and pointer reach: a thousand units.
pub const RADIUS_LIMIT: i64 = 1_000_000_000;

/// Largest magnitude of a wall's coordinate: half a million units.
pub const BOUNDS_LIMIT: i64 = 500_000_000_000;

/// Largest magnitude of a dimensionless coefficient: a thousand.
pub const COEFF_LIMIT: i64 = 1_000_000;

/// Largest speed below which a contact may be treated as resting: a
/// thousand units per second.
pub const REST_SPEED_LIMIT: i64 = 1_000_000_000;

/// Largest number of cells in a grid.
pub const MAX_CELLS: usize = 16_777_216;

/// Why a configuration is refused.
#[derive(Clone, Copy, Debug, PartialEq, Eq, Structural)]
pub enum ConfigError {
    /// The particle radius is negative.
    NegativeRadius,
    /// The cell size is zero or negative.
    NonPositiveCellSize,
    /// The bounds have no width or no height.
    EmptyBounds,
    /// A frame would be divided into no sub-steps.
    NoSubSteps,
    /// A value is beyond what the fixed-point arithmetic can carry.
    OutOfRange,
    /// The bounds hold more cells than a grid may have.
    GridTooLarge,
}

/// The walls of the simulation, axis-aligned, in millionths of a unit.
#[derive(Clone, Copy, Debug, PartialEq, Eq, Structural)]
pub struct Bounds {
    pub left: i64,
    pub right: i64,
    pub bottom: i64,
    pub top: i64,
}

impl Bounds {
    /// The walls enclose an area and lie within `BOUNDS_LIMIT`.
    pub open spec fn wf(self) -> bool {
        &&& -BOUNDS_LIMIT <= self.left < self.right <= BOUNDS_LIMIT
        &&& -BOUNDS_LIMIT <= self.bottom < self.top <= BOUNDS_LIMIT
    }

    pub open spec fn width(self) -> int {
        self.right - self.left
    }

    pub open spec fn height(self) -> int {
        self.top - self.bottom
    }

    /// What `validate` answers.
    pub open spec fn verdict(self) -> Result<(), ConfigError> {
        if self.left >= self.right || self.bottom >= self.top {
            Err(ConfigError::EmptyBounds)
        } else if self.left < -BOUNDS_LIMIT || self.right > BOUNDS_LIMIT || self.bottom
            < -BOUNDS_LIMIT || self.top > BOUNDS_LIMIT {
            Err(ConfigError::OutOfRange)
        } else {
            Ok(())
        }
    }

    /// Accepts the bounds that are well formed, and says why the others are
    /// not.
    pub fn validate(&self) -> (r: Result<(), ConfigError>)
        ensures
            r == self.verdict(),
            r.is_ok() <==> self.wf(),
    {
        if self.left >= self.right || self.bottom >= self.top {
            Err(ConfigError::EmptyBounds)
        } else if self.left < -BOUNDS_LIMIT || self.right > BOUNDS_LIMIT || self.bottom
            < -BOUNDS_LIMIT || self.top > BOUNDS_LIMIT {
            Err(ConfigError::OutOfRange)
        } else {
            Ok(())
        }
    }
}

/// The pointer as sampled for one frame, its position in millionths of a
/// unit.
#[derive(Clone, Copy, Debug, PartialEq, Eq, Structural)]
pub struct PointerState {
    pub position: Vec2,
    /// The attracting button is held.
    pub attract: bool,
    /// The repelling button is held.
    pub repel: bool,
}

/// The constants of a run.
#[derive(Clone, Copy, Debug, PartialEq, Eq, Structural)]
pub struct Params {
    /// Radius of every particle, in millionths of a unit.
    pub radius: i64,
    /// Acceleration applied to every particle, in millionths of a unit per
    /// second squared.
    pub gravity: Vec2,
    /// Factor applied to the velocity component normal to a wall on contact,
    /// in thousandths; negative to reflect.
    pub damping: i64,
    /// Fraction of the approach speed that a collision returns, in
    /// thousandths.
    pub restitution: i64,
    /// Fraction of the tangential relative velocity that a collision removes,
    /// in thousandths.
    pub friction: i64,
    /// Distance within which the pointer acts on a particle, in millionths
    /// of a unit.
    pub pointer_radius: i64,
    /// Acceleration that the pointer applies at its own position, in
    /// millionths of a unit per second squared.
    pub pointer_strength: i64,
    /// Number of sub-steps that a frame is divided into.
    pub sub_steps: u32,
    /// Distance below which a pair counts as coincident and is left alone,
    /// in millionths of a unit.
    pub min_separation: i64,
    /// Approach speed below which a collision returns nothing, in
    /// millionths of a unit per second.
    pub rest_speed: i64,
    /// Side of a grid cell, in millionths of a unit.
    pub cell_size: i64,
}

impl Params {
    /// Every value is one that the simulation can run with.
    pub open spec fn wf(self) -> bool {
        &&& 0 <= self.radius <= RADIUS_LIMIT
        &&& self.cell_size > 0
        &&& self.sub_steps >= 1
        &&& self.magnitudes_ok()
    }

    /// The values that have no meaning of their own to protect are within
    /// what the arithmetic can carry.
    pub open spec fn magnitudes_ok(self) -> bool {
        &&& self.radius <= RADIUS_LIMIT
        &&& self.gravity.wf()
        &&& -COEFF_LIMIT <= self.damping <= COEFF_LIMIT
        &&& -COEFF_LIMIT <= self.restitution <= COEFF_LIMIT
        &&& -COEFF_LIMIT <= self.friction <= COEFF_LIMIT
        &&& 0 <= self.pointer_radius <= RADIUS_LIMIT
        &&& in_range(self.pointer_strength as int)
        &&& 0 <= self.min_separation
        &&& 0 <= self.rest_speed <= REST_SPEED_LIMIT
    }

    /// What `validate` answers.
    pub open spec fn verdict(self) -> Result<(), ConfigError> {
        if self.radius < 0 {
            Err(ConfigError::NegativeRadius)
        } else if self.cell_size <= 0 {
            Err(ConfigError::NonPositiveCellSize)
        } else if self.sub_steps == 0 {
            Err(ConfigError::NoSubSteps)
        } else if !self.magnitudes_ok() {
            Err(ConfigError::OutOfRange)
        } else {
            Ok(())
        }
    }

    fn check_magnitudes(&self) -> (ok: bool)
        ensures
            ok == self.magnitudes_ok(),
    {
        self.radius <= RADIUS_LIMIT && -LIMIT <= self.gravity.x && self.gravity.x <= LIMIT
            && -LIMIT <= self.gravity.y && self.gravity.y <= LIMIT && -COEFF_LIMIT
            <= self.damping && self.damping <= COEFF_LIMIT && -COEFF_LIMIT <= self.restitution
            && self.restitution <= COEFF_LIMIT && -COEFF_LIMIT <= self.friction && self.friction
            <= COEFF_LIMIT && 0 <= self.pointer_radius && self.pointer_radius <= RADIUS_LIMIT
            && -LIMIT <= self.pointer_strength && self.pointer_strength <= LIMIT && 0
            <= self.min_separation && 0 <= self.rest_speed && self.rest_speed
            <= REST_SPEED_LIMIT
    }

    /// Accepts the parameters that are well formed, and says why the others
    /// are not.
    pub fn validate(&self) -> (r: Result<(), ConfigError>)
        ensures
            r == self.verdict(),
            r.is_ok() <==> self.wf(),
    {
        if self.radius < 0 {
            Err(ConfigError::NegativeRadius)
        } else if self.cell_size <= 0 {
            Err(ConfigError::NonPositiveCellSize)
        } else if self.sub_steps == 0 {
            Err(ConfigError::NoSubSteps)
        } else if !self.check_magnitudes() {
            Err(ConfigError::OutOfRange)
        } else {
            Ok(())
        }
    }
}

} // verus!
