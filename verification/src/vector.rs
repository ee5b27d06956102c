//! Two-dimensional fixed-point vectors.

use vstd::prelude::*;
use crate::arith::{in_range, saturate, saturate_i128};

verus! {

/// A pair of fixed-point components.
#[derive(Clone, Copy, Debug, PartialEq, Eq, Structural)]
pub struct Vec2 {
    pub x: i64,
    pub y: i64,
}

/// The squared length of the segment from `b` to `a`.
pub open spec fn dist_sq(a: Vec2, b: Vec2) -> int {
    (a.x - b.x) * (a.x - b.x) + (a.y - b.y) * (a.y - b.y)
}

impl Vec2 {
    /// Both components are within the range of a particle's state.
    pub open spec fn wf(self) -> bool {
        in_range(self.x as int) && in_range(self.y as int)
    }

    /// The vector with each component moved into range.
    pub open spec fn clamped(self) -> Vec2 {
        Vec2 { x: saturate(self.x as int) as i64, y: saturate(self.y as int) as i64 }
    }

    pub fn new(x: i64, y: i64) -> (v: Vec2)
        ensures
            v == (Vec2 { x, y }),
    {
        Vec2 { x, y }
    }

    /// The vector with each component moved into range.
    pub fn saturated(self) -> (v: Vec2)
        ensures
            v == self.clamped(),
            v.wf(),
            self.wf() ==> v == self,
    {
        Vec2 { x: saturate_i128(self.x as i128), y: saturate_i128(self.y as i128) }
    }
}

} // verus!
