//! The walls: a particle that has left the bounds is put back on the wall it
//! crossed, and its velocity across that wall is damped.

use vstd::prelude::*;
use crate::arith::{div_round, div_round_i128, in_range, saturate, saturate_i128, SCALE};
use crate::config::{Bounds, COEFF_LIMIT, RADIUS_LIMIT};
use crate::particle::{Particle, ParticleStore};
use crate::vector::Vec2;

verus! {

/// A velocity component after contact with a wall.
pub open spec fn damped(v: int, damping: int) -> int {
    saturate(div_round(v * damping, SCALE as int))
}

/// Coordinate and velocity along one axis after both walls of that axis
/// have been looked at, the upper one first. `lo` and `hi` are where a
/// centre may lie at least and at most.
pub open spec fn confine(p: int, v: int, lo: int, hi: int, damping: int) -> (int, int) {
    let upper = if p > hi {
        (hi, damped(v, damping))
    } else {
        (p, v)
    };
    if upper.0 < lo {
        (lo, damped(upper.1, damping))
    } else {
        upper
    }
}

/// The particle after all four walls have been looked at.
pub open spec fn bounded(p: Particle, bounds: Bounds, damping: int, radius: int) -> Particle {
    let (x, vx) = confine(
        p.position.x as int,
        p.velocity.x as int,
        bounds.left + radius,
        bounds.right - radius,
        damping,
    );
    let (y, vy) = confine(
        p.position.y as int,
        p.velocity.y as int,
        bounds.bottom + radius,
        bounds.top - radius,
        damping,
    );
    Particle {
        position: Vec2 { x: x as i64, y: y as i64 },
        velocity: Vec2 { x: vx as i64, y: vy as i64 },
    }
}

/// Every particle of `ps` lies within the walls by its whole radius.
pub open spec fn all_within(ps: Seq<Particle>, bounds: Bounds, radius: int) -> bool {
    forall|i: int|
        0 <= i < ps.len() ==> {
            let p = #[trigger] ps[i];
            &&& bounds.left + radius <= p.position.x <= bounds.right - radius
            &&& bounds.bottom + radius <= p.position.y <= bounds.top - radius
        }
}

/// The bounds have room for a particle of the given radius.
pub open spec fn has_room(bounds: Bounds, radius: int) -> bool {
    bounds.width() >= 2 * radius && bounds.height() >= 2 * radius
}

/// Where the bounds are at least a diameter wide and high, a particle that
/// the walls have been applied to lies within them by its whole radius, with
/// no tolerance.
pub proof fn lemma_bounded_is_contained(p: Particle, bounds: Bounds, damping: int, radius: int)
    requires
        bounds.wf(),
        0 <= radius <= RADIUS_LIMIT,
        has_room(bounds, radius),
    ensures
        ({
            let q = bounded(p, bounds, damping, radius);
            &&& bounds.left + radius <= q.position.x <= bounds.right - radius
            &&& bounds.bottom + radius <= q.position.y <= bounds.top - radius
        }),
{
}

/// A particle that lies within the walls by its whole radius is left as it
/// is.
pub proof fn lemma_bounded_keeps_inside(p: Particle, bounds: Bounds, damping: int, radius: int)
    requires
        bounds.left + radius <= p.position.x <= bounds.right - radius,
        bounds.bottom + radius <= p.position.y <= bounds.top - radius,
    ensures
        bounded(p, bounds, damping, radius) == p,
{
}

fn damp(v: i64, damping: i64) -> (r: i64)
    requires
        in_range(v as int),
        -COEFF_LIMIT <= damping <= COEFF_LIMIT,
    ensures
        r == damped(v as int, damping as int),
        in_range(r as int),
{
    assert(-1_000_000_000_000_000_000 <= v * damping <= 1_000_000_000_000_000_000)
        by (nonlinear_arith)
        requires
            -1_000_000_000_000 <= v <= 1_000_000_000_000,
            -1_000_000 <= damping <= 1_000_000,
    ;
    saturate_i128(div_round_i128(v as i128 * damping as i128, SCALE as i128))
}

fn confine_axis(p: i64, v: i64, lo: i64, hi: i64, damping: i64) -> (r: (i64, i64))
    requires
        in_range(p as int),
        in_range(v as int),
        in_range(lo as int),
        in_range(hi as int),
        -COEFF_LIMIT <= damping <= COEFF_LIMIT,
    ensures
        (r.0 as int, r.1 as int) == confine(p as int, v as int, lo as int, hi as int, damping as int),
        in_range(r.0 as int),
        in_range(r.1 as int),
{
    let mut q: i64 = p;
    let mut w: i64 = v;
    if q > hi {
        q = hi;
        w = damp(w, damping);
    }
    if q < lo {
        q = lo;
        w = damp(w, damping);
    }
    (q, w)
}

/// Applies the four walls to one particle.
pub fn bound_particle(p: Particle, bounds: &Bounds, damping: i64, radius: i64) -> (q: Particle)
    requires
        p.wf(),
        bounds.wf(),
        -COEFF_LIMIT <= damping <= COEFF_LIMIT,
        0 <= radius <= RADIUS_LIMIT,
    ensures
        q == bounded(p, *bounds, damping as int, radius as int),
        q.wf(),
{
    let (x, vx) = confine_axis(
        p.position.x,
        p.velocity.x,
        bounds.left + radius,
        bounds.right - radius,
        damping,
    );
    let (y, vy) = confine_axis(
        p.position.y,
        p.velocity.y,
        bounds.bottom + radius,
        bounds.top - radius,
        damping,
    );
    Particle { position: Vec2 { x, y }, velocity: Vec2 { x: vx, y: vy } }
}

/// Applies the four walls to every particle.
pub fn enforce_bounds(particles: &mut ParticleStore, bounds: &Bounds, damping: i64, radius: i64)
    requires
        old(particles).wf(),
        bounds.wf(),
        -COEFF_LIMIT <= damping <= COEFF_LIMIT,
        0 <= radius <= RADIUS_LIMIT,
    ensures
        final(particles).wf(),
        final(particles)@.len() == old(particles)@.len(),
        forall|i: int|
            0 <= i < old(particles)@.len() ==> #[trigger] final(particles)@[i] == bounded(
                old(particles)@[i],
                *bounds,
                damping as int,
                radius as int,
            ),
        has_room(*bounds, radius as int) ==> all_within(final(particles)@, *bounds, radius as int),
{
    let n: usize = particles.len();
    let mut i: usize = 0;
    while i < n
        invariant
            i <= n,
            n == particles@.len(),
            particles@.len() == old(particles)@.len(),
            particles.wf(),
            bounds.wf(),
            -COEFF_LIMIT <= damping <= COEFF_LIMIT,
            0 <= radius <= RADIUS_LIMIT,
            forall|k: int|
                0 <= k < i ==> #[trigger] particles@[k] == bounded(
                    old(particles)@[k],
                    *bounds,
                    damping as int,
                    radius as int,
                ),
            forall|k: int| i <= k < n ==> #[trigger] particles@[k] == old(particles)@[k],
        decreases n - i,
    {
        let q = bound_particle(particles.get(i), bounds, damping, radius);
        particles.set(i, q);
        i += 1;
    }
}

} // verus!
