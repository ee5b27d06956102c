//! Gravity, the pointer, and the advance of a particle over a time
//! increment.
//!
//! The pointer acts on the particles within its reach with a strength that
//! falls off with the square of one minus the distance over the reach:
//! attracting, it pulls them toward itself; repelling, it pushes them away.
//! The velocity is advanced first and the position by the new velocity.

use vstd::prelude::*;
use crate::arith::{
    div_round,
    div_round_i128,
    in_range,
    isqrt,
    isqrt_u64,
    lemma_isqrt_exists,
    lemma_div_round_bound,
    lemma_div_round_near,
    lemma_div_round_part,
    lemma_mul_bound,
    lemma_square_below,
    saturate,
    saturate_i128,
    MICROS,
};
use crate::config::{Params, PointerState};
use crate::particle::{Particle, ParticleStore};
use crate::vector::Vec2;

verus! {

/// The pointer's strength at `dist` from it: `strength` at the pointer,
/// nothing at `reach`, and in between the square of what is left of the
/// reach.
pub open spec fn falloff(strength: int, dist: int, reach: int) -> int {
    div_round((reach - dist) * (reach - dist) * strength, reach * reach)
}

/// One component of the velocity that the pointer gives over `dt`
/// microseconds to a particle `dist` away: `offset` is that component of
/// the way from the particle to the pointer.
pub open spec fn push_component(offset: int, strength: int, dist: int, dt: int) -> int {
    div_round(offset * strength * dt, dist * MICROS)
}

/// The velocity that the pointer gives to a particle at `position` over
/// `dt` microseconds. With the attracting button held it points from the
/// particle to the pointer; with the repelling button alone it is the
/// opposite of that, and points away from the pointer. A particle at the
/// pointer itself or not within reach gets none.
pub open spec fn pointer_push(position: Vec2, pointer: PointerState, params: Params, dt: int) -> (
    int,
    int,
) {
    let target = pointer.position.clamped();
    let dx = target.x - position.x;
    let dy = target.y - position.y;
    let s = dx * dx + dy * dy;
    let reach = params.pointer_radius as int;
    if !(pointer.attract || pointer.repel) || s == 0 || s >= reach * reach {
        (0, 0)
    } else {
        let dist = isqrt(s);
        let strength = falloff(params.pointer_strength as int, dist, reach);
        let px = push_component(dx, strength, dist, dt);
        let py = push_component(dy, strength, dist, dt);
        if pointer.attract {
            (px, py)
        } else {
            (-px, -py)
        }
    }
}

/// The change of a quantity that changes by `rate` per second, over `dt`
/// microseconds.
pub open spec fn over_time(rate: int, dt: int) -> int {
    div_round(rate * dt, MICROS as int)
}

/// The change over time is the exact one to within half a sub-unit.
pub proof fn lemma_over_time_near(rate: int, dt: int)
    ensures
        -MICROS <= 2 * (rate * dt - over_time(rate, dt) * MICROS) <= MICROS,
{
    lemma_div_round_near(rate * dt, MICROS as int);
}

/// The particle `dt` microseconds later: the velocity takes up gravity and
/// the pointer, and the position then moves by the new velocity.
pub open spec fn advanced(p: Particle, pointer: PointerState, params: Params, dt: int) -> Particle {
    let push = pointer_push(p.position, pointer, params, dt);
    let vx = saturate(p.velocity.x + push.0 + over_time(params.gravity.x as int, dt));
    let vy = saturate(p.velocity.y + push.1 + over_time(params.gravity.y as int, dt));
    Particle {
        position: Vec2 {
            x: saturate(p.position.x + over_time(vx, dt)) as i64,
            y: saturate(p.position.y + over_time(vy, dt)) as i64,
        },
        velocity: Vec2 { x: vx as i64, y: vy as i64 },
    }
}

/// With no time passing a particle stays as it is.
pub proof fn lemma_advanced_zero_time(p: Particle, pointer: PointerState, params: Params)
    requires
        p.wf(),
    ensures
        advanced(p, pointer, params, 0) == p,
{
    let push = pointer_push(p.position, pointer, params, 0);
    let target = pointer.position.clamped();
    let dx = target.x - p.position.x;
    let dy = target.y - p.position.y;
    let s = dx * dx + dy * dy;
    let reach = params.pointer_radius as int;
    if !(!(pointer.attract || pointer.repel) || s == 0 || s >= reach * reach) {
        let dist = isqrt(s);
        let strength = falloff(params.pointer_strength as int, dist, reach);
        assert(dx * strength * 0 == 0) by (nonlinear_arith);
        assert(dy * strength * 0 == 0) by (nonlinear_arith);
        assert(s >= 0) by (nonlinear_arith)
            requires
                s == dx * dx + dy * dy,
        ;
        lemma_isqrt_exists(s);
        lemma_div_round_bound(0, dist * MICROS, 0);
    }
    assert(push == (0int, 0int));
    lemma_div_round_bound(0, MICROS as int, 0);
}

/// What the repelling pointer gives is the opposite of what the attracting
/// pointer gives, and an attracting pointer of a strength that is not
/// negative gives a velocity toward itself: no component of it points away
/// from the pointer.
pub proof fn lemma_pointer_pulls_and_pushes(
    position: Vec2,
    at: Vec2,
    params: Params,
    dt: int,
)
    requires
        position.wf(),
        params.wf(),
        params.pointer_strength >= 0,
        dt >= 0,
    ensures
        ({
            let pull = pointer_push(
                position,
                PointerState { position: at, attract: true, repel: false },
                params,
                dt,
            );
            let both = pointer_push(
                position,
                PointerState { position: at, attract: true, repel: true },
                params,
                dt,
            );
            let push = pointer_push(
                position,
                PointerState { position: at, attract: false, repel: true },
                params,
                dt,
            );
            let dx = at.clamped().x - position.x;
            let dy = at.clamped().y - position.y;
            &&& push == (-pull.0, -pull.1)
            &&& both == pull
            &&& dx >= 0 ==> pull.0 >= 0
            &&& dx <= 0 ==> pull.0 <= 0
            &&& dy >= 0 ==> pull.1 >= 0
            &&& dy <= 0 ==> pull.1 <= 0
        }),
{
    let target = at.clamped();
    let dx = target.x - position.x;
    let dy = target.y - position.y;
    let s = dx * dx + dy * dy;
    let reach = params.pointer_radius as int;
    if s != 0 && s < reach * reach {
        assert(s >= 0) by (nonlinear_arith)
            requires
                s == dx * dx + dy * dy,
        ;
        lemma_isqrt_exists(s);
        let dist = isqrt(s);
        let left = reach - dist;
        let f = params.pointer_strength as int;
        let w = left * left * f;
        assert(w >= 0) by (nonlinear_arith)
            requires
                w == left * left * f,
                f >= 0,
        ;
        assert(reach * reach >= 1);
        lemma_div_round_bound(w, reach * reach, w);
        let strength = falloff(f, dist, reach);
        assert(strength >= 0);
        let below = dist * MICROS;
        assert(below >= 1) by (nonlinear_arith)
            requires
                below == dist * MICROS,
                dist >= 1,
        ;
        lemma_push_sense(dx, strength, dt, below);
        lemma_push_sense(dy, strength, dt, below);
    }
}

proof fn lemma_push_sense(offset: int, strength: int, dt: int, below: int)
    requires
        strength >= 0,
        dt >= 0,
        below >= 1,
    ensures
        offset >= 0 ==> div_round(offset * strength * dt, below) >= 0,
        offset <= 0 ==> div_round(offset * strength * dt, below) <= 0,
{
    let n = offset * strength * dt;
    assert((offset >= 0 ==> n >= 0) && (offset <= 0 ==> n <= 0)) by (nonlinear_arith)
        requires
            n == offset * strength * dt,
            strength >= 0,
            dt >= 0,
    ;
    lemma_div_round_bound(n, below, if n >= 0 { n } else { -n });
}

fn change_over(rate: i64, dt: u32) -> (r: i128)
    requires
        in_range(rate as int),
    ensures
        r == over_time(rate as int, dt as int),
        -4_294_967_296_000_000_000_000 <= r <= 4_294_967_296_000_000_000_000,
{
    proof {
        lemma_mul_bound(rate as int, dt as int, 1_000_000_000_000, 0x1_0000_0000);
        lemma_div_round_bound(rate * dt, MICROS as int, 4_294_967_296_000_000_000_000int);
    }
    div_round_i128(rate as i128 * dt as i128, MICROS as i128)
}

fn push_for(offset: i128, strength: i128, dist: u64, dt: u32) -> (r: i128)
    requires
        -1_000_000_000 <= offset <= 1_000_000_000,
        -1_000_000_000_000 <= strength <= 1_000_000_000_000,
        1 <= dist <= 1_000_000_000,
    ensures
        r == push_component(offset as int, strength as int, dist as int, dt as int),
        -4_294_967_296_000_000_000_000_000_000_000 <= r <= 4_294_967_296_000_000_000_000_000_000_000,
{
    proof {
        lemma_mul_bound(offset as int, strength as int, 1_000_000_000, 1_000_000_000_000);
        lemma_mul_bound(
            offset * strength,
            dt as int,
            1_000_000_000_000_000_000_000int,
            0x1_0000_0000,
        );
        lemma_div_round_bound(
            offset * strength * dt,
            dist * MICROS,
            4_294_967_296_000_000_000_000_000_000_000int,
        );
    }
    div_round_i128(offset * strength * dt as i128, dist as i128 * MICROS as i128)
}

fn pointer_push_of(position: Vec2, pointer: &PointerState, params: &Params, dt: u32) -> (r: (
    i128,
    i128,
))
    requires
        position.wf(),
        params.wf(),
    ensures
        (r.0 as int, r.1 as int) == pointer_push(position, *pointer, *params, dt as int),
        -4_294_967_296_000_000_000_000_000_000_000 <= r.0 <= 4_294_967_296_000_000_000_000_000_000_000,
        -4_294_967_296_000_000_000_000_000_000_000 <= r.1 <= 4_294_967_296_000_000_000_000_000_000_000,
{
    if !(pointer.attract || pointer.repel) {
        return (0, 0);
    }
    let target = pointer.position.saturated();
    let dx: i128 = target.x as i128 - position.x as i128;
    let dy: i128 = target.y as i128 - position.y as i128;
    proof {
        lemma_mul_bound(dx as int, dx as int, 2_000_000_000_000, 2_000_000_000_000);
        lemma_mul_bound(dy as int, dy as int, 2_000_000_000_000, 2_000_000_000_000);
        assert(dx * dx >= 0 && dy * dy >= 0) by (nonlinear_arith);
    }
    let s: i128 = dx * dx + dy * dy;
    let reach: i128 = params.pointer_radius as i128;
    proof {
        lemma_mul_bound(reach as int, reach as int, 1_000_000_000, 1_000_000_000);
    }
    if s == 0 || s >= reach * reach {
        return (0, 0);
    }
    let dist: u64 = isqrt_u64(s as u64);
    proof {
        lemma_square_below(dx as int, reach as int);
        lemma_square_below(dy as int, reach as int);
        lemma_square_below(dist as int, reach as int);
        let left = reach - dist;
        lemma_mul_bound(left, left, reach as int, reach as int);
        assert(0 <= left * left <= reach * reach) by (nonlinear_arith)
            requires
                0 <= left <= reach,
        ;
        lemma_mul_bound(
            left * left,
            params.pointer_strength as int,
            1_000_000_000_000_000_000int,
            1_000_000_000_000,
        );
        lemma_div_round_part(
            left * left,
            params.pointer_strength as int,
            reach * reach,
            1_000_000_000_000,
        );
    }
    let left: i128 = reach - dist as i128;
    let strength: i128 = div_round_i128(
        left * left * params.pointer_strength as i128,
        reach * reach,
    );
    let px: i128 = push_for(dx, strength, dist, dt);
    let py: i128 = push_for(dy, strength, dist, dt);
    if pointer.attract {
        (px, py)
    } else {
        (-px, -py)
    }
}

/// Advances one particle by `dt` microseconds.
pub fn advance(p: Particle, pointer: &PointerState, params: &Params, dt: u32) -> (q: Particle)
    requires
        p.wf(),
        params.wf(),
    ensures
        q == advanced(p, *pointer, *params, dt as int),
        q.wf(),
{
    let push = pointer_push_of(p.position, pointer, params, dt);
    let vx: i64 = saturate_i128(p.velocity.x as i128 + push.0 + change_over(params.gravity.x, dt));
    let vy: i64 = saturate_i128(p.velocity.y as i128 + push.1 + change_over(params.gravity.y, dt));
    let x: i64 = saturate_i128(p.position.x as i128 + change_over(vx, dt));
    let y: i64 = saturate_i128(p.position.y as i128 + change_over(vy, dt));
    Particle { position: Vec2 { x, y }, velocity: Vec2 { x: vx, y: vy } }
}

/// Advances every particle by `dt` microseconds under gravity and the
/// pointer.
pub fn integrate(particles: &mut ParticleStore, dt: u32, pointer: &PointerState, params: &Params)
    requires
        old(particles).wf(),
        params.wf(),
    ensures
        final(particles).wf(),
        final(particles)@.len() == old(particles)@.len(),
        forall|i: int|
            0 <= i < old(particles)@.len() ==> #[trigger] final(particles)@[i] == advanced(
                old(particles)@[i],
                *pointer,
                *params,
                dt as int,
            ),
{
    let n: usize = particles.len();
    let mut i: usize = 0;
    while i < n
        invariant
            i <= n,
            n == particles@.len(),
            particles@.len() == old(particles)@.len(),
            particles.wf(),
            params.wf(),
            forall|k: int|
                0 <= k < i ==> #[trigger] particles@[k] == advanced(
                    old(particles)@[k],
                    *pointer,
                    *params,
                    dt as int,
                ),
            forall|k: int| i <= k < n ==> #[trigger] particles@[k] == old(particles)@[k],
        decreases n - i,
    {
        let q = advance(particles.get(i), pointer, params, dt);
        particles.set(i, q);
        i += 1;
    }
}

} // verus!
