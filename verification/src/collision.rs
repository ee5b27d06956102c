//! Collisions between particles.
//!
//! Two particles whose centres are nearer than a diameter are first moved
//! apart along the line of their centres, each by half of what they
//! overlap, and then, unless they are already moving apart, exchange an
//! impulse along that line and lose a part of their relative velocity
//! across it. Particles are equal in mass, so whatever one gets the other
//! loses.

use vstd::prelude::*;
use crate::arith::{
    div_away,
    div_away_i128,
    div_round,
    div_round_i128,
    in_range,
    isqrt,
    isqrt_u64,
    lemma_div_away_bound,
    lemma_div_round_bound,
    lemma_isqrt_exists,
    lemma_mul_bound,
    lemma_square_below,
    lemma_square_monotone,
    saturate,
    saturate_i128,
    SCALE,
};
use crate::config::Params;
use crate::grid::{lemma_dims_bounded, lemma_neighbors_in_grid, Grid, GridView};
use crate::particle::{Particle, ParticleStore};
use crate::vector::{dist_sq, Vec2};

verus! {

/// Two particles at `a` and `b` act on each other: their centres are nearer
/// than a diameter, not nearer than the least separation, and not in one
/// place.
pub open spec fn interacts(a: Vec2, b: Vec2, params: Params) -> bool {
    let s = dist_sq(a, b);
    &&& s < (2 * params.radius) * (2 * params.radius)
    &&& s >= params.min_separation * params.min_separation
    &&& s > 0
}

/// One component of the move that takes half of the overlap away from a
/// particle: `offset` is that component of the way from the other centre to
/// its own, `dist` the distance of the centres. It is rounded away from
/// zero, so that no overlap is left.
pub open spec fn correction(offset: int, dist: int, radius: int) -> int {
    div_away(offset * (2 * radius - dist), 2 * dist)
}

/// The positions of two particles at `a` and `b` after they have been moved
/// apart.
pub open spec fn separated(a: Vec2, b: Vec2, radius: int) -> (Vec2, Vec2) {
    let dist = isqrt(dist_sq(a, b));
    let cx = correction(a.x - b.x, dist, radius);
    let cy = correction(a.y - b.y, dist, radius);
    (
        Vec2 { x: saturate(a.x + cx) as i64, y: saturate(a.y + cy) as i64 },
        Vec2 { x: saturate(b.x - cx) as i64, y: saturate(b.y - cy) as i64 },
    )
}

/// The velocity of `a` relative to `b` along the way from `b` to `a`, times
/// the distance of the two. It is positive where the two are moving apart.
pub open spec fn closing(a: Particle, b: Particle) -> int {
    (a.velocity.x - b.velocity.x) * (a.position.x - b.position.x) + (a.velocity.y
        - b.velocity.y) * (a.position.y - b.position.y)
}

/// The speed along the line of centres is below `rest_speed`: `c` is that
/// speed times the distance, `s` the distance squared.
pub open spec fn resting(c: int, s: int, rest_speed: int) -> bool {
    c * c < rest_speed * rest_speed * s
}

/// The restitution that a collision has: none in a resting contact.
pub open spec fn effective_restitution(c: int, s: int, params: Params) -> int {
    if resting(c, s, params.rest_speed as int) {
        0
    } else {
        params.restitution as int
    }
}

/// One component of the impulse along the line of centres: half of the
/// speed along that line, and `e` thousandths of it again, turned round.
pub open spec fn impulse(offset: int, c: int, s: int, e: int) -> int {
    div_round(-(offset * (SCALE + e) * c), 2 * s * SCALE)
}

/// One component of the relative velocity across the line of centres.
pub open spec fn tangent(rel: int, offset: int, c: int, s: int) -> int {
    rel - div_round(offset * c, s)
}

/// What friction takes from one particle of a component `t` of the
/// relative velocity across the line of centres.
pub open spec fn drag(t: int, friction: int) -> int {
    div_round(t * friction, 2 * SCALE)
}

/// One component of the velocity that a collision gives to the first
/// particle and takes from the second.
pub open spec fn kick(rel: int, offset: int, c: int, s: int, e: int, friction: int) -> int {
    impulse(offset, c, s, e) - drag(tangent(rel, offset, c, s), friction)
}

/// The velocities of two particles after their collision.
pub open spec fn responded(a: Particle, b: Particle, params: Params) -> (Vec2, Vec2) {
    let dx = a.position.x - b.position.x;
    let dy = a.position.y - b.position.y;
    let s = dist_sq(a.position, b.position);
    let c = closing(a, b);
    let e = effective_restitution(c, s, params);
    let kx = kick(a.velocity.x - b.velocity.x, dx, c, s, e, params.friction as int);
    let ky = kick(a.velocity.y - b.velocity.y, dy, c, s, e, params.friction as int);
    (
        Vec2 { x: saturate(a.velocity.x + kx) as i64, y: saturate(a.velocity.y + ky) as i64 },
        Vec2 { x: saturate(b.velocity.x - kx) as i64, y: saturate(b.velocity.y - ky) as i64 },
    )
}

/// Two particles after they have been held against each other: as they
/// were where they do not act on each other; else moved apart, and with
/// new velocities unless they were moving apart.
pub open spec fn collided(a: Particle, b: Particle, params: Params) -> (Particle, Particle) {
    if !interacts(a.position, b.position, params) {
        (a, b)
    } else {
        let pos = separated(a.position, b.position, params.radius as int);
        let vel = if closing(a, b) > 0 {
            (a.velocity, b.velocity)
        } else {
            responded(a, b, params)
        };
        (Particle { position: pos.0, velocity: vel.0 }, Particle { position: pos.1, velocity: vel.1 })
    }
}

/// The moves that part two particles keep both within range.
pub open spec fn correction_fits(a: Vec2, b: Vec2, radius: int) -> bool {
    let dist = isqrt(dist_sq(a, b));
    let cx = correction(a.x - b.x, dist, radius);
    let cy = correction(a.y - b.y, dist, radius);
    &&& in_range(a.x + cx)
    &&& in_range(a.y + cy)
    &&& in_range(b.x - cx)
    &&& in_range(b.y - cy)
}

/// Two particles that have been held against each other are a full
/// diameter apart, or more, unless they were in one place or nearer than
/// the least separation, and were left as they were. A pair that was
/// parted has moved by as much one way as the other.
pub proof fn lemma_collided_apart(a: Particle, b: Particle, params: Params)
    requires
        a.wf(),
        b.wf(),
        params.wf(),
        interacts(a.position, b.position, params) ==> correction_fits(
            a.position,
            b.position,
            params.radius as int,
        ),
    ensures
        ({
            let r = collided(a, b, params);
            let s = dist_sq(a.position, b.position);
            &&& (s == 0 || s < params.min_separation * params.min_separation) ==> r == (a, b)
            &&& !(s == 0 || s < params.min_separation * params.min_separation) ==> dist_sq(
                r.0.position,
                r.1.position,
            ) >= (2 * params.radius) * (2 * params.radius)
            &&& r.0.position.x - a.position.x == b.position.x - r.1.position.x
            &&& r.0.position.y - a.position.y == b.position.y - r.1.position.y
        }),
{
    if interacts(a.position, b.position, params) {
        lemma_separated_apart(a.position, b.position, params);
    }
}

proof fn lemma_separated_apart(a: Vec2, b: Vec2, params: Params)
    requires
        a.wf(),
        b.wf(),
        params.wf(),
        interacts(a, b, params),
        correction_fits(a, b, params.radius as int),
    ensures
        ({
            let r = separated(a, b, params.radius as int);
            &&& dist_sq(r.0, r.1) >= (2 * params.radius) * (2 * params.radius)
            &&& r.0.x - a.x == b.x - r.1.x
            &&& r.0.y - a.y == b.y - r.1.y
        }),
{
    let radius = params.radius as int;
    let m = 2 * radius;
    let dx = a.x - b.x;
    let dy = a.y - b.y;
    let s = dist_sq(a, b);
    lemma_isqrt_exists(s);
    let q = isqrt(s);
    let cx = correction(dx, q, radius);
    let cy = correction(dy, q, radius);
    lemma_square_below(q, m);
    lemma_stretch(dx, q, m);
    lemma_stretch(dy, q, m);
    let ex = dx + 2 * cx;
    let ey = dy + 2 * cy;
    let r = separated(a, b, radius);
    assert(r.0.x - r.1.x == ex);
    assert(r.0.y - r.1.y == ey);
    assert(q * q * (ex * ex + ey * ey) == q * q * (ex * ex) + q * q * (ey * ey))
        by (nonlinear_arith);
    assert(m * m * s == m * m * (dx * dx) + m * m * (dy * dy)) by (nonlinear_arith)
        requires
            s == dx * dx + dy * dy,
    ;
    assert(m * m * s >= m * m * (q * q)) by (nonlinear_arith)
        requires
            s >= q * q,
    ;
    assert(ex * ex + ey * ey >= m * m) by (nonlinear_arith)
        requires
            q >= 1,
            q * q * (ex * ex + ey * ey) >= (q * q) * (m * m),
    ;
}

/// A component `d` of the way between two centres that are `q` apart, and
/// less than `m`, is stretched by the correction of both particles to no
/// less than `d` times `m` over `q`.
proof fn lemma_stretch(d: int, q: int, m: int)
    requires
        1 <= q < m,
    ensures
        ({
            let e = d + 2 * div_away(d * (m - q), 2 * q);
            q * q * (e * e) >= m * m * (d * d)
        }),
{
    let c = div_away(d * (m - q), 2 * q);
    let e = d + 2 * c;
    let n = d * (m - q);
    if d >= 0 {
        assert(n >= 0) by (nonlinear_arith)
            requires
                n == d * (m - q),
                d >= 0,
                m - q > 0,
        ;
        lemma_div_away_bound(n, 2 * q, n);
        assert(q * e >= d * m) by (nonlinear_arith)
            requires
                c * (2 * q) >= n,
                n == d * (m - q),
                e == d + 2 * c,
        ;
        assert(d * m >= 0) by (nonlinear_arith)
            requires
                d >= 0,
                m >= 0,
        ;
        lemma_square_monotone(d * m, q * e);
    } else {
        assert(n <= 0) by (nonlinear_arith)
            requires
                n == d * (m - q),
                d < 0,
                m - q > 0,
        ;
        lemma_div_away_bound(n, 2 * q, -n);
        assert(q * e <= d * m) by (nonlinear_arith)
            requires
                c * (2 * q) <= n,
                n == d * (m - q),
                e == d + 2 * c,
        ;
        assert(-(d * m) >= 0) by (nonlinear_arith)
            requires
                d < 0,
                m >= 0,
        ;
        lemma_square_monotone(-(d * m), -(q * e));
        assert((-(d * m)) * (-(d * m)) == (d * m) * (d * m)) by (nonlinear_arith);
        assert((-(q * e)) * (-(q * e)) == (q * e) * (q * e)) by (nonlinear_arith);
    }
    assert((q * e) * (q * e) == q * q * (e * e)) by (nonlinear_arith);
    assert((d * m) * (d * m) == m * m * (d * d)) by (nonlinear_arith);
}

/// The velocities that a collision gives are within range as they are.
pub open spec fn response_fits(a: Particle, b: Particle, params: Params) -> bool {
    let s = dist_sq(a.position, b.position);
    let c = closing(a, b);
    let e = effective_restitution(c, s, params);
    let kx = kick(
        a.velocity.x - b.velocity.x,
        a.position.x - b.position.x,
        c,
        s,
        e,
        params.friction as int,
    );
    let ky = kick(
        a.velocity.y - b.velocity.y,
        a.position.y - b.position.y,
        c,
        s,
        e,
        params.friction as int,
    );
    &&& in_range(a.velocity.x + kx)
    &&& in_range(a.velocity.y + ky)
    &&& in_range(b.velocity.x - kx)
    &&& in_range(b.velocity.y - ky)
}

/// What a collision gives to one particle it takes from the other: the sum
/// of the two velocities stays as it is.
pub proof fn lemma_collided_keeps_momentum(a: Particle, b: Particle, params: Params)
    requires
        a.wf(),
        b.wf(),
        interacts(a.position, b.position, params) && closing(a, b) <= 0 ==> response_fits(
            a,
            b,
            params,
        ),
    ensures
        ({
            let r = collided(a, b, params);
            &&& r.0.velocity.x + r.1.velocity.x == a.velocity.x + b.velocity.x
            &&& r.0.velocity.y + r.1.velocity.y == a.velocity.y + b.velocity.y
        }),
{
}

proof fn lemma_kick_odd(rel: int, offset: int, c: int, s: int, e: int, friction: int)
    requires
        s >= 1,
    ensures
        kick(-rel, -offset, c, s, e, friction) == -kick(rel, offset, c, s, e, friction),
{
    let n = offset * (SCALE + e) * c;
    assert((-offset) * (SCALE + e) * c == -n) by (nonlinear_arith)
        requires
            n == offset * (SCALE + e) * c,
    ;
    assert(2 * s * SCALE >= 1) by (nonlinear_arith)
        requires
            s >= 1,
    ;
    let bound_n = if n >= 0 { n } else { -n };
    lemma_div_round_bound(-n, 2 * s * SCALE, bound_n);
    let w = offset * c;
    assert((-offset) * c == -w) by (nonlinear_arith)
        requires
            w == offset * c,
    ;
    let bound_w = if w >= 0 { w } else { -w };
    lemma_div_round_bound(w, s, bound_w);
    let t = tangent(rel, offset, c, s);
    assert(tangent(-rel, -offset, c, s) == -t);
    let u = t * friction;
    assert((-t) * friction == -u) by (nonlinear_arith)
        requires
            u == t * friction,
    ;
    let bound_u = if u >= 0 { u } else { -u };
    lemma_div_round_bound(u, 2 * SCALE, bound_u);
}

/// A collision does not depend on which of the two particles is named
/// first.
pub proof fn lemma_collided_symmetric(a: Particle, b: Particle, params: Params)
    ensures
        collided(b, a, params) == (collided(a, b, params).1, collided(a, b, params).0),
{
    let dx = a.position.x - b.position.x;
    let dy = a.position.y - b.position.y;
    let s = dist_sq(a.position, b.position);
    assert(dist_sq(b.position, a.position) == s) by (nonlinear_arith)
        requires
            s == dx * dx + dy * dy,
            dist_sq(b.position, a.position) == (-dx) * (-dx) + (-dy) * (-dy),
    ;
    let rx = a.velocity.x - b.velocity.x;
    let ry = a.velocity.y - b.velocity.y;
    let c = closing(a, b);
    assert(closing(b, a) == c) by (nonlinear_arith)
        requires
            c == rx * dx + ry * dy,
            closing(b, a) == (-rx) * (-dx) + (-ry) * (-dy),
    ;
    if interacts(a.position, b.position, params) {
        lemma_isqrt_exists(s);
        let q = isqrt(s);
        let radius = params.radius as int;
        let nx = dx * (2 * radius - q);
        let ny = dy * (2 * radius - q);
        assert((-dx) * (2 * radius - q) == -nx) by (nonlinear_arith)
            requires
                nx == dx * (2 * radius - q),
        ;
        assert((-dy) * (2 * radius - q) == -ny) by (nonlinear_arith)
            requires
                ny == dy * (2 * radius - q),
        ;
        lemma_div_away_bound(nx, 2 * q, if nx >= 0 { nx } else { -nx });
        lemma_div_away_bound(ny, 2 * q, if ny >= 0 { ny } else { -ny });
        assert(correction(-dx, q, radius) == -correction(dx, q, radius));
        assert(correction(-dy, q, radius) == -correction(dy, q, radius));
        let e = effective_restitution(c, s, params);
        lemma_kick_odd(rx, dx, c, s, e, params.friction as int);
        lemma_kick_odd(ry, dy, c, s, e, params.friction as int);
    }
}

/// A collision changes no velocity of two particles that are moving
/// apart.
pub proof fn lemma_parting_keeps_velocity(a: Particle, b: Particle, params: Params)
    requires
        closing(a, b) > 0,
    ensures
        collided(a, b, params).0.velocity == a.velocity,
        collided(a, b, params).1.velocity == b.velocity,
{
}

/// Two particles that are a diameter apart, or more, are left as they
/// are.
pub proof fn lemma_apart_unchanged(a: Particle, b: Particle, params: Params)
    requires
        dist_sq(a.position, b.position) >= (2 * params.radius) * (2 * params.radius),
    ensures
        collided(a, b, params) == (a, b),
{
}

fn correction_of(offset: i128, dist: u64, diameter: i128) -> (r: i128)
    requires
        -2_000_000_000 <= offset <= 2_000_000_000,
        1 <= dist < diameter <= 2_000_000_000,
        diameter % 2 == 0,
    ensures
        r == correction(offset as int, dist as int, diameter / 2),
        -4_000_000_000_000_000_000 <= r <= 4_000_000_000_000_000_000,
{
    let overlap: i128 = diameter - dist as i128;
    proof {
        lemma_mul_bound(offset as int, overlap as int, 2_000_000_000, 2_000_000_000);
        lemma_div_away_bound(offset * overlap, 2 * dist, 4_000_000_000_000_000_000);
    }
    div_away_i128(offset * overlap, 2 * dist as i128)
}

fn is_resting(c: i128, s: i128, rest_speed: i64) -> (r: bool)
    requires
        -8_000_000_000_000_000_000_000 <= c <= 8_000_000_000_000_000_000_000,
        1 <= s <= 4_000_000_000_000_000_000,
        0 <= rest_speed <= 1_000_000_000,
    ensures
        r == resting(c as int, s as int, rest_speed as int),
{
    let t: i128 = rest_speed as i128;
    proof {
        lemma_mul_bound(t as int, t as int, 1_000_000_000, 1_000_000_000);
        lemma_mul_bound(
            t * t,
            s as int,
            1_000_000_000_000_000_000,
            4_000_000_000_000_000_000,
        );
        assert(t * t >= 0) by (nonlinear_arith);
    }
    let bound: i128 = t * t * s;
    if c > 3_000_000_000_000_000_000 || c < -3_000_000_000_000_000_000 {
        proof {
            let m = if c > 0 { c as int } else { -c };
            lemma_square_monotone(3_000_000_000_000_000_000, m);
            assert(m * m == c * c) by (nonlinear_arith)
                requires
                    m == c || m == -c,
            ;
        }
        false
    } else {
        proof {
            lemma_mul_bound(
                c as int,
                c as int,
                3_000_000_000_000_000_000,
                3_000_000_000_000_000_000,
            );
        }
        c * c < bound
    }
}

fn kick_of(rel: i128, offset: i128, c: i128, s: i128, e: i128, friction: i64) -> (r: i128)
    requires
        -2_000_000_000_000 <= rel <= 2_000_000_000_000,
        -2_000_000_000 <= offset <= 2_000_000_000,
        -8_000_000_000_000_000_000_000 <= c <= 8_000_000_000_000_000_000_000,
        1 <= s <= 4_000_000_000_000_000_000,
        -1_000_000 <= e <= 1_000_000,
        -1_000_000 <= friction <= 1_000_000,
    ensures
        r == kick(rel as int, offset as int, c as int, s as int, e as int, friction as int),
        -40_000_000_000_000_000_000_000_000_000_000_000_000 <= r
            <= 40_000_000_000_000_000_000_000_000_000_000_000_000,
{
    let gain: i128 = SCALE as i128 + e;
    proof {
        lemma_mul_bound(offset as int, gain as int, 2_000_000_000, 1_001_000);
        lemma_mul_bound(
            offset * gain,
            c as int,
            2_002_000_000_000_000,
            8_000_000_000_000_000_000_000,
        );
        lemma_div_round_bound(
            -(offset * gain * c),
            2 * s * SCALE,
            16_016_000_000_000_000_000_000_000_000_000_000_000,
        );
        lemma_mul_bound(offset as int, c as int, 2_000_000_000, 8_000_000_000_000_000_000_000);
        lemma_div_round_bound(offset * c, s as int, 16_000_000_000_000_000_000_000_000_000_000);
    }
    let push: i128 = div_round_i128(-(offset * gain * c), 2 * s * SCALE as i128);
    let across: i128 = rel - div_round_i128(offset * c, s);
    proof {
        lemma_mul_bound(
            across as int,
            friction as int,
            16_000_000_000_000_000_002_000_000_000_000,
            1_000_000,
        );
        lemma_div_round_bound(
            across * friction,
            2 * SCALE,
            16_000_000_000_000_000_002_000_000_000_000_000_000,
        );
    }
    let lost: i128 = div_round_i128(across * friction as i128, 2 * SCALE as i128);
    push - lost
}

/// Holds two particles against each other.
pub fn collide(a: Particle, b: Particle, params: &Params) -> (r: (Particle, Particle))
    requires
        a.wf(),
        b.wf(),
        params.wf(),
    ensures
        r == collided(a, b, *params),
        r.0.wf(),
        r.1.wf(),
{
    let dx: i128 = a.position.x as i128 - b.position.x as i128;
    let dy: i128 = a.position.y as i128 - b.position.y as i128;
    let diameter: i128 = 2 * params.radius as i128;
    let least: i128 = params.min_separation as i128;
    proof {
        lemma_mul_bound(dx as int, dx as int, 2_000_000_000_000, 2_000_000_000_000);
        lemma_mul_bound(dy as int, dy as int, 2_000_000_000_000, 2_000_000_000_000);
        assert(dx * dx >= 0 && dy * dy >= 0) by (nonlinear_arith);
        lemma_mul_bound(diameter as int, diameter as int, 2_000_000_000, 2_000_000_000);
        lemma_mul_bound(
            least as int,
            least as int,
            0x8000_0000_0000_0000,
            0x8000_0000_0000_0000,
        );
    }
    let s: i128 = dx * dx + dy * dy;
    if s >= diameter * diameter || s < least * least || s == 0 {
        return (a, b);
    }
    let dist: u64 = isqrt_u64(s as u64);
    proof {
        lemma_square_below(dx as int, diameter as int);
        lemma_square_below(dy as int, diameter as int);
        lemma_square_below(dist as int, diameter as int);
    }
    let cx: i128 = correction_of(dx, dist, diameter);
    let cy: i128 = correction_of(dy, dist, diameter);
    let pa = Vec2 {
        x: saturate_i128(a.position.x as i128 + cx),
        y: saturate_i128(a.position.y as i128 + cy),
    };
    let pb = Vec2 {
        x: saturate_i128(b.position.x as i128 - cx),
        y: saturate_i128(b.position.y as i128 - cy),
    };
    let rx: i128 = a.velocity.x as i128 - b.velocity.x as i128;
    let ry: i128 = a.velocity.y as i128 - b.velocity.y as i128;
    proof {
        lemma_mul_bound(rx as int, dx as int, 2_000_000_000_000, 2_000_000_000);
        lemma_mul_bound(ry as int, dy as int, 2_000_000_000_000, 2_000_000_000);
    }
    let c: i128 = rx * dx + ry * dy;
    if c > 0 {
        return (
            Particle { position: pa, velocity: a.velocity },
            Particle { position: pb, velocity: b.velocity },
        );
    }
    let e: i128 = if is_resting(c, s, params.rest_speed) {
        0
    } else {
        params.restitution as i128
    };
    let kx: i128 = kick_of(rx, dx, c, s, e, params.friction);
    let ky: i128 = kick_of(ry, dy, c, s, e, params.friction);
    let va = Vec2 {
        x: saturate_i128(a.velocity.x as i128 + kx),
        y: saturate_i128(a.velocity.y as i128 + ky),
    };
    let vb = Vec2 {
        x: saturate_i128(b.velocity.x as i128 - kx),
        y: saturate_i128(b.velocity.y as i128 - ky),
    };
    (Particle { position: pa, velocity: va }, Particle { position: pb, velocity: vb })
}

/// The particles after particle `i` has been held against particle `j`. A
/// particle is never held against itself.
pub open spec fn pair_resolved(ps: Seq<Particle>, i: int, j: int, params: Params) -> Seq<Particle> {
    if i == j {
        ps
    } else {
        let r = collided(ps[i], ps[j], params);
        ps.update(i, r.0).update(j, r.1)
    }
}

/// The particles after particle `i` has been held against the first `n` of
/// `others`, one after the other.
pub open spec fn one_against(
    ps: Seq<Particle>,
    i: int,
    others: Seq<usize>,
    n: nat,
    params: Params,
) -> Seq<Particle>
    decreases n,
{
    if n == 0 {
        ps
    } else {
        pair_resolved(
            one_against(ps, i, others, (n - 1) as nat, params),
            i,
            others[n - 1] as int,
            params,
        )
    }
}

/// The particles after each of the first `n` of `firsts` has been held
/// against all of `others`.
pub open spec fn cell_against(
    ps: Seq<Particle>,
    firsts: Seq<usize>,
    others: Seq<usize>,
    n: nat,
    params: Params,
) -> Seq<Particle>
    decreases n,
{
    if n == 0 {
        ps
    } else {
        one_against(
            cell_against(ps, firsts, others, (n - 1) as nat, params),
            firsts[n - 1] as int,
            others,
            others.len(),
            params,
        )
    }
}

/// The particles after each of the first `n` of `list` has been held
/// against all that come after it in `list`: every pair of the list once.
pub open spec fn cell_within(ps: Seq<Particle>, list: Seq<usize>, n: nat, params: Params) -> Seq<
    Particle,
>
    decreases n,
{
    if n == 0 {
        ps
    } else {
        one_against(
            cell_within(ps, list, (n - 1) as nat, params),
            list[n - 1] as int,
            list.skip(n as int),
            list.skip(n as int).len(),
            params,
        )
    }
}

/// The particles after the cell `c` has been held against the cell `other`:
/// against itself pair by pair, against another cell each of its particles
/// against each of the other's.
pub open spec fn cells_resolved(
    ps: Seq<Particle>,
    grid: GridView,
    c: int,
    other: int,
    params: Params,
) -> Seq<Particle> {
    if other == c {
        cell_within(ps, grid.cells[c], grid.cells[c].len(), params)
    } else {
        cell_against(ps, grid.cells[c], grid.cells[other], grid.cells[c].len(), params)
    }
}

/// The particles after the cell `c` has been held against the first `n` of
/// the cells `near`.
pub open spec fn cell_visited(
    ps: Seq<Particle>,
    grid: GridView,
    c: int,
    near: Seq<usize>,
    n: nat,
    params: Params,
) -> Seq<Particle>
    decreases n,
{
    if n == 0 {
        ps
    } else {
        cells_resolved(
            cell_visited(ps, grid, c, near, (n - 1) as nat, params),
            grid,
            c,
            near[n - 1] as int,
            params,
        )
    }
}

/// The cells that are looked at from the cell of index `c`.
pub open spec fn near_cells(grid: GridView, c: int) -> Seq<usize> {
    grid.geometry.neighbors(c % (grid.geometry.cols as int), c / (grid.geometry.cols as int))
}

/// The particles after the first `n` cells of the grid, row by row, have
/// each been held against itself and its forward neighbours.
pub open spec fn swept(ps: Seq<Particle>, grid: GridView, n: nat, params: Params) -> Seq<Particle>
    decreases n,
{
    if n == 0 {
        ps
    } else {
        let before = swept(ps, grid, (n - 1) as nat, params);
        let near = near_cells(grid, n - 1);
        cell_visited(before, grid, n - 1, near, near.len(), params)
    }
}

/// The particles after one pass of collision resolution over the grid.
pub open spec fn resolved(ps: Seq<Particle>, grid: GridView, params: Params) -> Seq<Particle> {
    swept(ps, grid, grid.cells.len(), params)
}

/// Every index of `list` is below `n`.
pub open spec fn all_below(list: Seq<usize>, n: int) -> bool {
    forall|k: int| 0 <= k < list.len() ==> (#[trigger] list[k]) < n
}

/// Holds particle `i` against particle `j`.
pub fn resolve_pair(particles: &mut ParticleStore, i: usize, j: usize, params: &Params)
    requires
        old(particles).wf(),
        params.wf(),
        i < old(particles)@.len(),
        j < old(particles)@.len(),
    ensures
        final(particles).wf(),
        final(particles)@.len() == old(particles)@.len(),
        final(particles)@ == pair_resolved(old(particles)@, i as int, j as int, *params),
{
    if i == j {
        return ;
    }
    let r = collide(particles.get(i), particles.get(j), params);
    particles.set(i, r.0);
    particles.set(j, r.1);
}

/// Holds particle `i` against those of `others` from the place `from` on.
pub fn solve_one(
    particles: &mut ParticleStore,
    i: usize,
    others: &Vec<usize>,
    from: usize,
    params: &Params,
)
    requires
        old(particles).wf(),
        params.wf(),
        i < old(particles)@.len(),
        all_below(others@, old(particles)@.len() as int),
        from <= others@.len(),
    ensures
        final(particles).wf(),
        final(particles)@.len() == old(particles)@.len(),
        final(particles)@ == one_against(
            old(particles)@,
            i as int,
            others@.skip(from as int),
            others@.skip(from as int).len(),
            *params,
        ),
{
    let ghost rest = others@.skip(from as int);
    let mut k: usize = from;
    while k < others.len()
        invariant
            from <= k <= others@.len(),
            rest == others@.skip(from as int),
            particles.wf(),
            params.wf(),
            particles@.len() == old(particles)@.len(),
            i < particles@.len(),
            all_below(others@, particles@.len() as int),
            particles@ == one_against(old(particles)@, i as int, rest, (k - from) as nat, *params),
        decreases others@.len() - k,
    {
        assert(rest[k - from] == others@[k as int]);
        resolve_pair(particles, i, others[k], params);
        k += 1;
    }
}

/// Holds each particle of `idx_list_a` against each of `idx_list_b`.
pub fn solve_cell(
    idx_list_a: &Vec<usize>,
    idx_list_b: &Vec<usize>,
    particles: &mut ParticleStore,
    params: &Params,
)
    requires
        old(particles).wf(),
        params.wf(),
        all_below(idx_list_a@, old(particles)@.len() as int),
        all_below(idx_list_b@, old(particles)@.len() as int),
    ensures
        final(particles).wf(),
        final(particles)@.len() == old(particles)@.len(),
        final(particles)@ == cell_against(
            old(particles)@,
            idx_list_a@,
            idx_list_b@,
            idx_list_a@.len(),
            *params,
        ),
{
    let mut k: usize = 0;
    while k < idx_list_a.len()
        invariant
            k <= idx_list_a@.len(),
            particles.wf(),
            params.wf(),
            particles@.len() == old(particles)@.len(),
            all_below(idx_list_a@, particles@.len() as int),
            all_below(idx_list_b@, particles@.len() as int),
            particles@ == cell_against(old(particles)@, idx_list_a@, idx_list_b@, k as nat, *params),
        decreases idx_list_a@.len() - k,
    {
        assert(idx_list_b@.skip(0) == idx_list_b@);
        solve_one(particles, idx_list_a[k], idx_list_b, 0, params);
        k += 1;
    }
}

/// Holds each particle of `idx_list` against each that comes after it in
/// `idx_list`.
pub fn solve_within(idx_list: &Vec<usize>, particles: &mut ParticleStore, params: &Params)
    requires
        old(particles).wf(),
        params.wf(),
        all_below(idx_list@, old(particles)@.len() as int),
    ensures
        final(particles).wf(),
        final(particles)@.len() == old(particles)@.len(),
        final(particles)@ == cell_within(old(particles)@, idx_list@, idx_list@.len(), *params),
{
    let mut k: usize = 0;
    while k < idx_list.len()
        invariant
            k <= idx_list@.len(),
            particles.wf(),
            params.wf(),
            particles@.len() == old(particles)@.len(),
            all_below(idx_list@, particles@.len() as int),
            particles@ == cell_within(old(particles)@, idx_list@, k as nat, *params),
        decreases idx_list@.len() - k,
    {
        solve_one(particles, idx_list[k], idx_list, k + 1, params);
        k += 1;
    }
}

/// One pass of collision resolution: every cell of the grid, row by row, is
/// held against itself and its forward neighbours.
pub fn resolve_collisions_with_grid(particles: &mut ParticleStore, grid: &Grid, params: &Params)
    requires
        old(particles).wf(),
        params.wf(),
        grid.wf(),
        grid@.indices_below(old(particles)@.len() as int),
    ensures
        final(particles).wf(),
        final(particles)@.len() == old(particles)@.len(),
        final(particles)@ == resolved(old(particles)@, grid@, *params),
        all_apart(old(particles)@, *params) ==> final(particles)@ == old(particles)@,
{
    proof {
        if all_apart(particles@, *params) {
            lemma_resolved_apart_unchanged(particles@, grid@, *params);
        }
    }
    let geometry = grid.geometry();
    proof {
        lemma_dims_bounded(geometry);
    }
    let count: usize = geometry.cols * geometry.rows;
    let mut c: usize = 0;
    while c < count
        invariant
            c <= count,
            count == grid@.cells.len(),
            geometry == grid@.geometry,
            geometry.wf(),
            grid.wf(),
            particles.wf(),
            params.wf(),
            particles@.len() == old(particles)@.len(),
            grid@.indices_below(particles@.len() as int),
            particles@ == swept(old(particles)@, grid@, c as nat, *params),
        decreases count - c,
    {
        let near = geometry.neighbors_of_cell(c % geometry.cols, c / geometry.cols);
        let ghost before = particles@;
        let own = grid.cell(c);
        assert(all_below(own@, particles@.len() as int));
        let mut k: usize = 0;
        while k < near.len()
            invariant
                k <= near@.len(),
                c < count,
                count == grid@.cells.len(),
                near@ == near_cells(grid@, c as int),
                forall|m: int| 0 <= m < near@.len() ==> #[trigger] near@[m] < count,
                own@ == grid@.cells[c as int],
                grid.wf(),
                particles.wf(),
                params.wf(),
                particles@.len() == old(particles)@.len(),
                grid@.indices_below(particles@.len() as int),
                all_below(own@, particles@.len() as int),
                particles@ == cell_visited(before, grid@, c as int, near@, k as nat, *params),
            decreases near@.len() - k,
        {
            let other: usize = near[k];
            if other == c {
                solve_within(own, particles, params);
            } else {
                let theirs = grid.cell(other);
                assert(all_below(theirs@, particles@.len() as int));
                solve_cell(own, theirs, particles, params);
            }
            k += 1;
        }
        c += 1;
    }
}

/// Any two particles of `ps` are a diameter apart, or more.
pub open spec fn all_apart(ps: Seq<Particle>, params: Params) -> bool {
    forall|i: int, j: int|
        0 <= i < ps.len() && 0 <= j < ps.len() && i != j ==> dist_sq(
            #[trigger] ps[i].position,
            #[trigger] ps[j].position,
        ) >= (2 * params.radius) * (2 * params.radius)
}

proof fn lemma_pair_apart(ps: Seq<Particle>, i: int, j: int, params: Params)
    requires
        all_apart(ps, params),
        0 <= i < ps.len(),
        0 <= j < ps.len(),
    ensures
        pair_resolved(ps, i, j, params) == ps,
{
    if i != j {
        assert(dist_sq(ps[i].position, ps[j].position) >= (2 * params.radius) * (2
            * params.radius));
        assert(ps.update(i, ps[i]).update(j, ps[j]) =~= ps);
    }
}

proof fn lemma_one_against_apart(
    ps: Seq<Particle>,
    i: int,
    others: Seq<usize>,
    n: nat,
    params: Params,
)
    requires
        all_apart(ps, params),
        0 <= i < ps.len(),
        all_below(others, ps.len() as int),
        n <= others.len(),
    ensures
        one_against(ps, i, others, n, params) == ps,
    decreases n,
{
    if n > 0 {
        lemma_one_against_apart(ps, i, others, (n - 1) as nat, params);
        lemma_pair_apart(ps, i, others[n - 1] as int, params);
    }
}

proof fn lemma_cell_against_apart(
    ps: Seq<Particle>,
    firsts: Seq<usize>,
    others: Seq<usize>,
    n: nat,
    params: Params,
)
    requires
        all_apart(ps, params),
        all_below(firsts, ps.len() as int),
        all_below(others, ps.len() as int),
        n <= firsts.len(),
    ensures
        cell_against(ps, firsts, others, n, params) == ps,
    decreases n,
{
    if n > 0 {
        lemma_cell_against_apart(ps, firsts, others, (n - 1) as nat, params);
        lemma_one_against_apart(ps, firsts[n - 1] as int, others, others.len(), params);
    }
}

proof fn lemma_cell_within_apart(ps: Seq<Particle>, list: Seq<usize>, n: nat, params: Params)
    requires
        all_apart(ps, params),
        all_below(list, ps.len() as int),
        n <= list.len(),
    ensures
        cell_within(ps, list, n, params) == ps,
    decreases n,
{
    if n > 0 {
        lemma_cell_within_apart(ps, list, (n - 1) as nat, params);
        let rest = list.skip(n as int);
        assert forall|k: int| 0 <= k < rest.len() implies (#[trigger] rest[k]) < ps.len() by {
            assert(rest[k] == list[k + n]);
        }
        lemma_one_against_apart(ps, list[n - 1] as int, rest, rest.len(), params);
    }
}

proof fn lemma_cell_visited_apart(
    ps: Seq<Particle>,
    grid: GridView,
    c: int,
    near: Seq<usize>,
    n: nat,
    params: Params,
)
    requires
        all_apart(ps, params),
        grid.indices_below(ps.len() as int),
        0 <= c < grid.cells.len(),
        all_below(near, grid.cells.len() as int),
        n <= near.len(),
    ensures
        cell_visited(ps, grid, c, near, n, params) == ps,
    decreases n,
{
    if n > 0 {
        lemma_cell_visited_apart(ps, grid, c, near, (n - 1) as nat, params);
        let other = near[n - 1] as int;
        let own = grid.cells[c];
        let theirs = grid.cells[other];
        assert forall|k: int| 0 <= k < own.len() implies (#[trigger] own[k]) < ps.len() by {
            assert(grid.cells[c][k] < ps.len());
        }
        assert forall|k: int| 0 <= k < theirs.len() implies (#[trigger] theirs[k]) < ps.len() by {
            assert(grid.cells[other][k] < ps.len());
        }
        if other == c {
            lemma_cell_within_apart(ps, own, own.len(), params);
        } else {
            lemma_cell_against_apart(ps, own, theirs, own.len(), params);
        }
    }
}

proof fn lemma_swept_apart(ps: Seq<Particle>, grid: GridView, n: nat, params: Params)
    requires
        all_apart(ps, params),
        grid.geometry.wf(),
        grid.cells.len() == grid.geometry.cell_count(),
        grid.indices_below(ps.len() as int),
        n <= grid.cells.len(),
    ensures
        swept(ps, grid, n, params) == ps,
    decreases n,
{
    if n > 0 {
        lemma_swept_apart(ps, grid, (n - 1) as nat, params);
        let near = near_cells(grid, n - 1);
        let cols = grid.geometry.cols as int;
        lemma_neighbors_in_grid(grid.geometry, (n - 1) % cols, (n - 1) / cols);
        lemma_cell_visited_apart(ps, grid, n - 1, near, near.len(), params);
    }
}

/// A pass of collision resolution leaves particles of which any two are a
/// diameter apart, or more, as they are: every position and every
/// velocity.
pub proof fn lemma_resolved_apart_unchanged(ps: Seq<Particle>, grid: GridView, params: Params)
    requires
        all_apart(ps, params),
        grid.geometry.wf(),
        grid.cells.len() == grid.geometry.cell_count(),
        grid.indices_below(ps.len() as int),
    ensures
        resolved(ps, grid, params) == ps,
{
    lemma_swept_apart(ps, grid, grid.cells.len(), params);
}

} // verus!
