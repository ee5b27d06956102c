//! Particles and the store that owns them.

use vstd::prelude::*;
use crate::arith::{saturate, saturate_i128};
use crate::vector::Vec2;

verus! {

/// A point mass: where it is, in millionths of a unit, and how fast it
/// moves, in millionths of a unit per second.
#[derive(Clone, Copy, Debug, PartialEq, Eq, Structural)]
pub struct Particle {
    pub position: Vec2,
    pub velocity: Vec2,
}

impl Particle {
    /// Position and velocity are within range.
    pub open spec fn wf(self) -> bool {
        self.position.wf() && self.velocity.wf()
    }

    /// The particle with every component moved into range.
    pub open spec fn clamped(self) -> Particle {
        Particle { position: self.position.clamped(), velocity: self.velocity.clamped() }
    }

    /// Makes a particle, moving every component into range.
    pub fn new(position: Vec2, velocity: Vec2) -> (p: Particle)
        ensures
            p == (Particle { position, velocity }).clamped(),
            p.wf(),
    {
        Particle { position: position.saturated(), velocity: velocity.saturated() }
    }
}

/// Every particle of the sequence is within range.
pub open spec fn all_wf(ps: Seq<Particle>) -> bool {
    forall|i: int| 0 <= i < ps.len() ==> (#[trigger] ps[i]).wf()
}

/// The particles of a simulation. A particle is known by its index, which
/// never changes: the store has no insertion and no removal.
pub struct ParticleStore {
    particles: Vec<Particle>,
}

impl View for ParticleStore {
    type V = Seq<Particle>;

    closed spec fn view(&self) -> Seq<Particle> {
        self.particles@
    }
}

impl ParticleStore {
    /// Every particle is within range.
    pub open spec fn wf(&self) -> bool {
        all_wf(self@)
    }

    /// A store of the given particles, in their order, each moved into range.
    pub fn from_particles(particles: Vec<Particle>) -> (store: ParticleStore)
        ensures
            store.wf(),
            store@.len() == particles@.len(),
            forall|i: int| 0 <= i < particles@.len() ==> store@[i] == (#[trigger] particles@[i]).clamped(),
    {
        let mut out: Vec<Particle> = Vec::new();
        let mut i: usize = 0;
        while i < particles.len()
            invariant
                i <= particles@.len(),
                out@.len() == i,
                all_wf(out@),
                forall|k: int| 0 <= k < i ==> out@[k] == (#[trigger] particles@[k]).clamped(),
            decreases particles@.len() - i,
        {
            let p = particles[i];
            out.push(Particle::new(p.position, p.velocity));
            i += 1;
        }
        ParticleStore { particles: out }
    }

    /// The number of particles.
    pub fn len(&self) -> (n: usize)
        ensures
            n == self@.len(),
    {
        self.particles.len()
    }

    /// The particle at `index`.
    pub fn get(&self, index: usize) -> (p: Particle)
        requires
            index < self@.len(),
        ensures
            p == self@[index as int],
    {
        self.particles[index]
    }

    /// Replaces the particle at `index` by `p`, moved into range.
    pub fn set(&mut self, index: usize, p: Particle)
        requires
            index < old(self)@.len(),
        ensures
            final(self)@ == old(self)@.update(index as int, p.clamped()),
            old(self).wf() ==> final(self).wf(),
    {
        let q = Particle::new(p.position, p.velocity);
        self.particles[index] = q;
    }
}

/// Where the particle in column `i` and row `j` of a lattice stands:
/// columns go to the right of `origin`, rows go down from it.
pub open spec fn lattice_position(origin: Vec2, spacing: int, i: int, j: int) -> Vec2 {
    Vec2 {
        x: saturate(origin.x + i * spacing) as i64,
        y: saturate(origin.y - j * spacing) as i64,
    }
}

/// `v` is a value that a draw from `range` can give: a value from the
/// lower end of the range up to, and without, the upper end, whichever way
/// round the ends are given; the one value of a range whose ends are equal.
pub open spec fn drawn_from(v: int, range: (i64, i64)) -> bool {
    if range.0 == range.1 {
        v == range.0
    } else if range.0 < range.1 {
        range.0 <= v < range.1
    } else {
        range.1 <= v < range.0
    }
}

/// `v` is a velocity whose components were each drawn from `range`, moved
/// into range.
pub open spec fn velocity_drawn_from(v: Vec2, range: (i64, i64)) -> bool {
    exists|raw: Vec2|
        drawn_from(raw.x as int, range) && drawn_from(raw.y as int, range) && v
            == #[trigger] raw.clamped()
}

/// The velocity that `lattice` gives to the particle of index `k`: the
/// `k`-th of `velocities`, moved into range, and none where there is no
/// `k`-th.
pub open spec fn lattice_velocity(velocities: Seq<Vec2>, k: int) -> Vec2 {
    if 0 <= k < velocities.len() {
        velocities[k].clamped()
    } else {
        Vec2 { x: 0, y: 0 }
    }
}

/// The particle in column `i` and row `j` of a lattice, with the given
/// velocity moved into range.
pub fn lattice_particle(origin: Vec2, spacing: i64, i: u32, j: u32, velocity: Vec2) -> (p: Particle)
    ensures
        p.position == lattice_position(origin, spacing as int, i as int, j as int),
        p.velocity == velocity.clamped(),
        p.wf(),
{
    assert(-0x1_0000_0000 * 0x8000_0000_0000_0000 <= i * spacing <= 0x1_0000_0000
        * 0x8000_0000_0000_0000 && -0x1_0000_0000 * 0x8000_0000_0000_0000 <= j * spacing
        <= 0x1_0000_0000 * 0x8000_0000_0000_0000) by (nonlinear_arith)
        requires
            0 <= i < 0x1_0000_0000,
            0 <= j < 0x1_0000_0000,
            -0x8000_0000_0000_0000 <= spacing < 0x8000_0000_0000_0000,
    ;
    let x: i64 = saturate_i128(origin.x as i128 + i as i128 * spacing as i128);
    let y: i64 = saturate_i128(origin.y as i128 - j as i128 * spacing as i128);
    Particle { position: Vec2 { x, y }, velocity: velocity.saturated() }
}

/// Draws an integer with `nannou::rand::random_range`, which asks the
/// thread's random number generator for a value between the smaller and
/// the larger of its arguments. Nothing is claimed of the value but that it
/// is not below the smaller and is below the larger. The function fails on
/// equal arguments, which are left out.
#[verifier::external_body]
fn random_between(lo: i64, hi: i64) -> (r: i64)
    requires
        lo != hi,
    ensures
        lo < hi ==> lo <= r < hi,
        hi < lo ==> hi <= r < lo,
{
    nannou::rand::random_range(lo, hi)
}

/// Draws a value from `range`.
pub fn draw(range: (i64, i64)) -> (v: i64)
    ensures
        drawn_from(v as int, range),
{
    if range.0 == range.1 {
        range.0
    } else {
        random_between(range.0, range.1)
    }
}

/// A lattice of `count_x` columns and `count_y` rows, `spacing` apart,
/// column by column from `origin`, with the given velocities in that order.
pub fn lattice(
    count_x: u32,
    count_y: u32,
    spacing: i64,
    origin: Vec2,
    velocities: &Vec<Vec2>,
) -> (store: ParticleStore)
    ensures
        store.wf(),
        store@.len() == count_x * count_y,
        forall|k: int|
            0 <= k < store@.len() ==> #[trigger] store@[k] == (Particle {
                position: lattice_position(
                    origin,
                    spacing as int,
                    k / (count_y as int),
                    k % (count_y as int),
                ),
                velocity: lattice_velocity(velocities@, k),
            }),
{
    let mut out: Vec<Particle> = Vec::new();
    let mut i: u32 = 0;
    while i < count_x
        invariant
            i <= count_x,
            out@.len() == i * count_y,
            all_wf(out@),
            forall|k: int|
                0 <= k < out@.len() ==> #[trigger] out@[k] == (Particle {
                    position: lattice_position(
                        origin,
                        spacing as int,
                        k / (count_y as int),
                        k % (count_y as int),
                    ),
                    velocity: lattice_velocity(velocities@, k),
                }),
        decreases count_x - i,
    {
        let mut j: u32 = 0;
        while j < count_y
            invariant
                i < count_x,
                j <= count_y,
                out@.len() == i * count_y + j,
                all_wf(out@),
                forall|k: int|
                    0 <= k < out@.len() ==> #[trigger] out@[k] == (Particle {
                        position: lattice_position(
                            origin,
                            spacing as int,
                            k / (count_y as int),
                            k % (count_y as int),
                        ),
                        velocity: lattice_velocity(velocities@, k),
                    }),
            decreases count_y - j,
        {
            proof {
                lemma_lattice_index(i as int, j as int, count_y as int);
            }
            let k: usize = out.len();
            let velocity = if k < velocities.len() {
                velocities[k]
            } else {
                Vec2 { x: 0, y: 0 }
            };
            out.push(lattice_particle(origin, spacing, i, j, velocity));
            j += 1;
        }
        assert((i + 1) * count_y == i * count_y + count_y) by (nonlinear_arith);
        i += 1;
    }
    ParticleStore { particles: out }
}

/// Draws `count_x * count_y` velocities, each component from `range`.
fn draw_velocities(count_x: u32, count_y: u32, range: (i64, i64)) -> (velocities: Vec<Vec2>)
    ensures
        velocities@.len() == count_x * count_y,
        forall|k: int|
            0 <= k < velocities@.len() ==> drawn_from((#[trigger] velocities@[k]).x as int, range)
                && drawn_from(velocities@[k].y as int, range),
{
    assert(0 <= count_x * count_y <= 0xffff_ffff * 0xffff_ffff) by (nonlinear_arith)
        requires
            0 <= count_x <= 0xffff_ffff,
            0 <= count_y <= 0xffff_ffff,
    ;
    let count: u64 = count_x as u64 * count_y as u64;
    let mut velocities: Vec<Vec2> = Vec::new();
    let mut k: u64 = 0;
    while k < count
        invariant
            k <= count,
            velocities@.len() == k,
            forall|m: int|
                0 <= m < velocities@.len() ==> drawn_from(
                    (#[trigger] velocities@[m]).x as int,
                    range,
                ) && drawn_from(velocities@[m].y as int, range),
        decreases count - k,
    {
        let x: i64 = draw(range);
        let y: i64 = draw(range);
        velocities.push(Vec2 { x, y });
        k += 1;
    }
    velocities
}

/// A lattice of `count_x` columns and `count_y` rows, `spacing` apart,
/// column by column from `origin`, each particle with a velocity whose
/// components are drawn from `velocity_range`.
pub fn seed(
    count_x: u32,
    count_y: u32,
    spacing: i64,
    origin: Vec2,
    velocity_range: (i64, i64),
) -> (store: ParticleStore)
    ensures
        store.wf(),
        store@.len() == count_x * count_y,
        forall|k: int|
            0 <= k < store@.len() ==> (#[trigger] store@[k]).position == lattice_position(
                origin,
                spacing as int,
                k / (count_y as int),
                k % (count_y as int),
            ) && velocity_drawn_from(store@[k].velocity, velocity_range),
{
    let velocities = draw_velocities(count_x, count_y, velocity_range);
    let store = lattice(count_x, count_y, spacing, origin, &velocities);
    assert forall|k: int| 0 <= k < store@.len() implies velocity_drawn_from(
        (#[trigger] store@[k]).velocity,
        velocity_range,
    ) by {
        assert(store@[k].velocity == velocities@[k].clamped());
    }
    store
}

/// The particle in column `i` and row `j` of a lattice of `rows` rows has
/// the index `i * rows + j`.
pub proof fn lemma_lattice_index(i: int, j: int, rows: int)
    requires
        0 <= i,
        0 <= j < rows,
    ensures
        (i * rows + j) / rows == i,
        (i * rows + j) % rows == j,
{
    assert((i * rows + j) / rows == i && (i * rows + j) % rows == j) by (nonlinear_arith)
        requires
            0 <= i,
            0 <= j < rows,
    ;
}

} // verus!
